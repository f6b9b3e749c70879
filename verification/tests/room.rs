use metamoji::cloud::CloudSession;
use metamoji::collabo::apply::{Applied, Asset, Change, Direction};
use metamoji::collabo::booths::{add_page, booths_for};
use metamoji::collabo::fold::{fold, tally, RoomPull};
use metamoji::collabo::history::{survey, survey_decoded, RoomState};
use metamoji::collabo::login::{
    login_verdict, note_login, LoginAnswer, LoginSlot, LOGIN_LIMIT, TICK,
};
use metamoji::collabo::post::{
    author_of, build_all, build_posts, build_unit_posts, post_result, start_post, Batch, PostStart, Record,
};
use metamoji::collabo::pull::{
    aliases_of, conclude_fetch, finish_fetch, marks_of, pull_of, refused_pull, start_fetch,
    FetchStart, Replay, LIMIT, QUIET,
};
use metamoji::collabo::relay::{note_ack, post_command, AckTally, Posting, ACK_LIMIT};
use metamoji::collabo::send::{Author, Ledger, Pending, PendingUnit};
use metamoji::collabo::socket::{note_direction, CollaboEvent, Command, Received};
use metamoji::collabo::visit::{Action, Event, Outcome, Purpose, Relay, Visit};
use metamoji::collections::TextMap;
use metamoji::error::{AppError, AppResult};
use metamoji::model::{GenericModel, GenericTree};
use serde_json::Value;

const LAYER: &str = "P1_[layer-forUser]_9";

fn object(members: &[(&str, Value)]) -> Value {
    let mut map = serde_json::Map::new();
    for (name, value) in members {
        map.insert(name.to_string(), value.clone());
    }
    Value::Object(map)
}

fn page(id: &str, page_type: i64) -> GenericModel {
    GenericModel {
        id: id.into(),
        parent_id: Some("root".into()),
        model_type: "$page".into(),
        props: object(&[
            ("pageId", Value::from(id)),
            ("forSchoolPageType", Value::from(page_type)),
        ]),
        children: Vec::new(),
    }
}

// Booths.

#[test]
fn a_per_user_page_asks_for_this_users_own_layer() {
    let mut tree = GenericTree::new("root", "$sharenote");
    tree.insert(page("P1", 1));
    assert_eq!(
        booths_for(&tree, "42"),
        vec![
            "P1".to_string(),
            "P1_[layer-common]".to_string(),
            "P1_[layer-forUser]_42".to_string(),
        ]
    );
}

#[test]
fn a_class_wide_page_asks_for_the_shared_layer_instead() {
    let mut tree = GenericTree::new("root", "$sharenote");
    tree.insert(page("P1", 3));
    assert!(booths_for(&tree, "42").contains(&"P1_[layer-forClass]".to_string()));
    assert!(!booths_for(&tree, "42")
        .iter()
        .any(|b| b.contains("forUser")));
}

#[test]
fn an_ordinary_page_asks_only_for_itself_and_the_common_layer() {
    let mut tree = GenericTree::new("root", "$sharenote");
    tree.insert(page("P1", 0));
    assert_eq!(booths_for(&tree, "42").len(), 2);
}

#[test]
fn a_note_with_no_pages_asks_for_nothing() {
    let tree = GenericTree::new("root", "$sharenote");
    assert!(booths_for(&tree, "42").is_empty());
}

#[test]
fn booths_come_in_ascending_order_and_each_once() {
    let mut tree = GenericTree::new("root", "$sharenote");
    tree.insert(page("b", 2));
    tree.insert(page("é", 0));
    tree.insert(page("a", 3));
    let mut twin = page("b", 0);
    twin.id = "another model of the same page".into();
    tree.insert(twin);
    let booths = booths_for(&tree, "42");
    let mut sorted = booths.clone();
    sorted.sort();
    sorted.dedup();
    assert_eq!(booths, sorted);
    assert_eq!(
        booths,
        vec![
            "a".to_string(),
            "a_[layer-common]".to_string(),
            "a_[layer-forClass]".to_string(),
            "b".to_string(),
            "b_[layer-common]".to_string(),
            "é".to_string(),
            "é_[layer-common]".to_string(),
        ]
    );
}

#[test]
fn the_order_of_models_makes_no_difference_to_the_booths() {
    let mut one = GenericTree::new("root", "$sharenote");
    one.insert(page("P1", 1));
    one.insert(page("P2", 3));
    let mut other = GenericTree::new("root", "$sharenote");
    other.insert(page("P2", 3));
    other.insert(page("P1", 1));
    assert_eq!(booths_for(&one, "42"), booths_for(&other, "42"));
}

#[test]
fn a_note_without_per_user_pages_asks_the_same_for_everybody() {
    let mut tree = GenericTree::new("root", "$sharenote");
    tree.insert(page("P1", 3));
    tree.insert(page("P2", 0));
    assert_eq!(booths_for(&tree, "42"), booths_for(&tree, "43"));
}

#[test]
fn a_page_puts_its_booths_among_the_others() {
    let mut list: Vec<String> = vec!["P0".into(), "P1_[layer-common]".into(), "P2".into()];
    add_page(&mut list, "P1", 1, "42");
    assert_eq!(
        list,
        vec!["P0", "P1", "P1_[layer-common]", "P1_[layer-forUser]_42", "P2"]
    );
    add_page(&mut list, "P2", 3, "42");
    add_page(&mut list, "P3", 2, "42");
    assert_eq!(
        list,
        vec![
            "P0",
            "P1",
            "P1_[layer-common]",
            "P1_[layer-forUser]_42",
            "P2",
            "P2_[layer-common]",
            "P2_[layer-forClass]",
            "P3",
            "P3_[layer-common]",
        ]
    );
}

#[test]
fn a_page_without_a_usable_id_is_passed_over() {
    let mut tree = GenericTree::new("root", "$sharenote");
    let mut nameless = page("P1", 1);
    nameless.props = object(&[("pageId", Value::from(7))]);
    tree.insert(nameless);
    let mut layer = page("P2", 1);
    layer.model_type = "$layer".into();
    tree.insert(layer);
    let mut listed = page("P3", 1);
    listed.props = Value::Array(vec![Value::from("pageId")]);
    tree.insert(listed);
    assert!(booths_for(&tree, "42").is_empty());
}

#[test]
fn a_page_type_that_is_no_integer_counts_as_none() {
    let mut tree = GenericTree::new("root", "$sharenote");
    let mut odd = page("P1", 1);
    odd.props = object(&[
        ("pageId", Value::from("P1")),
        ("forSchoolPageType", Value::from("1")),
    ]);
    tree.insert(odd);
    assert_eq!(booths_for(&tree, "42").len(), 2);
}

#[test]
fn a_model_takes_the_place_of_the_one_under_its_id() {
    let mut tree = GenericTree::new("root", "$sharenote");
    tree.insert(page("P1", 1));
    tree.insert(page("P1", 3));
    assert_eq!(tree.models().len(), 2);
    assert!(booths_for(&tree, "42").contains(&"P1_[layer-forClass]".to_string()));
    assert_eq!(tree.models()[0].props, object(&[]));
}

// Folding.

/// A direction as these tests write one: `+id` adds a stroke, `-id` erases an element,
/// `?kind` is a kind that is not applied, `!ticket` brings an asset; anything else will
/// not decode.
fn decode(payload: &Vec<u8>) -> Option<Direction<String>> {
    let text = String::from_utf8(payload.clone()).ok()?;
    let mut changes = Vec::new();
    for word in text.split(' ') {
        let rest = word.get(1..)?.to_string();
        changes.push(match word.chars().next()? {
            '+' => Change::Stroke {
                id: rest,
                content: String::new(),
            },
            '-' => Change::Remove { id: rest },
            '?' | '!' => Change::Other(word.to_string()),
            _ => return None,
        });
    }
    Some(Direction { changes })
}

fn nothing_applied() -> Applied {
    Applied {
        units: 0,
        strokes: 0,
        removed: 0,
        stroke_ids: Vec::new(),
        assets: Vec::new(),
        unsupported: Vec::new(),
    }
}

fn apply(
    tree: GenericTree,
    booth: &String,
    direction: &Direction<String>,
    aliases: &TextMap,
) -> (GenericTree, Applied) {
    let mut tree = tree;
    let mut applied = nothing_applied();
    for change in &direction.changes {
        match change {
            Change::Stroke { id, .. } => {
                let name = aliases.get(id).cloned().unwrap_or(id.clone());
                let mut model = page(&name, 0);
                model.model_type = "$stroke".into();
                tree.insert(model);
                applied.strokes += 1;
                applied.stroke_ids.push((name, booth.clone()));
            }
            Change::Remove { .. } => applied.removed += 1,
            Change::Other(word) => {
                if let Some(kind) = word.strip_prefix('?') {
                    applied.unsupported.push(kind.to_string());
                } else {
                    applied.units += 1;
                    applied
                        .assets
                        .push((word[1..].to_string(), "image/png".to_string(), vec![1]));
                }
            }
        }
    }
    (tree, applied)
}

fn direction(booth: &str, sequence: i64, words: &str) -> Received {
    (booth.to_string(), sequence, words.as_bytes().to_vec())
}

#[test]
fn a_direction_that_will_not_decode_is_counted_rather_than_fatal() {
    let tree = GenericTree::new("root", "$sharenote");
    let (_, pull, assets) = fold(
        tree,
        &vec![("P1".into(), 1, b"not a container".to_vec())],
        &TextMap::new(),
        &decode,
        &apply,
    )
    .unwrap();
    assert_eq!(pull.directions, 1);
    assert_eq!(pull.units, 0);
    assert!(assets.is_empty());
    assert_eq!(
        pull.unsupported,
        vec!["読み取れない Direction x1".to_string()]
    );
}

#[test]
fn directions_are_applied_in_the_order_they_came_back() {
    let tree = GenericTree::new("root", "$sharenote");
    let mut aliases = TextMap::new();
    aliases.insert("a".into(), "local-a".into());
    let (tree, pull, assets): (GenericTree, RoomPull, Vec<Asset>) = fold(
        tree,
        &vec![
            direction("P1", 1, "+a ?Z ?A"),
            direction("P2", 2, "not one"),
            direction("P2", 3, "+b -a ?Z !t1"),
            direction("P2", 4, "!t2 not"),
            direction("P2", 5, "!t3"),
        ],
        &aliases,
        &decode,
        &apply,
    )
    .unwrap();
    assert_eq!(pull.directions, 5);
    assert_eq!(pull.strokes, 2);
    assert_eq!(pull.removed, 1);
    assert_eq!(pull.units, 2);
    assert_eq!(pull.assets, 2);
    assert_eq!(
        pull.stroke_ids,
        vec![
            ("local-a".to_string(), "P1".to_string()),
            ("b".to_string(), "P2".to_string()),
        ]
    );
    assert_eq!(
        pull.unsupported,
        vec![
            "A x1".to_string(),
            "Z x2".to_string(),
            "読み取れない Direction x2".to_string(),
        ]
    );
    assert_eq!(assets[0].0, "t1");
    assert_eq!(assets[1].0, "t3");
    assert_eq!(
        tree.models()
            .iter()
            .map(|m| m.id.as_str())
            .collect::<Vec<_>>(),
        vec!["root", "local-a", "b"]
    );
    assert!(pull.marks.is_empty() && pull.history.is_empty() && pull.error.is_none());
}

#[test]
fn counts_past_ten_are_written_in_decimal() {
    let outcomes = (0..120).map(|_| None).collect::<Vec<Option<Applied>>>();
    let (pull, _) = tally(outcomes).unwrap();
    assert_eq!(
        pull.unsupported,
        vec!["読み取れない Direction x120".to_string()]
    );
}

#[test]
fn counts_that_no_longer_fit_are_no_result() {
    let mut first = nothing_applied();
    first.units = usize::MAX;
    let mut second = nothing_applied();
    second.units = 1;
    assert!(tally(vec![Some(first), Some(second)]).is_none());
    let mut only = nothing_applied();
    only.units = usize::MAX;
    let (pull, _) = tally(vec![Some(only), None]).unwrap();
    assert_eq!(pull.units, usize::MAX);
}

fn some_applied(units: usize, id: &str, kind: &str) -> Applied {
    Applied {
        units,
        strokes: 1,
        removed: 2,
        stroke_ids: vec![(id.to_string(), "P1".to_string())],
        assets: vec![(id.to_string(), "image/png".to_string(), vec![])],
        unsupported: vec![kind.to_string()],
    }
}

#[test]
fn two_parts_of_a_history_amount_to_the_whole() {
    let (first, first_assets) = tally(vec![Some(some_applied(3, "a", "K")), None]).unwrap();
    let (second, second_assets) = tally(vec![Some(some_applied(4, "b", "K"))]).unwrap();
    let (whole, assets) = tally(vec![
        Some(some_applied(3, "a", "K")),
        None,
        Some(some_applied(4, "b", "K")),
    ])
    .unwrap();
    assert_eq!(whole.units, first.units + second.units);
    assert_eq!(whole.strokes, first.strokes + second.strokes);
    assert_eq!(whole.removed, first.removed + second.removed);
    assert_eq!(
        whole.stroke_ids,
        [first.stroke_ids, second.stroke_ids].concat()
    );
    assert_eq!(assets, [first_assets, second_assets].concat());
    assert_eq!(whole.assets, 2);
    assert_eq!(
        whole.unsupported,
        vec!["K x2".to_string(), "読み取れない Direction x1".to_string()]
    );
}

fn ids_of(tree: &GenericTree) -> Vec<String> {
    tree.models().iter().map(|m| m.id.clone()).collect()
}

#[test]
fn a_history_folds_in_two_parts_as_it_does_at_once() {
    let first = vec![direction("P1", 1, "+a ?K !t"), direction("P1", 2, "garbage")];
    let second = vec![direction("P2", 1, "+b -a ?K"), direction("P2", 2, "+a !u")];
    let all = [first.clone(), second.clone()].concat();
    let aliases = TextMap::new();
    let new_tree = || GenericTree::new("root", "$sharenote");

    let (once, whole, assets) = fold(new_tree(), &all, &aliases, &decode, &apply).unwrap();
    let (middle, pa, sa) = fold(new_tree(), &first, &aliases, &decode, &apply).unwrap();
    let (twice, pb, sb) = fold(middle, &second, &aliases, &decode, &apply).unwrap();

    assert_eq!(ids_of(&once), vec!["root", "a", "b"]);
    assert_eq!(ids_of(&once), ids_of(&twice));
    assert_eq!(assets, [sa, sb].concat());
    assert_eq!(whole.directions, pa.directions + pb.directions);
    assert_eq!(whole.units, pa.units + pb.units);
    assert_eq!(whole.strokes, pa.strokes + pb.strokes);
    assert_eq!(whole.removed, pa.removed + pb.removed);
    assert_eq!(whole.assets, pa.assets + pb.assets);
    assert_eq!(whole.stroke_ids, [pa.stroke_ids, pb.stroke_ids].concat());
    assert_eq!(
        whole.unsupported,
        vec!["K x2".to_string(), "読み取れない Direction x1".to_string()]
    );
}

// Surveying.

fn add(element_id: &str) -> Received {
    direction("b", 1, &format!("+{element_id}"))
}

fn remove(element_id: &str) -> Received {
    direction("b", 1, &format!("-{element_id}"))
}

#[test]
fn what_the_room_holds_is_what_was_added_and_not_taken_back() {
    let state = survey(&vec![add("a"), add("b"), remove("a")], &decode);
    assert!(state.holds("b"));
    assert!(!state.holds("a"), "erased");
    assert!(!state.holds("c"), "never there");
}

#[test]
fn an_element_it_never_saw_is_told_apart_from_one_it_dropped() {
    let state = survey(&vec![add("a"), remove("a")], &decode);
    assert!(state.added.contains("a"), "the room saw this one");
    assert!(!state.added.contains("z"), "and never saw this one");
}

#[test]
fn an_empty_room_holds_nothing() {
    let state = survey(&vec![], &decode);
    assert!(state.added.is_empty());
    assert!(!state.holds("a"));
}

#[test]
fn a_removal_counts_whichever_came_first() {
    let state = survey(&vec![remove("a"), add("a"), add("b")], &decode);
    assert!(!state.holds("a"));
    assert!(state.holds("b"));
    assert!(state.added.contains("a") && state.removed.contains("a"));
    assert!(!state.removed.contains("b"));
}

#[test]
fn an_unreadable_direction_is_passed_over_by_a_survey() {
    let state = survey(
        &vec![direction("b", 1, "not one"), add("a"), direction("b", 2, "?kind")],
        &decode,
    );
    assert!(state.holds("a"));
    assert!(!state.added.contains("kind"));
    assert!(state.removed.is_empty());
}

#[test]
fn a_history_of_two_parts_is_surveyed_as_one() {
    let first = vec![decode(&b"+a +b".to_vec())];
    let second = vec![decode(&b"-a".to_vec()), None];
    let a: RoomState = survey_decoded(&first);
    let b = survey_decoded(&second);
    let both = survey_decoded(&vec![
        decode(&b"+a +b".to_vec()),
        decode(&b"-a".to_vec()),
        None,
    ]);
    for id in ["a", "b", "c"] {
        assert_eq!(
            both.added.contains(id),
            a.added.contains(id) || b.added.contains(id)
        );
        assert_eq!(
            both.removed.contains(id),
            a.removed.contains(id) || b.removed.contains(id)
        );
    }
}

// Posting.

fn batch(name: &str, frames: usize) -> Batch {
    Batch {
        frames: (0..frames)
            .map(|i| (LAYER.to_string(), vec![i as u8]))
            .collect(),
        record: Record::Stroke {
            stroke_id: name.into(),
            element_id: format!("el {name}"),
            layer_id: LAYER.into(),
        },
    }
}

fn stroke_ids(records: &[Record]) -> Vec<&str> {
    records
        .iter()
        .filter_map(|r| match r {
            Record::Stroke { stroke_id, .. } => Some(stroke_id.as_str()),
            _ => None,
        })
        .collect()
}

/// Posts down a socket that takes `room` frames, on a connection that already has
/// `earlier` answers, and has the relay answer with `answers`.
fn post_within(
    batches: Vec<Batch>,
    room: usize,
    earlier: Vec<bool>,
    answers: Vec<bool>,
) -> (Vec<Record>, usize) {
    let mut tally: AckTally = earlier;
    let mut posting = Posting::new(batches, tally.len());
    let mut sent = 0;
    while let Some(command) = posting.next() {
        assert!(matches!(command, Command::PostData { .. }));
        let taken = sent < room;
        if taken {
            sent += 1;
        }
        posting.report(taken);
    }
    for ok in answers {
        note_ack(&mut tally, &CollaboEvent::PostAck { ok });
    }
    assert!(posting.settled(tally.len(), ACK_LIMIT, ACK_LIMIT));
    (posting.confirmed(&tally), sent)
}

#[test]
fn only_what_the_relay_answered_is_reported_as_sent() {
    let batches = vec![batch("a", 1), batch("b", 1), batch("c", 1)];
    let (confirmed, _) = post_within(batches, 64, vec![], vec![true, true]);
    assert_eq!(stroke_ids(&confirmed), vec!["a", "b"], "c went unanswered");
}

#[test]
fn a_post_the_relay_refused_is_not_reported_as_sent() {
    let batches = vec![batch("a", 1), batch("b", 1), batch("c", 1)];
    let (confirmed, _) = post_within(batches, 64, vec![], vec![true, false, true]);
    assert_eq!(stroke_ids(&confirmed), vec!["a", "c"], "only b was refused");
}

#[test]
fn both_halves_of_a_rasterised_unit_have_to_land() {
    let batches = vec![batch("picture", 2)];
    let (confirmed, _) = post_within(batches, 64, vec![], vec![true]);
    assert!(confirmed.is_empty());
}

#[test]
fn another_posters_answers_are_not_mistaken_for_ours() {
    let batches = vec![batch("a", 1)];
    let (confirmed, _) = post_within(batches, 64, vec![false, false, true], vec![true]);
    assert_eq!(stroke_ids(&confirmed), vec!["a"]);
}

#[test]
fn and_neither_are_the_refusals_that_were_already_there() {
    let batches = vec![batch("a", 1)];
    let (confirmed, _) = post_within(batches, 64, vec![true, true], vec![false]);
    assert!(confirmed.is_empty(), "ours is the one that was refused");
}

#[test]
fn a_socket_that_is_gone_swallows_nothing() {
    let batches = vec![batch("a", 1), batch("b", 1)];
    let (confirmed, sent) = post_within(batches, 0, vec![], vec![true, true]);
    assert!(confirmed.is_empty());
    assert_eq!(sent, 0);
}

#[test]
fn posting_stops_at_the_first_frame_the_socket_will_not_take() {
    let batches = vec![
        batch("a", 1),
        batch("b", 2),
        batch("empty", 0),
        batch("c", 1),
    ];
    let (confirmed, sent) = post_within(batches, 2, vec![], vec![true, true, true, true]);
    assert_eq!(sent, 2);
    assert_eq!(stroke_ids(&confirmed), vec!["a"]);
    let batches = vec![
        batch("a", 1),
        batch("b", 2),
        batch("empty", 0),
        batch("c", 1),
    ];
    let (confirmed, _) = post_within(batches, 3, vec![], vec![true, true, true, true]);
    assert_eq!(stroke_ids(&confirmed), vec!["a", "b", "empty"]);
}

#[test]
fn batches_without_a_frame_are_not_confirmed_by_nothing() {
    let (confirmed, _) = post_within(vec![batch("empty", 0)], 64, vec![], vec![]);
    assert!(confirmed.is_empty());
}

#[test]
fn frames_go_out_in_order_as_they_were_built() {
    let mut posting = Posting::new(vec![batch("a", 1), batch("b", 2)], 7);
    let mut payloads = Vec::new();
    while let Some(command) = posting.next() {
        match command {
            Command::PostData {
                booth_id,
                payload,
                send_back,
                save,
                rip_off_size,
            } => {
                assert_eq!(booth_id, LAYER);
                assert!(!send_back);
                assert!(save);
                assert_eq!(rip_off_size, "0");
                payloads.push(payload);
            }
            other => panic!("{other:?}"),
        }
        posting.report(true);
    }
    assert_eq!(payloads, vec![vec![0], vec![0], vec![1]]);
    assert!(!posting.settled(9, 0, ACK_LIMIT));
    assert!(posting.settled(10, 0, ACK_LIMIT));
    assert!(!posting.settled(9, ACK_LIMIT - 1, ACK_LIMIT));
    assert_eq!(ACK_LIMIT, 10_000_000_000);
}

#[test]
fn a_clean_run_confirms_everything_in_order() {
    let batches = vec![batch("a", 1), batch("b", 2), batch("c", 1)];
    let (confirmed, _) = post_within(batches, 64, vec![false], vec![true, true, true, true]);
    assert_eq!(stroke_ids(&confirmed), vec!["a", "b", "c"]);
}

#[test]
fn later_answers_only_ever_confirm_more() {
    let mut posting = Posting::new(vec![batch("a", 1), batch("b", 1)], 0);
    posting.report(true);
    posting.report(true);
    assert!(stroke_ids(&posting.confirmed(&vec![])).is_empty());
    assert_eq!(stroke_ids(&posting.confirmed(&vec![true])), vec!["a"]);
    assert_eq!(
        stroke_ids(&posting.confirmed(&vec![true, false, false])),
        vec!["a"]
    );
    assert_eq!(
        stroke_ids(&posting.confirmed(&vec![true, true, false])),
        vec!["a", "b"]
    );
}

#[test]
fn an_event_that_is_no_answer_leaves_the_tally_alone() {
    let mut tally: AckTally = vec![true];
    note_ack(&mut tally, &CollaboEvent::Other);
    note_ack(&mut tally, &CollaboEvent::PostAck { ok: false });
    assert_eq!(tally, vec![true, false]);
}

#[test]
fn a_frame_is_kept_and_not_sent_back() {
    assert_eq!(
        post_command("P1", vec![1, 2]),
        Command::PostData {
            booth_id: "P1".into(),
            payload: vec![1, 2],
            send_back: false,
            save: true,
            rip_off_size: "0".into(),
        }
    );
}

// Building.

fn author() -> Author {
    Author {
        user_id: "1".into(),
        name: "田中 博悠".into(),
        company_id: "2".into(),
        room_id: "3".into(),
        room_user_id: "4".into(),
    }
}

fn pending(id: &str) -> Pending {
    Pending {
        stroke_id: id.into(),
        layer_id: LAYER.into(),
        stroke: object(&[
            ("id", Value::from(id)),
            (
                "points",
                object(&[(
                    "$points",
                    Value::from(vec![1.0, 2.0, 0.5, 0.0, 3.0, 4.0, 0.5, 8.0]),
                )]),
            ),
            ("color", Value::from("#000000")),
            ("width", Value::from(2.0)),
        ]),
    }
}

fn row(stroke_id: &str, element_id: &str) -> Ledger {
    Ledger {
        stroke_id: stroke_id.into(),
        element_id: element_id.into(),
        layer_id: LAYER.into(),
    }
}

/// Writes a stroke's own id, and draws the next number for the room's.
fn encode_stroke(
    stroke: &Value,
    layer_id: &String,
    ids: u32,
    author: &Author,
) -> (u32, AppResult<(Vec<u8>, String)>) {
    match stroke.get("id").and_then(Value::as_str) {
        Some(id) => (
            ids + 1,
            Ok((
                format!("{id}@{layer_id}").into_bytes(),
                format!("{} {ids}", author.room_user_id),
            )),
        ),
        None => (ids, Err(AppError::other("no id".to_string()))),
    }
}

fn encode_removal(
    element_id: &String,
    layer_id: &String,
    ids: u32,
) -> (u32, AppResult<Vec<u8>>) {
    if element_id.is_empty() {
        return (ids, Err(AppError::other("no element".to_string())));
    }
    (
        ids + 1,
        Ok(format!("{ids}:{element_id}@{layer_id}").into_bytes()),
    )
}

struct Image {
    ticket: String,
    mime: String,
    bytes: Vec<u8>,
    x: f64,
    y: f64,
    width: f64,
    height: f64,
}

fn encode_image(
    unit: &PendingUnit<Image>,
    ids: u32,
    _author: &Author,
) -> (u32, AppResult<(Vec<Vec<u8>>, String)>) {
    let image = &unit.content;
    if image.mime != "image/png" {
        return (ids, Err(AppError::other(image.mime.clone())));
    }
    let place = format!(
        "{} {} {} {} {}",
        image.ticket, image.x, image.y, image.width, image.height
    );
    (
        ids + 1,
        Ok((
            vec![image.bytes.clone(), place.into_bytes()],
            format!("unit {ids}"),
        )),
    )
}

fn image(unit_id: &str, mime: &str) -> PendingUnit<Image> {
    PendingUnit {
        unit_id: unit_id.into(),
        layer_id: LAYER.into(),
        content: Image {
            ticket: "tkt-1".into(),
            mime: mime.into(),
            bytes: vec![1, 2, 3],
            x: 0.0,
            y: 0.0,
            width: 10.0,
            height: 10.0,
        },
    }
}

#[test]
fn a_stroke_is_one_batch_keyed_by_the_notes_own_id() {
    let batches = build_posts(
        &vec![pending("local-1")],
        &vec![],
        &author(),
        0u32,
        &encode_stroke,
        &encode_removal,
    )
    .unwrap();
    assert_eq!(batches.len(), 1);
    assert_eq!(batches[0].frames.len(), 1);
    match &batches[0].record {
        Record::Stroke {
            stroke_id,
            element_id,
            layer_id,
        } => {
            assert_eq!(stroke_id, "local-1");
            assert!(element_id.contains(' '), "{element_id}");
            assert_eq!(layer_id, "P1_[layer-forUser]_9");
        }
        other => panic!("{other:?}"),
    }
}

#[test]
fn an_erasure_carries_the_row_to_drop() {
    let removal = Ledger {
        stroke_id: "local-1".into(),
        element_id: "el 1".into(),
        layer_id: "P1_[layer-forUser]_9".into(),
    };
    let batches = build_posts(
        &vec![],
        &vec![removal],
        &author(),
        0u32,
        &encode_stroke,
        &encode_removal,
    )
    .unwrap();
    assert_eq!(
        batches[0].record,
        Record::Erased {
            stroke_id: "local-1".into()
        }
    );
}

#[test]
fn a_rasterised_unit_is_one_batch_of_two_frames() {
    let unit = PendingUnit {
        unit_id: "shape-1".into(),
        layer_id: "P1_[layer-forUser]_9".into(),
        content: Image {
            ticket: "tkt-1".into(),
            mime: "image/png".into(),
            bytes: vec![1, 2, 3],
            x: 0.0,
            y: 0.0,
            width: 10.0,
            height: 10.0,
        },
    };
    let batches = build_unit_posts(&vec![unit], &author(), 0u32, &encode_image).unwrap();
    assert_eq!(batches.len(), 1);
    assert_eq!(batches[0].frames.len(), 2);
    match &batches[0].record {
        Record::Unit { unit_id, .. } => assert_eq!(unit_id, "shape-1"),
        other => panic!("{other:?}"),
    }
}

#[test]
fn strokes_come_before_removals_and_draw_from_one_generator() {
    let batches = build_posts(
        &vec![pending("a"), pending("b")],
        &vec![row("c", "el c")],
        &author(),
        5u32,
        &encode_stroke,
        &encode_removal,
    )
    .unwrap();
    assert_eq!(batches.len(), 3);
    assert_eq!(
        batches[0].frames,
        vec![(LAYER.to_string(), format!("a@{LAYER}").into_bytes())]
    );
    assert_eq!(
        batches[1].record,
        Record::Stroke {
            stroke_id: "b".into(),
            element_id: "4 6".into(),
            layer_id: LAYER.into(),
        }
    );
    assert_eq!(
        batches[2].frames,
        vec![(LAYER.to_string(), format!("7:el c@{LAYER}").into_bytes())]
    );
}

#[test]
fn the_first_error_is_the_end_of_building() {
    let mut broken = pending("a");
    broken.stroke = Value::Null;
    let error = build_posts(
        &vec![pending("a"), broken],
        &vec![row("c", "")],
        &author(),
        0u32,
        &encode_stroke,
        &encode_removal,
    )
    .unwrap_err();
    assert_eq!(error.to_string(), "no id");
    let error = build_posts(
        &vec![pending("a")],
        &vec![row("b", "el b"), row("c", "")],
        &author(),
        0u32,
        &encode_stroke,
        &encode_removal,
    )
    .unwrap_err();
    assert_eq!(error.to_string(), "no element");
    let error = build_unit_posts(
        &vec![image("a", "image/png"), image("b", "image/gif")],
        &author(),
        0u32,
        &encode_image,
    )
    .unwrap_err();
    assert_eq!(error.to_string(), "image/gif");
}

fn session() -> CloudSession {
    CloudSession {
        user_id: "42".into(),
        name: "student01".into(),
        company_id: None,
    }
}

#[test]
fn the_stamp_carries_the_account_and_the_room() {
    let mut account = session();
    let stamp = author_of(&account, "room-1", "7".to_string());
    assert_eq!(stamp.user_id, "42");
    assert_eq!(stamp.name, "student01");
    assert_eq!(stamp.company_id, "");
    assert_eq!(stamp.room_id, "room-1");
    assert_eq!(stamp.room_user_id, "7");
    account.company_id = Some("c-1".into());
    assert_eq!(
        author_of(&account, "room-1", String::new()).company_id,
        "c-1"
    );
}

#[test]
fn everything_is_built_in_one_go_with_units_last() {
    let batches = build_all(
        &session(),
        "room-1",
        Some("9".to_string()),
        &vec![pending("a")],
        &vec![row("b", "el b")],
        &vec![image("shape-1", "image/png")],
        0u32,
        100u32,
        &encode_stroke,
        &encode_removal,
        &encode_image,
    )
    .unwrap();
    assert_eq!(batches.len(), 3);
    assert_eq!(
        batches[0].record,
        Record::Stroke {
            stroke_id: "a".into(),
            element_id: "9 0".into(),
            layer_id: LAYER.into(),
        }
    );
    assert_eq!(
        batches[2].record,
        Record::Unit {
            unit_id: "shape-1".into(),
            element_id: "unit 100".into(),
            layer_id: LAYER.into(),
        }
    );
}

// Logging in.

fn logged_in(ok: bool, message: Option<&str>, user_id: Option<&str>) -> CollaboEvent {
    CollaboEvent::LoggedIn {
        ok,
        message: message.map(str::to_string),
        room_type: None,
        user_id: user_id.map(str::to_string),
        roles: Vec::new(),
    }
}

#[test]
fn the_room_saying_who_we_are_is_what_is_waited_for() {
    let mut slot: LoginSlot = Default::default();
    note_login(&mut slot, &logged_in(true, None, Some("1786500056276")));
    assert_eq!(
        login_verdict(&slot, 0).unwrap().unwrap(),
        Some("1786500056276".into())
    );
}

#[test]
fn a_refused_login_is_an_error_rather_than_a_silent_success() {
    let mut slot: LoginSlot = Default::default();
    note_login(&mut slot, &logged_in(false, Some("bad user"), None));
    let err = login_verdict(&slot, 0).unwrap().unwrap_err().to_string();
    assert!(err.contains("bad user"), "{err}");
    assert_eq!(err, "教室に入れませんでした: bad user");
    note_login(&mut slot, &logged_in(false, None, None));
    let err = login_verdict(&slot, 0).unwrap().unwrap_err().to_string();
    assert_eq!(err, "教室に入れませんでした");
}

#[test]
fn an_unanswered_login_is_given_up_at_the_limit() {
    let slot: LoginSlot = None;
    assert_eq!(LOGIN_LIMIT, 10_000_000_000);
    assert_eq!(TICK, 50_000_000);
    assert!(login_verdict(&slot, LOGIN_LIMIT - 1).is_none());
    assert_eq!(
        login_verdict(&slot, LOGIN_LIMIT)
            .unwrap()
            .unwrap_err()
            .to_string(),
        "教室サーバーから応答がありません"
    );
    let late: LoginSlot = Some(LoginAnswer::Accepted { room_user_id: None });
    assert_eq!(
        login_verdict(&late, LOGIN_LIMIT + 1).unwrap().unwrap(),
        None
    );
}

#[test]
fn what_follows_an_answer_leaves_it_where_it_is() {
    let mut slot: LoginSlot = None;
    note_login(&mut slot, &logged_in(false, None, None));
    note_login(&mut slot, &logged_in(true, None, Some("7")));
    note_login(&mut slot, &CollaboEvent::PostAck { ok: false });
    note_login(&mut slot, &CollaboEvent::Other);
    assert_eq!(
        login_verdict(&slot, 0).unwrap().unwrap(),
        Some("7".to_string())
    );
}

// Visiting.

fn relay() -> Relay {
    Relay {
        host: "relay.example".into(),
        port: 7443,
        session_id: "s-1".into(),
    }
}

/// Runs a visit, answering every command and every wait; the login is answered with
/// `answer`.
fn run(visit: Visit, answer: AppResult<Option<String>>) -> (Vec<String>, Outcome) {
    let mut log = Vec::new();
    let mut answer = Some(answer);
    let mut visit = visit;
    let mut action = Action::Enter;
    loop {
        let event = match action {
            Action::Enter => {
                log.push("enter".to_string());
                Event::Entered {
                    device_id: "d-1".into(),
                    relay: relay(),
                }
            }
            Action::Connect { host, port } => {
                log.push(format!("connect {host}:{port}"));
                Event::Connected
            }
            Action::Send(command) => {
                log.push(match command {
                    Command::Login {
                        room_id,
                        device_id,
                        session_id,
                        nickname,
                    } => format!("login {room_id} {device_id} {session_id} {nickname}"),
                    Command::AttachBooth {
                        booth_id,
                        last_sequence,
                    } => format!("attach {booth_id} {last_sequence}"),
                    Command::Logout { room_id } => format!("logout {room_id}"),
                    Command::Disconnect => "disconnect".to_string(),
                    other => panic!("{other:?}"),
                });
                Event::Sent
            }
            Action::AwaitAnswer => Event::Answered(answer.take().unwrap()),
            Action::Post { room_user_id } => {
                log.push(format!("post {room_user_id:?}"));
                Event::Posted(vec![Record::Erased {
                    stroke_id: "a".into(),
                }])
            }
            Action::AwaitReplay => {
                log.push("listen".to_string());
                Event::WentQuiet
            }
            Action::Finish(outcome) => {
                assert!(visit.step(Event::Sent).is_none());
                return (log, outcome);
            }
        };
        let (next, what) = visit.step(event).unwrap();
        visit = next;
        action = what;
    }
}

#[test]
fn a_post_joins_posts_and_leaves() {
    let visit = Visit::new("room-1", &"student01".to_string(), Purpose::Post);
    let (log, outcome) = run(visit, Ok(Some("7".to_string())));
    assert_eq!(
        log,
        vec![
            "enter",
            "connect relay.example:7443",
            "login room-1 d-1 s-1 student01",
            "post Some(\"7\")",
            "logout room-1",
            "disconnect",
        ]
    );
    match outcome {
        Outcome::Posted(records) => assert_eq!(
            records,
            vec![Record::Erased {
                stroke_id: "a".into()
            }]
        ),
        other => panic!("{other:?}"),
    }
}

#[test]
fn a_pull_asks_for_every_booth_from_the_beginning() {
    let visit = Visit::new(
        "room-1",
        &"student01".to_string(),
        Purpose::Pull {
            booths: vec!["P1".to_string(), "P1_[layer-common]".to_string()],
        },
    );
    let (log, outcome) = run(visit, Ok(None));
    assert_eq!(
        log,
        vec![
            "enter",
            "connect relay.example:7443",
            "login room-1 d-1 s-1 student01",
            "attach P1 0",
            "attach P1_[layer-common] 0",
            "listen",
            "logout room-1",
            "disconnect",
        ]
    );
    assert!(matches!(outcome, Outcome::Replayed));
}

#[test]
fn a_refused_visit_says_nothing_in_the_room() {
    let visit = Visit::new("room-1", &"student01".to_string(), Purpose::Post);
    let (log, outcome) = run(visit, Err(AppError::other("no".to_string())));
    assert_eq!(
        log,
        vec![
            "enter",
            "connect relay.example:7443",
            "login room-1 d-1 s-1 student01",
        ]
    );
    match outcome {
        Outcome::Refused(error) => assert_eq!(error.to_string(), "no"),
        other => panic!("{other:?}"),
    }
}

#[test]
fn a_failure_is_the_end_of_a_visit() {
    let visit = Visit::new("room-1", &"student01".to_string(), Purpose::Post);
    let (visit, action) = visit
        .step(Event::Failed(AppError::other("down".to_string())))
        .unwrap();
    match action {
        Action::Finish(Outcome::Failed(error)) => assert_eq!(error.to_string(), "down"),
        other => panic!("{other:?}"),
    }
    assert!(visit.step(Event::Connected).is_none());
}

#[test]
fn a_visit_waits_for_one_thing_at_a_time() {
    let visit = Visit::new("room-1", &"student01".to_string(), Purpose::Post);
    assert!(visit.step(Event::Posted(vec![])).is_none());
}

#[test]
fn posting_nothing_leaves_the_room_alone() {
    let none: Vec<PendingUnit<Image>> = vec![];
    match start_post(None, "room-1", &vec![], &vec![], &none) {
        PostStart::Done(result) => assert!(result.unwrap().is_empty()),
        other => panic!("{other:?}"),
    }
    match start_post(None, "room-1", &vec![pending("a")], &vec![], &none) {
        PostStart::Done(result) => assert_eq!(
            result.unwrap_err().to_string(),
            "サインインしていません"
        ),
        other => panic!("{other:?}"),
    }
    match start_post(
        Some(&session()),
        "room-1",
        &vec![],
        &vec![row("a", "el a")],
        &none,
    ) {
        PostStart::Join(visit) => {
            assert_eq!(visit.room_id, "room-1");
            assert_eq!(visit.nickname, "student01");
            assert!(matches!(visit.purpose, Purpose::Post));
        }
        other => panic!("{other:?}"),
    }
}

// Pulling.

#[test]
fn fetching_needs_somebody_signed_in_and_something_to_ask_for() {
    let empty = GenericTree::new("root", "$sharenote");
    match start_fetch(None, "room-1", &empty) {
        FetchStart::Done(pull) => {
            assert_eq!(pull.error, Some("サインインしていません".to_string()));
            assert_eq!(pull.directions, 0);
        }
        other => panic!("{other:?}"),
    }
    match start_fetch(Some(&session()), "room-1", &empty) {
        FetchStart::Done(pull) => assert_eq!(pull.error, None),
        other => panic!("{other:?}"),
    }
    let mut tree = GenericTree::new("root", "$sharenote");
    tree.insert(page("P1", 1));
    match start_fetch(Some(&session()), "room-1", &tree) {
        FetchStart::Join(visit) => match visit.purpose {
            Purpose::Pull { booths } => assert_eq!(booths, booths_for(&tree, "42")),
            other => panic!("{other:?}"),
        },
        other => panic!("{other:?}"),
    }
}

#[test]
fn a_room_that_cannot_be_entered_is_only_an_error_on_the_pull() {
    let pull = refused_pull(&AppError::other("閉まっています".to_string()));
    assert_eq!(pull.error, Some("閉まっています".to_string()));
    assert!(pull.history.is_empty());
}

#[test]
fn only_a_visit_that_came_to_a_replay_leaves_something_to_fold() {
    let error = || AppError::other("届きません".to_string());
    for outcome in [Outcome::Refused(error()), Outcome::Failed(error())] {
        let pull = pull_of(&outcome).unwrap();
        assert_eq!(pull.error, Some("届きません".to_string()));
        assert_eq!(pull.directions, 0);
        assert!(pull.marks.is_empty());
    }
    assert!(pull_of(&Outcome::Replayed).is_none());
    assert!(pull_of(&Outcome::Posted(vec![])).is_none());
}

#[test]
fn posting_hands_back_what_was_confirmed_or_what_went_wrong() {
    let record = Record::Erased {
        stroke_id: "a".into(),
    };
    assert_eq!(
        post_result(Outcome::Posted(vec![record.clone()])).unwrap(),
        vec![record]
    );
    assert!(post_result(Outcome::Replayed).unwrap().is_empty());
    let refused = post_result(Outcome::Refused(AppError::other("no".to_string())));
    assert_eq!(refused.unwrap_err().to_string(), "no");
    let failed = post_result(Outcome::Failed(AppError::other("down".to_string())));
    assert_eq!(failed.unwrap_err().to_string(), "down");
}

#[test]
fn a_room_that_cannot_be_reached_leaves_the_note_as_it_was() {
    let down = || Event::Failed(AppError::other("届きません".to_string()));
    let entered = || Event::Entered {
        device_id: "d-1".into(),
        relay: relay(),
    };
    for events in [vec![down()], vec![entered(), down()]] {
        let mut tree = GenericTree::new("root", "$sharenote");
        tree.insert(page("P1", 1));
        let (mut visit, booths) = match start_fetch(Some(&session()), "room-1", &tree) {
            FetchStart::Join(visit) => match &visit.purpose {
                Purpose::Pull { booths } => {
                    let booths = booths.clone();
                    (visit, booths)
                }
                other => panic!("{other:?}"),
            },
            other => panic!("{other:?}"),
        };
        let mut action = Action::Enter;
        for event in events {
            (visit, action) = visit.step(event).unwrap();
        }
        let outcome = match action {
            Action::Finish(outcome) => outcome,
            other => panic!("{other:?}"),
        };
        assert!(visit.step(Event::Connected).is_none());
        let (tree, pull, assets) = conclude_fetch(
            &outcome,
            tree,
            &booths,
            vec![direction("P1", 1, "+x")],
            &vec![],
            &decode,
            &apply,
            &|tree: GenericTree, _: &String| tree,
        )
        .unwrap();
        assert_eq!(pull.error, Some("届きません".to_string()));
        assert_eq!(pull.directions, 0);
        assert!(assets.is_empty());
        assert_eq!(ids_of(&tree), vec!["root", "P1"]);
    }
}

#[test]
fn a_replay_is_folded_once_the_visit_is_over() {
    let (tree, pull, assets) = conclude_fetch(
        &Outcome::Replayed,
        GenericTree::new("root", "$sharenote"),
        &vec!["P1".to_string()],
        vec![direction("P1", 4, "+x !t")],
        &vec![],
        &decode,
        &apply,
        &|tree: GenericTree, _: &String| tree,
    )
    .unwrap();
    assert_eq!(pull.error, None);
    assert_eq!(pull.marks, vec![("P1".to_string(), 4)]);
    assert_eq!(assets.len(), 1);
    assert_eq!(ids_of(&tree), vec!["root", "x"]);
}

#[test]
fn the_end_of_a_replay_is_decided_by_silence() {
    assert_eq!(QUIET, 1_500_000_000);
    assert_eq!(LIMIT, 20_000_000_000);
    let mut replay = Replay::new();
    assert!(!replay.observe(0, QUIET - 1));
    assert!(!replay.observe(3, QUIET));
    assert!(!replay.observe(3, QUIET + QUIET - 1));
    assert!(replay.observe(3, QUIET + QUIET));
    let mut busy = Replay::new();
    assert!(!busy.observe(1, LIMIT - 1));
    assert!(busy.observe(2, LIMIT));
    let mut silent = Replay::new();
    assert!(silent.observe(0, QUIET));
}

#[test]
fn the_mark_of_a_booth_is_the_furthest_place_read() {
    let received = vec![
        direction("P1", 3, "+a"),
        direction("P2", -4, "+b"),
        direction("P1", 9, "+c"),
        direction("P1", 5, "+d"),
    ];
    let mut marks = marks_of(&received);
    marks.sort();
    assert_eq!(
        marks,
        vec![("P1".to_string(), 9), ("P2".to_string(), -4)]
    );
    assert!(marks_of(&vec![]).is_empty());
}

#[test]
fn the_later_row_of_an_element_counts() {
    let aliases = aliases_of(&vec![row("a", "el 1"), row("b", "el 2"), row("c", "el 1")]);
    assert_eq!(aliases.get("el 1").unwrap(), "c");
    assert_eq!(aliases.get("el 2").unwrap(), "b");
    assert!(!aliases.contains_key("el 3"));
    assert_eq!(aliases.entries().len(), 2);
}

#[test]
fn directions_are_kept_in_the_order_of_arrival() {
    let mut received: Vec<Received> = Vec::new();
    for event in [
        CollaboEvent::Direction {
            booth_id: "P1".into(),
            sequence: 1,
            payload: vec![1],
        },
        CollaboEvent::Other,
        CollaboEvent::Direction {
            booth_id: "P2".into(),
            sequence: 7,
            payload: vec![],
        },
    ] {
        note_direction(&mut received, event);
    }
    assert_eq!(
        received,
        vec![
            ("P1".to_string(), 1, vec![1]),
            ("P2".to_string(), 7, vec![]),
        ]
    );
}

#[test]
fn a_replay_is_folded_and_the_users_own_layer_is_there_afterwards() {
    let mut tree = GenericTree::new("root", "$sharenote");
    tree.insert(page("P1", 1));
    let booths = booths_for(&tree, "42");
    let received = vec![
        direction("P1_[layer-forUser]_42", 2, "+x"),
        direction("P1", 8, "nothing of ours"),
    ];
    let ensure = |tree: GenericTree, booth: &String| {
        let mut tree = tree;
        let mut layer = page(booth, 0);
        layer.model_type = "$layer".into();
        tree.insert(layer);
        tree
    };
    let (tree, pull, _) = finish_fetch(
        tree,
        &booths,
        received.clone(),
        &vec![row("local-x", "x")],
        &decode,
        &apply,
        &ensure,
    )
    .unwrap();
    assert_eq!(pull.directions, 2);
    assert_eq!(
        pull.stroke_ids,
        vec![(
            "local-x".to_string(),
            "P1_[layer-forUser]_42".to_string()
        )]
    );
    assert_eq!(pull.history, received);
    let mut marks = pull.marks;
    marks.sort();
    assert_eq!(
        marks,
        vec![
            ("P1".to_string(), 8),
            ("P1_[layer-forUser]_42".to_string(), 2),
        ]
    );
    let ids: Vec<&str> = tree.models().iter().map(|m| m.id.as_str()).collect();
    assert_eq!(ids, vec!["root", "P1", "local-x", "P1_[layer-forUser]_42"]);
}
