//! Fetching what a note's room already holds.
//!
//! A class note's own file contains only what the teacher put there: every student's
//! writing lives in the room, on the booth for their personal layer. Opening the note
//! therefore means asking the room for its history and folding the result into the
//! document.
//!
//! The relay never says "that is all", so the end is decided by silence: nothing for
//! [`QUIET`], or [`LIMIT`] overall, whichever comes first.

use super::apply::{Applied, Asset, Direction};
use super::booths::{booths_for, lists_booths};
use super::fold::{amounts_to, counts_fit, fold, replayed_by, RoomPull};
use super::send::Ledger;
use super::socket::Received;
use super::visit::{Outcome, Purpose, Visit};
use crate::cloud::CloudSession;
use crate::collections::{distinct_keys, TextMap};
use crate::error::AppError;
use crate::model::GenericTree;
use crate::text::{a_part_has_its_surroundings, has_part, text_has_part, texts};
use vstd::prelude::*;

verus! {

/// No traffic for this long means the replay is over, in nanoseconds.
pub const QUIET: u128 = 1_500_000_000;

/// However busy the room, stop asking after this, in nanoseconds.
pub const LIMIT: u128 = 20_000_000_000;

/// How often the replay is looked at, in nanoseconds.
pub const POLL: u64 = 200_000_000;

/// How a pull begins.
#[derive(Debug)]
pub enum FetchStart {
    /// It is over already: there is nobody to ask for, or nothing.
    Done(RoomPull),
    /// The room is to be joined.
    Join(Visit),
}

/// A pull that only says what went wrong.
pub open spec fn only_says(pull: RoomPull, message: Seq<char>) -> bool {
    &&& pull.error matches Some(text) && text@ == message
    &&& (RoomPull { error: None, ..pull }).is_blank()
}

/// A pull that came to nothing. The note still opens.
pub fn refused_pull(error: &AppError) -> (r: RoomPull)
    ensures
        only_says(r, error@),
{
    RoomPull { error: Some(error.to_string()), ..RoomPull::default() }
}

/// What a pull hands back where the visit never got as far as the replay: the room did
/// not let us in, or could not be reached. The note still opens. There is no result where
/// what was replayed is to be folded.
pub fn pull_of(outcome: &Outcome) -> (r: Option<RoomPull>)
    ensures
        match *outcome {
            Outcome::Refused(error) => r matches Some(pull) && only_says(pull, error@),
            Outcome::Failed(error) => r matches Some(pull) && only_says(pull, error@),
            _ => r is None,
        },
{
    match outcome {
        Outcome::Refused(error) => Some(refused_pull(error)),
        Outcome::Failed(error) => Some(refused_pull(error)),
        _ => None,
    }
}

/// How fetching a note's room begins: it asks for every booth of the note, if somebody
/// is signed in and the note has any.
pub fn start_fetch(session: Option<&CloudSession>, room_id: &str, tree: &GenericTree) -> (r:
    FetchStart)
    ensures
        match session {
            None => r matches FetchStart::Done(pull) && only_says(
                pull,
                "サインインしていません"@,
            ),
            Some(account) => match r {
                FetchStart::Done(pull) => pull.is_blank() && lists_booths(
                    Seq::empty(),
                    tree@,
                    account.user_id@,
                ),
                FetchStart::Join(visit) => visit.purpose matches Purpose::Pull { booths }
                    && booths@.len() > 0 && lists_booths(
                    texts(booths@),
                    tree@,
                    account.user_id@,
                ) && visit.is_new(room_id@, account.name, visit.purpose),
            },
        },
{
    match session {
        None => FetchStart::Done(
            RoomPull {
                error: Some("サインインしていません".to_owned()),
                ..RoomPull::default()
            },
        ),
        Some(account) => {
            let booths = booths_for(tree, &account.user_id);
            if booths.is_empty() {
                assert(texts(booths@) == Seq::<Seq<char>>::empty());
                return FetchStart::Done(RoomPull::default());
            }
            FetchStart::Join(Visit::new(room_id, &account.name, Purpose::Pull { booths }))
        },
    }
}

/// The wait for a replay to go quiet. Times are nanoseconds since the wait began.
#[derive(Debug)]
pub struct Replay {
    /// How many directions had arrived when it was last looked at.
    pub last_count: usize,
    /// When that number was first seen.
    pub quiet_since: u128,
}

impl Replay {
    /// Nothing has arrived yet.
    pub fn new() -> (r: Replay)
        ensures
            r.last_count == 0,
            r.quiet_since == 0,
    {
        Replay { last_count: 0, quiet_since: 0 }
    }

    /// Takes down how many directions have arrived by `now`; says whether the replay is
    /// over: no more have come for [`QUIET`], or it has been going on for [`LIMIT`].
    pub fn observe(&mut self, count: usize, now: u128) -> (r: bool)
        ensures
            final(self).last_count == count,
            final(self).quiet_since == (if count != old(self).last_count {
                now
            } else {
                old(self).quiet_since
            }),
            r == (now - final(self).quiet_since >= QUIET || now >= LIMIT),
    {
        if count != self.last_count {
            self.last_count = count;
            self.quiet_since = now;
        }
        (now >= self.quiet_since && now - self.quiet_since >= QUIET) || now >= LIMIT
    }
}

/// `mark` is the furthest place in its booth that was read.
pub open spec fn is_mark(mark: (String, i64), received: Seq<Received>) -> bool {
    &&& exists|i: int|
        0 <= i < received.len() && (#[trigger] received[i]).0@ == mark.0@ && received[i].1 == mark.1
    &&& forall|i: int|
        0 <= i < received.len() && (#[trigger] received[i]).0@ == mark.0@ ==> received[i].1 <= mark.1
}

/// `marks` says of every booth that was read, once, how far that was.
pub open spec fn are_marks(marks: Seq<(String, i64)>, received: Seq<Received>) -> bool {
    &&& distinct_keys(marks)
    &&& forall|i: int| 0 <= i < marks.len() ==> is_mark(#[trigger] marks[i], received)
    &&& forall|j: int| 0 <= j < received.len() ==> has_mark(marks, (#[trigger] received[j]).0@)
}

/// The booth has a mark.
pub open spec fn has_mark(marks: Seq<(String, i64)>, booth: Seq<char>) -> bool {
    exists|i: int| 0 <= i < marks.len() && (#[trigger] marks[i]).0@ == booth
}

/// How far each booth was read, so the next connection can carry on.
pub fn marks_of(received: &Vec<Received>) -> (r: Vec<(String, i64)>)
    ensures
        are_marks(r@, received@),
{
    let mut marks: Vec<(String, i64)> = Vec::new();
    for n in 0..received.len()
        invariant
            are_marks(marks@, received@.take(n as int)),
    {
        let ghost done = received@.take(n as int);
        let ghost now = received@.take(n + 1);
        let ghost before = marks@;
        let booth = &received[n].0;
        let place: i64 = received[n].1;
        let mut i: usize = 0;
        while i < marks.len() && !(marks[i].0 == *booth)
            invariant
                i <= marks.len(),
                marks@ == before,
                forall|k: int| 0 <= k < i ==> (#[trigger] marks@[k]).0@ != booth@,
            decreases marks.len() - i,
        {
            i = i + 1;
        }
        if i < marks.len() {
            if marks[i].1 < place {
                let name = marks[i].0.clone();
                marks.set(i, (name, place));
            }
        } else {
            marks.push((booth.clone(), place));
        }
        proof {
            assert(now[n as int] == received@[n as int]);
            assert forall|k: int| 0 <= k < marks@.len() implies is_mark(
                #[trigger] marks@[k],
                now,
            ) by {
                if k == i {
                    if i < before.len() {
                        assert(is_mark(before[k], done));
                        if marks@[k] == before[k] {
                            let w = choose|w: int|
                                0 <= w < done.len() && (#[trigger] done[w]).0@ == before[k].0@
                                    && done[w].1 == before[k].1;
                            assert(now[w].0@ == marks@[k].0@ && now[w].1 == marks@[k].1);
                        } else {
                            assert(now[n as int].0@ == marks@[k].0@ && now[n as int].1
                                == marks@[k].1);
                        }
                        assert forall|j: int|
                            0 <= j < now.len() && (#[trigger] now[j]).0@
                                == marks@[k].0@ implies now[j].1 <= marks@[k].1 by {
                            if j < n {
                                assert(done[j].0@ == before[k].0@);
                            }
                        }
                    } else {
                        assert(now[n as int].0@ == marks@[k].0@ && now[n as int].1 == marks@[k].1);
                        assert forall|j: int|
                            0 <= j < now.len() && (#[trigger] now[j]).0@
                                == marks@[k].0@ implies now[j].1 <= marks@[k].1 by {
                            if j < n {
                                assert(has_mark(before, done[j].0@));
                                let w = choose|w: int|
                                    0 <= w < before.len() && (#[trigger] before[w]).0@
                                        == done[j].0@;
                                assert(before[w].0@ == booth@);
                            }
                        }
                    }
                } else {
                    assert(marks@[k] == before[k]);
                    assert(is_mark(before[k], done));
                    let w = choose|w: int|
                        0 <= w < done.len() && (#[trigger] done[w]).0@ == before[k].0@ && done[w].1
                            == before[k].1;
                    assert(now[w].0@ == marks@[k].0@ && now[w].1 == marks@[k].1);
                    assert(marks@[k].0@ != booth@);
                    assert forall|j: int|
                        0 <= j < now.len() && (#[trigger] now[j]).0@ == marks@[k].0@ implies now[j].1
                        <= marks@[k].1 by {
                        assert(j < n);
                        assert(done[j].0@ == before[k].0@);
                    }
                }
            }
            assert forall|j: int| 0 <= j < now.len() implies has_mark(
                marks@,
                (#[trigger] now[j]).0@,
            ) by {
                if j < n {
                    assert(has_mark(before, done[j].0@));
                    let w = choose|w: int|
                        0 <= w < before.len() && (#[trigger] before[w]).0@ == done[j].0@;
                    assert(marks@[w].0@ == now[j].0@);
                } else {
                    assert(marks@[i as int].0@ == booth@);
                }
            }
        }
    }
    assert(received@.take(received@.len() as int) == received@);
    marks
}

/// What the ledger knows each of the room's elements as; of two rows with one element
/// the later one counts.
pub open spec fn alias_map(rows: Seq<Ledger>) -> Map<Seq<char>, Seq<char>>
    decreases rows.len(),
{
    if rows.len() == 0 {
        Map::empty()
    } else {
        alias_map(rows.drop_last()).insert(rows.last().element_id@, rows.last().stroke_id@)
    }
}

/// What the ledger knows each of the room's elements as.
pub fn aliases_of(rows: &Vec<Ledger>) -> (r: TextMap)
    ensures
        r@ == alias_map(rows@),
{
    let mut aliases = TextMap::new();
    for i in 0..rows.len()
        invariant
            aliases@ == alias_map(rows@.take(i as int)),
    {
        assert(rows@.take(i + 1).drop_last() == rows@.take(i as int));
        aliases.insert(rows[i].element_id.clone(), rows[i].stroke_id.clone());
    }
    assert(rows@.take(rows@.len() as int) == rows@);
    aliases
}

/// Those of the booths that are layers of somebody's own.
pub open spec fn own_layers(booths: Seq<String>) -> Seq<String>
    decreases booths.len(),
{
    if booths.len() == 0 {
        Seq::empty()
    } else if has_part(booths.last()@, "_[layer-for"@) {
        own_layers(booths.drop_last()).push(booths.last())
    } else {
        own_layers(booths.drop_last())
    }
}

/// `ensure` took the note through `notes`, for one booth after the other.
pub open spec fn layers_ensured<L>(ensure: L, booths: Seq<String>, notes: Seq<GenericTree>) -> bool where
    L: Fn(GenericTree, &String) -> GenericTree,
 {
    &&& notes.len() == booths.len() + 1
    &&& forall|i: int|
        0 <= i < booths.len() ==> call_ensures(
            ensure,
            (notes[i], &#[trigger] booths[i]),
            notes[i + 1],
        )
}

/// `after` is what `ensure` made of the note `before`, for one booth after the other.
pub open spec fn has_layers<L>(
    ensure: L,
    booths: Seq<String>,
    before: GenericTree,
    after: GenericTree,
) -> bool where L: Fn(GenericTree, &String) -> GenericTree {
    exists|notes: Seq<GenericTree>| #[trigger]
        layers_ensured(ensure, booths, notes) && notes[0] == before && notes.last() == after
}

/// Makes sure that the note has a layer for each of the booths that need one.
fn ensure_layers<L>(tree: GenericTree, booths: &Vec<String>, ensure: &L) -> (r: GenericTree) where
    L: Fn(GenericTree, &String) -> GenericTree,

    requires
        forall|t: GenericTree, b: &String| call_requires(*ensure, (t, b)),
    ensures
        has_layers(*ensure, own_layers(booths@), tree, r),
{
    let ghost mut notes: Seq<GenericTree> = seq![tree];
    let mut note = tree;
    for i in 0..booths.len()
        invariant
            forall|t: GenericTree, b: &String| call_requires(*ensure, (t, b)),
            notes[0] == tree,
            notes.last() == note,
            layers_ensured(*ensure, own_layers(booths@.take(i as int)), notes),
    {
        let ghost before = own_layers(booths@.take(i as int));
        assert(booths@.take(i + 1).drop_last() == booths@.take(i as int));
        if text_has_part(&booths[i], "_[layer-for") {
            note = ensure(note, &booths[i]);
            proof {
                let earlier = notes;
                notes = notes.push(note);
                let after = own_layers(booths@.take(i + 1));
                assert(after == before.push(booths@[i as int]));
                assert forall|j: int| 0 <= j < after.len() implies call_ensures(
                    *ensure,
                    (notes[j], &#[trigger] after[j]),
                    notes[j + 1],
                ) by {
                    if j < before.len() {
                        assert(after[j] == before[j]);
                        assert(notes[j] == earlier[j] && notes[j + 1] == earlier[j + 1]);
                    }
                }
            }
        }
    }
    assert(booths@.take(booths@.len() as int) == booths@);
    note
}

/// Fetching `received` into the note `tree` comes to `result`: the note with everything
/// folded into it, and then with the layers that `booths` ask for, and what was found, or
/// nothing where a count is more than a `usize` holds.
pub open spec fn fetched<C, D, A, L>(
    decode: D,
    apply: A,
    ensure: L,
    tree: GenericTree,
    booths: Seq<String>,
    received: Vec<Received>,
    ledger: Seq<Ledger>,
    result: Option<(GenericTree, RoomPull, Vec<Asset>)>,
) -> bool where
    D: Fn(&Vec<u8>) -> Option<Direction<C>>,
    A: Fn(GenericTree, &String, &Direction<C>, &TextMap) -> (GenericTree, Applied),
    L: Fn(GenericTree, &String) -> GenericTree,
 {
    exists|aliases: TextMap, trees: Seq<GenericTree>, outcomes: Seq<Option<Applied>>|
        {
            &&& aliases@ == alias_map(ledger)
            &&& #[trigger] replayed_by(decode, apply, received@, aliases, trees, outcomes)
            &&& trees[0] == tree
            &&& match result {
                Some((after, pull, assets)) => {
                    &&& has_layers(ensure, own_layers(booths), trees.last(), after)
                    &&& counts_fit(outcomes)
                    &&& amounts_to(pull, assets@, outcomes)
                    &&& are_marks(pull.marks@, received@)
                    &&& pull.history == received
                    &&& pull.error is None
                },
                None => !counts_fit(outcomes),
            }
        }
}

/// Folds what the room replayed into the note, and makes sure that the note has the
/// layers it needs.
///
/// Whether or not the room had anything, this user needs a layer of their own to write
/// on: without one the next stroke lands on a layer the room has no booth for.
/// There is no result where a count is more than a `usize` holds.
pub fn finish_fetch<C, D, A, L>(
    tree: GenericTree,
    booths: &Vec<String>,
    received: Vec<Received>,
    ledger: &Vec<Ledger>,
    decode: &D,
    apply: &A,
    ensure: &L,
) -> (r: Option<(GenericTree, RoomPull, Vec<Asset>)>) where
    D: Fn(&Vec<u8>) -> Option<Direction<C>>,
    A: Fn(GenericTree, &String, &Direction<C>, &TextMap) -> (GenericTree, Applied),
    L: Fn(GenericTree, &String) -> GenericTree,

    requires
        forall|payload: &Vec<u8>| call_requires(*decode, (payload,)),
        forall|t: GenericTree, booth: &String, d: &Direction<C>, a: &TextMap|
            call_requires(*apply, (t, booth, d, a)),
        forall|t: GenericTree, b: &String| call_requires(*ensure, (t, b)),
    ensures
        fetched(*decode, *apply, *ensure, tree, booths@, received, ledger@, r),
{
    let marks = marks_of(&received);
    let aliases = aliases_of(ledger);
    match fold(tree, &received, &aliases, decode, apply) {
        Some((note, mut pull, assets)) => {
            pull.marks = marks;
            pull.history = received;
            let after = ensure_layers(note, booths, ensure);
            Some((after, pull, assets))
        },
        None => None,
    }
}

/// What fetching a note's room hands back once the visit is over. Whatever the visit came
/// to, the note is part of it: a room that could not be reached, or did not let us in,
/// leaves the note as it was, with the reason on the pull.
pub fn conclude_fetch<C, D, A, L>(
    outcome: &Outcome,
    tree: GenericTree,
    booths: &Vec<String>,
    received: Vec<Received>,
    ledger: &Vec<Ledger>,
    decode: &D,
    apply: &A,
    ensure: &L,
) -> (r: Option<(GenericTree, RoomPull, Vec<Asset>)>) where
    D: Fn(&Vec<u8>) -> Option<Direction<C>>,
    A: Fn(GenericTree, &String, &Direction<C>, &TextMap) -> (GenericTree, Applied),
    L: Fn(GenericTree, &String) -> GenericTree,

    requires
        forall|payload: &Vec<u8>| call_requires(*decode, (payload,)),
        forall|t: GenericTree, booth: &String, d: &Direction<C>, a: &TextMap|
            call_requires(*apply, (t, booth, d, a)),
        forall|t: GenericTree, b: &String| call_requires(*ensure, (t, b)),
    ensures
        match *outcome {
            Outcome::Refused(error) => r matches Some((after, pull, assets)) && after == tree
                && only_says(pull, error@) && assets@.len() == 0,
            Outcome::Failed(error) => r matches Some((after, pull, assets)) && after == tree
                && only_says(pull, error@) && assets@.len() == 0,
            _ => fetched(*decode, *apply, *ensure, tree, booths@, received, ledger@, r),
        },
{
    match pull_of(outcome) {
        Some(pull) => Some((tree, pull, Vec::new())),
        None => finish_fetch(tree, booths, received, ledger, decode, apply, ensure),
    }
}

/// Of several rows with one element the last one counts.
pub proof fn the_last_row_of_an_element_counts(rows: Seq<Ledger>, i: int)
    requires
        0 <= i < rows.len(),
        forall|j: int|
            i < j < rows.len() ==> (#[trigger] rows[j]).element_id@ != rows[i].element_id@,
    ensures
        alias_map(rows).contains_key(rows[i].element_id@),
        alias_map(rows)[rows[i].element_id@] == rows[i].stroke_id@,
    decreases rows.len(),
{
    if i < rows.len() - 1 {
        let front = rows.drop_last();
        assert(front[i] == rows[i]);
        assert forall|j: int| i < j < front.len() implies (#[trigger] front[j]).element_id@
            != front[i].element_id@ by {
            assert(rows[j].element_id@ != rows[i].element_id@);
        }
        the_last_row_of_an_element_counts(front, i);
        assert(rows[rows.len() - 1].element_id@ != rows[i].element_id@);
    }
}

/// A mark is the place to carry on from: nothing that was read of a booth lies behind
/// it.
pub proof fn nothing_read_lies_behind_a_mark(
    marks: Seq<(String, i64)>,
    received: Seq<Received>,
    i: int,
    j: int,
)
    requires
        are_marks(marks, received),
        0 <= i < marks.len(),
        0 <= j < received.len(),
        marks[i].0@ == received[j].0@,
    ensures
        received[j].1 <= marks[i].1,
{
    assert(is_mark(marks[i], received));
}

/// A pull that only says what went wrong says that, and has nothing else to say.
pub proof fn what_went_wrong_is_all_there_is(pull: RoomPull, message: Seq<char>)
    requires
        only_says(pull, message),
    ensures
        pull.error is Some,
        pull.error->0@ == message,
        pull.directions == 0,
        pull.units == 0,
        pull.strokes == 0,
        pull.removed == 0,
        pull.assets == 0,
        pull.marks@.len() == 0,
        pull.history@.len() == 0,
        pull.stroke_ids@.len() == 0,
        pull.unsupported@.len() == 0,
{
}

/// A blank pull found nothing, and nothing went wrong with it.
pub proof fn a_blank_pull_says_nothing(pull: RoomPull)
    requires
        pull.is_blank(),
    ensures
        pull.error is None,
        pull.directions == 0,
        pull.units == 0,
        pull.strokes == 0,
        pull.removed == 0,
        pull.assets == 0,
        pull.marks@.len() == 0,
        pull.history@.len() == 0,
        pull.stroke_ids@.len() == 0,
        pull.unsupported@.len() == 0,
{
}

/// Every booth that was read has one mark, and only those have one. The mark is the place
/// of something that was read of that booth, and nothing read of it lies further.
pub proof fn a_mark_is_the_furthest_place_read(
    marks: Seq<(String, i64)>,
    received: Seq<Received>,
    i: int,
    j: int,
)
    requires
        are_marks(marks, received),
        0 <= i < marks.len(),
        0 <= j < received.len(),
    ensures
        forall|k: int| 0 <= k < marks.len() && k != i ==> (#[trigger] marks[k]).0@ != marks[i].0@,
        exists|k: int|
            0 <= k < received.len() && (#[trigger] received[k]).0@ == marks[i].0@ && received[k].1
                == marks[i].1,
        exists|k: int|
            0 <= k < marks.len() && (#[trigger] marks[k]).0@ == received[j].0@ && received[j].1
                <= marks[k].1,
{
    assert(is_mark(marks[i], received));
    assert(has_mark(marks, received[j].0@));
    let k = choose|k: int| 0 <= k < marks.len() && (#[trigger] marks[k]).0@ == received[j].0@;
    assert(is_mark(marks[k], received));
}

/// Where nothing was read there is no mark, and where something was read there is one.
pub proof fn marks_need_something_read(marks: Seq<(String, i64)>, received: Seq<Received>)
    requires
        are_marks(marks, received),
    ensures
        marks.len() == 0 <==> received.len() == 0,
{
    if marks.len() > 0 {
        assert(is_mark(marks[0], received));
    }
    if received.len() > 0 {
        assert(has_mark(marks, received[0].0@));
    }
}

/// Only what the ledger has a row for has an alias.
pub proof fn an_alias_comes_from_the_ledger(rows: Seq<Ledger>, element: Seq<char>)
    requires
        alias_map(rows).contains_key(element),
    ensures
        exists|i: int|
            0 <= i < rows.len() && (#[trigger] rows[i]).element_id@ == element
                && rows[i].stroke_id@ == alias_map(rows)[element],
    decreases rows.len(),
{
    let front = rows.drop_last();
    let n = front.len() as int;
    if rows[n].element_id@ != element {
        an_alias_comes_from_the_ledger(front, element);
        let i = choose|i: int|
            0 <= i < front.len() && (#[trigger] front[i]).element_id@ == element
                && front[i].stroke_id@ == alias_map(front)[element];
        assert(rows[i] == front[i]);
    }
}

/// The booths that are layers of somebody's own are those with `_[layer-for` somewhere in
/// their names, all of them and in order.
pub proof fn own_layers_are_told_by_their_names(booths: Seq<String>)
    ensures
        own_layers(booths) == booths.filter(
            |b: String|
                exists|before: Seq<char>, behind: Seq<char>|
                    b@ == #[trigger] before.add("_[layer-for"@).add(behind),
        ),
    decreases booths.len(),
{
    reveal(Seq::filter);
    if booths.len() > 0 {
        own_layers_are_told_by_their_names(booths.drop_last());
        a_part_has_its_surroundings(booths.last()@, "_[layer-for"@);
    }
}

/// Each of the layers is made sure of in its turn, on the note as the one before left it,
/// and nothing else is done to the note.
pub proof fn each_layer_is_made_sure_of<L>(
    ensure: L,
    booths: Seq<String>,
    before: GenericTree,
    after: GenericTree,
) where L: Fn(GenericTree, &String) -> GenericTree
    requires
        has_layers(ensure, booths, before, after),
    ensures
        exists|notes: Seq<GenericTree>|
            {
                &&& #[trigger] notes.len() == booths.len() + 1
                &&& notes[0] == before
                &&& notes[booths.len() as int] == after
                &&& forall|i: int|
                    0 <= i < booths.len() ==> call_ensures(
                        ensure,
                        (notes[i], &#[trigger] booths[i]),
                        notes[i + 1],
                    )
            },
        booths.len() == 0 ==> after == before,
{
    let notes = choose|notes: Seq<GenericTree>| #[trigger]
        layers_ensured(ensure, booths, notes) && notes[0] == before && notes.last() == after;
    assert(notes.len() == booths.len() + 1);
}

/// A fetch folds everything that was received into the note it was given, under the names
/// the ledger knows, and only then makes sure of the layers that are somebody's own. It
/// keeps what was received as it came, says how far each booth was read, and has no error.
pub proof fn a_fetch_folds_and_then_makes_sure_of_layers<C, D, A, L>(
    decode: D,
    apply: A,
    ensure: L,
    tree: GenericTree,
    booths: Seq<String>,
    received: Vec<Received>,
    ledger: Seq<Ledger>,
    result: Option<(GenericTree, RoomPull, Vec<Asset>)>,
) where
    D: Fn(&Vec<u8>) -> Option<Direction<C>>,
    A: Fn(GenericTree, &String, &Direction<C>, &TextMap) -> (GenericTree, Applied),
    L: Fn(GenericTree, &String) -> GenericTree,

    requires
        fetched(decode, apply, ensure, tree, booths, received, ledger, result),
    ensures
        exists|aliases: TextMap, trees: Seq<GenericTree>, outcomes: Seq<Option<Applied>>|
            {
                &&& #[trigger] replayed_by(decode, apply, received@, aliases, trees, outcomes)
                &&& aliases@ == alias_map(ledger)
                &&& trees[0] == tree
                &&& result is Some <==> counts_fit(outcomes)
                &&& result matches Some((after, pull, assets)) ==> {
                    &&& has_layers(
                        ensure,
                        booths.filter(
                            |b: String|
                                exists|before: Seq<char>, behind: Seq<char>|
                                    b@ == #[trigger] before.add("_[layer-for"@).add(behind),
                        ),
                        trees[received@.len() as int],
                        after,
                    )
                    &&& amounts_to(pull, assets@, outcomes)
                    &&& pull.directions == received@.len()
                    &&& are_marks(pull.marks@, received@)
                    &&& pull.history@ == received@
                    &&& pull.error is None
                }
            },
{
    own_layers_are_told_by_their_names(booths);
}

} // verus!
