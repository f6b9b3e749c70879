//! The booths that a note's pages keep their content on.

use crate::json::{json_get, json_i64, json_model, json_str, Json};
use crate::model::{GenericModel, GenericTree};
use crate::text::{
    ascending, ascending_list_is_determined, insert_text, joined, precedes, precedes_irreflexive,
    same_text, texts,
};
use vstd::prelude::*;

verus! {

/// The page id of a model, if it is a page that has one.
pub open spec fn page_id(model: GenericModel) -> Option<Seq<char>> {
    if model.model_type@ == "$page"@ {
        match json_model(model.props).member("pageId"@) {
            Some(value) => value.text(),
            None => None,
        }
    } else {
        None
    }
}

/// How a page was distributed: 1 per user, 2 per group, 3 per class, 0 where it does
/// not say.
pub open spec fn page_type(model: GenericModel) -> i64 {
    match json_model(model.props).member("forSchoolPageType"@) {
        Some(Json::Integer(kind)) => kind,
        _ => 0,
    }
}

/// The booths of one page: the page itself, its common layer, and, as it was
/// distributed, the layer that belongs to this user or to the class.
pub open spec fn page_booths(id: Seq<char>, kind: i64, user_id: Seq<char>) -> Seq<Seq<char>> {
    seq![id, id + "_[layer-common]"@] + (if kind == 1 {
        seq![id + "_[layer-forUser]_"@ + user_id]
    } else if kind == 3 {
        seq![id + "_[layer-forClass]"@]
    } else {
        Seq::empty()
    })
}

/// `booth` belongs to one of the models.
pub open spec fn is_booth(models: Seq<GenericModel>, user_id: Seq<char>, booth: Seq<char>) -> bool {
    exists|i: int|
        0 <= i < models.len() && is_booth_of(#[trigger] models[i], user_id, booth)
}

/// `booth` belongs to this model.
pub open spec fn is_booth_of(model: GenericModel, user_id: Seq<char>, booth: Seq<char>) -> bool {
    match page_id(model) {
        Some(id) => page_booths(id, page_type(model), user_id).contains(booth),
        None => false,
    }
}

/// `list` holds the booths of the models, each once, in ascending order.
pub open spec fn lists_booths(
    list: Seq<Seq<char>>,
    models: Seq<GenericModel>,
    user_id: Seq<char>,
) -> bool {
    &&& ascending(list)
    &&& forall|b: Seq<char>| #[trigger] list.contains(b) <==> is_booth(models, user_id, b)
}

/// The page id of a model, if it is a page that has one.
fn page_id_of(model: &GenericModel) -> (r: Option<&str>)
    ensures
        match r {
            Some(id) => page_id(*model) == Some(id@),
            None => page_id(*model) is None,
        },
{
    if !same_text(&model.model_type, "$page") {
        return None;
    }
    match json_get(&model.props, "pageId") {
        Some(value) => json_str(value),
        None => None,
    }
}

/// How a page was distributed.
fn page_type_of(model: &GenericModel) -> (r: i64)
    ensures
        r == page_type(*model),
{
    match json_get(&model.props, "forSchoolPageType") {
        Some(value) => match json_i64(value) {
            Some(kind) => kind,
            None => 0,
        },
        None => 0,
    }
}

/// Puts the booths of one page into the list, which stays in ascending order.
pub fn add_page(list: &mut Vec<String>, id: &str, kind: i64, user_id: &str)
    requires
        ascending(texts(old(list)@)),
    ensures
        ascending(texts(final(list)@)),
        forall|b: Seq<char>| #[trigger]
            texts(final(list)@).contains(b) <==> texts(old(list)@).contains(b) || page_booths(
                id@,
                kind,
                user_id@,
            ).contains(b),
{
    let ghost booths = page_booths(id@, kind, user_id@);
    insert_text(list, id.to_owned());
    insert_text(list, joined(id, "_[layer-common]"));
    assert(booths[0] == id@);
    assert(booths[1] == id@ + "_[layer-common]"@);
    if kind == 1 {
        insert_text(list, joined(&joined(id, "_[layer-forUser]_"), user_id));
        assert(booths[2] == id@ + "_[layer-forUser]_"@ + user_id@);
    } else if kind == 3 {
        insert_text(list, joined(id, "_[layer-forClass]"));
        assert(booths[2] == id@ + "_[layer-forClass]"@);
    }
}

/// The booths a note keeps its content on, each once, in ascending order.
///
/// For every page: the page itself, its common layer, and, depending on how the note
/// was distributed, the layer that belongs to this user or to the class.
pub fn booths_for(tree: &GenericTree, user_id: &str) -> (r: Vec<String>)
    ensures
        lists_booths(texts(r@), tree@, user_id@),
{
    let mut out: Vec<String> = Vec::new();
    let models = tree.models();
    for i in 0..models.len()
        invariant
            models@ == tree@,
            lists_booths(texts(out@), models@.take(i as int), user_id@),
    {
        let ghost before = texts(out@);
        let ghost done = models@.take(i as int);
        let ghost now = models@.take(i + 1);
        if let Some(id) = page_id_of(&models[i]) {
            add_page(&mut out, id, page_type_of(&models[i]), user_id);
        }
        assert forall|b: Seq<char>| #[trigger] texts(out@).contains(b) <==> is_booth(
            now,
            user_id@,
            b,
        ) by {
            assert(before.contains(b) <==> is_booth(done, user_id@, b));
            if is_booth(done, user_id@, b) {
                let k = choose|k: int|
                    0 <= k < done.len() && is_booth_of(#[trigger] done[k], user_id@, b);
                assert(is_booth_of(now[k], user_id@, b));
            }
            if is_booth_of(models@[i as int], user_id@, b) {
                assert(is_booth_of(now[i as int], user_id@, b));
            }
            if is_booth(now, user_id@, b) {
                let k = choose|k: int|
                    0 <= k < now.len() && is_booth_of(#[trigger] now[k], user_id@, b);
                if k < i {
                    assert(is_booth_of(done[k], user_id@, b));
                }
            }
        }
    }
    assert(models@.take(models@.len() as int) == models@);
    out
}

/// The booths of a note do not depend on the order in which its models are kept: two
/// trees with the same models have the same list.
pub proof fn booths_ignore_the_order_of_models(
    a: Seq<GenericModel>,
    b: Seq<GenericModel>,
    user_id: Seq<char>,
    list_a: Seq<Seq<char>>,
    list_b: Seq<Seq<char>>,
)
    requires
        forall|m: GenericModel| #[trigger] a.contains(m) <==> b.contains(m),
        lists_booths(list_a, a, user_id),
        lists_booths(list_b, b, user_id),
    ensures
        list_a == list_b,
{
    assert forall|t: Seq<char>| is_booth(a, user_id, t) implies #[trigger] is_booth(
        b,
        user_id,
        t,
    ) by {
        let i = choose|i: int| 0 <= i < a.len() && is_booth_of(#[trigger] a[i], user_id, t);
        assert(a.contains(a[i]));
        let j = choose|j: int| 0 <= j < b.len() && b[j] == a[i];
        assert(is_booth_of(b[j], user_id, t));
    }
    assert forall|t: Seq<char>| is_booth(b, user_id, t) implies #[trigger] is_booth(
        a,
        user_id,
        t,
    ) by {
        let i = choose|i: int| 0 <= i < b.len() && is_booth_of(#[trigger] b[i], user_id, t);
        assert(b.contains(b[i]));
        assert(a.contains(b[i]));
        let j = choose|j: int| 0 <= j < a.len() && a[j] == b[i];
        assert(is_booth_of(a[j], user_id, t));
    }
    assert forall|t: Seq<char>| #[trigger] list_a.contains(t) <==> list_b.contains(t) by {}
    ascending_list_is_determined(list_a, list_b);
}

/// Only a page that was distributed per user asks for a layer of this user: a note
/// without such a page has the same booths whoever is signed in.
pub proof fn only_per_user_pages_depend_on_the_user(
    models: Seq<GenericModel>,
    user_a: Seq<char>,
    user_b: Seq<char>,
    list_a: Seq<Seq<char>>,
    list_b: Seq<Seq<char>>,
)
    requires
        forall|i: int|
            0 <= i < models.len() && page_id(#[trigger] models[i]) is Some ==> page_type(models[i])
                != 1,
        lists_booths(list_a, models, user_a),
        lists_booths(list_b, models, user_b),
    ensures
        list_a == list_b,
{
    assert forall|t: Seq<char>|
        is_booth(models, user_a, t) <==> #[trigger] is_booth(models, user_b, t) by {
        if is_booth(models, user_a, t) {
            let i = choose|i: int|
                0 <= i < models.len() && is_booth_of(#[trigger] models[i], user_a, t);
            assert(is_booth_of(models[i], user_b, t));
        }
        if is_booth(models, user_b, t) {
            let i = choose|i: int|
                0 <= i < models.len() && is_booth_of(#[trigger] models[i], user_b, t);
            assert(is_booth_of(models[i], user_a, t));
        }
    }
    assert forall|t: Seq<char>| #[trigger] list_a.contains(t) <==> list_b.contains(t) by {}
    ascending_list_is_determined(list_a, list_b);
}

/// Every page asks for itself and for its common layer; one that was distributed per
/// user asks for this user's layer too, and one per class for the class's.
pub proof fn every_page_has_its_booths(
    models: Seq<GenericModel>,
    user_id: Seq<char>,
    list: Seq<Seq<char>>,
    i: int,
    id: Seq<char>,
)
    requires
        lists_booths(list, models, user_id),
        0 <= i < models.len(),
        page_id(models[i]) == Some(id),
    ensures
        list.contains(id),
        list.contains(id + "_[layer-common]"@),
        page_type(models[i]) == 1 ==> list.contains(id + "_[layer-forUser]_"@ + user_id),
        page_type(models[i]) == 3 ==> list.contains(id + "_[layer-forClass]"@),
{
    let kind = page_type(models[i]);
    let booths = page_booths(id, kind, user_id);
    assert(booths[0] == id);
    assert(booths[1] == id + "_[layer-common]"@);
    if kind == 1 {
        assert(booths[2] == id + "_[layer-forUser]_"@ + user_id);
    }
    if kind == 3 {
        assert(booths[2] == id + "_[layer-forClass]"@);
    }
    assert forall|b: Seq<char>| #[trigger] booths.contains(b) implies list.contains(b) by {
        assert(is_booth_of(models[i], user_id, b));
    }
    assert(booths.contains(booths[0]));
    assert(booths.contains(booths[1]));
    if kind == 1 || kind == 3 {
        assert(booths.contains(booths[2]));
    }
}

/// A page has the booth of its own id and that of its common layer; one distributed per
/// user has that of this user's layer too, one distributed per class that of the class's
/// layer, and no page has any other.
pub proof fn a_page_has_these_booths_and_no_others(
    id: Seq<char>,
    kind: i64,
    user_id: Seq<char>,
    booth: Seq<char>,
)
    ensures
        page_booths(id, kind, user_id).contains(booth) <==> {
            ||| booth == id
            ||| booth == id + "_[layer-common]"@
            ||| kind == 1 && booth == id + "_[layer-forUser]_"@ + user_id
            ||| kind == 3 && booth == id + "_[layer-forClass]"@
        },
{
    let booths = page_booths(id, kind, user_id);
    assert(booths[0] == id);
    assert(booths[1] == id + "_[layer-common]"@);
    if kind == 1 {
        assert(booths[2] == id + "_[layer-forUser]_"@ + user_id);
    }
    if kind == 3 {
        assert(booths[2] == id + "_[layer-forClass]"@);
    }
    if booths.contains(booth) {
        let i = choose|i: int| 0 <= i < booths.len() && booths[i] == booth;
        assert(i == 0 || i == 1 || i == 2);
    }
}

/// The model is the page `id`, and asks for `booth`: for itself, for its common layer, or
/// for the layer that its type calls for.
pub open spec fn page_asks_for(
    model: GenericModel,
    id: Seq<char>,
    user_id: Seq<char>,
    booth: Seq<char>,
) -> bool {
    let props = json_model(model.props);
    &&& model.model_type@ == "$page"@
    &&& props.member("pageId"@) == Some(Json::Text(id))
    &&& {
        ||| booth == id
        ||| booth == id + "_[layer-common]"@
        ||| props.member("forSchoolPageType"@) == Some(Json::Integer(1)) && booth == id
            + "_[layer-forUser]_"@ + user_id
        ||| props.member("forSchoolPageType"@) == Some(Json::Integer(3)) && booth == id
            + "_[layer-forClass]"@
    }
}

/// A note's booths are those that its pages ask for, all of them and no others, each once,
/// and each before every one that is behind it in the order of texts. What is no page, or a
/// page whose id is no text, asks for none.
pub proof fn booths_are_what_the_pages_ask_for(
    models: Seq<GenericModel>,
    user_id: Seq<char>,
    list: Seq<Seq<char>>,
    booth: Seq<char>,
)
    requires
        lists_booths(list, models, user_id),
    ensures
        list.contains(booth) <==> exists|i: int, id: Seq<char>|
            0 <= i < models.len() && #[trigger] page_asks_for(models[i], id, user_id, booth),
        forall|i: int, j: int|
            0 <= i < j < list.len() ==> precedes(#[trigger] list[i], #[trigger] list[j]),
        list.no_duplicates(),
{
    if list.contains(booth) {
        let i = choose|i: int|
            0 <= i < models.len() && is_booth_of(#[trigger] models[i], user_id, booth);
        let id = page_id(models[i])->0;
        a_page_has_these_booths_and_no_others(id, page_type(models[i]), user_id, booth);
        assert(page_asks_for(models[i], id, user_id, booth));
    }
    if exists|i: int, id: Seq<char>|
        0 <= i < models.len() && #[trigger] page_asks_for(models[i], id, user_id, booth) {
        let (i, id) = choose|i: int, id: Seq<char>|
            0 <= i < models.len() && #[trigger] page_asks_for(models[i], id, user_id, booth);
        a_page_has_these_booths_and_no_others(id, page_type(models[i]), user_id, booth);
        assert(is_booth_of(models[i], user_id, booth));
    }
    assert forall|i: int, j: int| 0 <= i < list.len() && 0 <= j < list.len() && i != j implies list[i]
        != list[j] by {
        precedes_irreflexive(list[i]);
        if i < j {
            assert(precedes(list[i], list[j]));
        } else {
            assert(precedes(list[j], list[i]));
        }
    }
}

} // verus!
