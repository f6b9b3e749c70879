//! What a room holds, worked out from its whole history.

use super::apply::{Change, Direction};
use super::socket::Received;
use crate::collections::TextSet;
use vstd::prelude::*;

verus! {

/// What the room currently holds.
///
/// `added` minus `removed` is what is actually there. Both are needed: an element the
/// room never saw is a post that did not land, and one that it has since dropped was
/// erased by someone. They call for opposite repairs.
#[derive(Debug, Clone)]
pub struct RoomState {
    pub added: TextSet,
    pub removed: TextSet,
}

impl Default for RoomState {
    fn default() -> (r: RoomState)
        ensures
            r.added@ == Set::<Seq<char>>::empty(),
            r.removed@ == Set::<Seq<char>>::empty(),
    {
        RoomState { added: TextSet::new(), removed: TextSet::new() }
    }
}

/// The change adds the stroke `id`.
pub open spec fn adds<C>(change: Change<C>, id: Seq<char>) -> bool {
    change matches Change::Stroke { id: stroke, .. } && stroke@ == id
}

/// The change erases the element `id`.
pub open spec fn erases<C>(change: Change<C>, id: Seq<char>) -> bool {
    change matches Change::Remove { id: element } && element@ == id
}

/// The changes that a history carries, in order; a direction that does not decode
/// carries none.
pub open spec fn changes_of<C>(decoded: Seq<Option<Direction<C>>>) -> Seq<Change<C>>
    decreases decoded.len(),
{
    if decoded.len() == 0 {
        Seq::empty()
    } else {
        changes_of(decoded.drop_last()) + (match decoded.last() {
            Some(direction) => direction.changes@,
            None => Seq::empty(),
        })
    }
}

/// The room was told to add `id` at some time.
pub open spec fn ever_added<C>(changes: Seq<Change<C>>, id: Seq<char>) -> bool {
    exists|i: int| 0 <= i < changes.len() && adds(#[trigger] changes[i], id)
}

/// The room was told to drop `id` at some time.
pub open spec fn ever_removed<C>(changes: Seq<Change<C>>, id: Seq<char>) -> bool {
    exists|i: int| 0 <= i < changes.len() && erases(#[trigger] changes[i], id)
}

/// `state` is what these changes leave behind.
pub open spec fn surveyed<C>(state: RoomState, changes: Seq<Change<C>>) -> bool {
    &&& forall|id: Seq<char>| #[trigger] state.added@.contains(id) <==> ever_added(changes, id)
    &&& forall|id: Seq<char>| #[trigger] state.removed@.contains(id) <==> ever_removed(changes, id)
}

/// `decoded` is what `decode` made of the directions, one by one.
pub open spec fn decoded_by<C, D: Fn(&Vec<u8>) -> Option<Direction<C>>>(
    decode: D,
    directions: Seq<Received>,
    decoded: Seq<Option<Direction<C>>>,
) -> bool {
    &&& decoded.len() == directions.len()
    &&& forall|i: int|
        0 <= i < decoded.len() ==> call_ensures(
            decode,
            (&directions[i].2,),
            #[trigger] decoded[i],
        )
}

/// A change more is an addition more, or a removal more, or neither.
proof fn one_change_more<C>(changes: Seq<Change<C>>, change: Change<C>)
    ensures
        forall|id: Seq<char>| #[trigger]
            ever_added(changes.push(change), id) <==> ever_added(changes, id) || adds(change, id),
        forall|id: Seq<char>| #[trigger]
            ever_removed(changes.push(change), id) <==> ever_removed(changes, id) || erases(
                change,
                id,
            ),
{
    let more = changes.push(change);
    assert(more[changes.len() as int] == change);
    assert forall|id: Seq<char>| #[trigger] ever_added(more, id) <==> ever_added(changes, id)
        || adds(change, id) by {
        if ever_added(changes, id) {
            let i = choose|i: int| 0 <= i < changes.len() && adds(#[trigger] changes[i], id);
            assert(adds(more[i], id));
        }
        if ever_added(more, id) {
            let i = choose|i: int| 0 <= i < more.len() && adds(#[trigger] more[i], id);
            if i < changes.len() {
                assert(adds(changes[i], id));
            }
        }
    }
    assert forall|id: Seq<char>| #[trigger] ever_removed(more, id) <==> ever_removed(changes, id)
        || erases(change, id) by {
        if ever_removed(changes, id) {
            let i = choose|i: int| 0 <= i < changes.len() && erases(#[trigger] changes[i], id);
            assert(erases(more[i], id));
        }
        if ever_removed(more, id) {
            let i = choose|i: int| 0 <= i < more.len() && erases(#[trigger] more[i], id);
            if i < changes.len() {
                assert(erases(changes[i], id));
            }
        }
    }
}

impl RoomState {
    /// Whether the room holds the element: it was added and not taken back.
    pub fn holds(&self, element_id: &str) -> (r: bool)
        ensures
            r == (self.added@.contains(element_id@) && !self.removed@.contains(element_id@)),
    {
        self.added.contains(element_id) && !self.removed.contains(element_id)
    }

    /// Takes note of the changes of one direction.
    fn note<C>(&mut self, direction: &Direction<C>, Ghost(changes): Ghost<Seq<Change<C>>>)
        requires
            surveyed(*old(self), changes),
        ensures
            surveyed(*final(self), changes + direction.changes@),
    {
        assert(changes + direction.changes@.take(0) == changes);
        for i in 0..direction.changes.len()
            invariant
                surveyed(*self, changes + direction.changes@.take(i as int)),
        {
            let ghost so_far = changes + direction.changes@.take(i as int);
            proof {
                one_change_more(so_far, direction.changes@[i as int]);
                assert(so_far.push(direction.changes@[i as int]) == changes
                    + direction.changes@.take(i + 1));
            }
            match &direction.changes[i] {
                Change::Stroke { id, .. } => {
                    self.added.insert(id.clone());
                },
                Change::Remove { id } => {
                    self.removed.insert(id.clone());
                },
                Change::Other(_) => {},
            }
        }
        assert(direction.changes@.take(direction.changes@.len() as int) == direction.changes@);
    }
}

/// What a decoded history leaves behind, `None` standing for a direction that would
/// not decode.
pub fn survey_decoded<C>(decoded: &Vec<Option<Direction<C>>>) -> (r: RoomState)
    ensures
        surveyed(r, changes_of(decoded@)),
{
    let mut state = RoomState::default();
    for i in 0..decoded.len()
        invariant
            surveyed(state, changes_of(decoded@.take(i as int))),
    {
        assert(decoded@.take(i + 1).drop_last() == decoded@.take(i as int));
        match &decoded[i] {
            Some(direction) => {
                state.note(direction, Ghost(changes_of(decoded@.take(i as int))));
            },
            None => {
                assert(changes_of(decoded@.take(i + 1)) == changes_of(decoded@.take(i as int)));
            },
        }
    }
    assert(decoded@.take(decoded@.len() as int) == decoded@);
    state
}

/// Reads the room's history without touching any note. `decode` reads the bytes of a
/// direction; one that it does not read is passed over.
pub fn survey<C, D: Fn(&Vec<u8>) -> Option<Direction<C>>>(
    directions: &Vec<Received>,
    decode: &D,
) -> (r: RoomState)
    requires
        forall|payload: &Vec<u8>| call_requires(*decode, (payload,)),
    ensures
        exists|decoded: Seq<Option<Direction<C>>>| #[trigger]
            decoded_by(*decode, directions@, decoded) && surveyed(r, changes_of(decoded)),
{
    let mut decoded: Vec<Option<Direction<C>>> = Vec::new();
    for i in 0..directions.len()
        invariant
            forall|payload: &Vec<u8>| call_requires(*decode, (payload,)),
            decoded_by(*decode, directions@.take(i as int), decoded@),
    {
        decoded.push(decode(&directions[i].2));
    }
    assert(directions@.take(directions@.len() as int) == directions@);
    survey_decoded(&decoded)
}

/// What a history of two parts leaves behind is what both parts leave behind: nothing
/// that came later takes a note of an addition or of a removal back.
pub proof fn surveys_add_up<C>(
    first: Seq<Change<C>>,
    second: Seq<Change<C>>,
    a: RoomState,
    b: RoomState,
    both: RoomState,
)
    requires
        surveyed(a, first),
        surveyed(b, second),
        surveyed(both, first + second),
    ensures
        both.added@ == a.added@.union(b.added@),
        both.removed@ == a.removed@.union(b.removed@),
{
    let all = first + second;
    assert forall|id: Seq<char>| #[trigger]
        both.added@.contains(id) <==> a.added@.union(b.added@).contains(id) by {
        if ever_added(first, id) {
            let i = choose|i: int| 0 <= i < first.len() && adds(#[trigger] first[i], id);
            assert(adds(all[i], id));
        }
        if ever_added(second, id) {
            let i = choose|i: int| 0 <= i < second.len() && adds(#[trigger] second[i], id);
            assert(adds(all[first.len() + i], id));
        }
        if ever_added(all, id) {
            let i = choose|i: int| 0 <= i < all.len() && adds(#[trigger] all[i], id);
            if i < first.len() {
                assert(adds(first[i], id));
            } else {
                assert(adds(second[i - first.len()], id));
            }
        }
    }
    assert forall|id: Seq<char>| #[trigger]
        both.removed@.contains(id) <==> a.removed@.union(b.removed@).contains(id) by {
        if ever_removed(first, id) {
            let i = choose|i: int| 0 <= i < first.len() && erases(#[trigger] first[i], id);
            assert(erases(all[i], id));
        }
        if ever_removed(second, id) {
            let i = choose|i: int| 0 <= i < second.len() && erases(#[trigger] second[i], id);
            assert(erases(all[first.len() + i], id));
        }
        if ever_removed(all, id) {
            let i = choose|i: int| 0 <= i < all.len() && erases(#[trigger] all[i], id);
            if i < first.len() {
                assert(erases(first[i], id));
            } else {
                assert(erases(second[i - first.len()], id));
            }
        }
    }
}

/// What was erased stays erased: an element that the room was once told to drop is not
/// held, whatever followed.
pub proof fn what_was_erased_stays_erased<C>(
    first: Seq<Change<C>>,
    second: Seq<Change<C>>,
    state: RoomState,
    id: Seq<char>,
)
    requires
        ever_removed(first, id),
        surveyed(state, first + second),
    ensures
        state.removed@.contains(id),
{
    let all = first + second;
    let i = choose|i: int| 0 <= i < first.len() && erases(#[trigger] first[i], id);
    assert(erases(all[i], id));
}

/// Change `j` of direction `i` adds the stroke `id`.
pub open spec fn adds_at<C>(
    decoded: Seq<Option<Direction<C>>>,
    i: int,
    j: int,
    id: Seq<char>,
) -> bool {
    &&& decoded[i] is Some
    &&& 0 <= j < decoded[i]->0.changes@.len()
    &&& decoded[i]->0.changes@[j] matches Change::Stroke { id: stroke, .. }
    &&& stroke@ == id
}

/// Change `j` of direction `i` erases the element `id`.
pub open spec fn erases_at<C>(
    decoded: Seq<Option<Direction<C>>>,
    i: int,
    j: int,
    id: Seq<char>,
) -> bool {
    &&& decoded[i] is Some
    &&& 0 <= j < decoded[i]->0.changes@.len()
    &&& decoded[i]->0.changes@[j] matches Change::Remove { id: element }
    &&& element@ == id
}

/// The change is one of some direction that decodes.
spec fn is_carried<C>(decoded: Seq<Option<Direction<C>>>, change: Change<C>) -> bool {
    exists|i: int, j: int|
        0 <= i < decoded.len() && decoded[i] is Some && 0 <= j < decoded[i]->0.changes@.len()
            && #[trigger] decoded[i]->0.changes@[j] == change
}

/// Every change of every direction that decodes is one of the changes of the history, and
/// the history has no others.
proof fn changes_come_from_directions<C>(decoded: Seq<Option<Direction<C>>>)
    ensures
        forall|i: int, j: int|
            0 <= i < decoded.len() && decoded[i] is Some && 0 <= j < decoded[i]->0.changes@.len()
                ==> changes_of(decoded).contains(#[trigger] decoded[i]->0.changes@[j]),
        forall|k: int|
            0 <= k < changes_of(decoded).len() ==> is_carried(
                decoded,
                #[trigger] changes_of(decoded)[k],
            ),
    decreases decoded.len(),
{
    if decoded.len() > 0 {
        let front = decoded.drop_last();
        let n = front.len() as int;
        let before = changes_of(front);
        let all = changes_of(decoded);
        changes_come_from_directions(front);
        assert forall|i: int, j: int|
            0 <= i < decoded.len() && decoded[i] is Some && 0 <= j
                < decoded[i]->0.changes@.len() implies all.contains(
            #[trigger] decoded[i]->0.changes@[j],
        ) by {
            let change = decoded[i]->0.changes@[j];
            if i < n {
                assert(front[i] == decoded[i]);
                assert(before.contains(front[i]->0.changes@[j]));
                let k = choose|k: int| 0 <= k < before.len() && before[k] == change;
                assert(all[k] == change);
            } else {
                assert(all[before.len() + j] == change);
            }
        }
        assert forall|k: int| 0 <= k < all.len() implies is_carried(
            decoded,
            #[trigger] all[k],
        ) by {
            if k < before.len() {
                assert(before[k] == all[k]);
                assert(is_carried(front, before[k]));
                let (i, j) = choose|i: int, j: int|
                    0 <= i < front.len() && front[i] is Some && 0 <= j
                        < front[i]->0.changes@.len() && #[trigger] front[i]->0.changes@[j]
                        == before[k];
                assert(decoded[i] == front[i]);
                assert(decoded[i]->0.changes@[j] == all[k]);
            } else {
                assert(decoded[n]->0.changes@[k - before.len()] == all[k]);
            }
        }
    }
}

/// Every change of every direction counts, and nothing else does: an element was added if
/// and only if some change of some direction that decodes adds it, and erased if and only
/// if one erases it.
pub proof fn every_change_of_every_direction_counts<C>(
    state: RoomState,
    decoded: Seq<Option<Direction<C>>>,
    id: Seq<char>,
)
    requires
        surveyed(state, changes_of(decoded)),
    ensures
        state.added@.contains(id) <==> exists|i: int, j: int|
            0 <= i < decoded.len() && #[trigger] adds_at(decoded, i, j, id),
        state.removed@.contains(id) <==> exists|i: int, j: int|
            0 <= i < decoded.len() && #[trigger] erases_at(decoded, i, j, id),
{
    let all = changes_of(decoded);
    changes_come_from_directions(decoded);
    if state.added@.contains(id) {
        let k = choose|k: int| 0 <= k < all.len() && adds(#[trigger] all[k], id);
        assert(is_carried(decoded, all[k]));
        let (i, j) = choose|i: int, j: int|
            0 <= i < decoded.len() && decoded[i] is Some && 0 <= j < decoded[i]->0.changes@.len()
                && #[trigger] decoded[i]->0.changes@[j] == all[k];
        assert(adds_at(decoded, i, j, id));
    }
    if exists|i: int, j: int| 0 <= i < decoded.len() && #[trigger] adds_at(decoded, i, j, id) {
        let (i, j) = choose|i: int, j: int|
            0 <= i < decoded.len() && #[trigger] adds_at(decoded, i, j, id);
        let change = decoded[i]->0.changes@[j];
        assert(all.contains(change));
        let k = choose|k: int| 0 <= k < all.len() && all[k] == change;
        assert(adds(all[k], id));
    }
    if state.removed@.contains(id) {
        let k = choose|k: int| 0 <= k < all.len() && erases(#[trigger] all[k], id);
        assert(is_carried(decoded, all[k]));
        let (i, j) = choose|i: int, j: int|
            0 <= i < decoded.len() && decoded[i] is Some && 0 <= j < decoded[i]->0.changes@.len()
                && #[trigger] decoded[i]->0.changes@[j] == all[k];
        assert(erases_at(decoded, i, j, id));
    }
    if exists|i: int, j: int| 0 <= i < decoded.len() && #[trigger] erases_at(decoded, i, j, id) {
        let (i, j) = choose|i: int, j: int|
            0 <= i < decoded.len() && #[trigger] erases_at(decoded, i, j, id);
        let change = decoded[i]->0.changes@[j];
        assert(all.contains(change));
        let k = choose|k: int| 0 <= k < all.len() && all[k] == change;
        assert(erases(all[k], id));
    }
}

/// The direction says that the stroke `id` was added.
pub open spec fn says_added<C>(direction: Direction<C>, id: Seq<char>) -> bool {
    exists|j: int|
        0 <= j < direction.changes@.len() && ((#[trigger] direction.changes@[j]) matches Change::Stroke { id: stroke, .. }
            && stroke@ == id)
}

/// The direction says that the element `id` was erased.
pub open spec fn says_erased<C>(direction: Direction<C>, id: Seq<char>) -> bool {
    exists|j: int|
        0 <= j < direction.changes@.len() && ((#[trigger] direction.changes@[j]) matches Change::Remove { id: element }
            && element@ == id)
}

/// No direction of the history is passed over: where the bytes of one, however they are
/// read, say that an element was added, it was added, and where they say that one was
/// erased, it was erased.
pub proof fn a_survey_reads_every_direction<C, D: Fn(&Vec<u8>) -> Option<Direction<C>>>(
    decode: D,
    directions: Seq<Received>,
    state: RoomState,
    id: Seq<char>,
    n: int,
)
    requires
        exists|decoded: Seq<Option<Direction<C>>>| #[trigger]
            decoded_by(decode, directions, decoded) && surveyed(state, changes_of(decoded)),
        0 <= n < directions.len(),
    ensures
        (forall|out: Option<Direction<C>>| #[trigger]
            call_ensures(decode, (&directions[n].2,), out) ==> out is Some && says_added(
                out->0,
                id,
            )) ==> state.added@.contains(id),
        (forall|out: Option<Direction<C>>| #[trigger]
            call_ensures(decode, (&directions[n].2,), out) ==> out is Some && says_erased(
                out->0,
                id,
            )) ==> state.removed@.contains(id),
{
    let decoded = choose|decoded: Seq<Option<Direction<C>>>| #[trigger]
        decoded_by(decode, directions, decoded) && surveyed(state, changes_of(decoded));
    every_change_of_every_direction_counts(state, decoded, id);
    let out = decoded[n];
    assert(call_ensures(decode, (&directions[n].2,), out));
    if out is Some && says_added(out->0, id) {
        let direction = out->0;
        let j = choose|j: int|
            0 <= j < direction.changes@.len() && ((#[trigger] direction.changes@[j]) matches Change::Stroke { id: stroke, .. }
            && stroke@ == id);
        assert(adds_at(decoded, n, j, id));
    }
    if out is Some && says_erased(out->0, id) {
        let direction = out->0;
        let j = choose|j: int|
            0 <= j < direction.changes@.len() && ((#[trigger] direction.changes@[j]) matches Change::Remove { id: element }
            && element@ == id);
        assert(erases_at(decoded, n, j, id));
    }
}

/// A survey makes nothing up: what was added, or erased, is what a direction says that was
/// received, as its bytes decode.
pub proof fn what_a_survey_found_was_received<C, D: Fn(&Vec<u8>) -> Option<Direction<C>>>(
    decode: D,
    directions: Seq<Received>,
    state: RoomState,
    id: Seq<char>,
)
    requires
        exists|decoded: Seq<Option<Direction<C>>>| #[trigger]
            decoded_by(decode, directions, decoded) && surveyed(state, changes_of(decoded)),
    ensures
        state.added@.contains(id) ==> exists|n: int, direction: Direction<C>|
            0 <= n < directions.len() && says_added(direction, id) && #[trigger] call_ensures(
                decode,
                (&directions[n].2,),
                Some(direction),
            ),
        state.removed@.contains(id) ==> exists|n: int, direction: Direction<C>|
            0 <= n < directions.len() && says_erased(direction, id) && #[trigger] call_ensures(
                decode,
                (&directions[n].2,),
                Some(direction),
            ),
{
    let decoded = choose|decoded: Seq<Option<Direction<C>>>| #[trigger]
        decoded_by(decode, directions, decoded) && surveyed(state, changes_of(decoded));
    every_change_of_every_direction_counts(state, decoded, id);
    if state.added@.contains(id) {
        let (n, j) = choose|i: int, j: int|
            0 <= i < decoded.len() && #[trigger] adds_at(decoded, i, j, id);
        assert(call_ensures(decode, (&directions[n].2,), decoded[n]));
        let direction = decoded[n]->0;
        assert(call_ensures(decode, (&directions[n].2,), Some(direction)));
        assert(direction.changes@[j] is Stroke);
        assert(says_added(direction, id));
    }
    if state.removed@.contains(id) {
        let (n, j) = choose|i: int, j: int|
            0 <= i < decoded.len() && #[trigger] erases_at(decoded, i, j, id);
        assert(call_ensures(decode, (&directions[n].2,), decoded[n]));
        let direction = decoded[n]->0;
        assert(call_ensures(decode, (&directions[n].2,), Some(direction)));
        assert(direction.changes@[j] is Remove);
        assert(says_erased(direction, id));
    }
}

} // verus!
