//! Folding what a room replayed into a note.

use super::apply::{Applied, Asset, Direction};
use super::socket::Received;
use crate::collections::TextMap;
use crate::model::GenericTree;
use crate::text::{
    ascending, ascending_list_is_determined, decimal, decimal_of, joined, precedes,
    precedes_irreflexive, precedes_total, precedes_transitive, text_precedes, texts,
};
use vstd::prelude::*;

verus! {

/// What a pull found, for the user rather than for the log.
#[derive(Debug, Clone)]
pub struct RoomPull {
    pub directions: usize,
    /// How far each booth was read, so the next connection can carry on.
    pub marks: Vec<(String, i64)>,
    /// Everything the room replayed, kept so a resync can work out what the room
    /// actually holds without asking twice.
    pub history: Vec<Received>,
    pub units: usize,
    pub strokes: usize,
    /// Elements the room says have been erased since.
    pub removed: usize,
    pub assets: usize,
    /// Strokes now in the note, by the id the room knows them by, and the layer they
    /// are on.
    pub stroke_ids: Vec<(String, String)>,
    /// Edit kinds that were received and not applied, named and counted.
    pub unsupported: Vec<String>,
    /// Set when the room could not be reached. The note still opens.
    pub error: Option<String>,
}

impl RoomPull {
    /// Nothing was found, and nothing went wrong.
    pub open spec fn is_blank(self) -> bool {
        &&& self.directions == 0
        &&& self.marks@.len() == 0
        &&& self.history@.len() == 0
        &&& self.units == 0
        &&& self.strokes == 0
        &&& self.removed == 0
        &&& self.assets == 0
        &&& self.stroke_ids@.len() == 0
        &&& self.unsupported@.len() == 0
        &&& self.error is None
    }
}

impl Default for RoomPull {
    fn default() -> (r: RoomPull)
        ensures
            r.is_blank(),
    {
        RoomPull {
            directions: 0,
            marks: Vec::new(),
            history: Vec::new(),
            units: 0,
            strokes: 0,
            removed: 0,
            assets: 0,
            stroke_ids: Vec::new(),
            unsupported: Vec::new(),
            error: None,
        }
    }
}

/// The kind under which a direction that will not decode is counted.
pub open spec fn unreadable() -> Seq<char> {
    "読み取れない Direction"@
}

/// How often `x` occurs in `s`.
pub open spec fn occurrences(s: Seq<Seq<char>>, x: Seq<char>) -> nat
    decreases s.len(),
{
    if s.len() == 0 {
        0
    } else {
        occurrences(s.drop_last(), x) + (if s.last() == x {
            1nat
        } else {
            0nat
        })
    }
}

/// The counts of a number of outcomes, added up.
pub struct Totals {
    pub units: nat,
    pub strokes: nat,
    pub removed: nat,
}

/// The counts of all directions that were applied, added up.
pub open spec fn totals(outcomes: Seq<Option<Applied>>) -> Totals
    decreases outcomes.len(),
{
    if outcomes.len() == 0 {
        Totals { units: 0, strokes: 0, removed: 0 }
    } else {
        let t = totals(outcomes.drop_last());
        match outcomes.last() {
            None => t,
            Some(a) => Totals {
                units: t.units + a.units as nat,
                strokes: t.strokes + a.strokes as nat,
                removed: t.removed + a.removed as nat,
            },
        }
    }
}

/// The stroke ids of all directions that were applied, in order.
pub open spec fn stroke_ids_of(outcomes: Seq<Option<Applied>>) -> Seq<(String, String)>
    decreases outcomes.len(),
{
    if outcomes.len() == 0 {
        Seq::empty()
    } else {
        stroke_ids_of(outcomes.drop_last()) + (match outcomes.last() {
            None => Seq::empty(),
            Some(a) => a.stroke_ids@,
        })
    }
}

/// The assets of all directions that were applied, in order.
pub open spec fn assets_of(outcomes: Seq<Option<Applied>>) -> Seq<Asset>
    decreases outcomes.len(),
{
    if outcomes.len() == 0 {
        Seq::empty()
    } else {
        assets_of(outcomes.drop_last()) + (match outcomes.last() {
            None => Seq::empty(),
            Some(a) => a.assets@,
        })
    }
}

/// The kinds that one outcome counts.
pub open spec fn kinds_in(outcome: Option<Applied>) -> Seq<Seq<char>> {
    match outcome {
        None => seq![unreadable()],
        Some(a) => texts(a.unsupported@),
    }
}

/// The kinds that were not applied, in order, each as often as it came.
pub open spec fn kinds_of(outcomes: Seq<Option<Applied>>) -> Seq<Seq<char>>
    decreases outcomes.len(),
{
    if outcomes.len() == 0 {
        Seq::empty()
    } else {
        kinds_of(outcomes.drop_last()) + kinds_in(outcomes.last())
    }
}

/// Every count is one that a `usize` holds.
pub open spec fn counts_fit(outcomes: Seq<Option<Applied>>) -> bool {
    &&& totals(outcomes).units <= usize::MAX
    &&& totals(outcomes).strokes <= usize::MAX
    &&& totals(outcomes).removed <= usize::MAX
    &&& forall|k: Seq<char>| #[trigger] occurrences(kinds_of(outcomes), k) <= usize::MAX
}

/// The line that reports a kind.
pub open spec fn kind_line(kind: Seq<char>, count: nat) -> Seq<char> {
    kind + " x"@ + decimal(count)
}

/// `lines` reports each of `kinds` once, in ascending order of the kind, with how
/// often it came.
pub open spec fn reports(lines: Seq<Seq<char>>, kinds: Seq<Seq<char>>) -> bool {
    exists|keys: Seq<Seq<char>>|
        {
            &&& #[trigger] ascending(keys)
            &&& forall|k: Seq<char>| #[trigger] keys.contains(k) <==> kinds.contains(k)
            &&& lines == keys.map_values(|k: Seq<char>| kind_line(k, occurrences(kinds, k)))
        }
}

/// `pull` and `assets` are what the outcomes amount to.
pub open spec fn amounts_to(
    pull: RoomPull,
    assets: Seq<Asset>,
    outcomes: Seq<Option<Applied>>,
) -> bool {
    &&& pull.directions == outcomes.len()
    &&& pull.units == totals(outcomes).units
    &&& pull.strokes == totals(outcomes).strokes
    &&& pull.removed == totals(outcomes).removed
    &&& pull.stroke_ids@ == stroke_ids_of(outcomes)
    &&& assets == assets_of(outcomes)
    &&& pull.assets == assets.len()
    &&& reports(texts(pull.unsupported@), kinds_of(outcomes))
}

/// The keys of a table of counts.
spec fn keys_of(table: Seq<(String, usize)>) -> Seq<Seq<char>> {
    table.map_values(|e: (String, usize)| e.0@)
}

/// `table` holds each of `kinds` once, in ascending order, with how often it came.
spec fn counts(table: Seq<(String, usize)>, kinds: Seq<Seq<char>>) -> bool {
    &&& ascending(keys_of(table))
    &&& forall|k: Seq<char>| #[trigger] keys_of(table).contains(k) <==> kinds.contains(k)
    &&& forall|i: int|
        0 <= i < table.len() ==> (#[trigger] table[i]).1 == occurrences(kinds, table[i].0@)
}

/// A text that does not occur occurs no times.
proof fn occurrences_of_absent(s: Seq<Seq<char>>, x: Seq<char>)
    requires
        !s.contains(x),
    ensures
        occurrences(s, x) == 0,
    decreases s.len(),
{
    if s.len() > 0 {
        assert(s.contains(s.last()));
        assert forall|t: Seq<char>| s.drop_last().contains(t) implies s.contains(t) by {
            let k = choose|k: int| 0 <= k < s.drop_last().len() && s.drop_last()[k] == t;
            assert(s[k] == t);
        }
        occurrences_of_absent(s.drop_last(), x);
    }
}

/// A text occurs in a whole as often as in its two parts.
proof fn occurrences_of_parts(a: Seq<Seq<char>>, b: Seq<Seq<char>>, x: Seq<char>)
    ensures
        occurrences(a + b, x) == occurrences(a, x) + occurrences(b, x),
    decreases b.len(),
{
    if b.len() == 0 {
        assert(a + b == a);
    } else {
        occurrences_of_parts(a, b.drop_last(), x);
        assert((a + b).drop_last() == a + b.drop_last());
    }
}

/// Counts one more of a kind; `false` where the count is at its limit.
fn count_kind(table: &mut Vec<(String, usize)>, kind: &String, Ghost(kinds): Ghost<
    Seq<Seq<char>>,
>) -> (r: bool)
    requires
        counts(old(table)@, kinds),
    ensures
        r ==> counts(final(table)@, kinds.push(kind@)),
        r <==> occurrences(kinds.push(kind@), kind@) <= usize::MAX,
{
    let ghost keys = keys_of(table@);
    let ghost more = kinds.push(kind@);
    assert(more.drop_last() == kinds);
    assert forall|k: Seq<char>| #[trigger] more.contains(k) <==> kinds.contains(k) || k
        == kind@ by {
        if kinds.contains(k) {
            let n = choose|n: int| 0 <= n < kinds.len() && kinds[n] == k;
            assert(more[n] == k);
        }
        assert(more[kinds.len() as int] == kind@);
        if more.contains(k) && k != kind@ {
            let n = choose|n: int| 0 <= n < more.len() && more[n] == k;
            assert(kinds[n] == k);
        }
    }
    let mut i: usize = 0;
    while i < table.len() && text_precedes(&table[i].0, kind)
        invariant
            i <= table.len(),
            table@ == old(table)@,
            keys == keys_of(table@),
            forall|j: int| 0 <= j < i ==> precedes(#[trigger] keys[j], kind@),
        decreases table.len() - i,
    {
        i = i + 1;
    }
    if i < table.len() && table[i].0 == *kind {
        assert(keys[i as int] == kind@);
        assert(table@[i as int].1 == occurrences(kinds, kind@));
        let n: usize = table[i].1;
        if n == usize::MAX {
            return false;
        }
        let name = table[i].0.clone();
        table.set(i, (name, n + 1));
        assert(keys_of(table@) == keys);
        assert forall|j: int| 0 <= j < table@.len() implies (#[trigger] table@[j]).1
            == occurrences(more, table@[j].0@) by {
            assert(old(table)@[j].1 == occurrences(kinds, old(table)@[j].0@));
            if j != i {
                if j < i {
                    assert(precedes(keys[j], keys[i as int]));
                } else {
                    assert(precedes(keys[i as int], keys[j]));
                }
                precedes_irreflexive(kind@);
                assert(keys[j] != kind@);
            }
        }
        true
    } else {
        proof {
            assert forall|j: int| i <= j < keys.len() implies precedes(
                kind@,
                #[trigger] keys[j],
            ) by {
                precedes_total(keys[i as int], kind@);
                if j > i {
                    precedes_transitive(kind@, keys[i as int], keys[j]);
                }
            }
            precedes_irreflexive(kind@);
            assert(!keys.contains(kind@));
            occurrences_of_absent(kinds, kind@);
        }
        table.insert(i, (kind.clone(), 1));
        let ghost after = keys_of(table@);
        assert(after == keys.insert(i as int, kind@));
        assert forall|k: Seq<char>| #[trigger] after.contains(k) <==> more.contains(k) by {
            if keys.contains(k) {
                let n = choose|n: int| 0 <= n < keys.len() && keys[n] == k;
                if n < i {
                    assert(after[n] == k);
                } else {
                    assert(after[n + 1] == k);
                }
            }
            assert(after[i as int] == kind@);
            if after.contains(k) && k != kind@ {
                let n = choose|n: int| 0 <= n < after.len() && after[n] == k;
                if n < i {
                    assert(keys[n] == k);
                } else {
                    assert(keys[n - 1] == k);
                }
            }
        }
        assert forall|j: int| 0 <= j < table@.len() implies (#[trigger] table@[j]).1
            == occurrences(more, table@[j].0@) by {
            if j < i {
                assert(keys[j] == old(table)@[j].0@);
                assert(table@[j] == old(table)@[j]);
            } else if j > i {
                assert(keys[j - 1] == old(table)@[j - 1].0@);
                assert(table@[j] == old(table)@[j - 1]);
            }
        }
        true
    }
}

/// The counts of the first outcomes are at most those of all of them.
proof fn counts_of_prefix(outcomes: Seq<Option<Applied>>, n: int)
    requires
        0 <= n <= outcomes.len(),
    ensures
        totals(outcomes.take(n)).units <= totals(outcomes).units,
        totals(outcomes.take(n)).strokes <= totals(outcomes).strokes,
        totals(outcomes.take(n)).removed <= totals(outcomes).removed,
        forall|k: Seq<char>|
            occurrences(kinds_of(outcomes.take(n)), k) <= #[trigger] occurrences(
                kinds_of(outcomes),
                k,
            ),
    decreases outcomes.len(),
{
    if n == outcomes.len() {
        assert(outcomes.take(n) == outcomes);
    } else {
        let front = outcomes.drop_last();
        counts_of_prefix(front, n);
        assert(front.take(n) == outcomes.take(n));
        assert forall|k: Seq<char>|
            occurrences(kinds_of(outcomes.take(n)), k) <= #[trigger] occurrences(
                kinds_of(outcomes),
                k,
            ) by {
            occurrences_of_parts(kinds_of(front), kinds_in(outcomes.last()), k);
            assert(occurrences(kinds_of(outcomes.take(n)), k) <= occurrences(kinds_of(front), k));
        }
    }
}

/// Counts every kind of one outcome; `false` where a count is at its limit.
fn count_kinds(table: &mut Vec<(String, usize)>, found: &Vec<String>, Ghost(kinds): Ghost<
    Seq<Seq<char>>,
>) -> (r: bool)
    requires
        counts(old(table)@, kinds),
    ensures
        r ==> counts(final(table)@, kinds + texts(found@)),
        !r ==> exists|k: Seq<char>| #[trigger]
            occurrences(kinds + texts(found@), k) > usize::MAX,
{
    assert(kinds + texts(found@.take(0)) == kinds);
    for i in 0..found.len()
        invariant
            counts(table@, kinds + texts(found@.take(i as int))),
    {
        let ghost so_far = kinds + texts(found@.take(i as int));
        assert(so_far.push(found@[i as int]@) == kinds + texts(found@.take(i + 1)));
        if !count_kind(table, &found[i], Ghost(so_far)) {
            proof {
                let rest = texts(found@.skip(i + 1));
                assert(kinds + texts(found@) == kinds + texts(found@.take(i + 1)) + rest);
                occurrences_of_parts(
                    kinds + texts(found@.take(i + 1)),
                    rest,
                    found@[i as int]@,
                );
            }
            return false;
        }
    }
    assert(found@.take(found@.len() as int) == found@);
    true
}

/// The lines that report a table of counts.
fn lines_of(table: &Vec<(String, usize)>, Ghost(kinds): Ghost<Seq<Seq<char>>>) -> (r: Vec<String>)
    requires
        counts(table@, kinds),
    ensures
        reports(texts(r@), kinds),
{
    let ghost keys = keys_of(table@);
    let ghost lines = keys.map_values(|k: Seq<char>| kind_line(k, occurrences(kinds, k)));
    let mut out: Vec<String> = Vec::new();
    for i in 0..table.len()
        invariant
            counts(table@, kinds),
            keys == keys_of(table@),
            lines == keys.map_values(|k: Seq<char>| kind_line(k, occurrences(kinds, k))),
            texts(out@) == lines.take(i as int),
    {
        let line = joined(&joined(&table[i].0, " x"), &decimal_of(table[i].1));
        assert(line@ == lines[i as int]);
        assert(lines.take(i + 1) == lines.take(i as int).push(line@));
        assert(texts(out@.push(line)) == texts(out@).push(line@));
        out.push(line);
    }
    assert(lines.take(lines.len() as int) == lines);
    out
}

/// A table holds only counts that a `usize` holds.
proof fn counts_are_bounded(table: Seq<(String, usize)>, kinds: Seq<Seq<char>>)
    requires
        counts(table, kinds),
    ensures
        forall|k: Seq<char>| #[trigger] occurrences(kinds, k) <= usize::MAX,
{
    assert forall|k: Seq<char>| #[trigger] occurrences(kinds, k) <= usize::MAX by {
        let keys = keys_of(table);
        if keys.contains(k) {
            let i = choose|i: int| 0 <= i < keys.len() && keys[i] == k;
            assert(table[i].1 == occurrences(kinds, k));
        } else {
            occurrences_of_absent(kinds, k);
        }
    }
}

/// Adds up what applying the directions of a room did, `None` standing for one that
/// would not decode: such a one is counted rather than fatal. There is no result
/// where a count is more than a `usize` holds.
pub fn tally(outcomes: Vec<Option<Applied>>) -> (r: Option<(RoomPull, Vec<Asset>)>)
    ensures
        match r {
            Some((pull, assets)) => {
                &&& counts_fit(outcomes@)
                &&& amounts_to(pull, assets@, outcomes@)
                &&& pull.marks@.len() == 0
                &&& pull.history@.len() == 0
                &&& pull.error is None
            },
            None => !counts_fit(outcomes@),
        },
{
    let mut pull = RoomPull::default();
    pull.directions = outcomes.len();
    let mut assets: Vec<Asset> = Vec::new();
    let mut table: Vec<(String, usize)> = Vec::new();
    let mut unread: Vec<String> = Vec::new();
    unread.push("読み取れない Direction".to_owned());
    let ghost all = outcomes@;
    assert(all.take(0).len() == 0);
    for outcome in it: outcomes
        invariant
            it.seq() == all,
            all == outcomes@,
            pull.directions == all.len(),
            pull.marks@.len() == 0,
            pull.history@.len() == 0,
            pull.error is None,
            texts(unread@) == seq![unreadable()],
            pull.units == totals(all.take(it.index())).units,
            pull.strokes == totals(all.take(it.index())).strokes,
            pull.removed == totals(all.take(it.index())).removed,
            pull.stroke_ids@ == stroke_ids_of(all.take(it.index())),
            assets@ == assets_of(all.take(it.index())),
            counts(table@, kinds_of(all.take(it.index()))),
    {
        let ghost n = it.index();
        let ghost kinds = kinds_of(all.take(n));
        proof {
            assert(all.take(n + 1).drop_last() == all.take(n));
            counts_of_prefix(all, n + 1);
        }
        match outcome {
            None => {
                if !count_kinds(&mut table, &unread, Ghost(kinds)) {
                    proof {
                        let k = choose|k: Seq<char>| #[trigger]
                            occurrences(kinds + texts(unread@), k) > usize::MAX;
                        assert(occurrences(kinds_of(all), k) > usize::MAX);
                    }
                    return None;
                }
            },
            Some(applied) => {
                let mut applied = applied;
                pull.units = match pull.units.checked_add(applied.units) {
                    Some(sum) => sum,
                    None => return None,
                };
                pull.strokes = match pull.strokes.checked_add(applied.strokes) {
                    Some(sum) => sum,
                    None => return None,
                };
                pull.removed = match pull.removed.checked_add(applied.removed) {
                    Some(sum) => sum,
                    None => return None,
                };
                pull.stroke_ids.append(&mut applied.stroke_ids);
                assets.append(&mut applied.assets);
                if !count_kinds(&mut table, &applied.unsupported, Ghost(kinds)) {
                    proof {
                        let k = choose|k: Seq<char>| #[trigger]
                            occurrences(kinds + texts(applied.unsupported@), k) > usize::MAX;
                        assert(occurrences(kinds_of(all), k) > usize::MAX);
                    }
                    return None;
                }
            },
        }
    }
    assert(all.take(all.len() as int) == all);
    proof {
        counts_are_bounded(table@, kinds_of(all));
    }
    pull.assets = assets.len();
    pull.unsupported = lines_of(&table, Ghost(kinds_of(all)));
    Some((pull, assets))
}

/// One direction came to `outcome`, and took the note from `before` to `after`: it
/// would not decode and left the note alone, or it decoded and was applied.
pub open spec fn came_to<C, D, A>(
    decode: D,
    apply: A,
    direction: Received,
    aliases: TextMap,
    before: GenericTree,
    after: GenericTree,
    outcome: Option<Applied>,
) -> bool where
    D: Fn(&Vec<u8>) -> Option<Direction<C>>,
    A: Fn(GenericTree, &String, &Direction<C>, &TextMap) -> (GenericTree, Applied),
 {
    exists|decoded: Option<Direction<C>>| #[trigger]
        call_ensures(decode, (&direction.2,), decoded) && match (decoded, outcome) {
            (None, None) => after == before,
            (Some(d), Some(applied)) => call_ensures(
                apply,
                (before, &direction.0, &d, &aliases),
                (after, applied),
            ),
            _ => false,
        }
}

/// The directions, each in its turn, came to `outcomes` and took the note through
/// `trees`.
pub open spec fn replayed_by<C, D, A>(
    decode: D,
    apply: A,
    directions: Seq<Received>,
    aliases: TextMap,
    trees: Seq<GenericTree>,
    outcomes: Seq<Option<Applied>>,
) -> bool where
    D: Fn(&Vec<u8>) -> Option<Direction<C>>,
    A: Fn(GenericTree, &String, &Direction<C>, &TextMap) -> (GenericTree, Applied),
 {
    &&& outcomes.len() == directions.len()
    &&& trees.len() == directions.len() + 1
    &&& forall|i: int|
        0 <= i < directions.len() ==> came_to(
            decode,
            apply,
            directions[i],
            aliases,
            trees[i],
            trees[i + 1],
            #[trigger] outcomes[i],
        )
}

/// Folding the directions into the note `tree` comes to `result`: the note that applying
/// them one after the other leads to, with what that amounts to, or nothing where a count
/// is more than a `usize` holds.
pub open spec fn folds_to<C, D, A>(
    decode: D,
    apply: A,
    directions: Seq<Received>,
    aliases: TextMap,
    tree: GenericTree,
    result: Option<(GenericTree, RoomPull, Vec<Asset>)>,
) -> bool where
    D: Fn(&Vec<u8>) -> Option<Direction<C>>,
    A: Fn(GenericTree, &String, &Direction<C>, &TextMap) -> (GenericTree, Applied),
 {
    exists|trees: Seq<GenericTree>, outcomes: Seq<Option<Applied>>|
        {
            &&& #[trigger] replayed_by(decode, apply, directions, aliases, trees, outcomes)
            &&& trees[0] == tree
            &&& match result {
                Some((after, pull, assets)) => {
                    &&& counts_fit(outcomes)
                    &&& after == trees.last()
                    &&& amounts_to(pull, assets@, outcomes)
                    &&& pull.marks@.len() == 0
                    &&& pull.history@.len() == 0
                    &&& pull.error is None
                },
                None => !counts_fit(outcomes),
            }
        }
}

/// Applies what came back, in the order it came back.
///
/// `decode` reads the bytes of a direction, and `apply` makes its changes to the note.
/// There is no result where a count is more than a `usize` holds.
pub fn fold<C, D, A>(
    tree: GenericTree,
    directions: &Vec<Received>,
    aliases: &TextMap,
    decode: &D,
    apply: &A,
) -> (r: Option<(GenericTree, RoomPull, Vec<Asset>)>) where
    D: Fn(&Vec<u8>) -> Option<Direction<C>>,
    A: Fn(GenericTree, &String, &Direction<C>, &TextMap) -> (GenericTree, Applied),

    requires
        forall|payload: &Vec<u8>| call_requires(*decode, (payload,)),
        forall|t: GenericTree, booth: &String, d: &Direction<C>, a: &TextMap|
            call_requires(*apply, (t, booth, d, a)),
    ensures
        folds_to(*decode, *apply, directions@, *aliases, tree, r),
{
    let mut outcomes: Vec<Option<Applied>> = Vec::new();
    let ghost mut trees: Seq<GenericTree> = seq![tree];
    let mut note = tree;
    for i in 0..directions.len()
        invariant
            forall|payload: &Vec<u8>| call_requires(*decode, (payload,)),
            forall|t: GenericTree, booth: &String, d: &Direction<C>, a: &TextMap|
                call_requires(*apply, (t, booth, d, a)),
            trees[0] == tree,
            note == trees.last(),
            replayed_by(
                *decode,
                *apply,
                directions@.take(i as int),
                *aliases,
                trees,
                outcomes@,
            ),
    {
        let ghost before = trees;
        let ghost so_far = outcomes@;
        let decoded = decode(&directions[i].2);
        match decoded {
            None => {
                outcomes.push(None);
            },
            Some(direction) => {
                let (after, applied) = apply(note, &directions[i].0, &direction, aliases);
                note = after;
                outcomes.push(Some(applied));
            },
        }
        proof {
            trees = trees.push(note);
            assert(came_to(
                *decode,
                *apply,
                directions@[i as int],
                *aliases,
                trees[i as int],
                trees[i + 1],
                outcomes@[i as int],
            ));
            assert forall|j: int| 0 <= j < i + 1 implies came_to(
                *decode,
                *apply,
                directions@.take(i + 1)[j],
                *aliases,
                trees[j],
                trees[j + 1],
                #[trigger] outcomes@[j],
            ) by {
                if j < i {
                    assert(outcomes@[j] == so_far[j]);
                    assert(directions@.take(i as int)[j] == directions@[j]);
                    assert(trees[j] == before[j] && trees[j + 1] == before[j + 1]);
                }
            }
        }
    }
    assert(directions@.take(directions@.len() as int) == directions@);
    match tally(outcomes) {
        Some((pull, assets)) => Some((note, pull, assets)),
        None => None,
    }
}

/// A direction that will not decode is counted, and does nothing else.
pub proof fn an_unreadable_direction_is_only_counted(outcomes: Seq<Option<Applied>>)
    ensures
        totals(outcomes.push(None)) == totals(outcomes),
        stroke_ids_of(outcomes.push(None)) == stroke_ids_of(outcomes),
        assets_of(outcomes.push(None)) == assets_of(outcomes),
        kinds_of(outcomes.push(None)) == kinds_of(outcomes).push(unreadable()),
{
    let more = outcomes.push(None);
    assert(more.drop_last() == outcomes);
    assert(stroke_ids_of(more) == stroke_ids_of(outcomes));
    assert(assets_of(more) == assets_of(outcomes));
    assert(kinds_of(more) == kinds_of(outcomes).push(unreadable()));
}

/// What a history of two parts amounts to is what its parts amount to, one behind the
/// other.
pub proof fn two_parts_amount_to_the_whole(
    first: Seq<Option<Applied>>,
    second: Seq<Option<Applied>>,
)
    ensures
        totals(first + second).units == totals(first).units + totals(second).units,
        totals(first + second).strokes == totals(first).strokes + totals(second).strokes,
        totals(first + second).removed == totals(first).removed + totals(second).removed,
        stroke_ids_of(first + second) == stroke_ids_of(first) + stroke_ids_of(second),
        assets_of(first + second) == assets_of(first) + assets_of(second),
        kinds_of(first + second) == kinds_of(first) + kinds_of(second),
    decreases second.len(),
{
    let all = first + second;
    if second.len() == 0 {
        assert(all == first);
        assert(stroke_ids_of(all) == stroke_ids_of(first) + stroke_ids_of(second));
        assert(assets_of(all) == assets_of(first) + assets_of(second));
        assert(kinds_of(all) == kinds_of(first) + kinds_of(second));
    } else {
        two_parts_amount_to_the_whole(first, second.drop_last());
        assert(all.drop_last() == first + second.drop_last());
        assert(stroke_ids_of(all) == stroke_ids_of(first) + stroke_ids_of(second));
        assert(assets_of(all) == assets_of(first) + assets_of(second));
        assert(kinds_of(all) == kinds_of(first) + kinds_of(second));
    }
}

/// Replaying one part of a history, and then the other into the note that this led to,
/// is replaying the whole.
pub proof fn two_replays_are_one<C, D, A>(
    decode: D,
    apply: A,
    first: Seq<Received>,
    second: Seq<Received>,
    aliases: TextMap,
    trees_a: Seq<GenericTree>,
    trees_b: Seq<GenericTree>,
    outcomes_a: Seq<Option<Applied>>,
    outcomes_b: Seq<Option<Applied>>,
) where
    D: Fn(&Vec<u8>) -> Option<Direction<C>>,
    A: Fn(GenericTree, &String, &Direction<C>, &TextMap) -> (GenericTree, Applied),

    requires
        replayed_by(decode, apply, first, aliases, trees_a, outcomes_a),
        replayed_by(decode, apply, second, aliases, trees_b, outcomes_b),
        trees_a.last() == trees_b[0],
    ensures
        replayed_by(
            decode,
            apply,
            first + second,
            aliases,
            trees_a + trees_b.skip(1),
            outcomes_a + outcomes_b,
        ),
        (trees_a + trees_b.skip(1))[0] == trees_a[0],
        (trees_a + trees_b.skip(1)).last() == trees_b.last(),
{
    let n = first.len() as int;
    let trees = trees_a + trees_b.skip(1);
    let outcomes = outcomes_a + outcomes_b;
    assert forall|i: int| 0 <= i < first.len() + second.len() implies came_to(
        decode,
        apply,
        (first + second)[i],
        aliases,
        trees[i],
        trees[i + 1],
        #[trigger] outcomes[i],
    ) by {
        if i < n {
            assert(outcomes[i] == outcomes_a[i]);
            assert(trees[i] == trees_a[i] && trees[i + 1] == trees_a[i + 1]);
        } else {
            assert(outcomes[i] == outcomes_b[i - n]);
            assert(trees[i] == trees_b[i - n]);
            assert(trees[i + 1] == trees_b[i - n + 1]);
        }
    }
}

/// A replay falls into that of the first `n` directions and that of the rest.
proof fn a_replay_has_two_parts<C, D, A>(
    decode: D,
    apply: A,
    directions: Seq<Received>,
    aliases: TextMap,
    trees: Seq<GenericTree>,
    outcomes: Seq<Option<Applied>>,
    n: int,
) where
    D: Fn(&Vec<u8>) -> Option<Direction<C>>,
    A: Fn(GenericTree, &String, &Direction<C>, &TextMap) -> (GenericTree, Applied),

    requires
        replayed_by(decode, apply, directions, aliases, trees, outcomes),
        0 <= n <= directions.len(),
    ensures
        replayed_by(
            decode,
            apply,
            directions.take(n),
            aliases,
            trees.take(n + 1),
            outcomes.take(n),
        ),
        replayed_by(decode, apply, directions.skip(n), aliases, trees.skip(n), outcomes.skip(n)),
{
    assert forall|i: int| 0 <= i < n implies came_to(
        decode,
        apply,
        directions.take(n)[i],
        aliases,
        trees.take(n + 1)[i],
        trees.take(n + 1)[i + 1],
        #[trigger] outcomes.take(n)[i],
    ) by {
        assert(outcomes.take(n)[i] == outcomes[i]);
    }
    assert forall|i: int| 0 <= i < directions.len() - n implies came_to(
        decode,
        apply,
        directions.skip(n)[i],
        aliases,
        trees.skip(n)[i],
        trees.skip(n)[i + 1],
        #[trigger] outcomes.skip(n)[i],
    ) by {
        assert(outcomes.skip(n)[i] == outcomes[i + n]);
    }
}

/// Decoding the same bytes, or applying the same direction to the same note, always gives
/// the same.
pub open spec fn always_alike<C, D, A>(decode: D, apply: A) -> bool where
    D: Fn(&Vec<u8>) -> Option<Direction<C>>,
    A: Fn(GenericTree, &String, &Direction<C>, &TextMap) -> (GenericTree, Applied),
 {
    &&& forall|payload: &Vec<u8>, x: Option<Direction<C>>, y: Option<Direction<C>>| #[trigger]
        call_ensures(decode, (payload,), x) && #[trigger] call_ensures(decode, (payload,), y) ==> x
            == y
    &&& forall|
        tree: GenericTree,
        booth: &String,
        direction: &Direction<C>,
        aliases: &TextMap,
        x: (GenericTree, Applied),
        y: (GenericTree, Applied),
    | #[trigger]
        call_ensures(apply, (tree, booth, direction, aliases), x) && #[trigger] call_ensures(
            apply,
            (tree, booth, direction, aliases),
            y,
        ) ==> x == y
}

/// Two replays of one history into one note are the same, as far as `n` directions.
proof fn replays_agree<C, D, A>(
    decode: D,
    apply: A,
    directions: Seq<Received>,
    aliases: TextMap,
    trees_a: Seq<GenericTree>,
    trees_b: Seq<GenericTree>,
    outcomes_a: Seq<Option<Applied>>,
    outcomes_b: Seq<Option<Applied>>,
    n: int,
) where
    D: Fn(&Vec<u8>) -> Option<Direction<C>>,
    A: Fn(GenericTree, &String, &Direction<C>, &TextMap) -> (GenericTree, Applied),

    requires
        always_alike(decode, apply),
        replayed_by(decode, apply, directions, aliases, trees_a, outcomes_a),
        replayed_by(decode, apply, directions, aliases, trees_b, outcomes_b),
        trees_a[0] == trees_b[0],
        0 <= n <= directions.len(),
    ensures
        trees_a.take(n + 1) == trees_b.take(n + 1),
        outcomes_a.take(n) == outcomes_b.take(n),
    decreases n,
{
    if n > 0 {
        let i = n - 1;
        replays_agree(
            decode,
            apply,
            directions,
            aliases,
            trees_a,
            trees_b,
            outcomes_a,
            outcomes_b,
            i,
        );
        assert(trees_a.take(n)[i] == trees_b.take(n)[i]);
        assert(came_to(
            decode,
            apply,
            directions[i],
            aliases,
            trees_a[i],
            trees_a[i + 1],
            outcomes_a[i],
        ));
        assert(came_to(
            decode,
            apply,
            directions[i],
            aliases,
            trees_b[i],
            trees_b[i + 1],
            outcomes_b[i],
        ));
        assert(trees_a[i + 1] == trees_b[i + 1] && outcomes_a[i] == outcomes_b[i]);
        assert(trees_a.take(n + 1) == trees_a.take(n).push(trees_a[n]));
        assert(trees_b.take(n + 1) == trees_b.take(n).push(trees_b[n]));
        assert(outcomes_a.take(n) == outcomes_a.take(i).push(outcomes_a[i]));
        assert(outcomes_b.take(n) == outcomes_b.take(i).push(outcomes_b[i]));
    } else {
        assert(trees_a.take(1) == trees_b.take(1));
        assert(outcomes_a.take(0) == outcomes_b.take(0));
    }
}

/// `whole` found what `first` and `second` found: their counts added up, their strokes one
/// behind the other, and the kinds of both reported together.
pub open spec fn adds_up(whole: RoomPull, first: RoomPull, second: RoomPull) -> bool {
    &&& whole.directions == first.directions + second.directions
    &&& whole.units == first.units + second.units
    &&& whole.strokes == first.strokes + second.strokes
    &&& whole.removed == first.removed + second.removed
    &&& whole.assets == first.assets + second.assets
    &&& whole.stroke_ids@ == first.stroke_ids@ + second.stroke_ids@
    &&& exists|kinds_a: Seq<Seq<char>>, kinds_b: Seq<Seq<char>>|
        {
            &&& #[trigger] reports(texts(first.unsupported@), kinds_a)
            &&& #[trigger] reports(texts(second.unsupported@), kinds_b)
            &&& reports(texts(whole.unsupported@), kinds_a + kinds_b)
        }
}

/// What two runs of outcomes amount to adds up to what they amount to together.
proof fn amounts_add_up(
    whole: RoomPull,
    assets: Seq<Asset>,
    pull_a: RoomPull,
    assets_a: Seq<Asset>,
    pull_b: RoomPull,
    assets_b: Seq<Asset>,
    outcomes_a: Seq<Option<Applied>>,
    outcomes_b: Seq<Option<Applied>>,
)
    requires
        amounts_to(whole, assets, outcomes_a + outcomes_b),
        amounts_to(pull_a, assets_a, outcomes_a),
        amounts_to(pull_b, assets_b, outcomes_b),
    ensures
        adds_up(whole, pull_a, pull_b),
        assets == assets_a + assets_b,
{
    two_parts_amount_to_the_whole(outcomes_a, outcomes_b);
    assert(reports(texts(pull_a.unsupported@), kinds_of(outcomes_a)));
    assert(reports(texts(pull_b.unsupported@), kinds_of(outcomes_b)));
}

/// Folding one part of a history, and then the other into the note that this led to, is
/// one way of folding the whole: a replay of the whole leads to the same note, and
/// whatever it amounts to is what the two parts found.
pub proof fn two_folds_are_one<C, D, A>(
    decode: D,
    apply: A,
    first: Seq<Received>,
    second: Seq<Received>,
    aliases: TextMap,
    tree: GenericTree,
    part_a: (GenericTree, RoomPull, Vec<Asset>),
    part_b: (GenericTree, RoomPull, Vec<Asset>),
) where
    D: Fn(&Vec<u8>) -> Option<Direction<C>>,
    A: Fn(GenericTree, &String, &Direction<C>, &TextMap) -> (GenericTree, Applied),

    requires
        folds_to(decode, apply, first, aliases, tree, Some(part_a)),
        folds_to(decode, apply, second, aliases, part_a.0, Some(part_b)),
    ensures
        exists|trees: Seq<GenericTree>, outcomes: Seq<Option<Applied>>|
            {
                &&& #[trigger] replayed_by(
                    decode,
                    apply,
                    first + second,
                    aliases,
                    trees,
                    outcomes,
                )
                &&& trees[0] == tree
                &&& trees.last() == part_b.0
                &&& forall|pull: RoomPull, assets: Seq<Asset>| #[trigger]
                    amounts_to(pull, assets, outcomes) ==> adds_up(pull, part_a.1, part_b.1)
                        && assets == part_a.2@ + part_b.2@
            },
{
    let (trees_a, outcomes_a) = choose|trees: Seq<GenericTree>, outcomes: Seq<Option<Applied>>|
        {
            &&& #[trigger] replayed_by(decode, apply, first, aliases, trees, outcomes)
            &&& trees[0] == tree
            &&& part_a.0 == trees.last()
            &&& amounts_to(part_a.1, part_a.2@, outcomes)
        };
    let (trees_b, outcomes_b) = choose|trees: Seq<GenericTree>, outcomes: Seq<Option<Applied>>|
        {
            &&& #[trigger] replayed_by(decode, apply, second, aliases, trees, outcomes)
            &&& trees[0] == part_a.0
            &&& part_b.0 == trees.last()
            &&& amounts_to(part_b.1, part_b.2@, outcomes)
        };
    two_replays_are_one(
        decode,
        apply,
        first,
        second,
        aliases,
        trees_a,
        trees_b,
        outcomes_a,
        outcomes_b,
    );
    let outcomes = outcomes_a + outcomes_b;
    assert forall|pull: RoomPull, assets: Seq<Asset>| #[trigger]
        amounts_to(pull, assets, outcomes) implies adds_up(pull, part_a.1, part_b.1) && assets
        == part_a.2@ + part_b.2@ by {
        amounts_add_up(
            pull,
            assets,
            part_a.1,
            part_a.2@,
            part_b.1,
            part_b.2@,
            outcomes_a,
            outcomes_b,
        );
    }
}

/// Folding a history at once, and folding one part of it and then the other, lead to the
/// same note and find the same, the assets of the parts one behind the other. Where the
/// whole can be counted, its parts can.
pub proof fn a_history_folds_in_two_parts<C, D, A>(
    decode: D,
    apply: A,
    first: Seq<Received>,
    second: Seq<Received>,
    aliases: TextMap,
    tree: GenericTree,
    whole: (GenericTree, RoomPull, Vec<Asset>),
    part_a: Option<(GenericTree, RoomPull, Vec<Asset>)>,
    part_b: Option<(GenericTree, RoomPull, Vec<Asset>)>,
) where
    D: Fn(&Vec<u8>) -> Option<Direction<C>>,
    A: Fn(GenericTree, &String, &Direction<C>, &TextMap) -> (GenericTree, Applied),

    requires
        always_alike(decode, apply),
        folds_to(decode, apply, first + second, aliases, tree, Some(whole)),
        folds_to(decode, apply, first, aliases, tree, part_a),
        part_a matches Some((middle, _, _)) ==> folds_to(
            decode,
            apply,
            second,
            aliases,
            middle,
            part_b,
        ),
    ensures
        part_a matches Some((_, pull_a, assets_a)) && part_b matches Some(
            (after, pull_b, assets_b),
        ) && {
            &&& after == whole.0
            &&& adds_up(whole.1, pull_a, pull_b)
            &&& whole.2@ == assets_a@ + assets_b@
        },
{
    let all = first + second;
    let n = first.len() as int;
    let (trees, outcomes) = choose|trees: Seq<GenericTree>, outcomes: Seq<Option<Applied>>|
        {
            &&& #[trigger] replayed_by(decode, apply, all, aliases, trees, outcomes)
            &&& trees[0] == tree
            &&& counts_fit(outcomes)
            &&& whole.0 == trees.last()
            &&& amounts_to(whole.1, whole.2@, outcomes)
        };
    let (outcomes_a, outcomes_b) = (outcomes.take(n), outcomes.skip(n));
    a_replay_has_two_parts(decode, apply, all, aliases, trees, outcomes, n);
    assert(all.take(n) == first && all.skip(n) == second);
    assert(outcomes_a + outcomes_b == outcomes);
    two_parts_amount_to_the_whole(outcomes_a, outcomes_b);
    assert forall|k: Seq<char>| #[trigger] occurrences(kinds_of(outcomes_a), k) <= usize::MAX by {
        occurrences_of_parts(kinds_of(outcomes_a), kinds_of(outcomes_b), k);
        assert(occurrences(kinds_of(outcomes), k) <= usize::MAX);
    }
    assert forall|k: Seq<char>| #[trigger] occurrences(kinds_of(outcomes_b), k) <= usize::MAX by {
        occurrences_of_parts(kinds_of(outcomes_a), kinds_of(outcomes_b), k);
        assert(occurrences(kinds_of(outcomes), k) <= usize::MAX);
    }
    a_fold_is_its_replay(
        decode,
        apply,
        first,
        aliases,
        tree,
        part_a,
        trees.take(n + 1),
        outcomes_a,
    );
    assert(trees.take(n + 1).last() == trees[n]);
    assert(trees.skip(n)[0] == trees[n]);
    a_fold_is_its_replay(
        decode,
        apply,
        second,
        aliases,
        trees[n],
        part_b,
        trees.skip(n),
        outcomes_b,
    );
    let (_, pull_a, assets_a) = part_a.unwrap();
    let (_, pull_b, assets_b) = part_b.unwrap();
    amounts_add_up(
        whole.1,
        whole.2@,
        pull_a,
        assets_a@,
        pull_b,
        assets_b@,
        outcomes_a,
        outcomes_b,
    );
}

/// What a fold comes to is what any replay of its directions amounts to.
proof fn a_fold_is_its_replay<C, D, A>(
    decode: D,
    apply: A,
    directions: Seq<Received>,
    aliases: TextMap,
    tree: GenericTree,
    result: Option<(GenericTree, RoomPull, Vec<Asset>)>,
    trees: Seq<GenericTree>,
    outcomes: Seq<Option<Applied>>,
) where
    D: Fn(&Vec<u8>) -> Option<Direction<C>>,
    A: Fn(GenericTree, &String, &Direction<C>, &TextMap) -> (GenericTree, Applied),

    requires
        always_alike(decode, apply),
        folds_to(decode, apply, directions, aliases, tree, result),
        replayed_by(decode, apply, directions, aliases, trees, outcomes),
        trees[0] == tree,
    ensures
        match result {
            Some((after, pull, assets)) => after == trees.last() && amounts_to(
                pull,
                assets@,
                outcomes,
            ),
            None => !counts_fit(outcomes),
        },
{
    let n = directions.len() as int;
    let (t, o) = choose|t: Seq<GenericTree>, o: Seq<Option<Applied>>|
        {
            &&& #[trigger] replayed_by(decode, apply, directions, aliases, t, o)
            &&& t[0] == tree
            &&& match result {
                Some((after, pull, assets)) => {
                    &&& counts_fit(o)
                    &&& after == t.last()
                    &&& amounts_to(pull, assets@, o)
                    &&& pull.marks@.len() == 0
                    &&& pull.history@.len() == 0
                    &&& pull.error is None
                },
                None => !counts_fit(o),
            }
        };
    replays_agree(decode, apply, directions, aliases, t, trees, o, outcomes, n);
    assert(t.take(n + 1) == t && trees.take(n + 1) == trees);
    assert(o.take(n) == o && outcomes.take(n) == outcomes);
}

/// The report of what was not applied is determined by it: two lists of lines that
/// report the same kinds are the same.
pub proof fn a_report_is_determined(
    a: Seq<Seq<char>>,
    b: Seq<Seq<char>>,
    kinds: Seq<Seq<char>>,
)
    requires
        reports(a, kinds),
        reports(b, kinds),
    ensures
        a == b,
{
    let x = choose|keys: Seq<Seq<char>>|
        {
            &&& #[trigger] ascending(keys)
            &&& forall|k: Seq<char>| #[trigger] keys.contains(k) <==> kinds.contains(k)
            &&& a == keys.map_values(|k: Seq<char>| kind_line(k, occurrences(kinds, k)))
        };
    let y = choose|keys: Seq<Seq<char>>|
        {
            &&& #[trigger] ascending(keys)
            &&& forall|k: Seq<char>| #[trigger] keys.contains(k) <==> kinds.contains(k)
            &&& b == keys.map_values(|k: Seq<char>| kind_line(k, occurrences(kinds, k)))
        };
    assert forall|k: Seq<char>| #[trigger] x.contains(k) <==> y.contains(k) by {}
    ascending_list_is_determined(x, y);
    assert(a == b);
}

/// How often a text occurs is how often it is among the texts, whatever their order.
pub proof fn occurrences_are_counted(s: Seq<Seq<char>>, x: Seq<char>)
    ensures
        occurrences(s, x) == s.to_multiset().count(x),
    decreases s.len(),
{
    broadcast use vstd::multiset::group_multiset_axioms;

    if s.len() == 0 {
        assert(!s.contains(x));
        s.to_multiset_ensures();
    } else {
        let front = s.drop_last();
        occurrences_are_counted(front, x);
        front.to_multiset_ensures();
        assert(s == front.push(s.last()));
        assert(s.to_multiset() == front.to_multiset().insert(s.last()));
    }
}

/// The sum of a number of counts.
pub open spec fn sum_of(counts: Seq<int>) -> int {
    counts.fold_left(0, |sum: int, n: int| sum + n)
}

/// The counts are sums over all outcomes; one that would not decode adds nothing.
pub proof fn counts_are_sums(outcomes: Seq<Option<Applied>>)
    ensures
        totals(outcomes).units == sum_of(
            outcomes.map_values(
                |o: Option<Applied>|
                    if o is Some {
                        o->0.units as int
                    } else {
                        0
                    },
            ),
        ),
        totals(outcomes).strokes == sum_of(
            outcomes.map_values(
                |o: Option<Applied>|
                    if o is Some {
                        o->0.strokes as int
                    } else {
                        0
                    },
            ),
        ),
        totals(outcomes).removed == sum_of(
            outcomes.map_values(
                |o: Option<Applied>|
                    if o is Some {
                        o->0.removed as int
                    } else {
                        0
                    },
            ),
        ),
    decreases outcomes.len(),
{
    let units = |o: Option<Applied>|
        if o is Some {
            o->0.units as int
        } else {
            0
        };
    let strokes = |o: Option<Applied>|
        if o is Some {
            o->0.strokes as int
        } else {
            0
        };
    let removed = |o: Option<Applied>|
        if o is Some {
            o->0.removed as int
        } else {
            0
        };
    if outcomes.len() > 0 {
        let front = outcomes.drop_last();
        counts_are_sums(front);
        assert(outcomes.map_values(units).drop_last() == front.map_values(units));
        assert(outcomes.map_values(strokes).drop_last() == front.map_values(strokes));
        assert(outcomes.map_values(removed).drop_last() == front.map_values(removed));
    }
}

/// What a number of outcomes brought is what each of them brought, one behind the other,
/// and nothing of any of them is left out; one that would not decode brings nothing but
/// its own kind.
pub proof fn nothing_that_was_brought_is_left_out(outcomes: Seq<Option<Applied>>)
    ensures
        stroke_ids_of(outcomes) == outcomes.map_values(
            |o: Option<Applied>|
                if o is Some {
                    o->0.stroke_ids@
                } else {
                    Seq::empty()
                },
        ).flatten(),
        assets_of(outcomes) == outcomes.map_values(
            |o: Option<Applied>|
                if o is Some {
                    o->0.assets@
                } else {
                    Seq::empty()
                },
        ).flatten(),
        kinds_of(outcomes) == outcomes.map_values(
            |o: Option<Applied>|
                if o is Some {
                    o->0.unsupported@.map_values(|kind: String| kind@)
                } else {
                    seq!["読み取れない Direction"@]
                },
        ).flatten(),
    decreases outcomes.len(),
{
    let ids = |o: Option<Applied>|
        if o is Some {
            o->0.stroke_ids@
        } else {
            Seq::empty()
        };
    let assets = |o: Option<Applied>|
        if o is Some {
            o->0.assets@
        } else {
            Seq::empty()
        };
    let kinds = |o: Option<Applied>|
        if o is Some {
            o->0.unsupported@.map_values(|kind: String| kind@)
        } else {
            seq!["読み取れない Direction"@]
        };
    let (a, b, c) = (
        outcomes.map_values(ids),
        outcomes.map_values(assets),
        outcomes.map_values(kinds),
    );
    a.lemma_flatten_and_flatten_alt_are_equivalent();
    b.lemma_flatten_and_flatten_alt_are_equivalent();
    c.lemma_flatten_and_flatten_alt_are_equivalent();
    if outcomes.len() > 0 {
        let front = outcomes.drop_last();
        nothing_that_was_brought_is_left_out(front);
        assert(a.drop_last() == front.map_values(ids));
        assert(b.drop_last() == front.map_values(assets));
        assert(c.drop_last() == front.map_values(kinds));
        a.drop_last().lemma_flatten_and_flatten_alt_are_equivalent();
        b.drop_last().lemma_flatten_and_flatten_alt_are_equivalent();
        c.drop_last().lemma_flatten_and_flatten_alt_are_equivalent();
        assert(kinds_in(outcomes.last()) == c.last());
    }
}

/// Every stroke that any direction put into the note, every asset that any of them brought,
/// and every kind that any of them could not apply, is found.
pub proof fn whatever_a_direction_brought_is_found(
    outcomes: Seq<Option<Applied>>,
    i: int,
    applied: Applied,
)
    requires
        0 <= i < outcomes.len(),
        outcomes[i] == Some(applied),
    ensures
        forall|j: int|
            0 <= j < applied.stroke_ids@.len() ==> stroke_ids_of(outcomes).contains(
                #[trigger] applied.stroke_ids@[j],
            ),
        forall|j: int|
            0 <= j < applied.assets@.len() ==> assets_of(outcomes).contains(
                #[trigger] applied.assets@[j],
            ),
        forall|j: int|
            0 <= j < applied.unsupported@.len() ==> kinds_of(outcomes).contains(
                (#[trigger] applied.unsupported@[j])@,
            ),
        totals(outcomes).units >= applied.units,
        totals(outcomes).strokes >= applied.strokes,
        totals(outcomes).removed >= applied.removed,
    decreases outcomes.len(),
{
    let front = outcomes.drop_last();
    let n = front.len() as int;
    let (ids, assets, kinds) = (
        stroke_ids_of(outcomes),
        assets_of(outcomes),
        kinds_of(outcomes),
    );
    let (ids_f, assets_f, kinds_f) = (stroke_ids_of(front), assets_of(front), kinds_of(front));
    if i < n {
        assert(front[i] == outcomes[i]);
        whatever_a_direction_brought_is_found(front, i, applied);
        assert(forall|k: int| 0 <= k < ids_f.len() ==> ids[k] == #[trigger] ids_f[k]);
        assert(forall|k: int| 0 <= k < assets_f.len() ==> assets[k] == #[trigger] assets_f[k]);
        assert(forall|k: int| 0 <= k < kinds_f.len() ==> kinds[k] == #[trigger] kinds_f[k]);
        assert forall|j: int| 0 <= j < applied.stroke_ids@.len() implies ids.contains(
            #[trigger] applied.stroke_ids@[j],
        ) by {
            assert(ids_f.contains(applied.stroke_ids@[j]));
        }
        assert forall|j: int| 0 <= j < applied.assets@.len() implies assets.contains(
            #[trigger] applied.assets@[j],
        ) by {
            assert(assets_f.contains(applied.assets@[j]));
        }
        assert forall|j: int| 0 <= j < applied.unsupported@.len() implies kinds.contains(
            (#[trigger] applied.unsupported@[j])@,
        ) by {
            assert(kinds_f.contains(applied.unsupported@[j]@));
        }
    } else {
        assert forall|j: int| 0 <= j < applied.stroke_ids@.len() implies ids.contains(
            #[trigger] applied.stroke_ids@[j],
        ) by {
            assert(ids[ids_f.len() + j] == applied.stroke_ids@[j]);
        }
        assert forall|j: int| 0 <= j < applied.assets@.len() implies assets.contains(
            #[trigger] applied.assets@[j],
        ) by {
            assert(assets[assets_f.len() + j] == applied.assets@[j]);
        }
        assert forall|j: int| 0 <= j < applied.unsupported@.len() implies kinds.contains(
            (#[trigger] applied.unsupported@[j])@,
        ) by {
            assert(kinds[kinds_f.len() + j] == applied.unsupported@[j]@);
        }
    }
}

/// A history of one direction amounts to what applying that direction did, no more and no
/// less; and one that would not decode to nothing but its own kind, once.
pub proof fn one_direction_amounts_to_its_own(
    pull: RoomPull,
    assets: Seq<Asset>,
    outcome: Option<Applied>,
)
    requires
        amounts_to(pull, assets, seq![outcome]),
    ensures
        pull.directions == 1,
        pull.assets == assets.len(),
        outcome matches Some(applied) ==> {
            &&& pull.units == applied.units
            &&& pull.strokes == applied.strokes
            &&& pull.removed == applied.removed
            &&& pull.stroke_ids@ == applied.stroke_ids@
            &&& assets == applied.assets@
            &&& reports(
                pull.unsupported@.map_values(|line: String| line@),
                applied.unsupported@.map_values(|kind: String| kind@),
            )
        },
        outcome is None ==> {
            &&& pull.units == 0
            &&& pull.strokes == 0
            &&& pull.removed == 0
            &&& pull.stroke_ids@.len() == 0
            &&& assets.len() == 0
            &&& reports(
                pull.unsupported@.map_values(|line: String| line@),
                seq!["読み取れない Direction"@],
            )
        },
{
    let outcomes = seq![outcome];
    assert(outcomes.drop_last() == Seq::<Option<Applied>>::empty());
    assert(totals(outcomes.drop_last()) == (Totals { units: 0, strokes: 0, removed: 0 }));
    assert(stroke_ids_of(outcomes.drop_last()) == Seq::<(String, String)>::empty());
    assert(assets_of(outcomes.drop_last()) == Seq::<Asset>::empty());
    assert(kinds_of(outcomes.drop_last()) == Seq::<Seq<char>>::empty());
    assert(kinds_of(outcomes) == kinds_in(outcome));
    assert(stroke_ids_of(outcomes) == match outcome {
        Some(a) => a.stroke_ids@,
        None => Seq::empty(),
    });
    assert(assets_of(outcomes) == match outcome {
        Some(a) => a.assets@,
        None => Seq::empty(),
    });
}

/// A pull says how many directions came, and holds the sums of what applying them did, the
/// strokes and the assets of all of them in order, and how many assets that is.
pub proof fn a_pull_holds_what_all_directions_did(
    pull: RoomPull,
    assets: Seq<Asset>,
    outcomes: Seq<Option<Applied>>,
)
    requires
        amounts_to(pull, assets, outcomes),
    ensures
        pull.directions == outcomes.len(),
        pull.units == sum_of(
            outcomes.map_values(
                |o: Option<Applied>|
                    if o is Some {
                        o->0.units as int
                    } else {
                        0
                    },
            ),
        ),
        pull.strokes == sum_of(
            outcomes.map_values(
                |o: Option<Applied>|
                    if o is Some {
                        o->0.strokes as int
                    } else {
                        0
                    },
            ),
        ),
        pull.removed == sum_of(
            outcomes.map_values(
                |o: Option<Applied>|
                    if o is Some {
                        o->0.removed as int
                    } else {
                        0
                    },
            ),
        ),
        pull.stroke_ids@ == outcomes.map_values(
            |o: Option<Applied>|
                if o is Some {
                    o->0.stroke_ids@
                } else {
                    Seq::empty()
                },
        ).flatten(),
        assets == outcomes.map_values(
            |o: Option<Applied>|
                if o is Some {
                    o->0.assets@
                } else {
                    Seq::empty()
                },
        ).flatten(),
        pull.assets == assets.len(),
        reports(
            pull.unsupported@.map_values(|line: String| line@),
            outcomes.map_values(
                |o: Option<Applied>|
                    if o is Some {
                        o->0.unsupported@.map_values(|kind: String| kind@)
                    } else {
                        seq!["読み取れない Direction"@]
                    },
            ).flatten(),
        ),
{
    counts_are_sums(outcomes);
    nothing_that_was_brought_is_left_out(outcomes);
}

/// A report has one line for each kind that came, in the order of the kinds, and no other;
/// a line is the kind, ` x`, and how often it came.
pub proof fn a_report_names_and_counts_every_kind(lines: Seq<Seq<char>>, kinds: Seq<Seq<char>>)
    requires
        reports(lines, kinds),
    ensures
        exists|keys: Seq<Seq<char>>|
            {
                &&& #[trigger] keys.len() == lines.len()
                &&& forall|i: int, j: int|
                    0 <= i < j < keys.len() ==> precedes(#[trigger] keys[i], #[trigger] keys[j])
                &&& forall|k: Seq<char>| #[trigger] kinds.contains(k) <==> keys.contains(k)
                &&& forall|i: int|
                    0 <= i < lines.len() ==> #[trigger] lines[i] == keys[i] + seq![' ', 'x'] + decimal(
                        kinds.to_multiset().count(keys[i]),
                    )
            },
        kinds.len() > 0 ==> lines.len() > 0,
{
    reveal_strlit(" x");
    let keys = choose|keys: Seq<Seq<char>>|
        {
            &&& #[trigger] ascending(keys)
            &&& forall|k: Seq<char>| #[trigger] keys.contains(k) <==> kinds.contains(k)
            &&& lines == keys.map_values(|k: Seq<char>| kind_line(k, occurrences(kinds, k)))
        };
    assert(keys.len() == lines.len());
    assert(" x"@ == seq![' ', 'x']);
    assert forall|i: int| 0 <= i < lines.len() implies #[trigger] lines[i] == keys[i] + seq![
        ' ',
        'x',
    ] + decimal(kinds.to_multiset().count(keys[i])) by {
        occurrences_are_counted(kinds, keys[i]);
    }
    if kinds.len() > 0 {
        assert(kinds.contains(kinds[0]));
        assert(keys.contains(kinds[0]));
    }
}

/// There is a result whenever there can be one: the counts fit if and only if each sum, and
/// the number of times that each kind came, is one that a `usize` holds.
pub proof fn counts_fit_whenever_they_can(outcomes: Seq<Option<Applied>>)
    ensures
        counts_fit(outcomes) <==> {
            &&& sum_of(
                outcomes.map_values(
                    |o: Option<Applied>|
                        if o is Some {
                            o->0.units as int
                        } else {
                            0
                        },
                ),
            ) <= usize::MAX
            &&& sum_of(
                outcomes.map_values(
                    |o: Option<Applied>|
                        if o is Some {
                            o->0.strokes as int
                        } else {
                            0
                        },
                ),
            ) <= usize::MAX
            &&& sum_of(
                outcomes.map_values(
                    |o: Option<Applied>|
                        if o is Some {
                            o->0.removed as int
                        } else {
                            0
                        },
                ),
            ) <= usize::MAX
            &&& forall|kind: Seq<char>|
                (#[trigger] kinds_of(outcomes).to_multiset().count(kind)) <= usize::MAX
        },
{
    counts_are_sums(outcomes);
    assert forall|kind: Seq<char>|
        (#[trigger] kinds_of(outcomes).to_multiset().count(kind)) == occurrences(
            kinds_of(outcomes),
            kind,
        ) by {
        occurrences_are_counted(kinds_of(outcomes), kind);
    }
    assert forall|kind: Seq<char>| #[trigger]
        occurrences(kinds_of(outcomes), kind) == kinds_of(outcomes).to_multiset().count(kind) by {
        occurrences_are_counted(kinds_of(outcomes), kind);
    }
}

/// Each direction is taken in its turn, with the note as the one before left it: its bytes
/// are decoded, and where they decode it is applied, on its own booth, under the aliases
/// that were given; where they do not, the note stays as it is.
pub proof fn each_direction_is_applied_in_its_turn<C, D, A>(
    decode: D,
    apply: A,
    directions: Seq<Received>,
    aliases: TextMap,
    trees: Seq<GenericTree>,
    outcomes: Seq<Option<Applied>>,
    i: int,
) where
    D: Fn(&Vec<u8>) -> Option<Direction<C>>,
    A: Fn(GenericTree, &String, &Direction<C>, &TextMap) -> (GenericTree, Applied),

    requires
        replayed_by(decode, apply, directions, aliases, trees, outcomes),
        0 <= i < directions.len(),
    ensures
        outcomes.len() == directions.len(),
        trees.len() == directions.len() + 1,
        outcomes[i] is None ==> trees[i + 1] == trees[i] && call_ensures(
            decode,
            (&directions[i].2,),
            None,
        ),
        outcomes[i] matches Some(applied) ==> exists|direction: Direction<C>|
            {
                &&& #[trigger] call_ensures(decode, (&directions[i].2,), Some(direction))
                &&& call_ensures(
                    apply,
                    (trees[i], &directions[i].0, &direction, &aliases),
                    (trees[i + 1], applied),
                )
            },
{
    let (before, after, outcome) = (trees[i], trees[i + 1], outcomes[i]);
    assert(came_to(decode, apply, directions[i], aliases, before, after, outcome));
    let decoded = choose|decoded: Option<Direction<C>>| #[trigger]
        call_ensures(decode, (&directions[i].2,), decoded) && match (decoded, outcome) {
            (None, None) => after == before,
            (Some(d), Some(applied)) => call_ensures(
                apply,
                (before, &directions[i].0, &d, &aliases),
                (after, applied),
            ),
            _ => false,
        };
    if outcome is Some {
        let direction = decoded->0;
        assert(call_ensures(decode, (&directions[i].2,), Some(direction)));
    }
}

/// A fold starts from the note it was given, takes in every direction, and ends with the
/// note that the last of them led to. It has a result whenever the counts fit, and what it
/// found is then what those directions did; it reads nothing but the directions, so it has
/// no marks, no history and no error.
pub proof fn a_fold_takes_in_every_direction<C, D, A>(
    decode: D,
    apply: A,
    directions: Seq<Received>,
    aliases: TextMap,
    tree: GenericTree,
    result: Option<(GenericTree, RoomPull, Vec<Asset>)>,
) where
    D: Fn(&Vec<u8>) -> Option<Direction<C>>,
    A: Fn(GenericTree, &String, &Direction<C>, &TextMap) -> (GenericTree, Applied),

    requires
        folds_to(decode, apply, directions, aliases, tree, result),
    ensures
        exists|trees: Seq<GenericTree>, outcomes: Seq<Option<Applied>>|
            {
                &&& #[trigger] replayed_by(decode, apply, directions, aliases, trees, outcomes)
                &&& trees.len() == directions.len() + 1
                &&& outcomes.len() == directions.len()
                &&& trees[0] == tree
                &&& result is Some <==> counts_fit(outcomes)
                &&& result matches Some((after, pull, assets)) ==> {
                    &&& after == trees[directions.len() as int]
                    &&& amounts_to(pull, assets@, outcomes)
                    &&& pull.directions == directions.len()
                    &&& pull.marks@.len() == 0
                    &&& pull.history@.len() == 0
                    &&& pull.error is None
                }
            },
        directions.len() == 0 ==> (result matches Some((after, pull, assets)) && after == tree
            && pull.is_blank() && assets@.len() == 0),
{
    let (trees, outcomes) = choose|trees: Seq<GenericTree>, outcomes: Seq<Option<Applied>>|
        {
            &&& #[trigger] replayed_by(decode, apply, directions, aliases, trees, outcomes)
            &&& trees[0] == tree
            &&& match result {
                Some((after, pull, assets)) => {
                    &&& counts_fit(outcomes)
                    &&& after == trees.last()
                    &&& amounts_to(pull, assets@, outcomes)
                    &&& pull.marks@.len() == 0
                    &&& pull.history@.len() == 0
                    &&& pull.error is None
                },
                None => !counts_fit(outcomes),
            }
        };
    if directions.len() == 0 {
        assert(outcomes == Seq::<Option<Applied>>::empty());
        assert(kinds_of(outcomes) == Seq::<Seq<char>>::empty());
        assert forall|k: Seq<char>| #[trigger] occurrences(kinds_of(outcomes), k)
            <= usize::MAX by {}
        assert(counts_fit(outcomes));
        let (_, pull, _) = result->0;
        assert(reports(texts(pull.unsupported@), kinds_of(outcomes)));
        let lines = texts(pull.unsupported@);
        let keys = choose|keys: Seq<Seq<char>>|
            {
                &&& #[trigger] ascending(keys)
                &&& forall|k: Seq<char>| #[trigger]
                    keys.contains(k) <==> kinds_of(outcomes).contains(k)
                &&& lines == keys.map_values(
                    |k: Seq<char>| kind_line(k, occurrences(kinds_of(outcomes), k)),
                )
            };
        if keys.len() > 0 {
            assert(keys.contains(keys[0]));
        }
        assert(pull.unsupported@.len() == lines.len());
    }
}

} // verus!
