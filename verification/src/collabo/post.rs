//! Turning a note's changes into frames for the room.

use super::send::{Author, Ledger, Pending, PendingUnit};
use super::visit::{Outcome, Purpose, Visit};
use crate::cloud::CloudSession;
use crate::error::{AppError, AppResult};
use serde_json::Value;
use vstd::prelude::*;

verus! {

/// A booth and the bytes to post to it.
pub type Frame = (String, Vec<u8>);

/// One thing on its way to the room, and the frames it takes to get there.
///
/// A batch is all-or-nothing on purpose: a rasterised unit is two frames, its bytes
/// and then the unit that places them, and neither is any use without the other.
#[derive(Debug, Clone)]
pub struct Batch {
    pub frames: Vec<Frame>,
    pub record: Record,
}

/// What to write down once a batch has actually reached the relay.
#[derive(Debug, PartialEq)]
pub enum Record {
    /// A stroke the room now holds, under the id it was sent as.
    Stroke { stroke_id: String, element_id: String, layer_id: String },
    /// A stroke the room has been told to drop; its ledger row goes with it.
    Erased { stroke_id: String },
    /// A non-ink unit the room now holds.
    Unit { unit_id: String, element_id: String, layer_id: String },
}

impl Clone for Record {
    fn clone(&self) -> (r: Record)
        ensures
            r == *self,
    {
        match self {
            Record::Stroke { stroke_id, element_id, layer_id } => Record::Stroke {
                stroke_id: stroke_id.clone(),
                element_id: element_id.clone(),
                layer_id: layer_id.clone(),
            },
            Record::Erased { stroke_id } => Record::Erased { stroke_id: stroke_id.clone() },
            Record::Unit { unit_id, element_id, layer_id } => Record::Unit {
                unit_id: unit_id.clone(),
                element_id: element_id.clone(),
                layer_id: layer_id.clone(),
            },
        }
    }
}

/// `author` is the stamp of this account in this room, under the id the room gave it.
pub open spec fn is_author(
    author: Author,
    session: CloudSession,
    room_id: Seq<char>,
    room_user_id: Seq<char>,
) -> bool {
    &&& author.user_id == session.user_id
    &&& author.name == session.name
    &&& author.company_id@ == (match session.company_id {
        Some(id) => id@,
        None => Seq::empty(),
    })
    &&& author.room_id@ == room_id
    &&& author.room_user_id@ == room_user_id
}

/// The author stamp of this account in this room.
pub fn author_of(session: &CloudSession, room_id: &str, room_user_id: String) -> (r: Author)
    ensures
        is_author(r, *session, room_id@, room_user_id@),
{
    Author {
        user_id: session.user_id.clone(),
        name: session.name.clone(),
        company_id: match &session.company_id {
            Some(id) => id.clone(),
            None => String::new(),
        },
        room_id: room_id.to_owned(),
        room_user_id,
    }
}

/// The batch is one stroke, sent to its layer and recorded under the note's own id and
/// the room's.
pub open spec fn is_stroke_batch(batch: Batch, pending: Pending, sent: (Vec<u8>, String)) -> bool {
    &&& batch.frames@ == seq![(pending.layer_id, sent.0)]
    &&& batch.record == (Record::Stroke {
        stroke_id: pending.stroke_id,
        element_id: sent.1,
        layer_id: pending.layer_id,
    })
}

/// The batch is one erasure, sent to the layer of the row and recorded as the row to
/// drop.
pub open spec fn is_erasure_batch(batch: Batch, row: Ledger, sent: Vec<u8>) -> bool {
    &&& batch.frames@ == seq![(row.layer_id, sent)]
    &&& batch.record == (Record::Erased { stroke_id: row.stroke_id })
}

/// The batch is one unit, all its frames sent to its layer, recorded under the note's
/// own id and the room's.
pub open spec fn is_unit_batch<U>(
    batch: Batch,
    unit: PendingUnit<U>,
    sent: (Vec<Vec<u8>>, String),
) -> bool {
    &&& batch.frames@ == sent.0@.map_values(|payload: Vec<u8>| (unit.layer_id, payload))
    &&& batch.record == (Record::Unit {
        unit_id: unit.unit_id,
        element_id: sent.1,
        layer_id: unit.layer_id,
    })
}

/// `outs` is what `encode` made of the first strokes, one by one, each with the generator
/// as the one before left it.
pub open spec fn strokes_encoded<G, A>(
    encode: A,
    strokes: Seq<Pending>,
    author: Author,
    ids: Seq<G>,
    outs: Seq<AppResult<(Vec<u8>, String)>>,
) -> bool where A: Fn(&Value, &String, G, &Author) -> (G, AppResult<(Vec<u8>, String)>) {
    &&& outs.len() <= strokes.len()
    &&& ids.len() == outs.len() + 1
    &&& forall|i: int|
        0 <= i < outs.len() ==> call_ensures(
            encode,
            (&strokes[i].stroke, &strokes[i].layer_id, ids[i], &author),
            (ids[i + 1], #[trigger] outs[i]),
        )
}

/// `outs` is what `encode` made of the first rows, one by one, each with the generator
/// as the one before left it.
pub open spec fn removals_encoded<G, R>(
    encode: R,
    rows: Seq<Ledger>,
    ids: Seq<G>,
    outs: Seq<AppResult<Vec<u8>>>,
) -> bool where R: Fn(&String, &String, G) -> (G, AppResult<Vec<u8>>) {
    &&& outs.len() <= rows.len()
    &&& ids.len() == outs.len() + 1
    &&& forall|i: int|
        0 <= i < outs.len() ==> call_ensures(
            encode,
            (&rows[i].element_id, &rows[i].layer_id, ids[i]),
            (ids[i + 1], #[trigger] outs[i]),
        )
}

/// `outs` is what `encode` made of the first units, one by one, each with the generator
/// as the one before left it.
pub open spec fn units_encoded<G, U, E>(
    encode: E,
    units: Seq<PendingUnit<U>>,
    author: Author,
    ids: Seq<G>,
    outs: Seq<AppResult<(Vec<Vec<u8>>, String)>>,
) -> bool where E: Fn(&PendingUnit<U>, G, &Author) -> (G, AppResult<(Vec<Vec<u8>>, String)>) {
    &&& outs.len() <= units.len()
    &&& ids.len() == outs.len() + 1
    &&& forall|i: int|
        0 <= i < outs.len() ==> call_ensures(
            encode,
            (&units[i], ids[i], &author),
            (ids[i + 1], #[trigger] outs[i]),
        )
}

/// All `n` steps were made and none failed.
pub open spec fn all_went_well<T>(outs: Seq<AppResult<T>>, n: nat) -> bool {
    outs.len() == n && forall|i: int| 0 <= i < outs.len() ==> (#[trigger] outs[i]) is Ok
}

/// The last step that was made failed with `error`, and none before it.
pub open spec fn stopped_at<T>(outs: Seq<AppResult<T>>, error: AppError) -> bool {
    &&& outs.len() > 0
    &&& outs.last() == Err::<T, AppError>(error)
    &&& forall|i: int| 0 <= i < outs.len() - 1 ==> (#[trigger] outs[i]) is Ok
}

/// `result` is what the encoded strokes and removals amount to: a batch for each, the
/// strokes first, in order; or the first error, with no removal begun where a stroke
/// failed.
pub open spec fn posts_built(
    result: AppResult<Vec<Batch>>,
    strokes: Seq<Pending>,
    rows: Seq<Ledger>,
    added: Seq<AppResult<(Vec<u8>, String)>>,
    removed: Seq<AppResult<Vec<u8>>>,
) -> bool {
    match result {
        Ok(batches) => {
            &&& all_went_well(added, strokes.len())
            &&& all_went_well(removed, rows.len())
            &&& batches@.len() == strokes.len() + rows.len()
            &&& forall|i: int|
                0 <= i < strokes.len() ==> is_stroke_batch(
                    #[trigger] batches@[i],
                    strokes[i],
                    added[i]->Ok_0,
                )
            &&& forall|j: int|
                strokes.len() <= j < batches@.len() ==> is_erasure_batch(
                    #[trigger] batches@[j],
                    rows[j - strokes.len()],
                    removed[j - strokes.len()]->Ok_0,
                )
        },
        Err(error) => {
            ||| stopped_at(added, error) && removed.len() == 0
            ||| all_went_well(added, strokes.len()) && stopped_at(removed, error)
        },
    }
}

/// `result` is what the encoded units amount to: a batch for each, in order; or the
/// first error.
pub open spec fn unit_posts_built<U>(
    result: AppResult<Vec<Batch>>,
    units: Seq<PendingUnit<U>>,
    outs: Seq<AppResult<(Vec<Vec<u8>>, String)>>,
) -> bool {
    match result {
        Ok(batches) => {
            &&& all_went_well(outs, units.len())
            &&& batches@.len() == units.len()
            &&& forall|i: int|
                0 <= i < units.len() ==> is_unit_batch(
                    #[trigger] batches@[i],
                    units[i],
                    outs[i]->Ok_0,
                )
        },
        Err(error) => stopped_at(outs, error),
    }
}

/// `result` is what encoding the strokes, and then the removals, with one generator
/// that starts as `ids` came to.
pub open spec fn posts_made<G, A, R>(
    encode_stroke: A,
    encode_removal: R,
    strokes: Seq<Pending>,
    rows: Seq<Ledger>,
    author: Author,
    ids: G,
    result: AppResult<Vec<Batch>>,
) -> bool where
    A: Fn(&Value, &String, G, &Author) -> (G, AppResult<(Vec<u8>, String)>),
    R: Fn(&String, &String, G) -> (G, AppResult<Vec<u8>>),
 {
    exists|
        first: Seq<G>,
        added: Seq<AppResult<(Vec<u8>, String)>>,
        later: Seq<G>,
        removed: Seq<AppResult<Vec<u8>>>,
    |
        {
            &&& #[trigger] strokes_encoded(encode_stroke, strokes, author, first, added)
            &&& #[trigger] removals_encoded(encode_removal, rows, later, removed)
            &&& first[0] == ids
            &&& later[0] == first.last()
            &&& posts_built(result, strokes, rows, added, removed)
        }
}

/// `result` is what encoding the units with a generator that starts as `ids` came to.
pub open spec fn unit_posts_made<G, U, E>(
    encode: E,
    units: Seq<PendingUnit<U>>,
    author: Author,
    ids: G,
    result: AppResult<Vec<Batch>>,
) -> bool where E: Fn(&PendingUnit<U>, G, &Author) -> (G, AppResult<(Vec<Vec<u8>>, String)>) {
    exists|generators: Seq<G>, outs: Seq<AppResult<(Vec<Vec<u8>>, String)>>|
        {
            &&& #[trigger] units_encoded(encode, units, author, generators, outs)
            &&& generators[0] == ids
            &&& unit_posts_built(result, units, outs)
        }
}

/// Builds the frames a set of changes turns into, without sending anything.
///
/// `encode_stroke` and `encode_removal` write the bytes of a frame, and the id the room is to know an
/// added stroke by; `ids` is a generator that nothing else draws from.
pub fn build_posts<G, A, R>(
    strokes: &Vec<Pending>,
    removals: &Vec<Ledger>,
    author: &Author,
    ids: G,
    encode_stroke: &A,
    encode_removal: &R,
) -> (r: AppResult<Vec<Batch>>) where
    A: Fn(&Value, &String, G, &Author) -> (G, AppResult<(Vec<u8>, String)>),
    R: Fn(&String, &String, G) -> (G, AppResult<Vec<u8>>),

    requires
        forall|s: &Value, l: &String, g: G, a: &Author| call_requires(*encode_stroke, (s, l, g, a)),
        forall|e: &String, l: &String, g: G| call_requires(*encode_removal, (e, l, g)),
    ensures
        posts_made(*encode_stroke, *encode_removal, strokes@, removals@, *author, ids, r),
{
    let mut batches: Vec<Batch> = Vec::new();
    let mut generator = ids;
    let ghost mut first: Seq<G> = seq![ids];
    let ghost mut added: Seq<AppResult<(Vec<u8>, String)>> = Seq::empty();
    for i in 0..strokes.len()
        invariant
            forall|s: &Value, l: &String, g: G, a: &Author| call_requires(*encode_stroke, (s, l, g, a)),
            first[0] == ids,
            generator == first.last(),
            strokes_encoded(*encode_stroke, strokes@, *author, first, added),
            all_went_well(added, i as nat),
            batches@.len() == i,
            forall|k: int|
                0 <= k < i ==> is_stroke_batch(
                    #[trigger] batches@[k],
                    strokes@[k],
                    added[k]->Ok_0,
                ),
    {
        let pending = &strokes[i];
        let (next, out) = encode_stroke(&pending.stroke, &pending.layer_id, generator, author);
        generator = next;
        proof {
            first = first.push(next);
            added = added.push(out);
            assert(strokes_encoded(*encode_stroke, strokes@, *author, first, added));
        }
        match out {
            Ok((payload, element_id)) => {
                let mut frames: Vec<Frame> = Vec::new();
                frames.push((pending.layer_id.clone(), payload));
                assert(frames@ == seq![(pending.layer_id, payload)]);
                batches.push(
                    Batch {
                        frames,
                        record: Record::Stroke {
                            stroke_id: pending.stroke_id.clone(),
                            element_id,
                            layer_id: pending.layer_id.clone(),
                        },
                    },
                );
            },
            Err(error) => {
                proof {
                    let later: Seq<G> = seq![first.last()];
                    let removed: Seq<AppResult<Vec<u8>>> = Seq::empty();
                    assert(removals_encoded(*encode_removal, removals@, later, removed));
                    assert(stopped_at(added, error));
                }
                return Err(error);
            },
        }
    }
    let ghost mut later: Seq<G> = seq![generator];
    let ghost mut removed: Seq<AppResult<Vec<u8>>> = Seq::empty();
    let ghost n = strokes@.len();
    for j in 0..removals.len()
        invariant
            n == strokes@.len(),
            forall|e: &String, l: &String, g: G| call_requires(*encode_removal, (e, l, g)),
            first[0] == ids,
            later[0] == first.last(),
            generator == later.last(),
            strokes_encoded(*encode_stroke, strokes@, *author, first, added),
            all_went_well(added, n),
            removals_encoded(*encode_removal, removals@, later, removed),
            all_went_well(removed, j as nat),
            batches@.len() == n + j,
            forall|k: int|
                0 <= k < n ==> is_stroke_batch(
                    #[trigger] batches@[k],
                    strokes@[k],
                    added[k]->Ok_0,
                ),
            forall|k: int|
                n <= k < n + j ==> is_erasure_batch(
                    #[trigger] batches@[k],
                    removals@[k - n],
                    removed[k - n]->Ok_0,
                ),
    {
        let row = &removals[j];
        let (next, out) = encode_removal(&row.element_id, &row.layer_id, generator);
        generator = next;
        proof {
            later = later.push(next);
            removed = removed.push(out);
            assert(removals_encoded(*encode_removal, removals@, later, removed));
        }
        match out {
            Ok(payload) => {
                let mut frames: Vec<Frame> = Vec::new();
                frames.push((row.layer_id.clone(), payload));
                assert(frames@ == seq![(row.layer_id, payload)]);
                batches.push(
                    Batch { frames, record: Record::Erased { stroke_id: row.stroke_id.clone() } },
                );
            },
            Err(error) => {
                assert(stopped_at(removed, error));
                return Err(error);
            },
        }
    }
    Ok(batches)
}

/// Builds the frames posting a set of units turns into, without sending anything.
///
/// `encode` writes the bytes of all frames of a unit, and the id the room is to know it
/// by. Unlike ink, a unit has no erase path: one taken out of the note stays in the
/// room.
pub fn build_unit_posts<G, U, E>(
    units: &Vec<PendingUnit<U>>,
    author: &Author,
    ids: G,
    encode: &E,
) -> (r: AppResult<Vec<Batch>>) where
    E: Fn(&PendingUnit<U>, G, &Author) -> (G, AppResult<(Vec<Vec<u8>>, String)>),

    requires
        forall|u: &PendingUnit<U>, g: G, a: &Author| call_requires(*encode, (u, g, a)),
    ensures
        unit_posts_made(*encode, units@, *author, ids, r),
{
    let mut batches: Vec<Batch> = Vec::new();
    let mut generator = ids;
    let ghost mut generators: Seq<G> = seq![ids];
    let ghost mut outs: Seq<AppResult<(Vec<Vec<u8>>, String)>> = Seq::empty();
    for i in 0..units.len()
        invariant
            forall|u: &PendingUnit<U>, g: G, a: &Author| call_requires(*encode, (u, g, a)),
            generators[0] == ids,
            generator == generators.last(),
            units_encoded(*encode, units@, *author, generators, outs),
            all_went_well(outs, i as nat),
            batches@.len() == i,
            forall|k: int|
                0 <= k < i ==> is_unit_batch(#[trigger] batches@[k], units@[k], outs[k]->Ok_0),
    {
        let unit = &units[i];
        let (next, out) = encode(unit, generator, author);
        generator = next;
        proof {
            generators = generators.push(next);
            outs = outs.push(out);
            assert(units_encoded(*encode, units@, *author, generators, outs));
        }
        match out {
            Ok((payloads, element_id)) => {
                let ghost sent = (payloads, element_id);
                let frames = frames_on(&unit.layer_id, payloads);
                batches.push(
                    Batch {
                        frames,
                        record: Record::Unit {
                            unit_id: unit.unit_id.clone(),
                            element_id,
                            layer_id: unit.layer_id.clone(),
                        },
                    },
                );
                assert(is_unit_batch(batches@[i as int], *unit, sent));
            },
            Err(error) => {
                assert(stopped_at(outs, error));
                return Err(error);
            },
        }
    }
    Ok(batches)
}

/// A frame to one layer for each of the payloads.
fn frames_on(layer_id: &String, payloads: Vec<Vec<u8>>) -> (r: Vec<Frame>)
    ensures
        r@ == payloads@.map_values(|payload: Vec<u8>| (*layer_id, payload)),
{
    let mut frames: Vec<Frame> = Vec::new();
    let ghost all = payloads@.map_values(|payload: Vec<u8>| (*layer_id, payload));
    for payload in it: payloads
        invariant
            it.seq() == payloads@,
            all == payloads@.map_values(|payload: Vec<u8>| (*layer_id, payload)),
            frames@ == all.take(it.index()),
    {
        let ghost n = it.index();
        frames.push((layer_id.clone(), payload));
        assert(all[n] == (*layer_id, payload));
        assert(all.take(n + 1) == all.take(n).push(all[n]));
    }
    assert(all.take(all.len() as int) == all);
    frames
}

/// How a post begins.
#[derive(Debug)]
pub enum PostStart {
    /// It is over already.
    Done(AppResult<Vec<Record>>),
    /// The room is to be joined.
    Join(Visit),
}

/// How posting a note's changes begins. With nothing to post the room is left alone,
/// whoever is signed in; otherwise somebody has to be.
pub fn start_post<U>(
    session: Option<&CloudSession>,
    room_id: &str,
    strokes: &Vec<Pending>,
    removals: &Vec<Ledger>,
    units: &Vec<PendingUnit<U>>,
) -> (r: PostStart)
    ensures
        if strokes@.len() == 0 && removals@.len() == 0 && units@.len() == 0 {
            r matches PostStart::Done(Ok(records)) && records@.len() == 0
        } else {
            match session {
                None => r matches PostStart::Done(Err(error)) && error@
                    == "サインインしていません"@,
                Some(account) => r matches PostStart::Join(visit) && visit.is_new(
                    room_id@,
                    account.name,
                    Purpose::Post,
                ),
            }
        },
{
    if strokes.is_empty() && removals.is_empty() && units.is_empty() {
        return PostStart::Done(Ok(Vec::new()));
    }
    match session {
        None => PostStart::Done(Err(AppError::other("サインインしていません".to_owned()))),
        Some(account) => PostStart::Join(Visit::new(room_id, &account.name, Purpose::Post)),
    }
}

/// What posting hands back once the visit is over: what the relay confirmed, which is
/// nothing where nothing was posted, or what went wrong.
pub fn post_result(outcome: Outcome) -> (r: AppResult<Vec<Record>>)
    ensures
        match outcome {
            Outcome::Posted(records) => r matches Ok(confirmed) && confirmed == records,
            Outcome::Replayed => r matches Ok(records) && records@.len() == 0,
            Outcome::Refused(error) => r matches Err(reason) && reason == error,
            Outcome::Failed(error) => r matches Err(reason) && reason == error,
        },
{
    match outcome {
        Outcome::Posted(records) => Ok(records),
        Outcome::Replayed => Ok(Vec::new()),
        Outcome::Refused(error) => Err(error),
        Outcome::Failed(error) => Err(error),
    }
}

/// `result` is the batches of both, one behind the other, or the first error.
pub open spec fn both_built(
    result: AppResult<Vec<Batch>>,
    posts: AppResult<Vec<Batch>>,
    unit_posts: AppResult<Vec<Batch>>,
) -> bool {
    match (posts, unit_posts) {
        (Err(error), _) => result == Err::<Vec<Batch>, AppError>(error),
        (Ok(_), Err(error)) => result == Err::<Vec<Batch>, AppError>(error),
        (Ok(first), Ok(second)) => result matches Ok(all) && all@ == first@ + second@,
    }
}

/// Builds the frames of strokes, removals and units, in this order, stamped with the id
/// the room gave us, or with none where it gave none.
///
/// `ids` and `unit_ids` are generators that nothing else draws from.
pub fn build_all<G, U, A, R, E>(
    session: &CloudSession,
    room_id: &str,
    room_user_id: Option<String>,
    strokes: &Vec<Pending>,
    removals: &Vec<Ledger>,
    units: &Vec<PendingUnit<U>>,
    ids: G,
    unit_ids: G,
    encode_stroke: &A,
    encode_removal: &R,
    encode_unit: &E,
) -> (r: AppResult<Vec<Batch>>) where
    A: Fn(&Value, &String, G, &Author) -> (G, AppResult<(Vec<u8>, String)>),
    R: Fn(&String, &String, G) -> (G, AppResult<Vec<u8>>),
    E: Fn(&PendingUnit<U>, G, &Author) -> (G, AppResult<(Vec<Vec<u8>>, String)>),

    requires
        forall|s: &Value, l: &String, g: G, a: &Author| call_requires(*encode_stroke, (s, l, g, a)),
        forall|e: &String, l: &String, g: G| call_requires(*encode_removal, (e, l, g)),
        forall|u: &PendingUnit<U>, g: G, a: &Author| call_requires(*encode_unit, (u, g, a)),
    ensures
        exists|author: Author, posts: AppResult<Vec<Batch>>, unit_posts: AppResult<Vec<Batch>>|
            {
                &&& is_author(
                    author,
                    *session,
                    room_id@,
                    match room_user_id {
                        Some(id) => id@,
                        None => Seq::empty(),
                    },
                )
                &&& #[trigger] posts_made(
                    *encode_stroke,
                    *encode_removal,
                    strokes@,
                    removals@,
                    author,
                    ids,
                    posts,
                )
                &&& posts is Ok ==> unit_posts_made(
                    *encode_unit,
                    units@,
                    author,
                    unit_ids,
                    unit_posts,
                )
                &&& #[trigger] both_built(r, posts, unit_posts)
            },
{
    let author = author_of(
        session,
        room_id,
        match room_user_id {
            Some(id) => id,
            None => String::new(),
        },
    );
    let posts = build_posts(strokes, removals, &author, ids, encode_stroke, encode_removal);
    let ghost made = posts;
    let mut batches = match posts {
        Ok(batches) => batches,
        Err(error) => {
            assert(both_built(Err(error), made, made));
            return Err(error);
        },
    };
    let unit_posts = build_unit_posts(units, &author, unit_ids, encode_unit);
    let ghost made_of_units = unit_posts;
    match unit_posts {
        Ok(mut more) => {
            batches.append(&mut more);
            let r: AppResult<Vec<Batch>> = Ok(batches);
            assert(both_built(r, made, made_of_units));
            r
        },
        Err(error) => {
            assert(both_built(Err(error), made, made_of_units));
            Err(error)
        },
    }
}

/// The stamp says who is signed in, for which company, if any, in which room, and as whom
/// the room knows them.
pub proof fn a_stamp_says_who_and_where(
    author: Author,
    session: CloudSession,
    room_id: Seq<char>,
    room_user_id: Seq<char>,
)
    requires
        is_author(author, session, room_id, room_user_id),
    ensures
        author.user_id@ == session.user_id@,
        author.name@ == session.name@,
        session.company_id matches Some(company) ==> author.company_id@ == company@,
        session.company_id is None ==> author.company_id@.len() == 0,
        author.room_id@ == room_id,
        author.room_user_id@ == room_user_id,
{
}

/// The batch is what became of a stroke: one frame, the bytes that encoding it gave, to the
/// stroke's own layer, and a record of the note's id, the room's id and the layer.
pub open spec fn stroke_goes_out<G, A>(
    encode: A,
    pending: Pending,
    author: Author,
    before: G,
    after: G,
    batch: Batch,
) -> bool where A: Fn(&Value, &String, G, &Author) -> (G, AppResult<(Vec<u8>, String)>) {
    exists|payload: Vec<u8>, element: String|
        {
            &&& #[trigger] call_ensures(
                encode,
                (&pending.stroke, &pending.layer_id, before, &author),
                (after, Ok((payload, element))),
            )
            &&& batch.frames@.len() == 1
            &&& batch.frames@[0].0@ == pending.layer_id@
            &&& batch.frames@[0].1 == payload
            &&& batch.record matches Record::Stroke { stroke_id, element_id, layer_id }
            &&& stroke_id@ == pending.stroke_id@
            &&& element_id@ == element@
            &&& layer_id@ == pending.layer_id@
        }
}

/// The batch is what became of an erasure: one frame, the bytes that encoding it gave, to
/// the layer of the row, and a record of the note's id of the row to drop.
pub open spec fn erasure_goes_out<G, R>(
    encode: R,
    row: Ledger,
    before: G,
    after: G,
    batch: Batch,
) -> bool where R: Fn(&String, &String, G) -> (G, AppResult<Vec<u8>>) {
    exists|payload: Vec<u8>|
        {
            &&& #[trigger] call_ensures(
                encode,
                (&row.element_id, &row.layer_id, before),
                (after, Ok(payload)),
            )
            &&& batch.frames@.len() == 1
            &&& batch.frames@[0].0@ == row.layer_id@
            &&& batch.frames@[0].1 == payload
            &&& batch.record matches Record::Erased { stroke_id }
            &&& stroke_id@ == row.stroke_id@
        }
}

/// The batch is what became of a unit: a frame for each payload that encoding it gave, in
/// order, every one to the unit's own layer, and a record of the note's id, the room's id
/// and the layer.
pub open spec fn unit_goes_out<G, U, E>(
    encode: E,
    unit: PendingUnit<U>,
    author: Author,
    before: G,
    after: G,
    batch: Batch,
) -> bool where E: Fn(&PendingUnit<U>, G, &Author) -> (G, AppResult<(Vec<Vec<u8>>, String)>) {
    exists|payloads: Vec<Vec<u8>>, element: String|
        {
            &&& #[trigger] call_ensures(
                encode,
                (&unit, before, &author),
                (after, Ok((payloads, element))),
            )
            &&& batch.frames@.len() == payloads@.len()
            &&& forall|j: int|
                0 <= j < payloads@.len() ==> (#[trigger] batch.frames@[j]).0@ == unit.layer_id@
                    && batch.frames@[j].1 == payloads@[j]
            &&& batch.record matches Record::Unit { unit_id, element_id, layer_id }
            &&& unit_id@ == unit.unit_id@
            &&& element_id@ == element@
            &&& layer_id@ == unit.layer_id@
        }
}

/// Every stroke, and behind the strokes every erasure, becomes one batch, in order, and
/// they all draw from one generator, each as the one before left it.
pub proof fn strokes_and_erasures_go_out_in_order<G, A, R>(
    encode_stroke: A,
    encode_removal: R,
    strokes: Seq<Pending>,
    rows: Seq<Ledger>,
    author: Author,
    ids: G,
    result: AppResult<Vec<Batch>>,
) where
    A: Fn(&Value, &String, G, &Author) -> (G, AppResult<(Vec<u8>, String)>),
    R: Fn(&String, &String, G) -> (G, AppResult<Vec<u8>>),

    requires
        posts_made(encode_stroke, encode_removal, strokes, rows, author, ids, result),
        result is Ok,
    ensures
        result->Ok_0@.len() == strokes.len() + rows.len(),
        exists|ids_left: Seq<G>|
            {
                &&& #[trigger] ids_left.len() == strokes.len() + rows.len() + 1
                &&& ids_left[0] == ids
                &&& forall|i: int|
                    0 <= i < strokes.len() ==> stroke_goes_out(
                        encode_stroke,
                        strokes[i],
                        author,
                        ids_left[i],
                        ids_left[i + 1],
                        #[trigger] result->Ok_0@[i],
                    )
                &&& forall|i: int|
                    strokes.len() <= i < strokes.len() + rows.len() ==> erasure_goes_out(
                        encode_removal,
                        rows[i - strokes.len()],
                        ids_left[i],
                        ids_left[i + 1],
                        #[trigger] result->Ok_0@[i],
                    )
            },
{
    let (first, added, later, removed) = choose|
        first: Seq<G>,
        added: Seq<AppResult<(Vec<u8>, String)>>,
        later: Seq<G>,
        removed: Seq<AppResult<Vec<u8>>>,
    |
        {
            &&& #[trigger] strokes_encoded(encode_stroke, strokes, author, first, added)
            &&& #[trigger] removals_encoded(encode_removal, rows, later, removed)
            &&& first[0] == ids
            &&& later[0] == first.last()
            &&& posts_built(result, strokes, rows, added, removed)
        };
    let batches = result->Ok_0@;
    let n = strokes.len() as int;
    let ids_left = first + later.skip(1);
    assert(ids_left.len() == strokes.len() + rows.len() + 1);
    assert forall|i: int| 0 <= i < strokes.len() implies stroke_goes_out(
        encode_stroke,
        strokes[i],
        author,
        ids_left[i],
        ids_left[i + 1],
        #[trigger] batches[i],
    ) by {
        assert(added[i] is Ok);
        let (payload, element) = added[i]->Ok_0;
        assert(is_stroke_batch(batches[i], strokes[i], added[i]->Ok_0));
        assert(call_ensures(
            encode_stroke,
            (&strokes[i].stroke, &strokes[i].layer_id, first[i], &author),
            (first[i + 1], added[i]),
        ));
        assert(call_ensures(
            encode_stroke,
            (&strokes[i].stroke, &strokes[i].layer_id, ids_left[i], &author),
            (ids_left[i + 1], Ok((payload, element))),
        ));
    }
    assert forall|i: int| n <= i < n + rows.len() implies erasure_goes_out(
        encode_removal,
        rows[i - strokes.len()],
        ids_left[i],
        ids_left[i + 1],
        #[trigger] batches[i],
    ) by {
        let k = i - n;
        assert(removed[k] is Ok);
        let payload = removed[k]->Ok_0;
        assert(is_erasure_batch(batches[i], rows[k], payload));
        assert(call_ensures(
            encode_removal,
            (&rows[k].element_id, &rows[k].layer_id, later[k]),
            (later[k + 1], removed[k]),
        ));
        assert(ids_left[i] == later[k]);
        assert(ids_left[i + 1] == later[k + 1]);
        assert(call_ensures(
            encode_removal,
            (&rows[k].element_id, &rows[k].layer_id, ids_left[i]),
            (ids_left[i + 1], Ok(payload)),
        ));
    }
}

/// Encoding change `i` took the generator from `before` to `after` and went well; the
/// strokes come first, and then the erasures.
pub open spec fn change_encoded<G, A, R>(
    encode_stroke: A,
    encode_removal: R,
    strokes: Seq<Pending>,
    rows: Seq<Ledger>,
    author: Author,
    i: int,
    before: G,
    after: G,
) -> bool where
    A: Fn(&Value, &String, G, &Author) -> (G, AppResult<(Vec<u8>, String)>),
    R: Fn(&String, &String, G) -> (G, AppResult<Vec<u8>>),
 {
    if i < strokes.len() {
        exists|out: (Vec<u8>, String)| #[trigger]
            call_ensures(
                encode_stroke,
                (&strokes[i].stroke, &strokes[i].layer_id, before, &author),
                (after, Ok(out)),
            )
    } else {
        exists|out: Vec<u8>| #[trigger]
            call_ensures(
                encode_removal,
                (
                    &rows[i - strokes.len()].element_id,
                    &rows[i - strokes.len()].layer_id,
                    before,
                ),
                (after, Ok(out)),
            )
    }
}

/// Encoding change `i` with the generator at `before` failed with `error`.
pub open spec fn change_failed<G, A, R>(
    encode_stroke: A,
    encode_removal: R,
    strokes: Seq<Pending>,
    rows: Seq<Ledger>,
    author: Author,
    i: int,
    before: G,
    error: AppError,
) -> bool where
    A: Fn(&Value, &String, G, &Author) -> (G, AppResult<(Vec<u8>, String)>),
    R: Fn(&String, &String, G) -> (G, AppResult<Vec<u8>>),
 {
    if i < strokes.len() {
        exists|after: G| #[trigger]
            call_ensures(
                encode_stroke,
                (&strokes[i].stroke, &strokes[i].layer_id, before, &author),
                (after, Err(error)),
            )
    } else {
        exists|after: G| #[trigger]
            call_ensures(
                encode_removal,
                (
                    &rows[i - strokes.len()].element_id,
                    &rows[i - strokes.len()].layer_id,
                    before,
                ),
                (after, Err(error)),
            )
    }
}

/// Building strokes and erasures stops at the first of them whose encoding fails, with that
/// error and no other: each one before it was encoded, with the generator as the one before
/// left it.
pub proof fn the_first_failure_stops_strokes_and_erasures<G, A, R>(
    encode_stroke: A,
    encode_removal: R,
    strokes: Seq<Pending>,
    rows: Seq<Ledger>,
    author: Author,
    ids: G,
    result: AppResult<Vec<Batch>>,
) where
    A: Fn(&Value, &String, G, &Author) -> (G, AppResult<(Vec<u8>, String)>),
    R: Fn(&String, &String, G) -> (G, AppResult<Vec<u8>>),

    requires
        posts_made(encode_stroke, encode_removal, strokes, rows, author, ids, result),
        result is Err,
    ensures
        exists|ids_left: Seq<G>|
            {
                let n = ids_left.len() - 1;
                &&& 0 <= n < strokes.len() + rows.len()
                &&& ids_left[0] == ids
                &&& forall|i: int|
                    0 <= i < n ==> change_encoded(
                        encode_stroke,
                        encode_removal,
                        strokes,
                        rows,
                        author,
                        i,
                        #[trigger] ids_left[i],
                        ids_left[i + 1],
                    )
                &&& #[trigger] change_failed(
                    encode_stroke,
                    encode_removal,
                    strokes,
                    rows,
                    author,
                    ids_left.len() - 1,
                    ids_left.last(),
                    result->Err_0,
                )
            },
{
    let (first, added, later, removed) = choose|
        first: Seq<G>,
        added: Seq<AppResult<(Vec<u8>, String)>>,
        later: Seq<G>,
        removed: Seq<AppResult<Vec<u8>>>,
    |
        {
            &&& #[trigger] strokes_encoded(encode_stroke, strokes, author, first, added)
            &&& #[trigger] removals_encoded(encode_removal, rows, later, removed)
            &&& first[0] == ids
            &&& later[0] == first.last()
            &&& posts_built(result, strokes, rows, added, removed)
        };
    let error = result->Err_0;
    let k = strokes.len() as int;
    let all = first + later.skip(1);
    let n = added.len() + removed.len() - 1;
    let ids_left = all.take(n + 1);
    assert forall|i: int| 0 <= i < added.len() implies all[i] == first[i] && all[i + 1] == first[i
        + 1] && call_ensures(
        encode_stroke,
        (&strokes[i].stroke, &strokes[i].layer_id, all[i], &author),
        (all[i + 1], #[trigger] added[i]),
    ) by {}
    assert forall|i: int| 0 <= i < removed.len() implies all[k + i] == later[i] && all[k + i + 1]
        == later[i + 1] && call_ensures(
        encode_removal,
        (&rows[i].element_id, &rows[i].layer_id, all[k + i]),
        (all[k + i + 1], #[trigger] removed[i]),
    ) by {}
    assert forall|i: int| 0 <= i < n implies change_encoded(
        encode_stroke,
        encode_removal,
        strokes,
        rows,
        author,
        i,
        #[trigger] ids_left[i],
        ids_left[i + 1],
    ) by {
        if i < k {
            assert(added[i] is Ok);
            let out = added[i]->Ok_0;
            assert(call_ensures(
                encode_stroke,
                (&strokes[i].stroke, &strokes[i].layer_id, ids_left[i], &author),
                (ids_left[i + 1], Ok(out)),
            ));
        } else {
            assert(removed[i - k] is Ok);
            let out = removed[i - k]->Ok_0;
            assert(call_ensures(
                encode_removal,
                (&rows[i - k].element_id, &rows[i - k].layer_id, ids_left[i]),
                (ids_left[i + 1], Ok(out)),
            ));
        }
    }
    if removed.len() == 0 {
        assert(added[n] == added.last());
        assert(call_ensures(
            encode_stroke,
            (&strokes[n].stroke, &strokes[n].layer_id, ids_left.last(), &author),
            (all[n + 1], Err(error)),
        ));
    } else {
        assert(removed[n - k] == removed.last());
        assert(call_ensures(
            encode_removal,
            (&rows[n - k].element_id, &rows[n - k].layer_id, ids_left.last()),
            (all[n + 1], Err(error)),
        ));
    }
    assert(change_failed(
        encode_stroke,
        encode_removal,
        strokes,
        rows,
        author,
        ids_left.len() - 1,
        ids_left.last(),
        error,
    ));
}

/// Every unit becomes one batch, in order, and all its frames go to its own layer; they all
/// draw from one generator, each as the one before left it.
pub proof fn units_go_out_to_their_own_layers<G, U, E>(
    encode: E,
    units: Seq<PendingUnit<U>>,
    author: Author,
    ids: G,
    result: AppResult<Vec<Batch>>,
) where E: Fn(&PendingUnit<U>, G, &Author) -> (G, AppResult<(Vec<Vec<u8>>, String)>)
    requires
        unit_posts_made(encode, units, author, ids, result),
        result is Ok,
    ensures
        result->Ok_0@.len() == units.len(),
        forall|i: int, j: int|
            0 <= i < units.len() && 0 <= j < result->Ok_0@[i].frames@.len() ==> (
            #[trigger] result->Ok_0@[i].frames@[j]).0@ == units[i].layer_id@,
        exists|ids_left: Seq<G>|
            {
                &&& #[trigger] ids_left.len() == units.len() + 1
                &&& ids_left[0] == ids
                &&& forall|i: int|
                    0 <= i < units.len() ==> unit_goes_out(
                        encode,
                        units[i],
                        author,
                        ids_left[i],
                        ids_left[i + 1],
                        #[trigger] result->Ok_0@[i],
                    )
            },
{
    let (ids_left, outs) = choose|
        generators: Seq<G>,
        outs: Seq<AppResult<(Vec<Vec<u8>>, String)>>,
    |
        {
            &&& #[trigger] units_encoded(encode, units, author, generators, outs)
            &&& generators[0] == ids
            &&& unit_posts_built(result, units, outs)
        };
    let batches = result->Ok_0@;
    assert(ids_left.len() == units.len() + 1);
    assert forall|i: int| 0 <= i < units.len() implies unit_goes_out(
        encode,
        units[i],
        author,
        ids_left[i],
        ids_left[i + 1],
        #[trigger] batches[i],
    ) by {
        assert(outs[i] is Ok);
        let (payloads, element) = outs[i]->Ok_0;
        assert(is_unit_batch(batches[i], units[i], outs[i]->Ok_0));
        assert(call_ensures(
            encode,
            (&units[i], ids_left[i], &author),
            (ids_left[i + 1], outs[i]),
        ));
        assert(call_ensures(
            encode,
            (&units[i], ids_left[i], &author),
            (ids_left[i + 1], Ok((payloads, element))),
        ));
    }
    assert forall|i: int, j: int|
        0 <= i < units.len() && 0 <= j < batches[i].frames@.len() implies (
    #[trigger] batches[i].frames@[j]).0@ == units[i].layer_id@ by {
        assert(is_unit_batch(batches[i], units[i], outs[i]->Ok_0));
    }
}

/// Encoding the unit took the generator from `before` to `after` and went well.
pub open spec fn unit_encoded<G, U, E>(
    encode: E,
    unit: PendingUnit<U>,
    author: Author,
    before: G,
    after: G,
) -> bool where E: Fn(&PendingUnit<U>, G, &Author) -> (G, AppResult<(Vec<Vec<u8>>, String)>) {
    exists|out: (Vec<Vec<u8>>, String)| #[trigger]
        call_ensures(encode, (&unit, before, &author), (after, Ok(out)))
}

/// Encoding the unit with the generator at `before` failed with `error`.
pub open spec fn unit_failed<G, U, E>(
    encode: E,
    unit: PendingUnit<U>,
    author: Author,
    before: G,
    error: AppError,
) -> bool where E: Fn(&PendingUnit<U>, G, &Author) -> (G, AppResult<(Vec<Vec<u8>>, String)>) {
    exists|after: G| #[trigger]
        call_ensures(encode, (&unit, before, &author), (after, Err(error)))
}

/// Building units stops at the first of them whose encoding fails, with that error and no
/// other: each one before it was encoded, with the generator as the one before left it.
pub proof fn the_first_failure_stops_units<G, U, E>(
    encode: E,
    units: Seq<PendingUnit<U>>,
    author: Author,
    ids: G,
    result: AppResult<Vec<Batch>>,
) where E: Fn(&PendingUnit<U>, G, &Author) -> (G, AppResult<(Vec<Vec<u8>>, String)>)
    requires
        unit_posts_made(encode, units, author, ids, result),
        result is Err,
    ensures
        exists|ids_left: Seq<G>|
            {
                let n = ids_left.len() - 1;
                &&& 0 <= n < units.len()
                &&& ids_left[0] == ids
                &&& forall|i: int|
                    0 <= i < n ==> unit_encoded(
                        encode,
                        units[i],
                        author,
                        #[trigger] ids_left[i],
                        ids_left[i + 1],
                    )
                &&& #[trigger] unit_failed(
                    encode,
                    units[ids_left.len() - 1],
                    author,
                    ids_left.last(),
                    result->Err_0,
                )
            },
{
    let (generators, outs) = choose|
        generators: Seq<G>,
        outs: Seq<AppResult<(Vec<Vec<u8>>, String)>>,
    |
        {
            &&& #[trigger] units_encoded(encode, units, author, generators, outs)
            &&& generators[0] == ids
            &&& unit_posts_built(result, units, outs)
        };
    let error = result->Err_0;
    let n = outs.len() - 1;
    let ids_left = generators.take(n + 1);
    assert forall|i: int| 0 <= i < n implies unit_encoded(
        encode,
        units[i],
        author,
        #[trigger] ids_left[i],
        ids_left[i + 1],
    ) by {
        assert(outs[i] is Ok);
        let out = outs[i]->Ok_0;
        assert(call_ensures(
            encode,
            (&units[i], generators[i], &author),
            (generators[i + 1], outs[i]),
        ));
        assert(call_ensures(
            encode,
            (&units[i], ids_left[i], &author),
            (ids_left[i + 1], Ok(out)),
        ));
    }
    assert(outs[n] == outs.last());
    assert(call_ensures(encode, (&units[n], generators[n], &author), (generators[n + 1], outs[n])));
    assert(call_ensures(
        encode,
        (&units[n], ids_left.last(), &author),
        (generators[n + 1], Err(error)),
    ));
    assert(unit_failed(encode, units[ids_left.len() - 1], author, ids_left.last(), error));
}

/// Both kinds of change go out together or not at all: the batches of the one kind, and
/// behind them those of the other, each as it was built; or, where one could not be built,
/// its error, that of the first kind before that of the second.
pub proof fn both_kinds_go_out_or_neither(
    result: AppResult<Vec<Batch>>,
    posts: AppResult<Vec<Batch>>,
    unit_posts: AppResult<Vec<Batch>>,
)
    requires
        both_built(result, posts, unit_posts),
    ensures
        result is Ok <==> posts is Ok && unit_posts is Ok,
        posts matches Err(error) ==> result->Err_0 == error,
        posts is Ok ==> (unit_posts matches Err(error) ==> result->Err_0 == error),
        result is Ok ==> result->Ok_0@.len() == posts->Ok_0@.len() + unit_posts->Ok_0@.len(),
        result is Ok ==> forall|i: int|
            0 <= i < posts->Ok_0@.len() ==> #[trigger] result->Ok_0@[i] == posts->Ok_0@[i],
        result is Ok ==> forall|i: int|
            0 <= i < unit_posts->Ok_0@.len() ==> result->Ok_0@[posts->Ok_0@.len() + i]
                == #[trigger] unit_posts->Ok_0@[i],
{
}

} // verus!
