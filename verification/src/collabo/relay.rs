//! Posting batches down a connection, and the relay's answers to them.

use super::post::{Batch, Frame, Record};
use super::socket::{CollaboEvent, Command};
use vstd::prelude::*;

verus! {

/// How long to wait for the relay to answer the frames just posted, in nanoseconds.
pub const ACK_LIMIT: u128 = 10_000_000_000;

/// Every answer to a posted frame that a connection has been sent, in the order they
/// arrived: `true` for accepted, `false` for refused.
///
/// The relay answers every frame, in the order it received them, which is what makes a
/// plain list enough: a batch is confirmed by the entries covering its own frames.
pub type AckTally = Vec<bool>;

/// What an event leaves in the tally.
pub open spec fn acked(tally: Seq<bool>, event: CollaboEvent) -> Seq<bool> {
    match event {
        CollaboEvent::PostAck { ok } => tally.push(ok),
        _ => tally,
    }
}

/// What a number of events, one after the other, leave in the tally.
pub open spec fn acked_all(tally: Seq<bool>, events: Seq<CollaboEvent>) -> Seq<bool>
    decreases events.len(),
{
    if events.len() == 0 {
        tally
    } else {
        acked(acked_all(tally, events.drop_last()), events.last())
    }
}

/// Takes down the answer to a posted frame; any other event leaves the tally as it is.
pub fn note_ack(tally: &mut AckTally, event: &CollaboEvent)
    ensures
        final(tally)@ == acked(old(tally)@, *event),
{
    if let CollaboEvent::PostAck { ok } = event {
        tally.push(*ok);
    }
}

/// The command that posts one frame.
///
/// There is no echo, we already have it. `save` is the whole point: it is what makes
/// the relay keep the frame for whoever opens the note next.
pub fn post_command(booth_id: &str, payload: Vec<u8>) -> (r: Command)
    ensures
        r matches Command::PostData { booth_id: to, payload: bytes, send_back, save, rip_off_size }
            && to@ == booth_id@ && bytes == payload && !send_back && save && rip_off_size@ == "0"@,
{
    Command::PostData {
        booth_id: booth_id.to_owned(),
        payload,
        send_back: false,
        save: true,
        rip_off_size: "0".to_owned(),
    }
}

/// How many frames the first `k` batches are.
pub open spec fn frames_before(batches: Seq<Batch>, k: int) -> nat
    decreases k,
{
    if k <= 0 {
        0
    } else {
        frames_before(batches, k - 1) + batches[k - 1].frames@.len()
    }
}

/// How many frames the batches are.
pub open spec fn frame_count(batches: Seq<Batch>) -> nat {
    frames_before(batches, batches.len() as int)
}

/// The frames of the batches, one behind the other.
pub open spec fn all_frames(batches: Seq<Batch>) -> Seq<Frame>
    decreases batches.len(),
{
    if batches.len() == 0 {
        Seq::empty()
    } else {
        all_frames(batches.drop_last()) + batches.last().frames@
    }
}

/// Batches on their way down a connection.
pub struct PostingView {
    pub batches: Seq<Batch>,
    /// How many answers were there before any of these frames went out. They are
    /// somebody else's.
    pub start: nat,
    /// How many frames the socket has taken.
    pub posted: nat,
    /// The socket would not take the next one.
    pub gone: bool,
}

impl PostingView {
    /// Every frame of batch `k` was taken by the socket and answered with a yes.
    pub open spec fn landed(self, answers: Seq<bool>, k: int) -> bool {
        let from = frames_before(self.batches, k);
        let to = frames_before(self.batches, k + 1);
        &&& to <= self.posted
        &&& self.start + to <= answers.len()
        &&& forall|i: int| self.start + from <= i < self.start + to ==> #[trigger] answers[i]
    }

    /// The records of those of the first `k` batches that landed, in order.
    pub open spec fn landed_records(self, answers: Seq<bool>, k: int) -> Seq<Record>
        decreases k,
    {
        if k <= 0 {
            Seq::empty()
        } else if self.landed(answers, k - 1) {
            self.landed_records(answers, k - 1).push(self.batches[k - 1].record)
        } else {
            self.landed_records(answers, k - 1)
        }
    }

    /// The records that the answers confirm. Where the socket took no frame at all
    /// there are none.
    pub open spec fn confirmed(self, answers: Seq<bool>) -> Seq<Record> {
        if self.posted == 0 {
            Seq::empty()
        } else {
            self.landed_records(answers, self.batches.len() as int)
        }
    }
}

/// Batches on their way down a connection: which frame goes out next, and, once it is
/// all over, which batches the relay confirmed.
#[derive(Debug)]
pub struct Posting {
    batches: Vec<Batch>,
    start: usize,
    posted: usize,
    gone: bool,
    /// The batch of the next frame.
    batch: usize,
    /// The place of the next frame in its batch.
    frame: usize,
}

impl View for Posting {
    type V = PostingView;

    closed spec fn view(&self) -> PostingView {
        PostingView {
            batches: self.batches@,
            start: self.start as nat,
            posted: self.posted as nat,
            gone: self.gone,
        }
    }
}

/// More batches are more frames.
proof fn frames_before_grows(batches: Seq<Batch>, i: int, j: int)
    requires
        i <= j,
    ensures
        frames_before(batches, i) <= frames_before(batches, j),
    decreases j - i,
{
    if i < j {
        frames_before_grows(batches, i, j - 1);
    }
}

/// Where frame `f` of batch `k` stands among all frames.
proof fn frame_of_all(batches: Seq<Batch>, k: int, f: int)
    requires
        0 <= k < batches.len(),
        0 <= f < batches[k].frames@.len(),
    ensures
        frames_before(batches, k) + f < all_frames(batches).len(),
        all_frames(batches)[frames_before(batches, k) + f] == batches[k].frames@[f],
    decreases batches.len(),
{
    all_frames_len(batches);
    let front = batches.drop_last();
    all_frames_len(front);
    frames_before_prefix(batches, front.len() as int);
    frames_before_grows(batches, k + 1, batches.len() as int);
    if k < front.len() {
        frame_of_all(front, k, f);
        frames_before_prefix(batches, k);
    }
}

/// The first batches are as many frames without the last one.
proof fn frames_before_prefix(batches: Seq<Batch>, k: int)
    requires
        0 <= k < batches.len(),
    ensures
        frames_before(batches.drop_last(), k) == frames_before(batches, k),
    decreases k,
{
    if k > 0 {
        frames_before_prefix(batches, k - 1);
    }
}

/// All frames are as many as the batches have.
pub proof fn all_frames_len(batches: Seq<Batch>)
    ensures
        all_frames(batches).len() == frame_count(batches),
    decreases batches.len(),
{
    if batches.len() > 0 {
        all_frames_len(batches.drop_last());
        frames_before_prefix(batches, batches.len() - 1);
    }
}

impl Posting {
    #[verifier::type_invariant]
    spec fn well_formed(self) -> bool {
        &&& frame_count(self.batches@) <= usize::MAX
        &&& self.batch <= self.batches@.len()
        &&& self.posted == frames_before(self.batches@, self.batch as int) + self.frame
        &&& self.batch < self.batches@.len() ==> self.frame
            < self.batches@[self.batch as int].frames@.len()
        &&& self.batch == self.batches@.len() ==> self.frame == 0
    }

    /// Nothing has gone out yet; `start` is how many answers are there already.
    pub fn new(batches: Vec<Batch>, start: usize) -> (r: Posting)
        requires
            frame_count(batches@) <= usize::MAX,
        ensures
            r@ == (PostingView { batches: batches@, start: start as nat, posted: 0, gone: false }),
    {
        let batch = next_batch(&batches, 0);
        Posting { batches, start, posted: 0, gone: false, batch, frame: 0 }
    }

    /// The command that posts the next frame; `None` once every frame has gone out, or
    /// once the socket would not take one.
    pub fn next(&self) -> (r: Option<Command>)
        ensures
            if self@.gone || self@.posted >= frame_count(self@.batches) {
                r is None
            } else {
                r matches Some(command) && posts_frame(
                    command,
                    all_frames(self@.batches)[self@.posted as int],
                )
            },
    {
        proof {
            use_type_invariant(self);
            if self.batch < self.batches@.len() {
                frames_before_grows(self.batches@, self.batch + 1, self.batches@.len() as int);
            }
        }
        if self.gone || self.batch >= self.batches.len() {
            return None;
        }
        proof {
            frame_of_all(self.batches@, self.batch as int, self.frame as int);
        }
        let frame = &self.batches[self.batch].frames[self.frame];
        let payload = frame.1.clone();
        assert(payload@ == frame.1@);
        Some(post_command(&frame.0, payload))
    }

    /// Takes down whether the socket took the next frame. Once it has refused one, or
    /// once there is no next frame, nothing more is taken down.
    pub fn report(&mut self, taken: bool)
        ensures
            if old(self)@.gone || old(self)@.posted >= frame_count(old(self)@.batches) {
                final(self)@ == old(self)@
            } else if taken {
                final(self)@ == (PostingView { posted: old(self)@.posted + 1, ..old(self)@ })
            } else {
                final(self)@ == (PostingView { gone: true, ..old(self)@ })
            },
    {
        proof {
            use_type_invariant(&*self);
            if self.batch < self.batches@.len() {
                frames_before_grows(self.batches@, self.batch + 1, self.batches@.len() as int);
            }
        }
        if self.gone || self.batch >= self.batches.len() {
            return ;
        }
        if !taken {
            self.gone = true;
            return ;
        }
        let mut held = Posting {
            batches: Vec::new(),
            start: 0,
            posted: 0,
            gone: true,
            batch: 0,
            frame: 0,
        };
        std::mem::swap(self, &mut held);
        let Posting { batches, start, posted, gone, batch, frame } = held;
        let (batch, frame): (usize, usize) = if frame + 1 < batches[batch].frames.len() {
            (batch, frame + 1)
        } else {
            (next_batch(&batches, batch + 1), 0)
        };
        *self = Posting { batches, start, posted: posted + 1, gone, batch, frame };
    }

    /// Whether there is nothing left to wait for, `answered` answers being there after
    /// `waited` nanoseconds: no frame went out, or every one of ours is answered, or
    /// `limit` is over.
    pub fn settled(&self, answered: usize, waited: u128, limit: u128) -> (r: bool)
        ensures
            r == (self@.posted == 0 || answered >= self@.start + self@.posted || waited >= limit),
    {
        self.posted == 0 || (answered >= self.start && answered - self.start >= self.posted)
            || waited >= limit
    }

    /// What the relay confirmed: the records of the batches every frame of which the
    /// socket took and the relay accepted, in order. Nothing counts as sent on the
    /// strength of having been handed to a socket.
    pub fn confirmed(&self, answers: &Vec<bool>) -> (r: Vec<Record>)
        ensures
            r@ == self@.confirmed(answers@),
    {
        proof {
            use_type_invariant(self);
        }
        let mut out: Vec<Record> = Vec::new();
        if self.posted == 0 {
            return out;
        }
        let mut from: usize = 0;
        for k in 0..self.batch
            invariant
                self.well_formed(),
                from == frames_before(self.batches@, k as int),
                out@ == self@.landed_records(answers@, k as int),
        {
            proof {
                frames_before_grows(self.batches@, k + 1, self.batch as int);
            }
            let to: usize = from + self.batches[k].frames.len();
            if all_yes(answers, self.start, from, to) {
                out.push(self.batches[k].record.clone());
            }
            from = to;
        }
        proof {
            self.nothing_behind_the_next_frame_landed(answers@, self.batches@.len() as int);
        }
        out
    }

    /// No batch from that of the next frame on has landed.
    proof fn nothing_behind_the_next_frame_landed(self, answers: Seq<bool>, k: int)
        requires
            self.well_formed(),
            self.batch <= k <= self.batches@.len(),
        ensures
            self@.landed_records(answers, k) == self@.landed_records(answers, self.batch as int),
        decreases k,
    {
        if k > self.batch {
            self.nothing_behind_the_next_frame_landed(answers, k - 1);
            frames_before_grows(self.batches@, self.batch + 1, k);
            assert(!self@.landed(answers, k - 1));
        }
    }
}

/// Whether the answers from `start + from` up to `start + to` are there and all yes.
fn all_yes(answers: &Vec<bool>, start: usize, from: usize, to: usize) -> (r: bool)
    requires
        from <= to,
    ensures
        r == (start + to <= answers@.len() && forall|i: int|
            start + from <= i < start + to ==> #[trigger] answers@[i]),
{
    if answers.len() < start || answers.len() - start < to {
        return false;
    }
    for i in from..to
        invariant
            start + to <= answers@.len() <= usize::MAX,
            forall|j: int| start + from <= j < start + i ==> #[trigger] answers@[j],
    {
        if !answers[start + i] {
            assert(!answers@[start + i]);
            return false;
        }
    }
    true
}

/// The command posts this frame: its bytes to its booth, kept, and not sent back.
pub open spec fn posts_frame(command: Command, frame: Frame) -> bool {
    command matches Command::PostData { booth_id, payload, send_back, save, rip_off_size }
        && booth_id@ == frame.0@ && payload@ == frame.1@ && !send_back && save && rip_off_size@
        == "0"@
}

/// The first batch at or behind `from` that has a frame.
fn next_batch(batches: &Vec<Batch>, from: usize) -> (r: usize)
    requires
        from <= batches@.len(),
    ensures
        from <= r <= batches@.len(),
        frames_before(batches@, r as int) == frames_before(batches@, from as int),
        r < batches@.len() ==> batches@[r as int].frames@.len() > 0,
{
    let mut k: usize = from;
    while k < batches.len() && batches[k].frames.len() == 0
        invariant
            from <= k <= batches@.len(),
            frames_before(batches@, k as int) == frames_before(batches@, from as int),
        decreases batches.len() - k,
    {
        k = k + 1;
    }
    k
}

/// Of the first `k` batches, a record is listed only for one that landed.
proof fn listed_means_landed(
    posting: PostingView,
    answers: Seq<bool>,
    k: int,
    record: Record,
)
    requires
        k <= posting.batches.len(),
        posting.landed_records(answers, k).contains(record),
    ensures
        exists|b: int|
            0 <= b < k && #[trigger] posting.landed(answers, b) && posting.batches[b].record
                == record,
    decreases k,
{
    if k > 0 {
        let before = posting.landed_records(answers, k - 1);
        let listed = posting.landed_records(answers, k);
        let i = choose|i: int| 0 <= i < listed.len() && listed[i] == record;
        if i < before.len() {
            assert(before[i] == record);
            listed_means_landed(posting, answers, k - 1, record);
        } else {
            assert(posting.landed(answers, k - 1));
        }
    }
}

/// Of the first `k` batches, every one that landed is listed.
proof fn landed_means_listed(posting: PostingView, answers: Seq<bool>, k: int, b: int)
    requires
        0 <= b < k <= posting.batches.len(),
        posting.landed(answers, b),
    ensures
        posting.landed_records(answers, k).contains(posting.batches[b].record),
    decreases k,
{
    let before = posting.landed_records(answers, k - 1);
    let listed = posting.landed_records(answers, k);
    let record = posting.batches[b].record;
    if b == k - 1 {
        assert(listed[before.len() as int] == record);
    } else {
        landed_means_listed(posting, answers, k - 1, b);
        let i = choose|i: int| 0 <= i < before.len() && before[i] == record;
        assert(listed[i] == record);
    }
}

/// What is reported as sent was sent whole: each record that is confirmed is that of a
/// batch every frame of which was taken by the socket and accepted by the relay.
pub proof fn what_is_confirmed_landed_whole(
    posting: PostingView,
    answers: Seq<bool>,
    record: Record,
)
    requires
        posting.confirmed(answers).contains(record),
    ensures
        exists|b: int|
            0 <= b < posting.batches.len() && #[trigger] posting.landed(answers, b)
                && posting.batches[b].record == record,
{
    listed_means_landed(posting, answers, posting.batches.len() as int, record);
}

/// And what landed is reported: a batch with at least one frame, all of whose frames
/// were taken by the socket and accepted by the relay, has its record confirmed.
pub proof fn what_landed_whole_is_confirmed(posting: PostingView, answers: Seq<bool>, b: int)
    requires
        0 <= b < posting.batches.len(),
        posting.batches[b].frames@.len() > 0,
        posting.landed(answers, b),
    ensures
        posting.confirmed(answers).contains(posting.batches[b].record),
{
    landed_means_listed(posting, answers, posting.batches.len() as int, b);
}

/// Another poster's answers are not mistaken for ours: what was in the tally before our
/// first frame went out makes no difference to what is confirmed.
pub proof fn earlier_answers_make_no_difference(
    posting: PostingView,
    earlier: Seq<bool>,
    other: Seq<bool>,
    ours: Seq<bool>,
)
    requires
        earlier.len() == posting.start,
        other.len() == posting.start,
    ensures
        posting.confirmed(earlier + ours) == posting.confirmed(other + ours),
{
    landing_ignores_earlier_answers(
        posting,
        earlier,
        other,
        ours,
        posting.batches.len() as int,
    );
}

/// What was there before makes no difference to which of the first `k` batches landed.
proof fn landing_ignores_earlier_answers(
    posting: PostingView,
    earlier: Seq<bool>,
    other: Seq<bool>,
    ours: Seq<bool>,
    k: int,
)
    requires
        earlier.len() == posting.start,
        other.len() == posting.start,
    ensures
        posting.landed_records(earlier + ours, k) == posting.landed_records(other + ours, k),
    decreases k,
{
    if k > 0 {
        landing_ignores_earlier_answers(posting, earlier, other, ours, k - 1);
        let a = earlier + ours;
        let b = other + ours;
        assert(forall|i: int| posting.start <= i < a.len() ==> #[trigger] a[i] == b[i]);
        assert(forall|i: int| posting.start <= i < a.len() ==> #[trigger] b[i] == a[i]);
        assert(posting.landed(a, k - 1) == posting.landed(b, k - 1));
    }
}

/// Answers only ever confirm more: a record that is confirmed stays confirmed whatever
/// arrives after.
pub proof fn later_answers_take_nothing_back(
    posting: PostingView,
    answers: Seq<bool>,
    more: Seq<bool>,
    record: Record,
)
    requires
        posting.confirmed(answers).contains(record),
    ensures
        posting.confirmed(answers + more).contains(record),
{
    let n = posting.batches.len() as int;
    let all = answers + more;
    listed_means_landed(posting, answers, n, record);
    let b = choose|b: int|
        0 <= b < n && #[trigger] posting.landed(answers, b) && posting.batches[b].record == record;
    assert(forall|i: int| 0 <= i < answers.len() ==> #[trigger] all[i] == answers[i]);
    assert(posting.landed(all, b));
    landed_means_listed(posting, all, n, b);
}

/// A socket that is gone swallows nothing: a batch with a frame that it did not take is
/// never confirmed, whatever the answers.
pub proof fn what_was_not_taken_never_landed(
    posting: PostingView,
    answers: Seq<bool>,
    k: int,
)
    requires
        posting.posted < frames_before(posting.batches, k + 1),
    ensures
        !posting.landed(answers, k),
{
}

/// A refusal is never reported as sent: a batch one of whose frames was answered with a
/// no has not landed.
pub proof fn what_was_refused_never_landed(
    posting: PostingView,
    answers: Seq<bool>,
    k: int,
    frame: int,
)
    requires
        0 <= k < posting.batches.len(),
        0 <= frame < posting.batches[k].frames@.len(),
        posting.start + frames_before(posting.batches, k) + frame < answers.len(),
        !answers[posting.start + frames_before(posting.batches, k) + frame],
    ensures
        !posting.landed(answers, k),
{
    let at = posting.start + frames_before(posting.batches, k) + frame;
    assert(!answers[at]);
}

/// Where the socket took every frame and the relay accepted every one of them, every
/// batch is confirmed, in order.
pub proof fn a_clean_run_confirms_everything(posting: PostingView, answers: Seq<bool>)
    requires
        posting.posted == frame_count(posting.batches),
        posting.posted > 0,
        answers.len() >= posting.start + posting.posted,
        forall|i: int|
            posting.start <= i < posting.start + posting.posted ==> #[trigger] answers[i],
    ensures
        posting.confirmed(answers) == posting.batches.map_values(|b: Batch| b.record),
{
    clean_prefix(posting, answers, posting.batches.len() as int);
}

/// In a clean run each of the first `k` batches landed.
proof fn clean_prefix(posting: PostingView, answers: Seq<bool>, k: int)
    requires
        0 <= k <= posting.batches.len(),
        posting.posted == frame_count(posting.batches),
        answers.len() >= posting.start + posting.posted,
        forall|i: int|
            posting.start <= i < posting.start + posting.posted ==> #[trigger] answers[i],
    ensures
        posting.landed_records(answers, k) == posting.batches.map_values(
            |b: Batch| b.record,
        ).take(k),
    decreases k,
{
    let records = posting.batches.map_values(|b: Batch| b.record);
    if k > 0 {
        clean_prefix(posting, answers, k - 1);
        frames_before_grows(posting.batches, k, posting.batches.len() as int);
        assert(posting.landed(answers, k - 1));
        assert(records.take(k) == records.take(k - 1).push(records[k - 1]));
    } else {
        assert(records.take(0) == Seq::<Record>::empty());
    }
}

/// A tally only grows: what was in it when a call started stays where it was, whatever
/// arrives.
pub proof fn a_tally_only_grows(tally: Seq<bool>, events: Seq<CollaboEvent>)
    ensures
        acked_all(tally, events).len() >= tally.len(),
        acked_all(tally, events).take(tally.len() as int) == tally,
    decreases events.len(),
{
    let all = acked_all(tally, events);
    if events.len() > 0 {
        let before = acked_all(tally, events.drop_last());
        a_tally_only_grows(tally, events.drop_last());
        assert(forall|i: int| 0 <= i < tally.len() ==> before.take(tally.len() as int)[i] == before[i]);
    }
    assert(all.take(tally.len() as int) == tally);
}

/// Every answer is kept, in the order of arrival, and nothing else is: an answer that
/// arrives goes behind all that are there, and any other event changes nothing.
pub proof fn every_answer_is_kept_in_its_place(
    tally: Seq<bool>,
    events: Seq<CollaboEvent>,
    i: int,
)
    requires
        0 <= i < events.len(),
    ensures
        events[i] matches CollaboEvent::PostAck { ok } ==> acked_all(tally, events).len()
            > acked_all(tally, events.take(i)).len() && acked_all(tally, events)[acked_all(
            tally,
            events.take(i),
        ).len() as int] == ok && acked_all(tally, events.take(i + 1)).len() == acked_all(
            tally,
            events.take(i),
        ).len() + 1,
        !(events[i] is PostAck) ==> acked_all(tally, events.take(i + 1)) == acked_all(
            tally,
            events.take(i),
        ),
        acked_all(tally, Seq::<CollaboEvent>::empty()) == tally,
{
    let before = acked_all(tally, events.take(i));
    let with = acked_all(tally, events.take(i + 1));
    assert(events.take(i + 1).drop_last() == events.take(i));
    let rest = events.skip(i + 1);
    assert(events == events.take(i + 1) + rest);
    answers_in_two_parts(tally, events.take(i + 1), rest);
    a_tally_only_grows(with, rest);
    if events[i] is PostAck {
        assert(with[before.len() as int] == acked_all(with, rest).take(with.len() as int)[before.len() as int]);
    }
}

/// The answers to two runs of events are those to the second, behind those to the first.
proof fn answers_in_two_parts(
    tally: Seq<bool>,
    first: Seq<CollaboEvent>,
    second: Seq<CollaboEvent>,
)
    ensures
        acked_all(tally, first + second) == acked_all(acked_all(tally, first), second),
    decreases second.len(),
{
    let all = first + second;
    if second.len() == 0 {
        assert(all == first);
    } else {
        answers_in_two_parts(tally, first, second.drop_last());
        assert(all.drop_last() == first + second.drop_last());
        assert(all.last() == second.last());
    }
}

/// Where the frames of the batches stand: no frame stands before those of the first one,
/// those of each follow those of the one before without a gap, and together they are all
/// there is.
pub proof fn batches_follow_each_other(batches: Seq<Batch>, b: int, f: int)
    requires
        0 <= b < batches.len(),
        0 <= f < batches[b].frames@.len(),
    ensures
        frames_before(batches, 0) == 0,
        frames_before(batches, b + 1) == frames_before(batches, b) + batches[b].frames@.len(),
        frame_count(batches) == frames_before(batches, batches.len() as int),
        frames_before(batches, b) + f < frame_count(batches),
        all_frames(batches).len() == frame_count(batches),
        all_frames(batches)[frames_before(batches, b) + f] == batches[b].frames@[f],
{
    frame_of_all(batches, b, f);
    all_frames_len(batches);
}

/// Batches are as many frames as each of them has, added up: one batch more is its frames
/// more, and none at all are no frames.
pub proof fn frames_add_up(batches: Seq<Batch>, batch: Batch)
    ensures
        frame_count(Seq::<Batch>::empty()) == 0,
        frame_count(batches.push(batch)) == frame_count(batches) + batch.frames@.len(),
        all_frames(batches.push(batch)) == all_frames(batches) + batch.frames@,
        forall|k: int|
            0 <= k <= batches.len() ==> #[trigger] frames_before(batches, k) == frame_count(
                batches.take(k),
            ),
{
    let more = batches.push(batch);
    assert(more.drop_last() == batches);
    frames_before_prefix(more, batches.len() as int);
    assert forall|k: int| 0 <= k <= batches.len() implies #[trigger] frames_before(batches, k)
        == frame_count(batches.take(k)) by {
        frames_of_prefix(batches, k, k);
    }
}

/// The first batches are as many frames on their own.
proof fn frames_of_prefix(batches: Seq<Batch>, n: int, k: int)
    requires
        0 <= k <= n <= batches.len(),
    ensures
        frames_before(batches.take(n), k) == frames_before(batches, k),
    decreases k,
{
    if k > 0 {
        frames_of_prefix(batches, n, k - 1);
    }
}

/// A frame is posted as it is: its own bytes to its own booth, to be kept, and not to be
/// sent back.
pub proof fn a_frame_is_posted_as_it_is(command: Command, frame: Frame)
    requires
        posts_frame(command, frame),
    ensures
        command matches Command::PostData { booth_id, payload, send_back, save, rip_off_size }
            && booth_id@ == frame.0@ && payload@ == frame.1@ && send_back == false && save == true
            && rip_off_size@ == seq!['0'],
{
    reveal_strlit("0");
    assert("0"@ == seq!['0']);
}

/// A batch is judged by the answers to its own frames: one with at least one frame, all of
/// whose frames the socket took and the relay answered with a yes, is confirmed, whatever
/// was answered to the frames of any other.
pub proof fn its_own_answers_confirm_a_batch(posting: PostingView, answers: Seq<bool>, b: int)
    requires
        0 <= b < posting.batches.len(),
        posting.batches[b].frames@.len() > 0,
        posting.posted >= frames_before(posting.batches, b + 1),
        answers.len() >= posting.start + frames_before(posting.batches, b + 1),
        forall|f: int|
            0 <= f < posting.batches[b].frames@.len() ==> #[trigger] answers[posting.start
                + frames_before(posting.batches, b) + f],
    ensures
        posting.confirmed(answers).contains(posting.batches[b].record),
{
    let from = posting.start + frames_before(posting.batches, b);
    let to = posting.start + frames_before(posting.batches, b + 1);
    assert forall|i: int| from <= i < to implies #[trigger] answers[i] by {
        let f = i - from;
        assert(answers[posting.start + frames_before(posting.batches, b) + f]);
    }
    assert(posting.landed(answers, b));
    landed_means_listed(posting, answers, posting.batches.len() as int, b);
}

/// Batch `b` went out and was accepted: the socket took every one of its frames, the relay
/// answered each of them, and each answer was a yes.
pub open spec fn went_out_and_was_accepted(
    posting: PostingView,
    answers: Seq<bool>,
    b: int,
) -> bool {
    &&& posting.posted >= frames_before(posting.batches, b) + posting.batches[b].frames@.len()
    &&& answers.len() >= posting.start + frames_before(posting.batches, b)
        + posting.batches[b].frames@.len()
    &&& forall|f: int|
        0 <= f < posting.batches[b].frames@.len() ==> #[trigger] answers[posting.start
            + frames_before(posting.batches, b) + f]
}

/// What is confirmed is exactly the records of the batches that went out and were
/// accepted, each once and in the order of the batches; and nothing at all where the socket
/// took no frame.
pub proof fn exactly_what_was_accepted_is_confirmed(posting: PostingView, answers: Seq<bool>)
    ensures
        posting.posted == 0 ==> posting.confirmed(answers).len() == 0,
        posting.posted > 0 ==> posting.confirmed(answers) == Seq::new(
            posting.batches.len(),
            |b: int| b,
        ).filter(|b: int| went_out_and_was_accepted(posting, answers, b)).map_values(
            |b: int| posting.batches[b].record,
        ),
{
    let n = posting.batches.len();
    accepted_among_the_first(posting, answers, n as int);
}

/// Of the first `k` batches, the records of those that went out and were accepted are
/// listed.
proof fn accepted_among_the_first(posting: PostingView, answers: Seq<bool>, k: int)
    requires
        0 <= k <= posting.batches.len(),
    ensures
        posting.landed_records(answers, k) == Seq::new(k as nat, |b: int| b).filter(
            |b: int| went_out_and_was_accepted(posting, answers, b),
        ).map_values(|b: int| posting.batches[b].record),
    decreases k,
{
    reveal(Seq::filter);
    let accepted = |b: int| went_out_and_was_accepted(posting, answers, b);
    let record = |b: int| posting.batches[b].record;
    let all = Seq::new(k as nat, |b: int| b);
    if k == 0 {
        assert(all.filter(accepted).map_values(record) == Seq::<Record>::empty());
    } else {
        let front = Seq::new((k - 1) as nat, |b: int| b);
        accepted_among_the_first(posting, answers, k - 1);
        assert(all.drop_last() == front);
        landing_spelled_out(posting, answers, k - 1);
        let kept = front.filter(accepted);
        assert(kept.push(k - 1).map_values(record) == kept.map_values(record).push(
            posting.batches[k - 1].record,
        ));
    }
}

/// A batch landed if and only if it went out and was accepted.
proof fn landing_spelled_out(posting: PostingView, answers: Seq<bool>, b: int)
    requires
        0 <= b < posting.batches.len(),
    ensures
        posting.landed(answers, b) == went_out_and_was_accepted(posting, answers, b),
{
    let from = posting.start + frames_before(posting.batches, b);
    let to = posting.start + frames_before(posting.batches, b + 1);
    if went_out_and_was_accepted(posting, answers, b) {
        assert forall|i: int| from <= i < to implies #[trigger] answers[i] by {
            let f = i - from;
            assert(answers[posting.start + frames_before(posting.batches, b) + f]);
        }
    }
}

/// One batch's answers are no other's: changing what was answered to the frames of other
/// batches changes nothing for this one.
pub proof fn other_answers_make_no_difference(
    posting: PostingView,
    answers: Seq<bool>,
    other: Seq<bool>,
    b: int,
)
    requires
        0 <= b < posting.batches.len(),
        posting.batches[b].frames@.len() > 0,
        answers.len() == other.len(),
        forall|i: int|
            posting.start + frames_before(posting.batches, b) <= i < posting.start + frames_before(
                posting.batches,
                b,
            ) + posting.batches[b].frames@.len() && i < answers.len() ==> #[trigger] answers[i]
                == other[i],
        forall|c: int|
            0 <= c < posting.batches.len() && c != b ==> (#[trigger] posting.batches[c]).record
                != posting.batches[b].record,
    ensures
        posting.confirmed(answers).contains(posting.batches[b].record) == posting.confirmed(
            other,
        ).contains(posting.batches[b].record),
{
    let record = posting.batches[b].record;
    let n = posting.batches.len() as int;
    landing_spelled_out(posting, answers, b);
    landing_spelled_out(posting, other, b);
    let from = posting.start + frames_before(posting.batches, b);
    assert forall|f: int| 0 <= f < posting.batches[b].frames@.len() && from + f
        < answers.len() implies #[trigger] answers[posting.start + frames_before(
        posting.batches,
        b,
    ) + f] == other[posting.start + frames_before(posting.batches, b) + f] by {
        assert(answers[from + f] == other[from + f]);
    }
    if went_out_and_was_accepted(posting, answers, b) {
        assert forall|f: int| 0 <= f < posting.batches[b].frames@.len() implies #[trigger] other[
        posting.start + frames_before(posting.batches, b) + f] by {
            assert(answers[posting.start + frames_before(posting.batches, b) + f]);
        }
        assert(went_out_and_was_accepted(posting, other, b));
    }
    if went_out_and_was_accepted(posting, other, b) {
        assert forall|f: int| 0 <= f < posting.batches[b].frames@.len() implies #[trigger] answers[
        posting.start + frames_before(posting.batches, b) + f] by {
            assert(other[posting.start + frames_before(posting.batches, b) + f]);
        }
        assert(went_out_and_was_accepted(posting, answers, b));
    }
    if posting.landed(answers, b) {
        landed_means_listed(posting, answers, n, b);
        landed_means_listed(posting, other, n, b);
    }
    if posting.confirmed(answers).contains(record) {
        listed_means_landed(posting, answers, n, record);
    }
    if posting.confirmed(other).contains(record) {
        listed_means_landed(posting, other, n, record);
    }
}

} // verus!
