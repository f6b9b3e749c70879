//! A visit to a room: join, do one thing, leave.
//!
//! The relay ignores what it is sent before it considers the connection to be in the
//! room, so nothing is posted and no booth is asked for until the room has answered the
//! login. The visit decides what is to be done next; doing it is the caller's.

use super::post::Record;
use super::socket::Command;
use crate::error::{AppError, AppResult};
use vstd::prelude::*;

verus! {

/// What a visit is for.
#[derive(Debug)]
pub enum Purpose {
    /// Post batches.
    Post,
    /// Have these booths replayed.
    Pull { booths: Vec<String> },
}

/// How the relay is reached, and the session it knows us by.
#[derive(Debug)]
pub struct Relay {
    pub host: String,
    pub port: u16,
    pub session_id: String,
}

/// Where a visit stands: what it is waiting for.
#[derive(Debug)]
pub enum Phase {
    /// The device id, and where the relay is.
    Entering,
    /// The connection.
    Connecting { device_id: String, session_id: String },
    /// The login to be handed over.
    LoggingIn,
    /// The room's answer.
    AwaitingAnswer,
    /// A booth to be asked for; `next` is the one behind it.
    Attaching { next: usize },
    /// The replay to go quiet.
    AwaitingReplay,
    /// The batches to be posted and answered.
    Posting,
    /// The logout to be handed over, with what the visit came to.
    LoggingOut { outcome: Outcome },
    /// The goodbye to be handed over, with what the visit came to.
    Disconnecting { outcome: Outcome },
    /// Nothing; the visit is over.
    Over,
}

/// What a visit came to.
#[derive(Debug)]
pub enum Outcome {
    /// The relay confirmed these.
    Posted(Vec<Record>),
    /// Every booth was asked for, and the replay has gone quiet.
    Replayed,
    /// The room did not let us in.
    Refused(AppError),
    /// Something else went wrong.
    Failed(AppError),
}

/// A visit to a room.
#[derive(Debug)]
pub struct Visit {
    pub room_id: String,
    pub nickname: String,
    pub purpose: Purpose,
    pub phase: Phase,
}

/// What has been done.
#[derive(Debug)]
pub enum Event {
    /// The device id is known, and where the relay is.
    Entered { device_id: String, relay: Relay },
    /// There is a connection.
    Connected,
    /// A command was handed over. Whether the socket took it makes no difference.
    Sent,
    /// Waiting for the room's answer came to this.
    Answered(AppResult<Option<String>>),
    /// The batches went out, and the relay confirmed these.
    Posted(Vec<Record>),
    /// The replay has gone quiet.
    WentQuiet,
    /// It could not be done.
    Failed(AppError),
}

/// What is to be done next.
#[derive(Debug)]
pub enum Action {
    /// Find out the device id and where the relay is.
    Enter,
    /// Connect to the relay.
    Connect { host: String, port: u16 },
    /// Hand over a command.
    Send(Command),
    /// Wait for the room's answer.
    AwaitAnswer,
    /// Post the batches, stamped with the id the room gave us.
    Post { room_user_id: Option<String> },
    /// Wait for the replay to go quiet.
    AwaitReplay,
    /// Leave it at that.
    Finish(Outcome),
}

impl Visit {
    /// A visit that has not begun: the first thing to do is [`Action::Enter`].
    pub open spec fn is_new(self, room_id: Seq<char>, nickname: String, purpose: Purpose) -> bool {
        &&& self.room_id@ == room_id
        &&& self.nickname == nickname
        &&& self.purpose == purpose
        &&& self.phase is Entering
    }

    /// A visit that has not begun.
    pub fn new(room_id: &str, nickname: &String, purpose: Purpose) -> (r: Visit)
        ensures
            r.is_new(room_id@, *nickname, purpose),
    {
        Visit {
            room_id: room_id.to_owned(),
            nickname: nickname.clone(),
            purpose,
            phase: Phase::Entering,
        }
    }

    /// The way out: log out, then say goodbye.
    pub open spec fn leaving(self, outcome: Outcome) -> (Phase, Action) {
        (
            Phase::LoggingOut { outcome },
            Action::Send(Command::Logout { room_id: self.room_id }),
        )
    }

    /// Where an event takes the visit, and what is to be done next; `None` where the
    /// visit is not waiting for it. After a failure, and after a refusal, nothing is
    /// left to be done: the connection is dropped as it is.
    pub open spec fn answer(self, event: Event) -> Option<(Phase, Action)> {
        match (self.phase, event) {
            (Phase::Entering, Event::Entered { device_id, relay }) => Some(
                (
                    Phase::Connecting { device_id, session_id: relay.session_id },
                    Action::Connect { host: relay.host, port: relay.port },
                ),
            ),
            (Phase::Connecting { device_id, session_id }, Event::Connected) => Some(
                (
                    Phase::LoggingIn,
                    Action::Send(
                        Command::Login {
                            room_id: self.room_id,
                            device_id,
                            session_id,
                            nickname: self.nickname,
                        },
                    ),
                ),
            ),
            (Phase::LoggingIn, Event::Sent) => Some((Phase::AwaitingAnswer, Action::AwaitAnswer)),
            (Phase::AwaitingAnswer, Event::Answered(Err(error))) => Some(
                (Phase::Over, Action::Finish(Outcome::Refused(error))),
            ),
            (Phase::AwaitingAnswer, Event::Answered(Ok(room_user_id))) => Some(
                match self.purpose {
                    Purpose::Post => (Phase::Posting, Action::Post { room_user_id }),
                    Purpose::Pull { booths } => attaching(booths@, 0),
                },
            ),
            (Phase::Attaching { next }, Event::Sent) => match self.purpose {
                Purpose::Pull { booths } => Some(attaching(booths@, next as int)),
                Purpose::Post => None,
            },
            (Phase::AwaitingReplay, Event::WentQuiet) => Some(self.leaving(Outcome::Replayed)),
            (Phase::Posting, Event::Posted(records)) => Some(
                self.leaving(Outcome::Posted(records)),
            ),
            (Phase::LoggingOut { outcome }, Event::Sent) => Some(
                (Phase::Disconnecting { outcome }, Action::Send(Command::Disconnect)),
            ),
            (Phase::Disconnecting { outcome }, Event::Sent) => Some(
                (Phase::Over, Action::Finish(outcome)),
            ),
            (Phase::Entering, Event::Failed(error)) => Some(failing(error)),
            (Phase::Connecting { .. }, Event::Failed(error)) => Some(failing(error)),
            (Phase::Posting, Event::Failed(error)) => Some(failing(error)),
            _ => None,
        }
    }

    /// Takes down what has been done, and says what is to be done next. There is no
    /// result where the visit is not waiting for this.
    pub fn step(self, event: Event) -> (r: Option<(Visit, Action)>)
        ensures
            match self.answer(event) {
                Some((phase, action)) => r == Some((Visit { phase, ..self }, action)),
                None => r is None,
            },
    {
        let Visit { room_id, nickname, purpose, phase } = self;
        let (phase, action): (Phase, Action) = match (phase, event) {
            (Phase::Entering, Event::Entered { device_id, relay }) => (
                Phase::Connecting { device_id, session_id: relay.session_id },
                Action::Connect { host: relay.host, port: relay.port },
            ),
            (Phase::Connecting { device_id, session_id }, Event::Connected) => (
                Phase::LoggingIn,
                Action::Send(
                    Command::Login {
                        room_id: room_id.clone(),
                        device_id,
                        session_id,
                        nickname: nickname.clone(),
                    },
                ),
            ),
            (Phase::LoggingIn, Event::Sent) => (Phase::AwaitingAnswer, Action::AwaitAnswer),
            (Phase::AwaitingAnswer, Event::Answered(Err(error))) => (
                Phase::Over,
                Action::Finish(Outcome::Refused(error)),
            ),
            (Phase::AwaitingAnswer, Event::Answered(Ok(room_user_id))) => match &purpose {
                Purpose::Post => (Phase::Posting, Action::Post { room_user_id }),
                Purpose::Pull { booths } => attach_next(booths, 0),
            },
            (Phase::Attaching { next }, Event::Sent) => match &purpose {
                Purpose::Pull { booths } => attach_next(booths, next),
                Purpose::Post => return None,
            },
            (Phase::AwaitingReplay, Event::WentQuiet) => (
                Phase::LoggingOut { outcome: Outcome::Replayed },
                Action::Send(Command::Logout { room_id: room_id.clone() }),
            ),
            (Phase::Posting, Event::Posted(records)) => (
                Phase::LoggingOut { outcome: Outcome::Posted(records) },
                Action::Send(Command::Logout { room_id: room_id.clone() }),
            ),
            (Phase::LoggingOut { outcome }, Event::Sent) => (
                Phase::Disconnecting { outcome },
                Action::Send(Command::Disconnect),
            ),
            (Phase::Disconnecting { outcome }, Event::Sent) => (
                Phase::Over,
                Action::Finish(outcome),
            ),
            (Phase::Entering, Event::Failed(error)) => (
                Phase::Over,
                Action::Finish(Outcome::Failed(error)),
            ),
            (Phase::Connecting { .. }, Event::Failed(error)) => (
                Phase::Over,
                Action::Finish(Outcome::Failed(error)),
            ),
            (Phase::Posting, Event::Failed(error)) => (
                Phase::Over,
                Action::Finish(Outcome::Failed(error)),
            ),
            _ => return None,
        };
        Some((Visit { room_id, nickname, purpose, phase }, action))
    }

    /// Where a number of events, one after the other, take the visit; `None` where it
    /// was not waiting for one of them.
    pub open spec fn after(self, events: Seq<Event>) -> Option<Visit>
        decreases events.len(),
    {
        if events.len() == 0 {
            Some(self)
        } else {
            match self.after(events.drop_last()) {
                Some(visit) => match visit.answer(events.last()) {
                    Some((phase, _)) => Some(Visit { phase, ..visit }),
                    None => None,
                },
                None => None,
            }
        }
    }

    /// What is to be done once these events have happened.
    pub open spec fn action_after(self, events: Seq<Event>) -> Option<Action> {
        if events.len() == 0 {
            Some(Action::Enter)
        } else {
            match self.after(events.drop_last()) {
                Some(visit) => match visit.answer(events.last()) {
                    Some((_, action)) => Some(action),
                    None => None,
                },
                None => None,
            }
        }
    }

    /// The booths that were asked for in the course of these events, in order.
    pub open spec fn asked(self, events: Seq<Event>) -> Seq<String>
        decreases events.len(),
    {
        if events.len() == 0 {
            Seq::empty()
        } else {
            let before = self.asked(events.drop_last());
            match self.action_after(events) {
                Some(Action::Send(Command::AttachBooth { booth_id, .. })) => before.push(booth_id),
                _ => before,
            }
        }
    }
}

/// What comes next once `next` booths have been asked for: the next one, the whole of
/// it, from the beginning; or the wait for the replay.
pub open spec fn attaching(booths: Seq<String>, next: int) -> (Phase, Action) {
    if next < booths.len() {
        (
            Phase::Attaching { next: (next + 1) as usize },
            Action::Send(Command::AttachBooth { booth_id: booths[next], last_sequence: 0 }),
        )
    } else {
        (Phase::AwaitingReplay, Action::AwaitReplay)
    }
}

/// The end of a visit that something went wrong with.
pub open spec fn failing(error: AppError) -> (Phase, Action) {
    (Phase::Over, Action::Finish(Outcome::Failed(error)))
}

/// Asks for the next booth, or waits for the replay.
fn attach_next(booths: &Vec<String>, next: usize) -> (r: (Phase, Action))
    ensures
        r == attaching(booths@, next as int),
{
    if next < booths.len() {
        (
            Phase::Attaching { next: next + 1 },
            Action::Send(
                Command::AttachBooth { booth_id: booths[next].clone(), last_sequence: 0 },
            ),
        )
    } else {
        (Phase::AwaitingReplay, Action::AwaitReplay)
    }
}

/// The action is one that only means something inside the room.
pub open spec fn speaks_in_the_room(action: Action) -> bool {
    action is Post || action matches Action::Send(Command::AttachBooth { .. })
}

/// The event is the room letting us in.
pub open spec fn lets_us_in(event: Event) -> bool {
    event matches Event::Answered(Ok(_))
}

/// The visit is in the room, or was.
spec fn was_in_the_room(phase: Phase) -> bool {
    match phase {
        Phase::Attaching { .. } => true,
        Phase::AwaitingReplay => true,
        Phase::Posting => true,
        Phase::LoggingOut { .. } => true,
        Phase::Disconnecting { .. } => true,
        _ => false,
    }
}

/// A visit keeps its room, its nickname and its purpose.
proof fn a_visit_keeps_its_purpose(visit: Visit, events: Seq<Event>)
    ensures
        visit.after(events) matches Some(v) ==> v.room_id == visit.room_id && v.nickname
            == visit.nickname && v.purpose == visit.purpose,
    decreases events.len(),
{
    if events.len() > 0 {
        a_visit_keeps_its_purpose(visit, events.drop_last());
    }
}

/// A visit that is in the room was let in.
proof fn in_the_room_means_let_in(visit: Visit, events: Seq<Event>)
    requires
        visit.phase is Entering,
        visit.after(events) matches Some(v) && was_in_the_room(v.phase),
    ensures
        exists|i: int| 0 <= i < events.len() && lets_us_in(#[trigger] events[i]),
    decreases events.len(),
{
    if events.len() > 0 {
        let front = events.drop_last();
        let before = visit.after(front)->0;
        if was_in_the_room(before.phase) {
            in_the_room_means_let_in(visit, front);
            let i = choose|i: int| 0 <= i < front.len() && lets_us_in(#[trigger] front[i]);
            assert(lets_us_in(events[i]));
        } else {
            assert(lets_us_in(events[events.len() - 1]));
        }
    }
}

/// Nothing is posted, and no booth is asked for, before the room has let us in.
pub proof fn nothing_is_said_before_the_room_lets_us_in(visit: Visit, events: Seq<Event>)
    requires
        visit.phase is Entering,
        visit.action_after(events) matches Some(action) && speaks_in_the_room(action),
    ensures
        exists|i: int| 0 <= i < events.len() && lets_us_in(#[trigger] events[i]),
{
    in_the_room_means_let_in(visit, events);
}

/// A refused login is the end of a visit: what is done next is to report it, and the
/// visit waits for nothing after that.
pub proof fn a_refusal_ends_the_visit(
    visit: Visit,
    events: Seq<Event>,
    error: AppError,
    further: Event,
)
    requires
        events.len() > 0,
        events.last() == Event::Answered(Err(error)),
        visit.after(events) is Some,
    ensures
        visit.action_after(events) == Some(Action::Finish(Outcome::Refused(error))),
        visit.after(events.push(further)) is None,
{
    assert(events.push(further).drop_last() == events);
}

/// A failure is the end of a visit: what is done next is to report it, and the visit waits
/// for nothing after that.
pub proof fn a_failure_ends_the_visit(
    visit: Visit,
    events: Seq<Event>,
    error: AppError,
    further: Event,
)
    requires
        events.len() > 0,
        events.last() == Event::Failed(error),
        visit.after(events) is Some,
    ensures
        visit.action_after(events) == Some(Action::Finish(Outcome::Failed(error))),
        visit.after(events.push(further)) is None,
{
    assert(events.push(further).drop_last() == events);
}

/// A room that cannot be reached, because there is no way in or no connection to be had,
/// is reported as a failure, whatever the visit was for.
pub proof fn a_room_that_cannot_be_reached_is_a_failure(
    visit: Visit,
    events: Seq<Event>,
    error: AppError,
)
    requires
        visit.after(events) matches Some(v) && (v.phase is Entering || v.phase is Connecting),
    ensures
        visit.action_after(events.push(Event::Failed(error))) == Some(
            Action::Finish(Outcome::Failed(error)),
        ),
{
    assert(events.push(Event::Failed(error)).drop_last() == events);
}

/// A visit that came to something has logged out of its room, and then said goodbye,
/// before it was over.
pub proof fn a_visit_leaves_before_it_is_over(visit: Visit, events: Seq<Event>, outcome: Outcome)
    requires
        visit.phase is Entering,
        visit.action_after(events) == Some(Action::Finish(outcome)),
        outcome is Posted || outcome is Replayed,
    ensures
        events.len() >= 2,
        visit.action_after(events.drop_last()) == Some(Action::Send(Command::Disconnect)),
        visit.action_after(events.drop_last().drop_last()) == Some(
            Action::Send(Command::Logout { room_id: visit.room_id }),
        ),
{
    let one = events.drop_last();
    let two = one.drop_last();
    assert(visit.after(one) matches Some(v) && v.phase == Phase::Disconnecting { outcome });
    assert(one.len() > 0);
    assert(visit.after(two) matches Some(v) && v.phase == Phase::LoggingOut { outcome });
    assert(two.len() > 0);
    a_visit_keeps_its_purpose(visit, two.drop_last());
}

/// How many booths a visit that pulls has asked for, by where it stands.
proof fn booths_are_asked_for_in_turn(visit: Visit, events: Seq<Event>, booths: Vec<String>)
    requires
        visit.phase is Entering,
        visit.purpose == (Purpose::Pull { booths }),
        visit.after(events) is Some,
    ensures
        match visit.after(events)->0.phase {
            Phase::Attaching { next } => next <= booths@.len() && visit.asked(events)
                == booths@.take(next as int),
            Phase::AwaitingReplay => visit.asked(events) == booths@,
            Phase::LoggingOut { .. } => visit.asked(events) == booths@,
            Phase::Disconnecting { .. } => visit.asked(events) == booths@,
            Phase::Posting => false,
            Phase::Over => true,
            _ => visit.asked(events) == Seq::<String>::empty(),
        },
    decreases events.len(),
{
    assert(booths@.len() == booths.len());
    if events.len() > 0 {
        let front = events.drop_last();
        booths_are_asked_for_in_turn(visit, front, booths);
        a_visit_keeps_its_purpose(visit, front);
        let before = visit.after(front)->0;
        assert(booths@.take(0) == Seq::<String>::empty());
        assert(booths@.take(booths@.len() as int) == booths@);
        match before.phase {
            Phase::Attaching { next } => {
                if next < booths@.len() {
                    assert(booths@.take(next + 1) == booths@.take(next as int).push(
                        booths@[next as int],
                    ));
                }
            },
            Phase::AwaitingAnswer => {
                if booths@.len() > 0 {
                    assert(booths@.take(1) == booths@.take(0).push(booths@[0]));
                }
            },
            _ => {},
        }
    }
}

/// A pull asks for every booth, each once and in order, before it waits for the replay.
pub proof fn every_booth_is_asked_for(visit: Visit, events: Seq<Event>, booths: Vec<String>)
    requires
        visit.phase is Entering,
        visit.purpose == (Purpose::Pull { booths }),
        visit.action_after(events) == Some(Action::AwaitReplay),
    ensures
        visit.asked(events) == booths@,
{
    booths_are_asked_for_in_turn(visit, events, booths);
}

/// The outcome is one that a visit with this purpose can come to.
pub open spec fn suits(purpose: Purpose, outcome: Outcome) -> bool {
    match purpose {
        Purpose::Post => outcome !is Replayed,
        Purpose::Pull { .. } => outcome !is Posted,
    }
}

/// A visit does only what its purpose asks for, and leaves with what came of that.
proof fn a_visit_does_what_it_is_for(visit: Visit, events: Seq<Event>)
    requires
        visit.phase is Entering,
        visit.after(events) is Some,
    ensures
        match visit.after(events)->0.phase {
            Phase::Attaching { .. } => visit.purpose is Pull,
            Phase::AwaitingReplay => visit.purpose is Pull,
            Phase::Posting => visit.purpose is Post,
            Phase::LoggingOut { outcome } => suits(visit.purpose, outcome),
            Phase::Disconnecting { outcome } => suits(visit.purpose, outcome),
            _ => true,
        },
    decreases events.len(),
{
    if events.len() > 0 {
        a_visit_does_what_it_is_for(visit, events.drop_last());
        a_visit_keeps_its_purpose(visit, events.drop_last());
    }
}

/// A visit that posts never ends with a replay, and one that pulls never with records.
pub proof fn a_visit_ends_as_it_was_meant_to(visit: Visit, events: Seq<Event>, outcome: Outcome)
    requires
        visit.phase is Entering,
        visit.action_after(events) == Some(Action::Finish(outcome)),
    ensures
        suits(visit.purpose, outcome),
{
    a_visit_does_what_it_is_for(visit, events.drop_last());
    a_visit_keeps_its_purpose(visit, events.drop_last());
}

/// How often a visit connected in the course of these events.
pub open spec fn connections(visit: Visit, events: Seq<Event>) -> nat
    decreases events.len(),
{
    if events.len() == 0 {
        0
    } else {
        connections(visit, events.drop_last()) + (if visit.action_after(
            events,
        ) matches Some(Action::Connect { .. }) {
            1nat
        } else {
            0nat
        })
    }
}

/// Everything a visit does goes over one connection: it never asks for a second one.
/// The relay allows one connection per device, so a second one would race the first
/// one's teardown.
pub proof fn a_visit_connects_at_most_once(visit: Visit, events: Seq<Event>)
    requires
        visit.phase is Entering,
        visit.after(events) is Some,
    ensures
        connections(visit, events) <= 1,
        visit.after(events)->0.phase is Entering ==> connections(visit, events) == 0,
    decreases events.len(),
{
    if events.len() > 0 {
        a_visit_connects_at_most_once(visit, events.drop_last());
    }
}

/// A visit on its way out with records was told of them.
proof fn records_were_told(visit: Visit, events: Seq<Event>, records: Vec<Record>)
    requires
        visit.phase is Entering,
        visit.after(events) is Some,
        match visit.after(events)->0.phase {
            Phase::LoggingOut { outcome } => outcome == Outcome::Posted(records),
            Phase::Disconnecting { outcome } => outcome == Outcome::Posted(records),
            _ => false,
        },
    ensures
        events.contains(Event::Posted(records)),
    decreases events.len(),
{
    if events.len() > 0 {
        let front = events.drop_last();
        let last = events[events.len() - 1];
        if last == Event::Posted(records) {
            assert(events.contains(last));
        } else {
            records_were_told(visit, front, records);
            let i = choose|i: int| 0 <= i < front.len() && front[i] == Event::Posted(records);
            assert(events[i] == Event::Posted(records));
        }
    }
}

/// A visit reports as posted what the relay confirmed, and nothing else.
pub proof fn what_is_reported_was_confirmed(
    visit: Visit,
    events: Seq<Event>,
    records: Vec<Record>,
)
    requires
        visit.phase is Entering,
        visit.action_after(events) == Some(Action::Finish(Outcome::Posted(records))),
    ensures
        events.contains(Event::Posted(records)),
{
    let front = events.drop_last();
    records_were_told(visit, front, records);
    let i = choose|i: int| 0 <= i < front.len() && front[i] == Event::Posted(records);
    assert(events[i] == Event::Posted(records));
}

/// A visit that has not begun is to the room, under the nickname and for the purpose that
/// it was made with, and has everything still before it.
pub proof fn a_new_visit_is_as_it_was_made(
    visit: Visit,
    room_id: Seq<char>,
    nickname: String,
    purpose: Purpose,
)
    requires
        visit.is_new(room_id, nickname, purpose),
    ensures
        visit.room_id@ == room_id,
        visit.nickname@ == nickname@,
        visit.purpose == purpose,
        visit.phase is Entering,
        visit.action_after(Seq::<Event>::empty()) == Some(Action::Enter),
{
}

/// What has happened once the room has been asked to let us in.
pub open spec fn knocking(device_id: String, relay: Relay) -> Seq<Event> {
    seq![Event::Entered { device_id, relay }, Event::Connected, Event::Sent]
}

/// One event more takes a visit one step on.
proof fn one_event_more(visit: Visit, events: Seq<Event>, event: Event)
    ensures
        visit.after(events) matches Some(v) ==> {
            &&& visit.action_after(events.push(event)) == (match v.answer(event) {
                Some((_, action)) => Some(action),
                None => None,
            })
            &&& visit.after(events.push(event)) == (match v.answer(event) {
                Some((phase, _)) => Some(Visit { phase, ..v }),
                None => None,
            })
        },
{
    assert(events.push(event).drop_last() == events);
}

/// A visit connects to the relay that it was told of, and logs in there to its own room,
/// under its own nickname, with the device id and the session that it was told of; then it
/// waits for the room's answer.
pub proof fn a_visit_logs_in_as_it_was_told(visit: Visit, device_id: String, relay: Relay)
    requires
        visit.phase is Entering,
    ensures
        visit.action_after(knocking(device_id, relay).take(1)) == Some(
            Action::Connect { host: relay.host, port: relay.port },
        ),
        visit.action_after(knocking(device_id, relay).take(2)) == Some(
            Action::Send(
                Command::Login {
                    room_id: visit.room_id,
                    device_id,
                    session_id: relay.session_id,
                    nickname: visit.nickname,
                },
            ),
        ),
        visit.action_after(knocking(device_id, relay)) == Some(Action::AwaitAnswer),
        visit.after(knocking(device_id, relay)) == Some(
            Visit { phase: Phase::AwaitingAnswer, ..visit },
        ),
{
    let none = Seq::<Event>::empty();
    let one = none.push(Event::Entered { device_id, relay });
    let two = one.push(Event::Connected);
    let all = knocking(device_id, relay);
    assert(all.take(1) == one);
    assert(all.take(2) == two);
    assert(all == two.push(Event::Sent));
    assert(visit.after(none) == Some(visit));
    one_event_more(visit, none, Event::Entered { device_id, relay });
    one_event_more(visit, one, Event::Connected);
    one_event_more(visit, two, Event::Sent);
}

/// A visit that posts does so with the id that the room gave us, and reports exactly the
/// records that it was told of, after it has logged out of its room and said goodbye; what
/// keeps it from posting it reports as it was.
pub proof fn a_post_goes_from_beginning_to_end(
    visit: Visit,
    device_id: String,
    relay: Relay,
    room_user_id: Option<String>,
    records: Vec<Record>,
    error: AppError,
)
    requires
        visit.phase is Entering,
        visit.purpose is Post,
    ensures
        ({
            let inside = knocking(device_id, relay).push(Event::Answered(Ok(room_user_id)));
            let posted = inside.push(Event::Posted(records));
            &&& visit.action_after(inside) == Some(Action::Post { room_user_id })
            &&& visit.action_after(inside.push(Event::Failed(error))) == Some(
                Action::Finish(Outcome::Failed(error)),
            )
            &&& visit.action_after(posted) == Some(
                Action::Send(Command::Logout { room_id: visit.room_id }),
            )
            &&& visit.action_after(posted.push(Event::Sent)) == Some(
                Action::Send(Command::Disconnect),
            )
            &&& visit.action_after(posted.push(Event::Sent).push(Event::Sent)) == Some(
                Action::Finish(Outcome::Posted(records)),
            )
        }),
{
    let before = knocking(device_id, relay);
    let inside = before.push(Event::Answered(Ok(room_user_id)));
    let posted = inside.push(Event::Posted(records));
    a_visit_logs_in_as_it_was_told(visit, device_id, relay);
    one_event_more(visit, before, Event::Answered(Ok(room_user_id)));
    one_event_more(visit, inside, Event::Failed(error));
    one_event_more(visit, inside, Event::Posted(records));
    one_event_more(visit, posted, Event::Sent);
    one_event_more(visit, posted.push(Event::Sent), Event::Sent);
}

/// What has happened once the room has let us in and `n` booths have been asked for and
/// handed over.
pub open spec fn attached(
    device_id: String,
    relay: Relay,
    room_user_id: Option<String>,
    n: nat,
) -> Seq<Event> {
    knocking(device_id, relay).push(Event::Answered(Ok(room_user_id))) + Seq::new(
        n,
        |i: int| Event::Sent,
    )
}

/// A visit that pulls asks for its booths one after the other, each of them whole, from the
/// beginning of its history, and for all of them before it waits for the replay.
pub proof fn a_pull_asks_for_each_booth_whole(
    visit: Visit,
    booths: Vec<String>,
    device_id: String,
    relay: Relay,
    room_user_id: Option<String>,
    n: nat,
)
    requires
        visit.phase is Entering,
        visit.purpose == (Purpose::Pull { booths }),
        n <= booths@.len(),
    ensures
        n < booths@.len() ==> visit.action_after(attached(device_id, relay, room_user_id, n))
            == Some(
            Action::Send(Command::AttachBooth { booth_id: booths@[n as int], last_sequence: 0 }),
        ),
        n == booths@.len() ==> visit.action_after(attached(device_id, relay, room_user_id, n))
            == Some(Action::AwaitReplay),
        visit.after(attached(device_id, relay, room_user_id, n)) == Some(
            Visit {
                phase: if n < booths@.len() {
                    Phase::Attaching { next: (n + 1) as usize }
                } else {
                    Phase::AwaitingReplay
                },
                ..visit
            },
        ),
    decreases n,
{
    let before = knocking(device_id, relay);
    let events = attached(device_id, relay, room_user_id, n);
    assert(booths@.len() == booths.len());
    if n == 0 {
        a_visit_logs_in_as_it_was_told(visit, device_id, relay);
        assert(events == before.push(Event::Answered(Ok(room_user_id))));
        one_event_more(visit, before, Event::Answered(Ok(room_user_id)));
    } else {
        let m = (n - 1) as nat;
        a_pull_asks_for_each_booth_whole(visit, booths, device_id, relay, room_user_id, m);
        let less = attached(device_id, relay, room_user_id, m);
        assert(events == less.push(Event::Sent));
        one_event_more(visit, less, Event::Sent);
    }
}

/// A visit that pulls, once the replay has gone quiet, logs out of its room and says
/// goodbye, and then reports the replay.
pub proof fn a_pull_leaves_once_it_is_quiet(
    visit: Visit,
    booths: Vec<String>,
    device_id: String,
    relay: Relay,
    room_user_id: Option<String>,
)
    requires
        visit.phase is Entering,
        visit.purpose == (Purpose::Pull { booths }),
    ensures
        ({
            let quiet = attached(device_id, relay, room_user_id, booths@.len()).push(
                Event::WentQuiet,
            );
            &&& visit.action_after(quiet) == Some(
                Action::Send(Command::Logout { room_id: visit.room_id }),
            )
            &&& visit.action_after(quiet.push(Event::Sent)) == Some(
                Action::Send(Command::Disconnect),
            )
            &&& visit.action_after(quiet.push(Event::Sent).push(Event::Sent)) == Some(
                Action::Finish(Outcome::Replayed),
            )
        }),
{
    let events = attached(device_id, relay, room_user_id, booths@.len());
    let quiet = events.push(Event::WentQuiet);
    a_pull_asks_for_each_booth_whole(
        visit,
        booths,
        device_id,
        relay,
        room_user_id,
        booths@.len(),
    );
    one_event_more(visit, events, Event::WentQuiet);
    one_event_more(visit, quiet, Event::Sent);
    one_event_more(visit, quiet.push(Event::Sent), Event::Sent);
}

/// A visit waits for what it asked for and for nothing else: for the way in, the connection
/// and the posting, or word that they failed; for each command to be handed over; for the
/// room's answer; for the replay to go quiet; and for nothing once it is over.
pub proof fn a_visit_waits_for_what_it_asked_for(visit: Visit, event: Event)
    ensures
        visit.answer(event) is Some <==> match visit.phase {
            Phase::Entering => event is Entered || event is Failed,
            Phase::Connecting { .. } => event is Connected || event is Failed,
            Phase::LoggingIn => event is Sent,
            Phase::AwaitingAnswer => event is Answered,
            Phase::Attaching { .. } => event is Sent && visit.purpose is Pull,
            Phase::AwaitingReplay => event is WentQuiet,
            Phase::Posting => event is Posted || event is Failed,
            Phase::LoggingOut { .. } => event is Sent,
            Phase::Disconnecting { .. } => event is Sent,
            Phase::Over => false,
        },
        visit.answer(event) matches Some((phase, action)) ==> (action is Finish <==> phase is Over),
{
}

} // verus!
