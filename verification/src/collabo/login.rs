//! The room's answer to a login, and how long to wait for it.

use super::socket::CollaboEvent;
use crate::error::{AppError, AppResult};
use crate::text::joined;
use vstd::prelude::*;

verus! {

/// How long to wait for the answer before giving up on the room, in nanoseconds.
pub const LOGIN_LIMIT: u128 = 10_000_000_000;

/// How often a wait looks at what has arrived, in nanoseconds.
pub const TICK: u64 = 50_000_000;

/// The room's answer to a login, once it has given one.
#[derive(Debug, Clone)]
pub enum LoginAnswer {
    Accepted { room_user_id: Option<String> },
    Refused { message: Option<String> },
}

/// Where a socket's event handler leaves that answer for whoever is waiting.
pub type LoginSlot = Option<LoginAnswer>;

/// What an event leaves in the slot.
pub open spec fn noted(slot: LoginSlot, event: CollaboEvent) -> LoginSlot {
    match event {
        CollaboEvent::LoggedIn { ok, message, user_id, .. } => Some(
            if ok {
                LoginAnswer::Accepted { room_user_id: user_id }
            } else {
                LoginAnswer::Refused { message }
            },
        ),
        _ => slot,
    }
}

/// What a number of events, one after the other, leave in the slot.
pub open spec fn noted_all(slot: LoginSlot, events: Seq<CollaboEvent>) -> LoginSlot
    decreases events.len(),
{
    if events.len() == 0 {
        slot
    } else {
        noted(noted_all(slot, events.drop_last()), events.last())
    }
}

/// What a refused login is answered with.
pub open spec fn refusal(message: Option<String>) -> Seq<char> {
    match message {
        Some(text) => "教室に入れませんでした: "@ + text@,
        None => "教室に入れませんでした"@,
    }
}

/// A copy of an optional string.
fn copied(s: &Option<String>) -> (r: Option<String>)
    ensures
        r == *s,
{
    match s {
        Some(text) => Some(text.clone()),
        None => None,
    }
}

/// Takes down the answer to a login; any other event leaves the slot as it is.
pub fn note_login(slot: &mut LoginSlot, event: &CollaboEvent)
    ensures
        *final(slot) == noted(*old(slot), *event),
{
    match event {
        CollaboEvent::LoggedIn { ok, message, user_id, .. } => {
            *slot = Some(
                if *ok {
                    LoginAnswer::Accepted { room_user_id: copied(user_id) }
                } else {
                    LoginAnswer::Refused { message: copied(message) }
                },
            );
        },
        _ => {},
    }
}

/// What waiting for the answer has come to after `waited` nanoseconds: the id the room
/// gave us, an error, or `None` while there is still something to wait for. An answer
/// counts whenever it is there, also past the limit.
pub fn login_verdict(slot: &LoginSlot, waited: u128) -> (r: Option<AppResult<Option<String>>>)
    ensures
        match *slot {
            Some(LoginAnswer::Accepted { room_user_id }) => r == Some(
                Ok::<Option<String>, AppError>(room_user_id),
            ),
            Some(LoginAnswer::Refused { message }) => r matches Some(Err(e)) && e@ == refusal(
                message,
            ),
            None => if waited >= LOGIN_LIMIT {
                r matches Some(Err(e)) && e@ == "教室サーバーから応答がありません"@
            } else {
                r is None
            },
        },
{
    match slot {
        Some(LoginAnswer::Accepted { room_user_id }) => Some(Ok(copied(room_user_id))),
        Some(LoginAnswer::Refused { message }) => Some(
            Err(
                AppError::other(
                    match message {
                        Some(text) => joined("教室に入れませんでした: ", text),
                        None => "教室に入れませんでした".to_owned(),
                    },
                ),
            ),
        ),
        None => if waited >= LOGIN_LIMIT {
            Some(Err(AppError::other("教室サーバーから応答がありません".to_owned())))
        } else {
            None
        },
    }
}

/// What is waited for is the room's last answer: events that are no answer, however
/// many follow it, leave it where it is.
pub proof fn the_last_answer_stays(
    slot: LoginSlot,
    events: Seq<CollaboEvent>,
    answer: CollaboEvent,
    rest: Seq<CollaboEvent>,
)
    requires
        answer is LoggedIn,
        forall|i: int| 0 <= i < rest.len() ==> !((#[trigger] rest[i]) is LoggedIn),
    ensures
        noted_all(slot, events.push(answer) + rest) == noted(None, answer),
    decreases rest.len(),
{
    let all = events.push(answer) + rest;
    if rest.len() == 0 {
        assert(all == events.push(answer));
        assert(all.drop_last() == events);
    } else {
        assert(all.drop_last() == events.push(answer) + rest.drop_last());
        assert(all.last() == rest.last());
        assert(!(rest[rest.len() - 1] is LoggedIn));
        the_last_answer_stays(slot, events, answer, rest.drop_last());
    }
}

/// The room's answer is taken down as it was given: who we are where it let us in, what it
/// said where it did not, and nothing of what was there before. What is no answer is not
/// taken down.
pub proof fn an_answer_is_taken_down_as_given(slot: LoginSlot, event: CollaboEvent)
    ensures
        event matches CollaboEvent::LoggedIn { ok, message, user_id, .. } ==> match noted(
            slot,
            event,
        ) {
            Some(LoginAnswer::Accepted { room_user_id }) => ok && room_user_id == user_id,
            Some(LoginAnswer::Refused { message: said }) => !ok && said == message,
            None => false,
        },
        !(event is LoggedIn) ==> noted(slot, event) == slot,
{
}

/// Where no answer comes, nothing is taken down.
pub proof fn without_an_answer_there_is_none(slot: LoginSlot, events: Seq<CollaboEvent>)
    requires
        forall|i: int| 0 <= i < events.len() ==> !((#[trigger] events[i]) is LoggedIn),
    ensures
        noted_all(slot, events) == slot,
    decreases events.len(),
{
    if events.len() > 0 {
        without_an_answer_there_is_none(slot, events.drop_last());
        assert(!(events[events.len() - 1] is LoggedIn));
    }
}

/// A refusal says that we could not get in, and then what the room said, if it said
/// anything: nothing of that is lost.
pub proof fn a_refusal_carries_what_the_room_said(message: Option<String>)
    ensures
        message matches Some(text) ==> refusal(message) == refusal(None) + ": "@ + text@,
        refusal(None) == "教室に入れませんでした"@,
{
    reveal_strlit("教室に入れませんでした: ");
    reveal_strlit("教室に入れませんでした");
    reveal_strlit(": ");
    assert("教室に入れませんでした: "@ == "教室に入れませんでした"@ + ": "@);
}

} // verus!
