//! What goes to the relay and what comes back from it.

use vstd::prelude::*;

verus! {

/// A booth, the place of a direction in it, and the bytes of the direction.
pub type Received = (String, i64, Vec<u8>);

/// What the relay can be asked.
#[derive(Debug, PartialEq)]
pub enum Command {
    /// Enter a room.
    Login { room_id: String, device_id: String, session_id: String, nickname: String },
    /// Replay a booth from behind `last_sequence`, and follow it.
    AttachBooth { booth_id: String, last_sequence: i64 },
    /// Post one frame to a booth.
    PostData {
        booth_id: String,
        payload: Vec<u8>,
        send_back: bool,
        save: bool,
        rip_off_size: String,
    },
    /// Leave a room.
    Logout { room_id: String },
    /// Close the connection.
    Disconnect,
}

/// What the relay says.
#[derive(Debug, PartialEq)]
pub enum CollaboEvent {
    /// The answer to [`Command::Login`].
    LoggedIn {
        ok: bool,
        message: Option<String>,
        room_type: Option<String>,
        user_id: Option<String>,
        roles: Vec<String>,
    },
    /// The answer to one [`Command::PostData`].
    PostAck { ok: bool },
    /// A direction, replayed or new.
    Direction { booth_id: String, sequence: i64, payload: Vec<u8> },
    /// Anything else.
    Other,
}

/// Keeps a direction in the order of arrival; any other event leaves `received` as it is.
pub fn note_direction(received: &mut Vec<Received>, event: CollaboEvent)
    ensures
        match event {
            CollaboEvent::Direction { booth_id, sequence, payload } => final(received)@ == old(
                received,
            )@.push((booth_id, sequence, payload)),
            _ => final(received)@ == old(received)@,
        },
{
    match event {
        CollaboEvent::Direction { booth_id, sequence, payload } => {
            received.push((booth_id, sequence, payload));
        },
        _ => {},
    }
}

} // verus!
