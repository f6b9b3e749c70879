# metamoji

The room side and the HTTP side of a classroom note client, verified with Verus.

- `src/` is the library: what to ask a room for, how what it replays is folded into a
  note, how a note's changes become frames, which of them the relay confirmed, and how a
  request from the webview goes out and its response comes back. It makes no I/O of its
  own: a visit to a room (`collabo::visit`) and an HTTP exchange (`transport::Exchange`)
  are state machines that say what is to be done next.
- `app/` does what they say, over sockets and HTTP, with the clock in hand.
- `tests/` runs the library with the real `serde_json`, `base64` and `reqwest`.

The functions the library trusts rather than proves are the few calls into those crates
(`json.rs`, `encoding.rs`, `http.rs`) and `String::push` (`text.rs`); each says beside its
contract what it claims of the call.
