//! The handshake rules of the telemetry channel.
//!
//! One channel lives per connection.  When the socket opens the client
//! greets the server; when a `welcome` frame arrives the client stores
//! the identifier it carries and replies with exactly one
//! acknowledgement carrying that same identifier; every other readable
//! frame is dropped without a reply, and an unreadable frame is reported
//! to the caller, which may treat it as fatal.  Cursor reports are
//! tagged with the stored identifier.

use vstd::prelude::*;
use crate::wire;

verus! {

/// What handling one incoming text frame asks of the transport.
pub enum TextOutcome {
    /// Send this one frame back; nothing else.
    Reply(String),
    /// A readable frame of some other type: drop it, send nothing.
    Ignored,
    /// Not a readable frame of this protocol.
    Malformed,
}

/// The client side of one telemetry connection.
pub struct Channel {
    /// Identifier assigned by the server; zero until a `welcome` frame
    /// arrives.
    pub client_id: u32,
    /// Whether a `welcome` frame has arrived.
    pub welcomed: bool,
}

/// The message type that assigns an identifier.
pub open spec fn welcome_type() -> Seq<char> {
    "welcome"@
}

impl Channel {
    /// A channel for a connection not yet welcomed.
    pub fn new() -> (c: Channel)
        ensures
            c.client_id == 0,
            !c.welcomed,
    {
        Channel { client_id: 0, welcomed: false }
    }

    /// The frame to send when the socket opens: the greeting.
    pub fn on_open(&self) -> (g: String)
        ensures
            g@ == wire::greeting_text(),
    {
        wire::greeting_message()
    }

    /// Handle one incoming text frame.
    ///
    /// A `welcome` frame carrying the identifier `id` stores `id` and
    /// asks for exactly one reply, the acknowledgement carrying that
    /// same `id`.  A readable frame of any other type changes nothing
    /// and asks for no reply.  An unreadable frame changes nothing and
    /// is reported as such.
    pub fn on_text(&mut self, text: &str) -> (r: TextOutcome)
        ensures
            match wire::spec_parse_message(text@) {
                Some(msg) => {
                    if msg.0 == welcome_type() {
                        &&& final(self).client_id == msg.1
                        &&& final(self).welcomed
                        &&& r matches TextOutcome::Reply(a) && a@ == wire::ack_text(msg.1)
                    } else {
                        &&& *final(self) == *old(self)
                        &&& r is Ignored
                    }
                },
                None => {
                    &&& *final(self) == *old(self)
                    &&& r is Malformed
                },
            },
    {
        match wire::parse_message(text) {
            None => TextOutcome::Malformed,
            Some(msg) => {
                let welcome = String::from_str("welcome");
                if msg.message_type == welcome {
                    self.client_id = msg.client_id;
                    self.welcomed = true;
                    TextOutcome::Reply(wire::ack_message(msg.client_id))
                } else {
                    TextOutcome::Ignored
                }
            },
        }
    }

    /// The frame that reports the cursor at `(x, y)`, each coordinate a
    /// ready number token, tagged with the stored identifier; nothing if
    /// a coordinate is not a number token.
    pub fn cursor_report(&self, x: &str, y: &str) -> (r: Option<String>)
        ensures
            match r {
                Some(m) => wire::spec_number_token(x@) && wire::spec_number_token(y@) && m@
                    == wire::cursor_text(self.client_id, x@, y@),
                None => !(wire::spec_number_token(x@) && wire::spec_number_token(y@)),
            },
    {
        wire::cursor_message(self.client_id, x, y)
    }
}

} // verus!
