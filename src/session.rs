use vstd::prelude::*;
use vstd::utf8::valid_utf8;
use crate::event::{ClientMessage, EditEvent, EditModel};
use crate::rooms::{RoomRegistry, join_spec, leave_spec, disconnect_spec};
use crate::wire::{encode_cursor, encode_event, encode_typing, event_json, typing_json, cursor_json};

verus! {

/// A record for the durable log: the partition key and the encoded event.
pub struct LogRecord {
    pub key: String,
    pub value: Vec<u8>,
}

/// What the log holds for an edit: keyed by its document, the value its JSON text.
pub open spec fn record_of(e: EditModel) -> (Seq<char>, Seq<u8>) {
    (e.doc_id, event_json(e))
}

/// The record under which an edit is appended to the log, whichever way it arrived.
pub fn log_record(e: &EditEvent) -> (r: LogRecord)
    ensures
        (r.key@, r.value@) == record_of(e@),
{
    LogRecord { key: e.doc_id.clone(), value: encode_event(e) }
}

/// What a connection's task does after one step of its session.
pub enum Action {
    /// Append the record to the durable log.
    Append(LogRecord),
    /// Send these bytes to this connection, and to no other.
    Reply(Vec<u8>),
    /// Nothing leaves the session.
    Nothing,
}

/// The server side of one live connection: the room it joined last, if any.
pub struct Session {
    joined: Option<(String, String)>,
    open: bool,
}

impl Session {
    /// The document and user of the last join, if the session has joined.
    pub closed spec fn joined(&self) -> Option<(Seq<char>, Seq<char>)> {
        match self.joined {
            Some((d, u)) => Some((d@, u@)),
            None => None,
        }
    }

    /// Whether the connection is still live.
    pub closed spec fn is_open(&self) -> bool {
        self.open
    }

    /// A fresh connection, in no room.
    pub fn new() -> (r: Self)
        ensures
            r.joined() is None,
            r.is_open(),
    {
        Session { joined: None, open: true }
    }

    /// Whether the connection is still live.
    pub fn open(&self) -> (r: bool)
        ensures
            r == self.is_open(),
    {
        self.open
    }

    /// Handles one message from the client. Edits go to the log under their own document,
    /// typing and cursor reports are echoed to this connection only, joins and leaves
    /// update the registry.
    pub fn handle_client(&mut self, rooms: &mut RoomRegistry, msg: ClientMessage) -> (a: Action)
        requires
            old(rooms).wf(),
        ensures
            final(rooms).wf(),
            final(self).is_open() == old(self).is_open(),
            match msg {
                ClientMessage::Edit(e) => {
                    &&& a is Append
                    &&& (a->Append_0.key@, a->Append_0.value@) == record_of(e@)
                    &&& final(rooms)@ == old(rooms)@
                    &&& final(self).joined() == old(self).joined()
                },
                ClientMessage::Typing { doc_id, user_id, is_typing } => {
                    &&& a is Reply
                    &&& a->Reply_0@ == typing_json(user_id@, is_typing)
                    &&& valid_utf8(a->Reply_0@)
                    &&& final(rooms)@ == old(rooms)@
                    &&& final(self).joined() == old(self).joined()
                },
                ClientMessage::Cursor { doc_id, user_id, position } => {
                    &&& a is Reply
                    &&& a->Reply_0@ == cursor_json(user_id@, position as nat)
                    &&& valid_utf8(a->Reply_0@)
                    &&& final(rooms)@ == old(rooms)@
                    &&& final(self).joined() == old(self).joined()
                },
                ClientMessage::Join { doc_id, user_id } => {
                    &&& a is Nothing
                    &&& final(rooms)@ == join_spec(old(rooms)@, doc_id@, user_id@)
                    &&& final(self).joined() == Some((doc_id@, user_id@))
                },
                ClientMessage::Leave { doc_id, user_id } => {
                    &&& a is Nothing
                    &&& final(rooms)@ == leave_spec(old(rooms)@, doc_id@, user_id@)
                    &&& final(self).joined() == old(self).joined()
                },
            },
    {
        match msg {
            ClientMessage::Edit(e) => Action::Append(log_record(&e)),
            ClientMessage::Typing { doc_id, user_id, is_typing } => Action::Reply(
                encode_typing(&user_id, is_typing),
            ),
            ClientMessage::Cursor { doc_id, user_id, position } => Action::Reply(
                encode_cursor(&user_id, position),
            ),
            ClientMessage::Join { doc_id, user_id } => {
                rooms.join(&doc_id, &user_id);
                self.joined = Some((doc_id, user_id));
                Action::Nothing
            },
            ClientMessage::Leave { doc_id, user_id } => {
                rooms.leave(&doc_id, &user_id);
                Action::Nothing
            },
        }
    }

    /// Handles an edit delivered by the broadcast bus: it goes to the client as it is,
    /// whatever document it belongs to.
    pub fn handle_broadcast(&self, e: &EditEvent) -> (r: Vec<u8>)
        ensures
            r@ == event_json(e@),
            valid_utf8(r@),
    {
        encode_event(e)
    }

    /// Closes the session, after a disconnect, a protocol error or a failed send. A joined
    /// session takes its own entry out of the registry, once: closing again changes nothing.
    pub fn close(&mut self, rooms: &mut RoomRegistry)
        requires
            old(rooms).wf(),
        ensures
            final(rooms).wf(),
            !final(self).is_open(),
            final(self).joined() is None,
            match old(self).joined() {
                Some((d, u)) => final(rooms)@ == disconnect_spec(old(rooms)@, d, u),
                None => final(rooms)@ == old(rooms)@,
            },
    {
        if let Some((d, u)) = &self.joined {
            rooms.disconnect(d, u);
        }
        self.joined = None;
        self.open = false;
    }
}

} // verus!
