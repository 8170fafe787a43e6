use vstd::prelude::*;

verus! {

/// One edit operation on a document, carried unchanged from submission to every viewer.
#[derive(Clone, Debug)]
pub struct EditEvent {
    pub doc_id: String,
    pub user_id: String,
    pub operation: String,
    pub position: usize,
    pub character: Option<String>,
    pub timestamp: u64,
}

/// A message that a client sends over its realtime connection; the variant decides routing.
#[derive(Clone, Debug)]
pub enum ClientMessage {
    Edit(EditEvent),
    Typing { doc_id: String, user_id: String, is_typing: bool },
    Cursor { doc_id: String, user_id: String, position: usize },
    Join { doc_id: String, user_id: String },
    Leave { doc_id: String, user_id: String },
}

/// The plain values of an edit event, with each text as its characters.
pub struct EditModel {
    pub doc_id: Seq<char>,
    pub user_id: Seq<char>,
    pub operation: Seq<char>,
    pub position: nat,
    pub character: Option<Seq<char>>,
    pub timestamp: nat,
}

impl View for EditEvent {
    type V = EditModel;

    open spec fn view(&self) -> EditModel {
        EditModel {
            doc_id: self.doc_id@,
            user_id: self.user_id@,
            operation: self.operation@,
            position: self.position as nat,
            character: match self.character {
                Some(c) => Some(c@),
                None => None,
            },
            timestamp: self.timestamp as nat,
        }
    }
}

} // verus!
