//! Edits of the earlier, action-based record format.
use crate::time::Timestamp;
use vstd::prelude::*;

verus! {

pub type ActionRef = String;

/// A tag as added by one action.
#[derive(Debug, Clone, PartialEq, Eq, Hash)]
pub struct TagRef {
    action: ActionRef,
    tag: String,
}

/// One edit in the action-based format.
#[derive(Debug, Clone)]
pub enum Action {
    CreateEvent { start: Timestamp, tags: Vec<String> },
    DeleteEvent { create_event_id: ActionRef },
    ModifyEvent {
        event_id: ActionRef,
        add_tags: Option<Vec<String>>,
        delete_tags: Option<Vec<TagRef>>,
        set_start: Option<Timestamp>,
    },
}

impl View for TagRef {
    type V = (Seq<char>, Seq<char>);

    closed spec fn view(&self) -> (Seq<char>, Seq<char>) {
        (self.action@, self.tag@)
    }
}

impl TagRef {
    pub fn from_strs(action_ref: &str, tag: &str) -> (r: TagRef)
        ensures
            r@ == (action_ref@, tag@),
    {
        TagRef { action: action_ref.to_owned(), tag: tag.to_owned() }
    }

    pub fn action(&self) -> (r: &ActionRef)
        ensures
            r@ == self@.0,
    {
        &self.action
    }

    pub fn tag(&self) -> (r: &String)
        ensures
            r@ == self@.1,
    {
        &self.tag
    }
}

} // verus!
