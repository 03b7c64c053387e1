use vstd::prelude::*;

verus! {

/// Why a message could not be delivered.
#[derive(Debug)]
pub enum NotifyError {
    /// The user blocked the bot or is gone: their subscription is dropped.
    Forbidden,
    Other(String),
}

impl NotifyError {
    pub fn is_forbidden(&self) -> (b: bool)
        ensures
            b == (self is Forbidden),
    {
        match self {
            NotifyError::Forbidden => true,
            NotifyError::Other(_) => false,
        }
    }
}

/// A message to send to a chat; failures to send it are ignored.
#[derive(Debug, PartialEq)]
pub struct Notice {
    pub chat_id: i64,
    pub text: String,
}

/// The mathematical value of a `Notice`.
pub struct NoticeView {
    pub chat_id: i64,
    pub text: Seq<char>,
}

impl View for Notice {
    type V = NoticeView;

    open spec fn view(&self) -> NoticeView {
        NoticeView { chat_id: self.chat_id, text: self.text@ }
    }
}

} // verus!
