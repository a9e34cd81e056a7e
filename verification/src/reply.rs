//! What a handler of this library answers: a status, an optional content
//! type and a body that is either text or a file for the caller to stream.
use vstd::prelude::*;

verus! {

/// Status of a reply that carries the requested file.
pub const STATUS_OK: u16 = 200;

/// Status of a reply to a request whose rewritten target is not a valid path.
pub const STATUS_BAD_REQUEST: u16 = 400;

/// Status of every reply that names a missing resource.
pub const STATUS_NOT_FOUND: u16 = 404;

/// The body of a reply.
#[derive(Debug)]
pub enum Body {
    /// Plain text, held in memory.
    Text(String),
    /// The file that the request resolved to; the caller streams it.
    File,
    /// The configured fallback file; the caller streams it.
    FallbackFile,
}

/// A reply, ready to be turned into an HTTP response.
#[derive(Debug)]
pub struct Reply {
    pub status: u16,
    pub content_type: Option<String>,
    pub body: Body,
}

/// Mathematical model of a [`Body`].
pub enum BodyModel {
    Text(Seq<char>),
    File,
    FallbackFile,
}

/// Mathematical model of a [`Reply`].
pub struct ReplyModel {
    pub status: u16,
    pub content_type: Option<Seq<char>>,
    pub body: BodyModel,
}

impl View for Body {
    type V = BodyModel;

    open spec fn view(&self) -> BodyModel {
        match self {
            Body::Text(text) => BodyModel::Text(text@),
            Body::File => BodyModel::File,
            Body::FallbackFile => BodyModel::FallbackFile,
        }
    }
}

impl View for Reply {
    type V = ReplyModel;

    open spec fn view(&self) -> ReplyModel {
        ReplyModel {
            status: self.status,
            content_type: match self.content_type {
                Some(text) => Some(text@),
                None => None,
            },
            body: self.body@,
        }
    }
}

/// The reply that carries `message` as plain text under `status`, with no
/// content type.
pub open spec fn text_reply(status: u16, message: Seq<char>) -> ReplyModel {
    ReplyModel { status, content_type: None, body: BodyModel::Text(message) }
}

impl Reply {
    /// A plain-text reply: `prefix` followed by `subject`.
    pub fn text(status: u16, prefix: &str, subject: &str) -> (reply: Reply)
        ensures
            reply@ == text_reply(status, prefix@ + subject@),
    {
        let mut message = String::new();
        message.append(prefix);
        message.append(subject);
        assert(message@ =~= prefix@ + subject@);
        Reply { status, content_type: None, body: Body::Text(message) }
    }
}

} // verus!
