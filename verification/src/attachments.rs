//! Files that go out with a message.
use vstd::prelude::*;

use crate::text::{append_str, from_chars, to_chars};

verus! {

/// How a file goes out.
#[derive(Clone, Copy, Debug, Eq, PartialEq, Structural)]
pub enum AttachmentKind {
    /// As a photo.
    Photo,
    /// As a document.
    Document,
}

/// A file that goes out as a message of its own.
#[derive(Clone, Debug)]
pub struct Attachment {
    pub kind: AttachmentKind,
    pub path: String,
    /// The caption, or nothing.
    pub caption: String,
}

/// The word for a kind of file.
pub open spec fn kind_word(kind: AttachmentKind) -> Seq<char> {
    match kind {
        AttachmentKind::Photo => "photo"@,
        AttachmentKind::Document => "document"@,
    }
}

fn word_of(kind: AttachmentKind) -> (r: &'static str)
    ensures
        r@ == kind_word(kind),
{
    match kind {
        AttachmentKind::Photo => "photo",
        AttachmentKind::Document => "document",
    }
}

impl Attachment {
    /// What the topic's file says of the message: its caption, or its kind in brackets
    /// where it has none.
    pub open spec fn file_text(&self) -> Seq<char> {
        if self.caption@.len() > 0 {
            self.caption@
        } else {
            "["@ + kind_word(self.kind) + "]"@
        }
    }

    /// What the topic's file says of the message.
    pub fn content(&self) -> (r: String)
        ensures
            r@ == self.file_text(),
    {
        let caption = to_chars(self.caption.as_str());
        if caption.len() > 0 {
            return from_chars(caption.as_slice());
        }
        let mut v = to_chars("[");
        append_str(&mut v, word_of(self.kind));
        append_str(&mut v, "]");
        from_chars(v.as_slice())
    }

    /// What the log says of the message: its kind, its file and its caption.
    pub fn log_line(&self) -> (r: String)
        ensures
            r@ == "["@ + kind_word(self.kind) + ":"@ + self.path@ + "] "@ + self.caption@,
    {
        let mut v = to_chars("[");
        append_str(&mut v, word_of(self.kind));
        append_str(&mut v, ":");
        append_str(&mut v, self.path.as_str());
        append_str(&mut v, "] ");
        append_str(&mut v, self.caption.as_str());
        from_chars(v.as_slice())
    }
}

/// The message with the file at this place among the files: the first one has the
/// caption.
pub open spec fn is_attachment(
    a: Attachment,
    place: int,
    path: Seq<char>,
    inline: bool,
    caption: Seq<char>,
) -> bool {
    &&& a.kind == (if inline {
        AttachmentKind::Photo
    } else {
        AttachmentKind::Document
    })
    &&& a.path@ == path
    &&& a.caption@ == (if place == 0 {
        caption
    } else {
        Seq::empty()
    })
}

/// The messages that files go out with, or the first path of a missing file.
pub open spec fn is_plan(
    r: Result<Vec<Attachment>, String>,
    paths: Seq<String>,
    there: Seq<bool>,
    inline: bool,
    caption: Seq<char>,
) -> bool {
    match r {
        Ok(v) => {
            &&& forall|i: int| 0 <= i < there.len() ==> #[trigger] there[i]
            &&& v.len() == paths.len()
            &&& forall|i: int|
                0 <= i < v.len() ==> is_attachment(
                    #[trigger] v@[i],
                    i,
                    paths[i]@,
                    inline,
                    caption,
                )
        },
        Err(missing) => exists|i: int|
            0 <= i < there.len() && !(#[trigger] there[i]) && missing@ == paths[i]@ && forall|
                j: int,
            | 0 <= j < i ==> #[trigger] there[j],
    }
}

/// The messages that files go out with, one for each in their order, as photos where
/// they are to be shown inline. Where a file is missing nothing goes out, and the
/// first such path is given back. `there` says which files are there.
pub fn plan_attachments(paths: &Vec<String>, there: &Vec<bool>, inline: bool, caption: &str) -> (r:
    Result<Vec<Attachment>, String>)
    requires
        paths.len() == there.len(),
    ensures
        is_plan(r, paths@, there@, inline, caption@),
{
    let mut i: usize = 0;
    while i < paths.len()
        invariant
            i <= paths.len(),
            paths.len() == there.len(),
            forall|j: int| 0 <= j < i ==> #[trigger] there[j],
        decreases paths.len() - i,
    {
        if !there[i] {
            let missing = from_chars(to_chars(paths[i].as_str()).as_slice());
            assert(!there[i as int]);
            return Err(missing);
        }
        i += 1;
    }
    let kind = if inline {
        AttachmentKind::Photo
    } else {
        AttachmentKind::Document
    };
    let mut v: Vec<Attachment> = Vec::new();
    let mut k: usize = 0;
    while k < paths.len()
        invariant
            k <= paths.len(),
            v.len() == k,
            kind == (if inline {
                AttachmentKind::Photo
            } else {
                AttachmentKind::Document
            }),
            forall|i: int|
                0 <= i < k ==> is_attachment(#[trigger] v[i], i, paths[i]@, inline, caption@),
        decreases paths.len() - k,
    {
        let path = from_chars(to_chars(paths[k].as_str()).as_slice());
        let own = if k == 0 {
            from_chars(to_chars(caption).as_slice())
        } else {
            String::new()
        };
        v.push(Attachment { kind, path, caption: own });
        k += 1;
    }
    Ok(v)
}

} // verus!
