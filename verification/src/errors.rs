//! Errors that are shown to the user.
use vstd::prelude::*;

use crate::text::{append_str, byte_len, from_chars, lines, split_lines, texts, to_chars, utf8_len};

verus! {

/// `serde_json::Error`.
#[verifier::external_type_specification]
#[verifier::external_body]
pub struct ExJsonError(serde_json::Error);

/// The line that `serde_json::Error::line` gives, counted from one, or zero.
pub uninterp spec fn json_line(err: serde_json::Error) -> int;

/// The column that `serde_json::Error::column` gives, counted from one, or zero.
pub uninterp spec fn json_column(err: serde_json::Error) -> int;

/// The message of a `serde_json::Error`.
pub uninterp spec fn json_message(err: serde_json::Error) -> Seq<char>;

/// `serde_json::Error::line`: the line at which the error was found.
#[verifier::external_body]
fn error_line(err: &serde_json::Error) -> (r: usize)
    ensures
        r == json_line(*err),
{
    err.line()
}

/// `serde_json::Error::column`: the column at which the error was found.
#[verifier::external_body]
fn error_column(err: &serde_json::Error) -> (r: usize)
    ensures
        r == json_column(*err),
{
    err.column()
}

/// `ToString::to_string` of a `serde_json::Error`: its message.
#[verifier::external_body]
fn error_text(err: &serde_json::Error) -> (r: String)
    ensures
        r@ == json_message(*err),
{
    err.to_string()
}

/// A place in a text, in bytes.
#[derive(Clone, Copy, Debug, Eq, PartialEq, Structural)]
pub struct Span {
    pub offset: usize,
    pub len: usize,
}

/// A text that is no JSON, with the place of the error.
#[derive(Clone, Debug)]
pub struct JsonParseError {
    pub src: String,
    pub span: Span,
    pub cause_msg: String,
}

/// The bytes of the lines with a line feed behind each.
pub open spec fn bytes_of_lines(ls: Seq<Seq<char>>) -> int
    decreases ls.len(),
{
    if ls.len() == 0 {
        0
    } else {
        bytes_of_lines(ls.drop_last()) + byte_len(ls.last()) + 1
    }
}

/// The place of a line and a column in bytes. A place behind the last line is the
/// end of the text.
pub open spec fn error_offset(ls: Seq<Seq<char>>, line: int, column: int) -> int {
    if line <= 0 {
        0
    } else if line > ls.len() {
        bytes_of_lines(ls)
    } else {
        bytes_of_lines(ls.take(line - 1)) + (if column > 0 {
            column - 1
        } else {
            0
        })
    }
}

/// The number, or the largest that a `usize` can hold.
pub open spec fn capped(n: int) -> int {
    if n > usize::MAX {
        usize::MAX as int
    } else {
        n
    }
}

/// The bytes of a text, up to the largest number.
fn count_bytes(s: &[char]) -> (r: u128)
    ensures
        r == byte_len(s@),
        r <= 4 * s.len(),
{
    let mut n: u128 = 0;
    let mut i: usize = 0;
    while i < s.len()
        invariant
            i <= s.len(),
            n == byte_len(s@.take(i as int)),
            n <= 4 * i,
        decreases s.len() - i,
    {
        assert(s@.take(i + 1).drop_last() =~= s@.take(i as int));
        n = n + utf8_len(s[i]) as u128;
        i += 1;
    }
    assert(s@.take(s@.len() as int) =~= s@);
    n
}

impl JsonParseError {
    /// The error at a line and a column of a text.
    pub fn located(src: String, line: usize, column: usize, cause_msg: String) -> (r: Self)
        ensures
            r.src@ == src@,
            r.span.offset == capped(error_offset(lines(src@), line as int, column as int)),
            r.span.len == 1,
            r.cause_msg@ == cause_msg@,
    {
        let ls = split_lines(to_chars(src.as_str()).as_slice());
        let ghost all = texts(ls@);
        assert(all.len() == ls.len());
        let mut offset: u128 = 0;
        let stop: usize = if line == 0 {
            0
        } else if line > ls.len() {
            ls.len()
        } else {
            line - 1
        };
        let mut i: usize = 0;
        while i < stop
            invariant
                i <= stop <= ls.len(),
                all == texts(ls@),
                capped(offset as int) == capped(bytes_of_lines(all.take(i as int))),
                offset <= 6 * usize::MAX,
            decreases stop - i,
        {
            proof {
                assert(all.take(i + 1).drop_last() =~= all.take(i as int));
                assert(all.take(i + 1).last() == ls[i as int]@);
                lemma_byte_len_nonneg(ls[i as int]@);
            }
            if offset < usize::MAX as u128 {
                offset = offset + count_bytes(ls[i].as_slice()) + 1;
            }
            i += 1;
        }
        proof {
            if stop == ls.len() {
                assert(all.take(stop as int) =~= all);
            }
        }
        if line > 0 && line <= ls.len() && column > 0 {
            offset = offset + (column - 1) as u128;
        }
        let place: usize = if offset > usize::MAX as u128 {
            usize::MAX
        } else {
            offset as usize
        };
        JsonParseError { src, span: Span { offset: place, len: 1 }, cause_msg }
    }

    /// The error that `serde_json` found in a text, at the line and the column that
    /// it gives and with its message.
    pub fn from_serde(src: String, err: serde_json::Error) -> (r: Self)
        ensures
            r.src@ == src@,
            r.span.offset == capped(
                error_offset(lines(src@), json_line(err), json_column(err)),
            ),
            r.span.len == 1,
            r.cause_msg@ == json_message(err),
    {
        let line = error_line(&err);
        let column = error_column(&err);
        JsonParseError::located(src, line, column, error_text(&err))
    }

    /// The message to show.
    pub fn message(&self) -> (r: String)
        ensures
            r@ == "Failed to parse JSON response: "@ + self.cause_msg@,
    {
        let mut v = to_chars("Failed to parse JSON response: ");
        append_str(&mut v, self.cause_msg.as_str());
        from_chars(v.as_slice())
    }
}

proof fn lemma_byte_len_nonneg(s: Seq<char>)
    ensures
        byte_len(s) >= 0,
    decreases s.len(),
{
    if s.len() > 0 {
        lemma_byte_len_nonneg(s.drop_last());
    }
}

/// The server could not be reached.
#[derive(Clone, Debug)]
pub struct ConnectionError {
    pub addr: String,
    pub cause_msg: String,
}

impl ConnectionError {
    /// The server at an address could not be reached, for the reason given.
    pub fn new(addr: String, cause_msg: String) -> (r: Self)
        ensures
            r.addr@ == addr@,
            r.cause_msg@ == cause_msg@,
    {
        ConnectionError { addr, cause_msg }
    }

    /// The message to show.
    pub fn message(&self) -> (r: String)
        ensures
            r@ == "Cannot connect to tg server at "@ + self.addr@ + ": "@ + self.cause_msg@,
    {
        let mut v = to_chars("Cannot connect to tg server at ");
        append_str(&mut v, self.addr.as_str());
        append_str(&mut v, ": ");
        append_str(&mut v, self.cause_msg.as_str());
        from_chars(v.as_slice())
    }
}

/// The server is of another version.
#[derive(Clone, Debug)]
pub struct VersionMismatchError {
    pub server_version: String,
    pub client_version: String,
}

impl VersionMismatchError {
    /// The message to show.
    pub fn message(&self) -> (r: String)
        ensures
            r@ == "Server version mismatch: server is v"@ + self.server_version@ + ", client is v"@
                + self.client_version@,
    {
        let mut v = to_chars("Server version mismatch: server is v");
        append_str(&mut v, self.server_version.as_str());
        append_str(&mut v, ", client is v");
        append_str(&mut v, self.client_version.as_str());
        from_chars(v.as_slice())
    }
}

/// No topic matches.
#[derive(Clone, Debug)]
pub struct TopicNotFoundError {
    pub pattern: String,
}

impl TopicNotFoundError {
    /// The message to show.
    pub fn message(&self) -> (r: String)
        ensures
            r@ == "No topic found matching pattern: "@ + self.pattern@,
    {
        let mut v = to_chars("No topic found matching pattern: ");
        append_str(&mut v, self.pattern.as_str());
        from_chars(v.as_slice())
    }
}

} // verus!
