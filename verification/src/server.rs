//! What the server writes: messages as they stand in a topic file, and its
//! answers to clients.
use vstd::prelude::*;
use vstd::slice::slice_subrange;

use crate::calendar::{Date, Timestamp, date_text, month_text, year_text};
use crate::decimal::{
    append_numeral, decimal, lemma_decimal, lemma_signed_round_trip, numeral, padded,
};
use crate::errors::VersionMismatchError;
use crate::header::law_month_names;
use crate::results::PushResults;
use crate::sync::MessageUpdate;
use crate::tag::{
    first_id, lemma_no_tags, lemma_tag_ids_lines, lemma_tag_ids_split, lemma_tag_of, opener,
    tag_ids, tag_starts,
};
use crate::text::{
    append, append_str, contains_str, copied, find_char, first_index, from_chars, lacks,
    lemma_first_index, lines, newline, occurs, same, split_lines, starts, str_stands_at, texts,
    to_chars, trim, trimmed,
};
use crate::unicode::{ascii_digit, ascii_letter};

verus! {

// ---------------------------------------------------------------------------
// Messages in a topic file
// ---------------------------------------------------------------------------

/// What separates a message from the one before it.
pub enum Gap {
    /// Nothing: the messages belong together.
    Short,
    /// A blank line and a dot: time went by.
    Dot,
    /// A date header: a new day began.
    Day(Date),
}

/// Six minutes in nanoseconds.
pub const GAP: i128 = 360_000_000_000;

/// The gap between the last write and a message of this moment.
pub open spec fn gap(last: Option<Timestamp>, now: Timestamp) -> Gap {
    match last {
        None => Gap::Short,
        Some(t) => if now.nanos - t.nanos < GAP {
            Gap::Short
        } else if now.date() == t.date() {
            Gap::Dot
        } else {
            Gap::Day(now.date())
        },
    }
}

/// The number of backticks at the end of a text.
pub open spec fn backticks_at_end(s: Seq<char>) -> int
    decreases s.len(),
{
    if s.len() > 0 && s.last() == '`' {
        backticks_at_end(s.drop_last()) + 1
    } else {
        0
    }
}

/// The length of the longest run of backticks in a text.
pub open spec fn longest_backticks(s: Seq<char>) -> int
    decreases s.len(),
{
    if s.len() == 0 {
        0
    } else {
        let before = longest_backticks(s.drop_last());
        let here = backticks_at_end(s);
        if here > before {
            here
        } else {
            before
        }
    }
}

/// A line of a message that would read as something else in a topic file.
pub open spec fn misleading(line: Seq<char>) -> bool {
    let s = trimmed(line);
    s.len() > 0 && s[0] == '#' || starts(s, ". "@)
}

/// The message has to stand in a code block: it has several lines, or backticks
/// that end a code block, or a line that would read as something else.
pub open spec fn needs_wrapping(message: Seq<char>) -> bool {
    message.contains('\n') || occurs(message, "```"@) || exists|l: int|
        0 <= l < lines(message).len() && misleading(#[trigger] lines(message)[l])
}

/// The fence around a message: longer than each run of backticks in it, and at
/// least five long.
pub open spec fn fence_around(message: Seq<char>) -> Seq<char> {
    let run = longest_backticks(message);
    Seq::new((if run < 4 {
        5int
    } else {
        run + 1
    }) as nat, |i: int| '`')
}

/// The numeral of an optional id after a label; nothing where there is no id.
pub open spec fn labelled(label: Seq<char>, id: Option<i32>) -> Seq<char> {
    match id {
        Some(v) => label + numeral(v as int),
        None => Seq::empty(),
    }
}

/// The tag of a message with its id, its time, the message it answers and its sender.
pub open spec fn message_tag(
    id: int,
    second: int,
    sender: Option<Seq<char>>,
    forwarded: bool,
    reply_to: Option<i32>,
) -> Seq<char> {
    let from = match sender {
        Some(s) => " "@ + s,
        None => Seq::empty(),
    };
    let kind = if forwarded {
        "forwarded "@
    } else {
        Seq::empty()
    };
    "<!-- "@ + kind + "msg:"@ + numeral(id) + " ts:"@ + numeral(second) + labelled(
        " reply_to:"@,
        reply_to,
    ) + from + " -->"@
}

/// The view of an optional string.
pub open spec fn optional_text(s: Option<&str>) -> Option<Seq<char>> {
    match s {
        Some(t) => Some(t@),
        None => None,
    }
}

/// A message in a code block, with its tag on the line below.
pub open spec fn wrapped(message: Seq<char>, tag: Option<Seq<char>>) -> Seq<char> {
    let block = fence_around(message) + "md\n"@ + message + "\n"@ + fence_around(message) + "\n"@;
    match tag {
        Some(t) => block + t,
        None => block,
    }
}

/// A message with its tag behind it.
pub open spec fn tagged(message: Seq<char>, tag: Option<Seq<char>>) -> Seq<char> {
    match tag {
        Some(t) => message + " "@ + t,
        None => message,
    }
}

/// What stands above a message.
pub open spec fn gap_text(gap: Gap) -> Seq<char> {
    match gap {
        Gap::Short => Seq::empty(),
        Gap::Dot => "\n"@,
        Gap::Day(date) => "\n## "@ + date_text(date) + "\n\n"@,
    }
}

/// A message and its tag after a gap: in a code block, or on a line, with a dot
/// before it where time went by.
pub open spec fn body_of(message: Seq<char>, tag: Option<Seq<char>>, gap: Gap) -> Seq<char> {
    if needs_wrapping(message) {
        wrapped(message, tag)
    } else {
        match gap {
            Gap::Dot => ". "@ + tagged(message, tag),
            _ => tagged(message, tag),
        }
    }
}

/// A message and its tag, as they stand in a topic file after the given gap.
pub open spec fn appended(message: Seq<char>, tag: Option<Seq<char>>, gap: Gap) -> Seq<char> {
    gap_text(gap) + body_of(message, tag, gap) + "\n"@
}

/// The view of an optional text.
pub open spec fn optional_chars(s: Option<Vec<char>>) -> Option<Seq<char>> {
    match s {
        Some(t) => Some(t@),
        None => None,
    }
}

/// Finds the longest run of backticks in a message.
pub fn max_backtick_run(message: &str) -> (r: usize)
    ensures
        r == longest_backticks(message@),
{
    longest_run(to_chars(message).as_slice())
}

/// Finds the longest run of backticks.
pub fn longest_run(message: &[char]) -> (r: usize)
    ensures
        r == longest_backticks(message@),
{
    let mut max: usize = 0;
    let mut current: usize = 0;
    let mut i: usize = 0;
    while i < message.len()
        invariant
            i <= message.len(),
            current <= i,
            current == backticks_at_end(message@.take(i as int)),
            max == longest_backticks(message@.take(i as int)),
        decreases message.len() - i,
    {
        assert(message@.take(i + 1).drop_last() =~= message@.take(i as int));
        assert(message@.take(i + 1).last() == message@[i as int]);
        if message[i] == '`' {
            current += 1;
        } else {
            current = 0;
        }
        if current > max {
            max = current;
        }
        i += 1;
    }
    assert(message@.take(message@.len() as int) =~= message@);
    max
}

/// Whether a line would read as something else in a topic file.
fn is_misleading(line: &[char]) -> (r: bool)
    ensures
        r == misleading(line@),
{
    let s = trim(line);
    (s.len() > 0 && s[0] == '#') || str_stands_at(s, 0, ". ")
}

/// Checks whether a message has to stand in a code block.
pub fn needs_markdown_wrapping(message: &str) -> (r: bool)
    ensures
        r == needs_wrapping(message@),
{
    has_to_be_wrapped(to_chars(message).as_slice())
}

/// Checks whether a message has to stand in a code block.
fn has_to_be_wrapped(message: &[char]) -> (r: bool)
    ensures
        r == needs_wrapping(message@),
{
    let e = find_char(message, 0, '\n');
    proof {
        assert(message@.skip(0) =~= message@);
        lemma_first_index(message@, '\n');
        if e < message.len() {
            assert(message@[e as int] == '\n');
        }
    }
    if e < message.len() || contains_str(message, "```") {
        return true;
    }
    let ls = split_lines(message);
    let ghost all = texts(ls@);
    let mut i: usize = 0;
    while i < ls.len()
        invariant
            i <= ls.len(),
            all == texts(ls@),
            all == lines(message@),
            forall|l: int| 0 <= l < i ==> !misleading(#[trigger] all[l]),
        decreases ls.len() - i,
    {
        if is_misleading(ls[i].as_slice()) {
            assert(misleading(all[i as int]));
            return true;
        }
        i += 1;
    }
    false
}

/// Appends the fence around a message.
fn append_fence(out: &mut Vec<char>, run: usize)
    ensures
        final(out)@ == old(out)@ + Seq::new((if run < 4 {
            5int
        } else {
            run + 1
        }) as nat, |i: int| '`'),
{
    let n: usize = if run < 4 {
        4
    } else {
        run
    };
    let mut i: usize = 0;
    while i < n
        invariant
            i <= n,
            out@ == old(out)@ + Seq::new(i as nat, |i: int| '`'),
        decreases n - i,
    {
        out.push('`');
        i += 1;
        assert(out@ =~= old(out)@ + Seq::new(i as nat, |i: int| '`'));
    }
    out.push('`');
    assert(out@ =~= old(out)@ + Seq::new((n + 1) as nat, |i: int| '`'));
}

/// The gap between the last write and a message of this moment.
fn find_gap(last: Option<Timestamp>, now: Timestamp) -> (r: Gap)
    requires
        now.valid(),
        last is Some ==> last->0.valid(),
    ensures
        r == gap(last, now),
        r matches Gap::Day(d) ==> d.valid(),
{
    match last {
        None => Gap::Short,
        Some(t) => {
            if now.nanos - t.nanos < GAP {
                return Gap::Short;
            }
            let today = now.utc_date();
            if today == t.utc_date() {
                Gap::Dot
            } else {
                Gap::Day(today)
            }
        },
    }
}

/// The tag of a message.
fn write_tag(id: i32, second: i64, sender: Option<&str>, forwarded: bool, reply_to: Option<i32>)
    -> (r: Vec<char>)
    ensures
        r@ == message_tag(id as int, second as int, optional_text(sender), forwarded, reply_to),
{
    let mut r: Vec<char> = Vec::new();
    append_str(&mut r, "<!-- ");
    if forwarded {
        append_str(&mut r, "forwarded ");
    }
    append_str(&mut r, "msg:");
    append_numeral(&mut r, id as i128);
    append_str(&mut r, " ts:");
    append_numeral(&mut r, second as i128);
    match reply_to {
        Some(v) => {
            append_str(&mut r, " reply_to:");
            append_numeral(&mut r, v as i128);
        },
        None => {},
    }
    match sender {
        Some(s) => {
            append_str(&mut r, " ");
            append_str(&mut r, s);
        },
        None => {},
    }
    append_str(&mut r, " -->");
    assert(r@ =~= message_tag(
        id as int,
        second as int,
        optional_text(sender),
        forwarded,
        reply_to,
    ));
    r
}

/// A message in a code block, with its tag on the line below.
fn write_wrapped(message: &[char], tag: &Option<Vec<char>>) -> (r: Vec<char>)
    ensures
        r@ == wrapped(message@, optional_chars(*tag)),
{
    let run = longest_run(message);
    let mut r: Vec<char> = Vec::new();
    append_fence(&mut r, run);
    assert(r@ =~= fence_around(message@));
    append_str(&mut r, "md\n");
    append(&mut r, message);
    append_str(&mut r, "\n");
    append_fence(&mut r, run);
    append_str(&mut r, "\n");
    match tag {
        Some(t) => append(&mut r, t.as_slice()),
        None => {},
    }
    r
}

/// A message with its tag behind it.
fn write_tagged(message: &[char], tag: &Option<Vec<char>>) -> (r: Vec<char>)
    ensures
        r@ == tagged(message@, optional_chars(*tag)),
{
    let mut r = copied(message);
    match tag {
        Some(t) => {
            append_str(&mut r, " ");
            append(&mut r, t.as_slice());
        },
        None => {},
    }
    r
}

/// What stands above a message.
fn write_gap(gap: &Gap) -> (r: Vec<char>)
    requires
        *gap matches Gap::Day(d) ==> d.valid(),
    ensures
        r@ == gap_text(*gap),
{
    match gap {
        Gap::Short => Vec::new(),
        Gap::Dot => to_chars("\n"),
        Gap::Day(date) => {
            let mut r = to_chars("\n## ");
            append_str(&mut r, date.text().as_str());
            append_str(&mut r, "\n\n");
            r
        },
    }
}

/// A message and its tag, as they stand in a topic file after the given gap.
fn write_appended(message: &[char], tag: &Option<Vec<char>>, gap: Gap) -> (r: Vec<char>)
    requires
        gap matches Gap::Day(d) ==> d.valid(),
    ensures
        r@ == appended(message@, optional_chars(*tag), gap),
{
    let mut r = write_gap(&gap);
    let body = if has_to_be_wrapped(message) {
        write_wrapped(message, tag)
    } else {
        let text = write_tagged(message, tag);
        match gap {
            Gap::Dot => {
                let mut dotted = to_chars(". ");
                append(&mut dotted, text.as_slice());
                dotted
            },
            _ => text,
        }
    };
    append(&mut r, body.as_slice());
    append_str(&mut r, "\n");
    r
}

/// What is appended to a topic file for a message.
pub fn format_message_append(
    message: &str,
    last_write_datetime: Option<Timestamp>,
    now: Timestamp,
    msg_id: Option<i32>,
    sender: Option<&str>,
    forwarded: bool,
    reply_to_msg_id: Option<i32>,
) -> (r: String)
    requires
        now.valid(),
        last_write_datetime is Some ==> last_write_datetime->0.valid(),
    ensures
        r@ == appended(message@, (match msg_id {
            Some(id) => Some(
                message_tag(
                    id as int,
                    now.second(),
                    optional_text(sender),
                    forwarded,
                    reply_to_msg_id,
                ),
            ),
            None => None,
        }), gap(last_write_datetime, now)),
{
    let gap = find_gap(last_write_datetime, now);
    let tag: Option<Vec<char>> = match msg_id {
        Some(id) => Some(write_tag(id, now.as_second(), sender, forwarded, reply_to_msg_id)),
        None => None,
    };
    let out = write_appended(to_chars(message).as_slice(), &tag, gap);
    from_chars(out.as_slice())
}

/// What is appended to a topic file for a message that was neither forwarded nor
/// answers another.
pub fn format_message_append_with_sender(
    message: &str,
    last_write_datetime: Option<Timestamp>,
    now: Timestamp,
    msg_id: Option<i32>,
    sender: Option<&str>,
) -> (r: String)
    requires
        now.valid(),
        last_write_datetime is Some ==> last_write_datetime->0.valid(),
    ensures
        r@ == appended(message@, (match msg_id {
            Some(id) => Some(
                message_tag(id as int, now.second(), optional_text(sender), false, None),
            ),
            None => None,
        }), gap(last_write_datetime, now)),
{
    format_message_append(message, last_write_datetime, now, msg_id, sender, false, None)
}

// ---------------------------------------------------------------------------
// Images
// ---------------------------------------------------------------------------

/// The end of the alternative text of an image at the start of the text.
pub open spec fn alt_end(s: Seq<char>) -> int {
    2 + first_index(s.skip(2), ']')
}

/// The end of the path of an image at the start of the text.
pub open spec fn path_end(s: Seq<char>) -> int {
    alt_end(s) + 2 + first_index(s.skip(alt_end(s) + 2), ')')
}

/// The text starts with an image: `![`, a text, `](`, a path and `)`.
pub open spec fn image_starts(s: Seq<char>) -> bool {
    &&& starts(s, "!["@)
    &&& alt_end(s) + 1 < s.len()
    &&& s[alt_end(s) + 1] == '('
    &&& alt_end(s) + 2 < path_end(s) < s.len()
}

/// The path of the image that a text starts with, and the caption behind it.
pub open spec fn image(text: Seq<char>) -> Option<(Seq<char>, Option<Seq<char>>)> {
    let s = trimmed(text);
    if image_starts(s) {
        let path = s.subrange(alt_end(s) + 2, path_end(s));
        let caption = trimmed(s.skip(path_end(s) + 1));
        Some((path, if caption.len() == 0 {
            None
        } else {
            Some(caption)
        }))
    } else {
        None
    }
}

/// The path of the image that a text starts with, and the caption behind it:
/// `![alt](path)` or `![](path)`, and then the caption.
pub fn extract_image_path(text: &str) -> (r: Option<(String, Option<String>)>)
    ensures
        match r {
            Some((path, caption)) => image(text@) == Some(
                (path@, (match caption {
                    Some(c) => Some(c@),
                    None => None,
                })),
            ),
            None => image(text@) is None,
        },
{
    let chars = to_chars(text);
    let s = trim(chars.as_slice());
    proof {
        reveal_strlit("![");
    }
    if !str_stands_at(s, 0, "![") {
        return None;
    }
    let a = find_char(s, 2, ']');
    if s.len() - a < 2 || s[a + 1] != '(' {
        return None;
    }
    let e = find_char(s, a + 2, ')');
    if e == a + 2 || e == s.len() {
        return None;
    }
    let path = from_chars(slice_subrange(s, a + 2, e));
    let rest = slice_subrange(s, e + 1, s.len());
    assert(rest@ =~= s@.skip(e + 1));
    let caption = trim(rest);
    if caption.len() == 0 {
        Some((path, None))
    } else {
        Some((path, Some(from_chars(caption))))
    }
}

// ---------------------------------------------------------------------------
// Requests and answers
// ---------------------------------------------------------------------------

/// What a client asks for.
#[derive(Clone, Debug)]
pub enum ServerRequest {
    /// To push updates.
    Push { updates: Vec<MessageUpdate> },
    /// For the version of the server.
    Ping,
}

/// The answer to a client.
#[derive(Clone, Debug)]
pub struct ServerResponse {
    pub success: bool,
    pub error: Option<String>,
    /// The version of the server, which every answer holds.
    pub version: Option<String>,
    /// What came of a push.
    pub push_results: Option<PushResults>,
}

impl Default for ServerResponse {
    fn default() -> (r: Self)
        ensures
            !r.success,
            r.error is None,
            r.version is None,
            r.push_results is None,
    {
        ServerResponse { success: false, error: None, version: None, push_results: None }
    }
}

/// The version of the program.
pub open spec fn version_text() -> Seq<char> {
    "0.1.0"@
}

/// The version of the program.
pub fn version() -> (r: &'static str)
    ensures
        r@ == version_text(),
{
    "0.1.0"
}

/// The answer holds the version of the program.
pub open spec fn has_version(r: ServerResponse) -> bool {
    r.version is Some && r.version->0@ == version_text()
}

impl ServerResponse {
    /// The request succeeded.
    pub fn ok() -> (r: Self)
        ensures
            r.success,
            r.error is None,
            has_version(r),
            r.push_results is None,
    {
        ServerResponse {
            success: true,
            error: None,
            version: Some(from_chars(to_chars(version()).as_slice())),
            push_results: None,
        }
    }

    /// The request failed, for the reason given.
    pub fn err(message: &str) -> (r: Self)
        ensures
            !r.success,
            r.error is Some && r.error->0@ == message@,
            has_version(r),
            r.push_results is None,
    {
        ServerResponse {
            success: false,
            error: Some(from_chars(to_chars(message).as_slice())),
            version: Some(from_chars(to_chars(version()).as_slice())),
            push_results: None,
        }
    }

    /// The push succeeded, and this came of it.
    pub fn ok_with_results(push_results: PushResults) -> (r: Self)
        ensures
            r.success,
            r.error is None,
            has_version(r),
            r.push_results == Some(push_results),
    {
        ServerResponse {
            success: true,
            error: None,
            version: Some(from_chars(to_chars(version()).as_slice())),
            push_results: Some(push_results),
        }
    }
}

/// What to do about a request that was read.
pub enum Handling {
    /// Push the updates; the answer depends on what comes of it.
    Push(Vec<MessageUpdate>),
    /// Give this answer.
    Answer(ServerResponse),
}

/// What to do about a request: one that cannot be read is answered with an error.
pub fn handle_request(request: Option<ServerRequest>) -> (r: Handling)
    ensures
        match request {
            Some(ServerRequest::Push { updates }) => r == Handling::Push(updates),
            Some(ServerRequest::Ping) => r matches Handling::Answer(a) && a.success && a.error
                is None && has_version(a) && a.push_results is None,
            None => r matches Handling::Answer(a) && !a.success && a.error is Some && a.error->0@
                == "Invalid request format"@ && has_version(a) && a.push_results is None,
        },
{
    match request {
        Some(ServerRequest::Push { updates }) => Handling::Push(updates),
        Some(ServerRequest::Ping) => Handling::Answer(ServerResponse::ok()),
        None => Handling::Answer(ServerResponse::err("Invalid request format")),
    }
}

/// The answer to a push: what came of it, or why it failed.
pub fn answer_push(outcome: Result<PushResults, String>) -> (r: ServerResponse)
    ensures
        has_version(r),
        match outcome {
            Ok(results) => r.success && r.error is None && r.push_results == Some(results),
            Err(e) => !r.success && r.error is Some && r.error->0@ == e@ && r.push_results is None,
        },
{
    match outcome {
        Ok(results) => ServerResponse::ok_with_results(results),
        Err(e) => ServerResponse::err(e.as_str()),
    }
}

/// Checks that the server is of the version of this program. An answer without a
/// version is that of another one.
pub fn check_server_version(response: &ServerResponse) -> (r: Result<(), VersionMismatchError>)
    ensures
        match r {
            Ok(()) => has_version(*response),
            Err(e) => !has_version(*response) && e.client_version@ == version_text()
                && e.server_version@ == (match response.version {
                Some(v) => v@,
                None => Seq::empty(),
            }),
        },
{
    let client_version = from_chars(to_chars(version()).as_slice());
    match &response.version {
        Some(v) => if same(to_chars(v.as_str()).as_slice(), to_chars(version()).as_slice()) {
            Ok(())
        } else {
            Err(VersionMismatchError { server_version: v.clone(), client_version })
        },
        None => Err(VersionMismatchError { server_version: String::new(), client_version }),
    }
}

// ---------------------------------------------------------------------------
// Reconnecting
// ---------------------------------------------------------------------------

/// The longest pause before the server reconnects, in seconds. A session that
/// stayed up so long counts as healthy.
pub const MAX_BACKOFF: u64 = 60;

/// How a session ended.
#[derive(Clone, Copy, Debug, Eq, PartialEq, Structural)]
pub enum SessionEnd {
    /// It could not be made.
    NotCreated,
    /// It failed after so many seconds.
    Failed(u64),
    /// The server was shut down.
    Clean,
}

/// What the server does after a session: stop, or pause so many seconds and then
/// connect again with the next pause.
#[derive(Clone, Copy, Debug, Eq, PartialEq, Structural)]
pub enum AfterSession {
    Stop,
    Reconnect { pause: u64, next_pause: u64 },
}

/// The pause doubled, up to the longest.
pub open spec fn doubled(pause: int) -> int {
    if 2 * pause > MAX_BACKOFF {
        MAX_BACKOFF as int
    } else {
        2 * pause
    }
}

/// What the server does after a session. Pauses double from one second up to a
/// minute, and start anew after a session that was healthy.
pub open spec fn session_step(end: SessionEnd, pause: u64) -> AfterSession {
    match end {
        SessionEnd::Clean => AfterSession::Stop,
        SessionEnd::NotCreated => AfterSession::Reconnect {
            pause,
            next_pause: doubled(pause as int) as u64,
        },
        SessionEnd::Failed(lasted) => AfterSession::Reconnect {
            pause,
            next_pause: if lasted >= MAX_BACKOFF {
                1
            } else {
                doubled(pause as int) as u64
            },
        },
    }
}

/// What the server does after a session. Pauses double from one second up to a
/// minute, and start anew after a session that was healthy.
pub fn after_session(end: SessionEnd, pause: u64) -> (r: AfterSession)
    requires
        pause <= MAX_BACKOFF,
    ensures
        r == session_step(end, pause),
        r matches AfterSession::Reconnect { pause: _, next_pause } ==> next_pause <= MAX_BACKOFF,
{
    let longer: u64 = if 2 * pause > MAX_BACKOFF {
        MAX_BACKOFF
    } else {
        2 * pause
    };
    match end {
        SessionEnd::Clean => AfterSession::Stop,
        SessionEnd::NotCreated => AfterSession::Reconnect { pause, next_pause: longer },
        SessionEnd::Failed(lasted) => if lasted >= MAX_BACKOFF {
            AfterSession::Reconnect { pause, next_pause: 1 }
        } else {
            AfterSession::Reconnect { pause, next_pause: longer }
        },
    }
}

/// How a message goes out.
pub enum Outgoing {
    /// As a photo from a file, with a caption.
    Photo(String, Option<String>),
    /// As a text.
    Text,
}

/// How a message goes out: as a photo where it starts with an image whose file is
/// there, and else as a text.
pub fn outgoing(image: Option<(String, Option<String>)>, file_exists: bool) -> (r: Outgoing)
    ensures
        match image {
            Some((path, caption)) => if file_exists {
                r == Outgoing::Photo(path, caption)
            } else {
                r == Outgoing::Text
            },
            None => r == Outgoing::Text,
        },
{
    match image {
        Some((path, caption)) => if file_exists {
            Outgoing::Photo(path, caption)
        } else {
            Outgoing::Text
        },
        None => Outgoing::Text,
    }
}

// ---------------------------------------------------------------------------
// Laws
// ---------------------------------------------------------------------------

pub proof fn lemma_numeral_lacks(n: int, c: char)
    requires
        !ascii_digit(c),
        c != '-',
    ensures
        lacks(numeral(n), c),
{
    let m = if n < 0 {
        -n
    } else {
        n
    };
    lemma_decimal(m);
    let d = decimal(m);
    assert forall|i: int| 0 <= i < numeral(n).len() implies #[trigger] numeral(n)[i] != c by {
        if n < 0 && i > 0 {
            assert(ascii_digit(d[i - 1]));
        } else if n >= 0 {
            assert(ascii_digit(d[i]));
        }
    }
}

/// A message's tag holds the message's id and no other, where the message was
/// not forwarded and its sender's name opens no tag.
pub proof fn law_tag_reads_back(
    id: int,
    second: int,
    sender: Option<Seq<char>>,
    reply_to: Option<i32>,
)
    requires
        0 <= id <= i32::MAX,
        sender is Some ==> lacks(sender->0, '<'),
    ensures
        tag_ids(message_tag(id, second, sender, false, reply_to)) == seq![id],
        first_id(message_tag(id, second, sender, false, reply_to)) == Some(id),
        message_tag(id, second, sender, false, reply_to)[0] == '<',
{
    reveal_strlit("<!-- msg:");
    reveal_strlit("<!-- ");
    reveal_strlit("msg:");
    reveal_strlit(" ts:");
    reveal_strlit(" reply_to:");
    reveal_strlit(" ");
    reveal_strlit(" -->");
    let from = match sender {
        Some(s) => " "@ + s,
        None => Seq::empty(),
    };
    let reply = labelled(" reply_to:"@, reply_to);
    let rest = " ts:"@ + numeral(second) + reply + from + " -->"@;
    let tag = message_tag(id, second, sender, false, reply_to);
    lemma_decimal(id);
    assert(tag =~= opener() + decimal(id) + rest);
    lemma_tag_of(decimal(id), rest);
    lemma_signed_round_trip(id, i32::MIN as int, i32::MAX as int);
    lemma_numeral_lacks(second, '<');
    if reply_to is Some {
        lemma_numeral_lacks(reply_to->0 as int, '<');
    }
    assert(lacks(reply, '<'));
    assert(lacks(from, '<'));
    assert(lacks(" ts:"@ + numeral(second), '<'));
    assert(lacks(" ts:"@ + numeral(second) + reply, '<'));
    assert(lacks(" ts:"@ + numeral(second) + reply + from, '<'));
    assert(lacks(rest, '<'));
    lemma_no_tags(rest);
    assert(seq![id] + Seq::<int>::empty() =~= seq![id]);
    assert(tag[0] == opener()[0]);
}

proof fn lemma_date_opens_no_tag(d: Date)
    requires
        d.valid(),
    ensures
        lacks(date_text(d), '<'),
{
    law_month_names(d.month as int);
    let m = month_text(d.month as int);
    let (day, year) = (d.day as int, d.year as int);
    lemma_padded_lacks(day, 2);
    lemma_padded_lacks(if year < 0 {
        -year
    } else {
        year
    }, if year < 0 {
        3
    } else {
        4
    });
    assert forall|i: int| 0 <= i < m.len() implies #[trigger] m[i] != '<' by {
        assert(ascii_letter(m[i]));
    }
    assert(lacks(m + seq![' '], '<'));
    assert(lacks(m + seq![' '] + padded(day, 2), '<'));
    assert(lacks(m + seq![' '] + padded(day, 2) + seq![',', ' '], '<'));
    assert(lacks(year_text(year), '<'));
}

pub proof fn lemma_padded_lacks(n: int, width: int)
    requires
        0 <= n,
    ensures
        lacks(padded(n, width), '<'),
{
    lemma_decimal(n);
    let d = decimal(n);
    let zeros = Seq::new((width - d.len()) as nat, |i: int| '0');
    assert(lacks(d, '<')) by {
        assert forall|i: int| 0 <= i < d.len() implies #[trigger] d[i] != '<' by {
            assert(ascii_digit(d[i]));
        }
    }
    if d.len() < width {
        assert(padded(n, width) =~= zeros + d);
    }
}

/// Appending a line feed changes no ids.
pub proof fn lemma_ids_before_newline(s: Seq<char>)
    ensures
        tag_ids(s + newline()) == tag_ids(s),
{
    lemma_tag_ids_lines(s, Seq::empty());
    assert(s + newline() + Seq::<char>::empty() =~= s + newline());
    assert(tag_ids(Seq::empty()) =~= Seq::<int>::empty());
    assert(tag_ids(s) + Seq::<int>::empty() =~= tag_ids(s));
}

/// Text above a line feed that opens no tag changes no ids.
proof fn lemma_ids_after_newline(a: Seq<char>, b: Seq<char>)
    requires
        lacks(a, '<'),
    ensures
        tag_ids(a + newline() + b) == tag_ids(b),
{
    lemma_tag_ids_lines(a, b);
    lemma_no_tags(a);
    assert(Seq::<int>::empty() + tag_ids(b) =~= tag_ids(b));
}

proof fn lemma_wrapped_ids(message: Seq<char>, tag: Seq<char>)
    ensures
        tag_ids(wrapped(message, Some(tag))) == tag_ids(message) + tag_ids(tag),
{
    reveal_strlit("md\n");
    reveal_strlit("\n");
    let fence = fence_around(message);
    let top = fence + seq!['m', 'd'];
    let tail = fence + newline() + tag;
    let rest = message + newline() + tail;
    assert(wrapped(message, Some(tag)) =~= top + newline() + rest);
    lemma_ids_after_newline(top, rest);
    lemma_tag_ids_lines(message, tail);
    lemma_ids_after_newline(fence, tag);
}

proof fn lemma_gap_ids(gap: Gap, body: Seq<char>)
    requires
        gap matches Gap::Day(d) ==> d.valid(),
    ensures
        tag_ids(gap_text(gap) + body) == tag_ids(body),
{
    match gap {
        Gap::Short => {
            assert(gap_text(gap) + body =~= body);
        },
        Gap::Dot => {
            reveal_strlit("\n");
            lemma_ids_after_newline(Seq::empty(), body);
            assert(gap_text(gap) + body =~= Seq::<char>::empty() + newline() + body);
        },
        Gap::Day(d) => {
            reveal_strlit("\n## ");
            reveal_strlit("\n\n");
            lemma_date_opens_no_tag(d);
            let head = seq!['#', '#', ' '] + date_text(d);
            assert(lacks(head, '<'));
            let below = newline() + body;
            let after = head + newline() + below;
            lemma_ids_after_newline(Seq::empty(), body);
            assert(below =~= Seq::<char>::empty() + newline() + body);
            lemma_ids_after_newline(head, below);
            lemma_ids_after_newline(Seq::empty(), after);
            assert(gap_text(gap) + body =~= Seq::<char>::empty() + newline() + after);
        },
    }
}

/// What is appended for a message holds the tags that the message itself holds,
/// and then its own id.
pub proof fn law_appended_ids(
    message: Seq<char>,
    id: int,
    second: int,
    sender: Option<Seq<char>>,
    reply_to: Option<i32>,
    gap: Gap,
)
    requires
        0 <= id <= i32::MAX,
        sender is Some ==> lacks(sender->0, '<'),
        gap matches Gap::Day(d) ==> d.valid(),
    ensures
        tag_ids(
            appended(message, Some(message_tag(id, second, sender, false, reply_to)), gap),
        ) == tag_ids(message).push(id),
{
    reveal_strlit("\n");
    reveal_strlit(" ");
    reveal_strlit(". ");
    let tag = message_tag(id, second, sender, false, reply_to);
    law_tag_reads_back(id, second, sender, reply_to);
    let text = tagged(message, Some(tag));
    reveal_strlit("<!-- msg:");
    lemma_tag_ids_split(message, ' ', tag);
    assert(text =~= message + seq![' '] + tag);
    lemma_wrapped_ids(message, tag);
    assert(tag_ids(message) + seq![id] =~= tag_ids(message).push(id));
    let dotted = ". "@ + text;
    assert(tag_ids(dotted) == tag_ids(text)) by {
        assert(dotted[0] == '.' && dotted[1] == ' ');
        assert(dotted.skip(1).skip(1) =~= text);
        assert(!tag_starts(dotted)) by {
            if tag_starts(dotted) {
                assert(dotted.subrange(0, 9)[0] == '.');
            }
        }
        assert(!tag_starts(dotted.skip(1))) by {
            if tag_starts(dotted.skip(1)) {
                assert(dotted.skip(1).subrange(0, 9)[0] == ' ');
            }
        }
        assert(tag_ids(dotted) == tag_ids(dotted.skip(1)));
        assert(tag_ids(dotted.skip(1)) == tag_ids(dotted.skip(1).skip(1)));
    }
    let body = if needs_wrapping(message) {
        wrapped(message, Some(tag))
    } else {
        match gap {
            Gap::Dot => dotted,
            _ => text,
        }
    };
    lemma_gap_ids(gap, body);
    lemma_ids_before_newline(gap_text(gap) + body);
    assert("\n"@ =~= newline());
}

/// The pause after `n` failures in a row: one second at first, doubled each time.
pub open spec fn pause_after(n: nat) -> int
    decreases n,
{
    if n == 0 {
        1
    } else {
        doubled(pause_after((n - 1) as nat))
    }
}

/// Pauses between failures in a row grow up to the longest and stay there.
pub proof fn law_pauses_are_bounded(n: nat)
    ensures
        1 <= pause_after(n) <= MAX_BACKOFF,
        pause_after(n) <= pause_after(n + 1),
        n >= 6 ==> pause_after(n) == MAX_BACKOFF,
    decreases n,
{
    reveal_with_fuel(pause_after, 8);
    if n > 0 {
        law_pauses_are_bounded((n - 1) as nat);
    }
}

} // verus!
