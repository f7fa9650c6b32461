//! What came of a push, and how it is shown.
use vstd::prelude::*;

use crate::decimal::{append_decimal, append_numeral, decimal, numeral};
use crate::text::{append, append_str, from_chars, joined, texts, to_chars};

verus! {

/// What came of one update.
#[derive(Clone, Debug)]
pub struct OpResult {
    pub success: bool,
    pub message: String,
}

/// What came of an update of a message.
#[derive(Clone, Debug)]
pub struct MessageResult {
    pub group_id: u64,
    pub message_id: i32,
    pub result: OpResult,
}

/// What came of a message to send.
#[derive(Clone, Debug)]
pub struct CreateResult {
    pub group_id: u64,
    pub topic_id: u64,
    pub result: OpResult,
}

/// What was done to a file.
#[derive(Clone, Debug)]
pub struct FileCleanup {
    pub path: String,
    pub lines_removed: usize,
    pub message: String,
}

/// What came of a push.
#[derive(Clone, Debug)]
pub struct PushResults {
    pub deletions: Vec<MessageResult>,
    pub edits: Vec<MessageResult>,
    pub creates: Vec<CreateResult>,
    pub file_cleanups: Vec<FileCleanup>,
}

impl Default for PushResults {
    fn default() -> (r: Self)
        ensures
            r.deletions.len() == 0,
            r.edits.len() == 0,
            r.creates.len() == 0,
            r.file_cleanups.len() == 0,
    {
        PushResults {
            deletions: Vec::new(),
            edits: Vec::new(),
            creates: Vec::new(),
            file_cleanups: Vec::new(),
        }
    }
}

/// The mark of success or failure.
pub open spec fn status_mark(success: bool) -> Seq<char> {
    if success {
        "✓"@
    } else {
        "✗"@
    }
}

/// What came of an update of a message, on a line of its own.
pub open spec fn message_result_line(kind: Seq<char>, m: MessageResult) -> Seq<char> {
    "  "@ + status_mark(m.result.success) + " "@ + kind + " msg:"@ + numeral(m.message_id as int)
        + " (group:"@ + decimal(m.group_id as int) + "): "@ + m.result.message@ + "\n"@
}

/// What came of a message to send, on a line of its own.
pub open spec fn create_result_line(c: CreateResult) -> Seq<char> {
    "  "@ + status_mark(c.result.success) + " create (group:"@ + decimal(c.group_id as int)
        + "/topic:"@ + decimal(c.topic_id as int) + "): "@ + c.result.message@ + "\n"@
}

/// What was done to a file, on a line of its own. It counts as a success where
/// lines were taken out.
pub open spec fn cleanup_line(f: FileCleanup) -> Seq<char> {
    "  "@ + status_mark(f.lines_removed > 0) + " cleanup "@ + f.path@ + ": "@ + f.message@ + "\n"@
}

/// What came of updates of messages, a line for each.
pub open spec fn message_result_lines(kind: Seq<char>, v: Seq<MessageResult>) -> Seq<char>
    decreases v.len(),
{
    if v.len() == 0 {
        Seq::empty()
    } else {
        message_result_lines(kind, v.drop_last()) + message_result_line(kind, v.last())
    }
}

/// What came of messages to send, a line for each.
pub open spec fn create_result_lines(v: Seq<CreateResult>) -> Seq<char>
    decreases v.len(),
{
    if v.len() == 0 {
        Seq::empty()
    } else {
        create_result_lines(v.drop_last()) + create_result_line(v.last())
    }
}

/// What was done to files, a line for each.
pub open spec fn cleanup_lines(v: Seq<FileCleanup>) -> Seq<char>
    decreases v.len(),
{
    if v.len() == 0 {
        Seq::empty()
    } else {
        cleanup_lines(v.drop_last()) + cleanup_line(v.last())
    }
}

/// The number of updates of messages that succeeded.
pub open spec fn message_successes(v: Seq<MessageResult>) -> int
    decreases v.len(),
{
    if v.len() == 0 {
        0
    } else {
        message_successes(v.drop_last()) + (if v.last().result.success {
            1int
        } else {
            0
        })
    }
}

/// The number of messages that were sent.
pub open spec fn create_successes(v: Seq<CreateResult>) -> int
    decreases v.len(),
{
    if v.len() == 0 {
        0
    } else {
        create_successes(v.drop_last()) + (if v.last().result.success {
            1int
        } else {
            0
        })
    }
}

/// How many succeeded; where some failed, out of how many.
pub open spec fn tally(succeeded: int, total: int, kind: Seq<char>) -> Seq<char> {
    if succeeded < total {
        decimal(succeeded) + "/"@ + decimal(total) + kind
    } else {
        decimal(succeeded) + kind
    }
}

/// The tallies of the kinds of updates that there were.
pub open spec fn tallies(r: PushResults) -> Seq<Seq<char>> {
    let (d, e, c) = (r.deletions@, r.edits@, r.creates@);
    let deletions = if d.len() > 0 {
        seq![tally(message_successes(d), d.len() as int, " deletions"@)]
    } else {
        Seq::empty()
    };
    let edits = if e.len() > 0 {
        seq![tally(message_successes(e), e.len() as int, " edits"@)]
    } else {
        Seq::empty()
    };
    let creates = if c.len() > 0 {
        seq![tally(create_successes(c), c.len() as int, " creates"@)]
    } else {
        Seq::empty()
    };
    deletions + edits + creates
}

/// What is shown of the results of a push; nothing where there were no updates.
pub open spec fn shown_results(r: PushResults) -> Seq<char> {
    if r.deletions@.len() == 0 && r.edits@.len() == 0 && r.creates@.len() == 0 {
        Seq::empty()
    } else {
        "\nResults:\n"@ + message_result_lines("delete"@, r.deletions@) + message_result_lines(
            "edit"@,
            r.edits@,
        ) + create_result_lines(r.creates@) + cleanup_lines(r.file_cleanups@) + ("Summary: "@
            + joined(tallies(r), ", "@) + "\n"@)
    }
}

fn mark_of(success: bool) -> (r: &'static str)
    ensures
        r@ == status_mark(success),
{
    if success {
        "✓"
    } else {
        "✗"
    }
}

fn write_message_results(kind: &str, v: &Vec<MessageResult>) -> (r: Vec<char>)
    ensures
        r@ == message_result_lines(kind@, v@),
{
    let mut r: Vec<char> = Vec::new();
    let mut i: usize = 0;
    while i < v.len()
        invariant
            i <= v.len(),
            r@ == message_result_lines(kind@, v@.take(i as int)),
        decreases v.len() - i,
    {
        assert(v@.take(i + 1).drop_last() =~= v@.take(i as int));
        let m = &v[i];
        let mut line = to_chars("  ");
        append_str(&mut line, mark_of(m.result.success));
        append_str(&mut line, " ");
        append_str(&mut line, kind);
        append_str(&mut line, " msg:");
        append_numeral(&mut line, m.message_id as i128);
        append_str(&mut line, " (group:");
        append_decimal(&mut line, m.group_id as u128);
        append_str(&mut line, "): ");
        append_str(&mut line, m.result.message.as_str());
        append_str(&mut line, "\n");
        append(&mut r, line.as_slice());
        i += 1;
    }
    assert(v@.take(v@.len() as int) =~= v@);
    r
}

fn write_create_results(v: &Vec<CreateResult>) -> (r: Vec<char>)
    ensures
        r@ == create_result_lines(v@),
{
    let mut r: Vec<char> = Vec::new();
    let mut i: usize = 0;
    while i < v.len()
        invariant
            i <= v.len(),
            r@ == create_result_lines(v@.take(i as int)),
        decreases v.len() - i,
    {
        assert(v@.take(i + 1).drop_last() =~= v@.take(i as int));
        let c = &v[i];
        let mut line = to_chars("  ");
        append_str(&mut line, mark_of(c.result.success));
        append_str(&mut line, " create (group:");
        append_decimal(&mut line, c.group_id as u128);
        append_str(&mut line, "/topic:");
        append_decimal(&mut line, c.topic_id as u128);
        append_str(&mut line, "): ");
        append_str(&mut line, c.result.message.as_str());
        append_str(&mut line, "\n");
        append(&mut r, line.as_slice());
        i += 1;
    }
    assert(v@.take(v@.len() as int) =~= v@);
    r
}

fn write_cleanups(v: &Vec<FileCleanup>) -> (r: Vec<char>)
    ensures
        r@ == cleanup_lines(v@),
{
    let mut r: Vec<char> = Vec::new();
    let mut i: usize = 0;
    while i < v.len()
        invariant
            i <= v.len(),
            r@ == cleanup_lines(v@.take(i as int)),
        decreases v.len() - i,
    {
        assert(v@.take(i + 1).drop_last() =~= v@.take(i as int));
        let f = &v[i];
        let mut line = to_chars("  ");
        append_str(&mut line, mark_of(f.lines_removed > 0));
        append_str(&mut line, " cleanup ");
        append_str(&mut line, f.path.as_str());
        append_str(&mut line, ": ");
        append_str(&mut line, f.message.as_str());
        append_str(&mut line, "\n");
        append(&mut r, line.as_slice());
        i += 1;
    }
    assert(v@.take(v@.len() as int) =~= v@);
    r
}

fn count_message_successes(v: &Vec<MessageResult>) -> (r: usize)
    ensures
        r == message_successes(v@),
        r <= v.len(),
{
    let mut n: usize = 0;
    let mut i: usize = 0;
    while i < v.len()
        invariant
            i <= v.len(),
            n <= i,
            n == message_successes(v@.take(i as int)),
        decreases v.len() - i,
    {
        assert(v@.take(i + 1).drop_last() =~= v@.take(i as int));
        if v[i].result.success {
            n += 1;
        }
        i += 1;
    }
    assert(v@.take(v@.len() as int) =~= v@);
    n
}

fn count_create_successes(v: &Vec<CreateResult>) -> (r: usize)
    ensures
        r == create_successes(v@),
        r <= v.len(),
{
    let mut n: usize = 0;
    let mut i: usize = 0;
    while i < v.len()
        invariant
            i <= v.len(),
            n <= i,
            n == create_successes(v@.take(i as int)),
        decreases v.len() - i,
    {
        assert(v@.take(i + 1).drop_last() =~= v@.take(i as int));
        if v[i].result.success {
            n += 1;
        }
        i += 1;
    }
    assert(v@.take(v@.len() as int) =~= v@);
    n
}

fn write_tally(succeeded: usize, total: usize, kind: &str) -> (r: Vec<char>)
    ensures
        r@ == tally(succeeded as int, total as int, kind@),
{
    let mut r: Vec<char> = Vec::new();
    append_decimal(&mut r, succeeded as u128);
    assert(r@ =~= decimal(succeeded as int));
    if succeeded < total {
        append_str(&mut r, "/");
        append_decimal(&mut r, total as u128);
    }
    append_str(&mut r, kind);
    r
}

/// The parts with `, ` between each two.
fn join_commas(parts: &Vec<Vec<char>>) -> (r: Vec<char>)
    ensures
        r@ == joined(texts(parts@), ", "@),
{
    let mut r: Vec<char> = Vec::new();
    let ghost all = texts(parts@);
    let mut i: usize = 0;
    while i < parts.len()
        invariant
            i <= parts.len(),
            all == texts(parts@),
            r@ == joined(all.take(i as int), ", "@),
        decreases parts.len() - i,
    {
        assert(all.take(i + 1).drop_last() =~= all.take(i as int));
        if i > 0 {
            append_str(&mut r, ", ");
        }
        append(&mut r, parts[i].as_slice());
        assert(i == 0 ==> r@ =~= all[0]);
        i += 1;
    }
    assert(all.take(all.len() as int) =~= all);
    r
}

fn write_tallies(results: &PushResults) -> (r: Vec<Vec<char>>)
    ensures
        texts(r@) == tallies(*results),
{
    let mut parts: Vec<Vec<char>> = Vec::new();
    if results.deletions.len() > 0 {
        parts.push(
            write_tally(
                count_message_successes(&results.deletions),
                results.deletions.len(),
                " deletions",
            ),
        );
    }
    if results.edits.len() > 0 {
        parts.push(
            write_tally(count_message_successes(&results.edits), results.edits.len(), " edits"),
        );
    }
    if results.creates.len() > 0 {
        parts.push(
            write_tally(count_create_successes(&results.creates), results.creates.len(), " creates"),
        );
    }
    assert(texts(parts@) =~= tallies(*results));
    parts
}

/// What is shown of the results of a push; nothing where there were no updates.
pub fn display_push_results(results: &PushResults) -> (r: String)
    ensures
        r@ == shown_results(*results),
{
    if results.deletions.len() == 0 && results.edits.len() == 0 && results.creates.len() == 0 {
        return String::new();
    }
    let mut out = to_chars("\nResults:\n");
    append(&mut out, write_message_results("delete", &results.deletions).as_slice());
    append(&mut out, write_message_results("edit", &results.edits).as_slice());
    append(&mut out, write_create_results(&results.creates).as_slice());
    append(&mut out, write_cleanups(&results.file_cleanups).as_slice());
    let mut summary = to_chars("Summary: ");
    append(&mut summary, join_commas(&write_tallies(results)).as_slice());
    append_str(&mut summary, "\n");
    append(&mut out, summary.as_slice());
    from_chars(out.as_slice())
}

} // verus!
