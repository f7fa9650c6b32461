//! Open tasks: messages that hold `TODO:`, gathered from all topics.
use vstd::prelude::*;
use vstd::slice::slice_subrange;

use crate::calendar::{
    Date, MAX_SPAN, before, day_text, lemma_number_in_range, month_text, number_back,
    number_in_range,
};
use crate::config::Timeframe;
use crate::decimal::{
    all_digits, append_decimal, append_numeral, decimal, lemma_decimal, lemma_decimal_len,
    lemma_padded, lemma_signed_round_trip, lemma_unsigned_round_trip, numeral, padded, parse_i32,
    parse_u64, unsigned_value,
};
use crate::header::law_month_names;
use crate::last::{all_valid, build_message_date_map, message_dates};
use crate::sync::{
    MessageUpdate, Update, growing, lemma_push_contains, messages_on, parse_file_messages, parsed,
    sorted_message_ids, updates_of,
};
use crate::tag::{digit_run, digits_end, id_value, lemma_digit_run, lemma_digit_run_is};
use crate::text::{
    append, append_str, comes_before, contains_str, from_chars, lemma_text_before, lemma_text_order,
    lemma_trimmed_same, lines, occurs, occurs_at, same, split_lines, starts, str_stands_at,
    text_before, texts, to_chars, trim, trimmed,
};
use crate::unicode::{ascii_digit, ascii_letter, digit, is_ascii_letter};

verus! {

/// An open task in a message.
#[derive(Clone, Debug)]
pub struct TodoItem {
    /// The content of the message.
    pub content: String,
    /// The topic's file, below the data directory.
    pub source: String,
    /// The date of the message, where its file shows it.
    pub date: Option<Date>,
    /// The id of the message, where it is known.
    pub message_id: Option<i32>,
    pub group_id: u64,
    pub topic_id: u64,
}

/// A topic's file.
#[derive(Clone, Debug)]
pub struct TopicFile {
    pub group_id: u64,
    pub topic_id: u64,
    /// The file, below the data directory.
    pub source: String,
    pub content: String,
}

// ---------------------------------------------------------------------------
// Gathering
// ---------------------------------------------------------------------------

/// The date from which on tasks count: so long ago, or today where that is out of
/// range. A span that is too long counts as a week.
pub open spec fn is_cutoff(from: Date, today: Date, over: Timeframe) -> bool {
    let seconds = if over.seconds > MAX_SPAN {
        604800
    } else {
        over.seconds
    };
    if seconds / 86400 <= 4371587 && number_in_range(number_back(today, seconds)) {
        from.valid() && from.number() == number_back(today, seconds)
    } else {
        from == today
    }
}

/// The date from which on tasks count.
pub fn todo_cutoff(today: Date, over: Timeframe) -> (r: Date)
    requires
        today.valid(),
    ensures
        is_cutoff(r, today, over),
{
    let seconds: u64 = if over.seconds > MAX_SPAN {
        604800
    } else {
        over.seconds
    };
    match today.back(seconds) {
        Some(d) => {
            proof {
                lemma_number_in_range(d);
            }
            d
        },
        None => today,
    }
}

/// The message is an open task that counts.
pub open spec fn is_open_task(
    ls: Seq<Seq<char>>,
    id: i32,
    today: Date,
    cutoff: Date,
) -> bool {
    let ms = messages_on(ls);
    let dates = message_dates(ls, today.year, today);
    &&& ms.contains_key(id)
    &&& occurs(ms[id].content, "TODO:"@)
    &&& dates.contains_key(id) ==> !before(dates[id], cutoff)
}

/// The ids of tasks.
pub open spec fn task_ids(v: Seq<TodoItem>) -> Seq<i32> {
    v.map_values(
        |t: TodoItem|
            match t.message_id {
                Some(id) => id,
                None => 0i32,
            },
    )
}

/// The task is that of the message with its id in the file.
pub open spec fn is_task_of(t: TodoItem, file: TopicFile, today: Date) -> bool {
    let ls = lines(file.content@);
    let dates = message_dates(ls, today.year, today);
    &&& t.message_id is Some
    &&& t.content@ == messages_on(ls)[t.message_id->0].content
    &&& t.source@ == file.source@
    &&& t.date == (if dates.contains_key(t.message_id->0) {
        Some(dates[t.message_id->0])
    } else {
        None
    })
    &&& t.group_id == file.group_id
    &&& t.topic_id == file.topic_id
}

/// The open tasks in a file, by the ids of their messages.
pub open spec fn tasks_of(
    v: Seq<TodoItem>,
    file: TopicFile,
    today: Date,
    cutoff: Date,
) -> bool {
    &&& growing(task_ids(v))
    &&& forall|id: i32| #[trigger]
        task_ids(v).contains(id) <==> is_open_task(lines(file.content@), id, today, cutoff)
    &&& forall|i: int| 0 <= i < v.len() ==> is_task_of(#[trigger] v[i], file, today)
}

/// The tasks of dates that can be shown.
pub open spec fn tasks_dated(v: Seq<TodoItem>) -> bool {
    forall|i: int| 0 <= i < v.len() && (#[trigger] v[i]).date is Some ==> v[i].date->0.valid()
}

/// The open tasks in a file.
pub fn file_todos(file: &TopicFile, today: Date, cutoff: Date) -> (r: Vec<TodoItem>)
    requires
        today.valid(),
    ensures
        tasks_of(r@, *file, today, cutoff),
        tasks_dated(r@),
{
    let messages = parse_file_messages(file.content.as_str());
    let dates = build_message_date_map(file.content.as_str(), today.year, today);
    let keys = sorted_message_ids(&messages);
    let ghost ls = lines(file.content@);
    let ghost ms = messages_on(ls);
    let mut r: Vec<TodoItem> = Vec::new();
    let mut i: usize = 0;
    assert(task_ids(r@) =~= Seq::empty());
    while i < keys.len()
        invariant
            i <= keys.len(),
            ls == lines(file.content@),
            ms == messages_on(ls),
            ms == parsed(messages@),
            dates@ == message_dates(ls, today.year, today),
            all_valid(dates@),
            keys@.to_set() == messages@.dom(),
            growing(keys@),
            growing(task_ids(r@)),
            forall|j: int, k: int|
                0 <= j < r.len() && i <= k < keys.len() ==> task_ids(r@)[j] < keys@[k],
            forall|id: i32| #[trigger]
                task_ids(r@).contains(id) <==> keys@.take(i as int).contains(id) && is_open_task(
                    ls,
                    id,
                    today,
                    cutoff,
                ),
            forall|j: int| 0 <= j < r.len() ==> is_task_of(#[trigger] r@[j], *file, today),
            tasks_dated(r@),
        decreases keys.len() - i,
    {
        let id = keys[i];
        let ghost before_ids = task_ids(r@);
        let ghost front = keys@.take(i as int);
        proof {
            assert(keys@.to_set().contains(keys@[i as int]));
        }
        match messages.get(&id) {
            Some(m) => {
                let date: Option<Date> = match dates.get(&id) {
                    Some(d) => Some(*d),
                    None => None,
                };
                let counts = match date {
                    Some(d) => !d.is_before(cutoff),
                    None => true,
                };
                let task = contains_str(to_chars(m.content.as_str()).as_slice(), "TODO:");
                assert((counts && task) == is_open_task(ls, id, today, cutoff));
                if counts && task {
                    let item = TodoItem {
                        content: m.content.clone(),
                        source: file.source.clone(),
                        date,
                        message_id: Some(id),
                        group_id: file.group_id,
                        topic_id: file.topic_id,
                    };
                    r.push(item);
                    assert(task_ids(r@) =~= before_ids.push(id));
                    assert(is_task_of(item, *file, today));
                }
            },
            None => {},
        }
        proof {
            assert(keys@.take(i + 1) =~= front.push(id));
            assert forall|x: i32| #[trigger]
                task_ids(r@).contains(x) <==> keys@.take(i + 1).contains(x) && is_open_task(
                    ls,
                    x,
                    today,
                    cutoff,
                ) by {
                lemma_push_contains(front, id, x);
                lemma_push_contains(before_ids, id, x);
            }
        }
        i += 1;
    }
    proof {
        assert(keys@.take(keys@.len() as int) =~= keys@);
        assert forall|id: i32| #[trigger]
            task_ids(r@).contains(id) <==> is_open_task(ls, id, today, cutoff) by {
            assert(keys@.contains(id) <==> keys@.to_set().contains(id));
        }
    }
    r
}

/// The parts one after the other.
pub open spec fn all_parts(parts: Seq<Seq<TodoItem>>) -> Seq<TodoItem>
    decreases parts.len(),
{
    if parts.len() == 0 {
        Seq::empty()
    } else {
        all_parts(parts.drop_last()) + parts.last()
    }
}

/// The parts are the open tasks of the files.
pub open spec fn parts_of(
    parts: Seq<Seq<TodoItem>>,
    files: Seq<TopicFile>,
    today: Date,
    cutoff: Date,
) -> bool {
    parts.len() == files.len() && forall|i: int|
        0 <= i < files.len() ==> tasks_of(#[trigger] parts[i], files[i], today, cutoff)
}

/// The open tasks in the files, one file after the other.
pub fn collect_todos(files: &Vec<TopicFile>, today: Date, cutoff: Date) -> (r: Vec<TodoItem>)
    requires
        today.valid(),
    ensures
        exists|parts: Seq<Seq<TodoItem>>| #[trigger]
            parts_of(parts, files@, today, cutoff) && r@ == all_parts(parts),
        tasks_dated(r@),
{
    let mut r: Vec<TodoItem> = Vec::new();
    let ghost mut parts: Seq<Seq<TodoItem>> = Seq::empty();
    let mut i: usize = 0;
    while i < files.len()
        invariant
            i <= files.len(),
            today.valid(),
            parts.len() == i,
            forall|j: int|
                0 <= j < i ==> tasks_of(#[trigger] parts[j], files@[j], today, cutoff),
            r@ == all_parts(parts),
            tasks_dated(r@),
        decreases files.len() - i,
    {
        let mut found = file_todos(&files[i], today, cutoff);
        let ghost before = parts;
        let ghost part = found@;
        let ghost had = r@;
        r.append(&mut found);
        proof {
            parts = parts.push(part);
            assert(parts.drop_last() =~= before);
            assert(r@ =~= had + part);
            assert forall|j: int|
                0 <= j < r.len() && (#[trigger] r@[j]).date is Some implies r@[j].date->0.valid() by {
                if j < had.len() {
                    assert(r@[j] == had[j]);
                } else {
                    assert(r@[j] == part[j - had.len()]);
                }
            }
        }
        i += 1;
    }
    assert(parts_of(parts, files@, today, cutoff));
    r
}

// ---------------------------------------------------------------------------
// Order
// ---------------------------------------------------------------------------

/// The task comes before another: those without dates first, then the youngest
/// first, and those of one date by their files.
pub open spec fn todo_before(a: TodoItem, b: TodoItem) -> bool {
    match (a.date, b.date) {
        (Some(x), Some(y)) => before(y, x) || (x == y && text_before(a.source@, b.source@)),
        (None, Some(_)) => true,
        (Some(_), None) => false,
        (None, None) => text_before(a.source@, b.source@),
    }
}

/// The task put behind all tasks that it does not come before.
pub open spec fn put_todo(v: Seq<TodoItem>, t: TodoItem) -> Seq<TodoItem>
    decreases v.len(),
{
    if v.len() > 0 && todo_before(t, v.last()) {
        put_todo(v.drop_last(), t).push(v.last())
    } else {
        v.push(t)
    }
}

/// The tasks in order. Of two that come in no order the first stays first.
pub open spec fn sorted_todos(v: Seq<TodoItem>) -> Seq<TodoItem>
    decreases v.len(),
{
    if v.len() == 0 {
        v
    } else {
        put_todo(sorted_todos(v.drop_last()), v.last())
    }
}

fn is_todo_before(a: &TodoItem, b: &TodoItem) -> (r: bool)
    ensures
        r == todo_before(*a, *b),
{
    let by_source = comes_before(
        to_chars(a.source.as_str()).as_slice(),
        to_chars(b.source.as_str()).as_slice(),
    );
    match (a.date, b.date) {
        (Some(x), Some(y)) => y.is_before(x) || (x == y && by_source),
        (None, Some(_)) => true,
        (Some(_), None) => false,
        (None, None) => by_source,
    }
}

fn put_item(v: &mut Vec<TodoItem>, t: TodoItem)
    ensures
        final(v)@ == put_todo(old(v)@, t),
{
    let ghost start = v@;
    let mut i: usize = v.len();
    proof {
        assert(start.take(start.len() as int) =~= start);
        assert(put_todo(start, t) + start.skip(start.len() as int) =~= put_todo(start, t));
    }
    while i > 0 && is_todo_before(&t, &v[i - 1])
        invariant
            i <= v.len(),
            v@ == start,
            put_todo(start, t) == put_todo(start.take(i as int), t) + start.skip(i as int),
        decreases i,
    {
        proof {
            let front = start.take(i as int);
            assert(front.drop_last() =~= start.take(i - 1));
            assert(put_todo(start.take(i - 1), t).push(start[i - 1]) + start.skip(i as int)
                =~= put_todo(start.take(i - 1), t) + start.skip(i - 1));
        }
        i -= 1;
    }
    proof {
        let front = start.take(i as int);
        if i > 0 {
            assert(front.last() == start[i - 1]);
        }
        assert(put_todo(front, t) == front.push(t));
    }
    v.insert(i, t);
    assert(v@ =~= start.take(i as int).push(t) + start.skip(i as int));
}

/// The tasks in order.
pub fn sort_todos(v: Vec<TodoItem>) -> (r: Vec<TodoItem>)
    ensures
        r@ == sorted_todos(v@),
{
    let ghost all = v@;
    let mut r: Vec<TodoItem> = Vec::new();
    for t in it: v
        invariant
            it.seq() == all,
            r@ == sorted_todos(all.take(it.index() as int)),
    {
        put_item(&mut r, t);
        assert(all.take(it.index() + 1).drop_last() =~= all.take(it.index() as int));
        assert(all.take(it.index() + 1).last() == t);
    }
    assert(all.take(all.len() as int) =~= all);
    r
}

// ---------------------------------------------------------------------------
// Writing
// ---------------------------------------------------------------------------

/// The mark by which a task is found again.
pub open spec fn todo_mark(group: u64, topic: u64, id: int) -> Seq<char> {
    " <!-- todo:"@ + decimal(group as int) + ":"@ + decimal(topic as int) + ":"@ + numeral(id)
        + " -->"@
}

/// A task on a line of its own.
pub open spec fn todo_line(t: TodoItem) -> Seq<char> {
    let date = match t.date {
        Some(d) => " ("@ + day_text(d) + ")"@,
        None => Seq::empty(),
    };
    let id = match t.message_id {
        Some(id) => id as int,
        None => 0,
    };
    "- [ ] "@ + t.content@ + date + todo_mark(t.group_id, t.topic_id, id)
}

/// The tasks, with the name of a file above those that come from it, and a blank
/// line before each name but the first.
pub open spec fn todo_listing(v: Seq<TodoItem>) -> Seq<char>
    decreases v.len(),
{
    let n = v.len() as int;
    if n == 0 {
        Seq::empty()
    } else {
        let before = todo_listing(v.drop_last());
        let t = v.last();
        (if n > 1 && v[n - 2].source@ == t.source@ {
            before
        } else if n > 1 {
            before + "\n"@ + ("## "@ + t.source@ + "\n"@)
        } else {
            before + ("## "@ + t.source@ + "\n"@)
        }) + (todo_line(t) + "\n"@)
    }
}

/// The file of open tasks over a span of time with this name.
pub open spec fn todo_file(v: Seq<TodoItem>, over: Seq<char>) -> Seq<char> {
    let head = "# TODOs\n"@ + "*Auto-aggregated from group messages (last "@ + over + ").*\n\n"@;
    if v.len() == 0 {
        head + "No TODOs found.\n"@
    } else {
        head + todo_listing(v)
    }
}

/// A task on a line of its own.
fn write_todo_line(t: &TodoItem) -> (r: Vec<char>)
    requires
        t.date is Some ==> t.date->0.valid(),
    ensures
        r@ == todo_line(*t),
{
    let mut date: Vec<char> = Vec::new();
    match t.date {
        Some(d) => {
            date = to_chars(" (");
            append_str(&mut date, d.day_text().as_str());
            append_str(&mut date, ")");
        },
        None => {},
    }
    let id: i32 = match t.message_id {
        Some(id) => id,
        None => 0,
    };
    let mut mark = to_chars(" <!-- todo:");
    append_decimal(&mut mark, t.group_id as u128);
    append_str(&mut mark, ":");
    append_decimal(&mut mark, t.topic_id as u128);
    append_str(&mut mark, ":");
    append_numeral(&mut mark, id as i128);
    append_str(&mut mark, " -->");
    let mut r = to_chars("- [ ] ");
    append_str(&mut r, t.content.as_str());
    append(&mut r, date.as_slice());
    append(&mut r, mark.as_slice());
    r
}

/// The file of open tasks over a span of time with this name.
pub fn write_todos(v: &Vec<TodoItem>, over: &str) -> (r: String)
    requires
        tasks_dated(v@),
    ensures
        r@ == todo_file(v@, over@),
{
    let mut out = to_chars("# TODOs\n");
    append_str(&mut out, "*Auto-aggregated from group messages (last ");
    append_str(&mut out, over);
    append_str(&mut out, ").*\n\n");
    if v.len() == 0 {
        append_str(&mut out, "No TODOs found.\n");
        return from_chars(out.as_slice());
    }
    let mut list: Vec<char> = Vec::new();
    let mut i: usize = 0;
    while i < v.len()
        invariant
            i <= v.len(),
            tasks_dated(v@),
            list@ == todo_listing(v@.take(i as int)),
        decreases v.len() - i,
    {
        let ghost part = v@.take(i + 1);
        assert(part.drop_last() =~= v@.take(i as int));
        let t = &v[i];
        let goes_on = i > 0 && same(
            to_chars(v[i - 1].source.as_str()).as_slice(),
            to_chars(t.source.as_str()).as_slice(),
        );
        if !goes_on {
            if i > 0 {
                append_str(&mut list, "\n");
            }
            let mut head = to_chars("## ");
            append_str(&mut head, t.source.as_str());
            append_str(&mut head, "\n");
            append(&mut list, head.as_slice());
        }
        let mut line = write_todo_line(t);
        append_str(&mut line, "\n");
        append(&mut list, line.as_slice());
        i += 1;
    }
    assert(v@.take(v@.len() as int) =~= v@);
    append(&mut out, list.as_slice());
    from_chars(out.as_slice())
}

/// The text is the file of the tasks that are open in the files, and there are
/// `count` of them.
pub open spec fn is_aggregate(
    text: Seq<char>,
    count: int,
    files: Seq<TopicFile>,
    today: Date,
    from: Date,
    label: Seq<char>,
) -> bool {
    exists|parts: Seq<Seq<TodoItem>>| #[trigger]
        parts_of(parts, files, today, from) && count == all_parts(parts).len() && text == todo_file(
            sorted_todos(all_parts(parts)),
            label,
        )
}

/// The file of the tasks that are open in the files, over a span of time with this
/// name, and the number of those tasks.
pub fn aggregate_todos(
    files: &Vec<TopicFile>,
    today: Date,
    over: Timeframe,
    label: &str,
) -> (r: (String, usize))
    requires
        today.valid(),
    ensures
        exists|from: Date|
            is_cutoff(from, today, over) && #[trigger] is_aggregate(
                r.0@,
                r.1 as int,
                files@,
                today,
                from,
                label@,
            ),
{
    let from = todo_cutoff(today, over);
    let all = collect_todos(files, today, from);
    let ghost parts = choose|parts: Seq<Seq<TodoItem>>| #[trigger]
        parts_of(parts, files@, today, from) && all@ == all_parts(parts);
    let ghost before = all@;
    let count = all.len();
    let sorted = sort_todos(all);
    proof {
        lemma_sorted_dated(before);
    }
    let text = write_todos(&sorted, label);
    let r = (text, count);
    assert(parts_of(parts, files@, today, from));
    assert(is_aggregate(r.0@, r.1 as int, files@, today, from, label@));
    r
}

proof fn lemma_sorted_dated(v: Seq<TodoItem>)
    requires
        tasks_dated(v),
    ensures
        tasks_dated(sorted_todos(v)),
{
    let s = sorted_todos(v);
    law_todos_in_order(v);
    v.to_multiset_ensures();
    s.to_multiset_ensures();
    assert forall|i: int|
        0 <= i < s.len() && (#[trigger] s[i]).date is Some implies s[i].date->0.valid() by {
        assert(s.contains(s[i]));
        assert(s.to_multiset().count(s[i]) > 0);
        assert(v.contains(s[i]));
    }
}

// ---------------------------------------------------------------------------
// Reading
// ---------------------------------------------------------------------------

/// A task that can be found again.
#[derive(Clone, Debug, Eq, PartialEq)]
pub struct TrackedTodo {
    pub group_id: u64,
    pub topic_id: u64,
    pub message_id: i32,
    /// The content of the message.
    pub content: String,
}

/// What a task says.
pub struct Task {
    pub group: u64,
    pub topic: u64,
    pub id: i32,
    pub content: Seq<char>,
}

impl View for TrackedTodo {
    type V = Task;

    open spec fn view(&self) -> Task {
        Task {
            group: self.group_id,
            topic: self.topic_id,
            id: self.message_id,
            content: self.content@,
        }
    }
}

/// What tasks say.
pub open spec fn tasks(v: Seq<TrackedTodo>) -> Seq<Task> {
    v.map_values(|t: TrackedTodo| t@)
}

/// The end of the digits from position `i` on.
pub open spec fn run_end(s: Seq<char>, i: int) -> int {
    i + digit_run(s.skip(i))
}

/// Where the group's number starts in the mark behind the date at position `p`.
pub open spec fn group_at(s: Seq<char>, p: int) -> int {
    run_end(s, p + 6) + 12
}

/// Where the topic's number starts in the mark behind the date at position `p`.
pub open spec fn topic_at(s: Seq<char>, p: int) -> int {
    run_end(s, group_at(s, p)) + 1
}

/// Where the message's number starts in the mark behind the date at position `p`.
pub open spec fn message_at(s: Seq<char>, p: int) -> int {
    run_end(s, topic_at(s, p)) + 1
}

/// A date and a mark stand at position `p`, and nothing behind them: ` (`, three
/// letters, a space, one or two digits, `) <!-- todo:`, three numbers with colons
/// between them, and ` -->`.
pub open spec fn todo_tail(s: Seq<char>, p: int) -> bool {
    let g = group_at(s, p);
    let t = topic_at(s, p);
    let m = message_at(s, p);
    &&& occurs_at(s, p, " ("@)
    &&& p + 6 < s.len()
    &&& forall|i: int| p + 2 <= i < p + 5 ==> ascii_letter(#[trigger] s[i])
    &&& s[p + 5] == ' '
    &&& 1 <= digit_run(s.skip(p + 6)) <= 2
    &&& occurs_at(s, run_end(s, p + 6), ") <!-- todo:"@)
    &&& g < run_end(s, g) < s.len()
    &&& s[run_end(s, g)] == ':'
    &&& t < run_end(s, t) < s.len()
    &&& s[run_end(s, t)] == ':'
    &&& m < run_end(s, m)
    &&& occurs_at(s, run_end(s, m), " -->"@)
    &&& run_end(s, m) + 4 == s.len()
}

/// The first position from `p` on with a date and a mark, or the length of the text.
pub open spec fn find_tail(s: Seq<char>, p: int) -> int
    decreases s.len() - p,
{
    if p >= s.len() || todo_tail(s, p) {
        p
    } else {
        find_tail(s, p + 1)
    }
}

/// The task on a line.
pub open spec fn todo_on(line: Seq<char>) -> Option<Task> {
    let s = trimmed(line);
    let p = find_tail(s, 7);
    let g = group_at(s, p);
    let t = topic_at(s, p);
    let m = message_at(s, p);
    if starts(s, "- [ ] "@) && p < s.len() {
        match (
            unsigned_value(s.subrange(g, run_end(s, g)), u64::MAX as int),
            unsigned_value(s.subrange(t, run_end(s, t)), u64::MAX as int),
            id_value(s.subrange(m, run_end(s, m))),
        ) {
            (Some(group), Some(topic), Some(id)) => if id != 0 {
                Some(
                    Task {
                        group: group as u64,
                        topic: topic as u64,
                        id: id as i32,
                        content: s.subrange(6, p),
                    },
                )
            } else {
                None
            },
            _ => None,
        }
    } else {
        None
    }
}

/// The tasks on the lines, each once, in the order of their first lines.
pub open spec fn todos_on(ls: Seq<Seq<char>>) -> Seq<Task>
    decreases ls.len(),
{
    if ls.len() == 0 {
        Seq::empty()
    } else {
        let before = todos_on(ls.drop_last());
        match todo_on(ls.last()) {
            Some(t) => if before.contains(t) {
                before
            } else {
                before.push(t)
            },
            None => before,
        }
    }
}

/// Where the numbers of a mark start and end.
struct Numbers {
    group: usize,
    group_end: usize,
    topic: usize,
    topic_end: usize,
    message: usize,
    message_end: usize,
}

/// The numbers of the mark behind the date at position `p`, where there are both
/// and nothing behind them.
fn read_tail(s: &[char], p: usize) -> (r: Option<Numbers>)
    requires
        p <= s.len(),
    ensures
        r is Some == todo_tail(s@, p as int),
        match r {
            Some(n) => n.group == group_at(s@, p as int) && n.group_end == run_end(
                s@,
                n.group as int,
            ) && n.topic == topic_at(s@, p as int) && n.topic_end == run_end(s@, n.topic as int)
                && n.message == message_at(s@, p as int) && n.message_end == run_end(
                s@,
                n.message as int,
            ) && n.group < n.group_end && n.topic < n.topic_end && n.message < n.message_end
                <= s.len() && n.group_end < s.len() && n.topic_end < s.len(),
            None => true,
        },
{
    proof {
        reveal_strlit(" (");
        reveal_strlit(") <!-- todo:");
        reveal_strlit(" -->");
    }
    if s.len() - p <= 6 || !str_stands_at(s, p, " (") || s[p + 5] != ' ' {
        return None;
    }
    if !is_ascii_letter(s[p + 2]) || !is_ascii_letter(s[p + 3]) || !is_ascii_letter(s[p + 4]) {
        assert(!ascii_letter(s@[p + 2]) || !ascii_letter(s@[p + 3]) || !ascii_letter(s@[p + 4]));
        return None;
    }
    let d = digits_end(s, p + 6);
    if d == p + 6 || d - (p + 6) > 2 || !str_stands_at(s, d, ") <!-- todo:") {
        return None;
    }
    let group = d + 12;
    let group_end = digits_end(s, group);
    if group_end == group || group_end == s.len() || s[group_end] != ':' {
        return None;
    }
    let topic = group_end + 1;
    let topic_end = digits_end(s, topic);
    if topic_end == topic || topic_end == s.len() || s[topic_end] != ':' {
        return None;
    }
    let message = topic_end + 1;
    let message_end = digits_end(s, message);
    if message_end == message || !str_stands_at(s, message_end, " -->") || s.len() - message_end
        != 4 {
        return None;
    }
    Some(Numbers { group, group_end, topic, topic_end, message, message_end })
}

/// The task on a line.
fn read_todo(line: &[char]) -> (r: Option<TrackedTodo>)
    ensures
        match r {
            Some(t) => todo_on(line@) == Some(t@),
            None => todo_on(line@) is None,
        },
{
    let s = trim(line);
    proof {
        reveal_strlit("- [ ] ");
    }
    if !str_stands_at(s, 0, "- [ ] ") {
        return None;
    }
    let mut p: usize = 7;
    while p < s.len()
        invariant
            7 <= p,
            s@ == trimmed(line@),
            starts(s@, "- [ ] "@),
            "- [ ] "@.len() == 6,
            find_tail(s@, 7) == find_tail(s@, p as int),
        decreases s.len() - p,
    {
        match read_tail(s, p) {
            Some(n) => {
                let group = parse_u64(slice_subrange(s, n.group, n.group_end));
                let topic = parse_u64(slice_subrange(s, n.topic, n.topic_end));
                let message = parse_i32(slice_subrange(s, n.message, n.message_end));
                return match (group, topic, message) {
                    (Some(group_id), Some(topic_id), Some(message_id)) => if message_id != 0 {
                        let content = from_chars(slice_subrange(s, 6, p));
                        Some(TrackedTodo { group_id, topic_id, message_id, content })
                    } else {
                        None
                    },
                    _ => None,
                };
            },
            None => {},
        }
        p += 1;
    }
    None
}

/// Whether two tasks are the same.
fn is_same_todo(a: &TrackedTodo, b: &TrackedTodo) -> (r: bool)
    ensures
        r == (a@ == b@),
{
    a.group_id == b.group_id && a.topic_id == b.topic_id && a.message_id == b.message_id && same(
        to_chars(a.content.as_str()).as_slice(),
        to_chars(b.content.as_str()).as_slice(),
    )
}

/// Whether the task is among the given ones.
fn holds_todo(v: &Vec<TrackedTodo>, t: &TrackedTodo) -> (r: bool)
    ensures
        r == tasks(v@).contains(t@),
{
    let ghost all = tasks(v@);
    let mut i: usize = 0;
    while i < v.len()
        invariant
            i <= v.len(),
            all == tasks(v@),
            forall|j: int| 0 <= j < i ==> all[j] != t@,
        decreases v.len() - i,
    {
        if is_same_todo(&v[i], t) {
            assert(all[i as int] == t@);
            return true;
        }
        i += 1;
    }
    false
}

/// The tasks in the file of open tasks that can be found again, each once.
pub fn parse_todos_file(content: &str) -> (r: Vec<TrackedTodo>)
    ensures
        tasks(r@) == todos_on(lines(content@)),
{
    let ls = split_lines(to_chars(content).as_slice());
    let ghost all = texts(ls@);
    let mut r: Vec<TrackedTodo> = Vec::new();
    let mut i: usize = 0;
    assert(tasks(r@) =~= Seq::empty());
    while i < ls.len()
        invariant
            i <= ls.len(),
            all == texts(ls@),
            tasks(r@) == todos_on(all.take(i as int)),
        decreases ls.len() - i,
    {
        proof {
            assert(all.take(i + 1).drop_last() =~= all.take(i as int));
            assert(all.take(i + 1).last() == ls[i as int]@);
        }
        match read_todo(ls[i].as_slice()) {
            Some(t) => {
                if !holds_todo(&r, &t) {
                    let ghost before = tasks(r@);
                    r.push(t);
                    assert(tasks(r@) =~= before.push(t@));
                }
            },
            None => {},
        }
        i += 1;
    }
    assert(all.take(all.len() as int) =~= all);
    r
}

/// Those of the tasks that are not among the others.
pub open spec fn gone(old_todos: Seq<Task>, new_todos: Seq<Task>) -> Seq<Task>
    decreases old_todos.len(),
{
    if old_todos.len() == 0 {
        Seq::empty()
    } else if new_todos.contains(old_todos.last()) {
        gone(old_todos.drop_last(), new_todos)
    } else {
        gone(old_todos.drop_last(), new_todos).push(old_todos.last())
    }
}

/// The deletions of the messages that hold tasks.
pub open spec fn deletions_of(ts: Seq<Task>) -> Seq<Update> {
    ts.map_values(|t: Task| Update::Delete(t.group, t.topic, t.id))
}

/// The updates for tasks that were taken out of the file: their messages are to be
/// deleted.
pub fn removed_todos(old_todos: &Vec<TrackedTodo>, new_todos: &Vec<TrackedTodo>) -> (r: Vec<
    MessageUpdate,
>)
    ensures
        updates_of(r@) == deletions_of(gone(tasks(old_todos@), tasks(new_todos@))),
{
    let ghost all = tasks(old_todos@);
    let ghost others = tasks(new_todos@);
    let mut r: Vec<MessageUpdate> = Vec::new();
    let mut i: usize = 0;
    assert(updates_of(r@) =~= deletions_of(Seq::empty()));
    while i < old_todos.len()
        invariant
            i <= old_todos.len(),
            all == tasks(old_todos@),
            others == tasks(new_todos@),
            updates_of(r@) == deletions_of(gone(all.take(i as int), others)),
        decreases old_todos.len() - i,
    {
        proof {
            assert(all.take(i + 1).drop_last() =~= all.take(i as int));
            assert(all.take(i + 1).last() == old_todos[i as int]@);
        }
        let t = &old_todos[i];
        if !holds_todo(new_todos, t) {
            let ghost before = updates_of(r@);
            r.push(
                MessageUpdate::Delete {
                    group_id: t.group_id,
                    topic_id: t.topic_id,
                    message_id: t.message_id,
                },
            );
            assert(updates_of(r@) =~= before.push(Update::Delete(t.group_id, t.topic_id, t.message_id)));
            assert(deletions_of(gone(all.take(i as int), others).push(t@)) =~= deletions_of(
                gone(all.take(i as int), others),
            ).push(Update::Delete(t.group_id, t.topic_id, t.message_id)));
        }
        i += 1;
    }
    assert(all.take(all.len() as int) =~= all);
    r
}

/// The number of lines with a mark.
pub open spec fn marked_lines(ls: Seq<Seq<char>>) -> int
    decreases ls.len(),
{
    if ls.len() == 0 {
        0
    } else {
        marked_lines(ls.drop_last()) + (if occurs(ls.last(), "<!-- todo:"@) {
            1int
        } else {
            0
        })
    }
}

/// Counts the lines with a mark.
pub fn count_todo_lines(content: &str) -> (r: usize)
    ensures
        r == marked_lines(lines(content@)),
{
    let ls = split_lines(to_chars(content).as_slice());
    let ghost all = texts(ls@);
    let mut n: usize = 0;
    let mut i: usize = 0;
    while i < ls.len()
        invariant
            i <= ls.len(),
            all == texts(ls@),
            n <= i,
            n == marked_lines(all.take(i as int)),
        decreases ls.len() - i,
    {
        proof {
            assert(all.take(i + 1).drop_last() =~= all.take(i as int));
            assert(all.take(i + 1).last() == ls[i as int]@);
        }
        if contains_str(ls[i].as_slice(), "<!-- todo:") {
            n += 1;
        }
        i += 1;
    }
    assert(all.take(all.len() as int) =~= all);
    n
}

// ---------------------------------------------------------------------------
// Laws
// ---------------------------------------------------------------------------

/// Behind the bracket of its date a date and a mark hold no other.
proof fn lemma_one_bracket(s: Seq<char>, p: int, q: int)
    requires
        0 <= p,
        todo_tail(s, p),
        p + 1 < q < s.len(),
    ensures
        s[q] != '(',
{
    reveal_strlit(" (");
    reveal_strlit(") <!-- todo:");
    reveal_strlit(" -->");
    let d = run_end(s, p + 6);
    let g = group_at(s, p);
    let t = topic_at(s, p);
    let m = message_at(s, p);
    lemma_run(s, p + 6);
    lemma_run(s, g);
    lemma_run(s, t);
    lemma_run(s, m);
    if q < p + 5 {
        assert(ascii_letter(s[q]));
    } else if p + 6 <= q < d {
        assert(digit(s[q]));
    } else if d <= q < g {
        assert(s.subrange(d, d + 12)[q - d] == s[q]);
    } else if g <= q < run_end(s, g) {
        assert(digit(s[q]));
    } else if t <= q < run_end(s, t) {
        assert(digit(s[q]));
    } else if m <= q < run_end(s, m) {
        assert(digit(s[q]));
    } else if run_end(s, m) <= q {
        let e = run_end(s, m);
        assert(s.subrange(e, e + 4)[q - e] == s[q]);
    }
}

proof fn lemma_run(s: Seq<char>, i: int)
    requires
        0 <= i <= s.len(),
    ensures
        i <= run_end(s, i) <= s.len(),
        forall|q: int| i <= q < run_end(s, i) ==> digit(#[trigger] s[q]),
{
    lemma_digit_run(s.skip(i));
    assert forall|q: int| i <= q < run_end(s, i) implies digit(#[trigger] s[q]) by {
        assert(s.skip(i)[q - i] == s[q]);
    }
}

/// Digits with another character behind them are a run.
proof fn lemma_run_is(s: Seq<char>, i: int, d: Seq<char>)
    requires
        0 <= i,
        i + d.len() < s.len(),
        s.subrange(i, i + d.len()) == d,
        all_digits(d),
        !digit(s[i + d.len()]),
    ensures
        run_end(s, i) == i + d.len(),
{
    let t = s.skip(i);
    assert forall|k: int| 0 <= k < d.len() implies digit(#[trigger] t[k]) by {
        assert(s.subrange(i, i + d.len())[k] == t[k]);
        assert(ascii_digit(d[k]));
    }
    lemma_digit_run_is(t, d.len() as int);
}

/// The first tail in a text is the one that is there.
proof fn lemma_first_tail(s: Seq<char>, from: int, p: int)
    requires
        0 <= from <= p,
        todo_tail(s, p),
    ensures
        find_tail(s, from) == p,
    decreases p - from,
{
    reveal_strlit(" (");
    if from < p {
        assert(s.subrange(p, p + 2)[1] == s[p + 1]);
        if todo_tail(s, from) {
            lemma_one_bracket(s, from, p + 1);
        }
        lemma_first_tail(s, from + 1, p);
    }
}

/// A task with a date and the id of its message is read back from its line as it
/// was written. One whose message is not known, which has the number zero, is not.
pub proof fn law_todo_reads_back(t: TodoItem)
    requires
        t.content@.len() > 0,
        t.date is Some,
        t.date->0.valid(),
        t.message_id is Some ==> t.message_id->0 >= 0,
    ensures
        t.message_id is Some && t.message_id->0 > 0 ==> todo_on(todo_line(t)) == Some(
            (Task {
                group: t.group_id,
                topic: t.topic_id,
                id: t.message_id->0,
                content: t.content@,
            }),
        ),
        t.message_id is None || t.message_id->0 == 0 ==> todo_on(todo_line(t)) is None,
{
    reveal_strlit("- [ ] ");
    reveal_strlit(" (");
    reveal_strlit(")");
    reveal_strlit(" <!-- todo:");
    reveal_strlit(") <!-- todo:");
    reveal_strlit(":");
    reveal_strlit(" -->");
    let d = t.date->0;
    let id = match t.message_id {
        Some(id) => id as int,
        None => 0,
    };
    let s = todo_line(t);
    let p = 6 + t.content@.len() as int;
    law_month_names(d.month as int);
    lemma_decimal_len(d.day as int);
    lemma_padded(d.day as int, 2);
    lemma_decimal(t.group_id as int);
    lemma_decimal(t.topic_id as int);
    lemma_decimal(id);
    let name = month_text(d.month as int);
    let day = padded(d.day as int, 2);
    let gs = decimal(t.group_id as int);
    let ts = decimal(t.topic_id as int);
    let ms = decimal(id);
    let g = p + 8 + 12;
    let tt = g + gs.len() as int + 1;
    let m = tt + ts.len() as int + 1;
    assert(s.len() == m + ms.len() + 4);
    assert(s.subrange(p, p + 2) =~= " ("@);
    assert(s.subrange(p + 2, p + 5) =~= name);
    assert(s[p + 5] == ' ');
    assert(s.subrange(p + 6, p + 8) =~= day);
    assert(s.subrange(p + 8, g) =~= ") <!-- todo:"@);
    assert(s.subrange(g, g + gs.len()) =~= gs);
    assert(s[g + gs.len()] == ':');
    assert(s.subrange(tt, tt + ts.len()) =~= ts);
    assert(s[tt + ts.len()] == ':');
    assert(s.subrange(m, m + ms.len()) =~= ms);
    assert(s.subrange(m + ms.len(), m + ms.len() + 4) =~= " -->"@);
    assert(s[p + 8] == s.subrange(p + 8, g)[0]);
    assert(s[m + ms.len()] == s.subrange(m + ms.len(), m + ms.len() + 4)[0]);
    lemma_run_is(s, p + 6, day);
    lemma_run_is(s, g, gs);
    lemma_run_is(s, tt, ts);
    lemma_run_is(s, m, ms);
    assert forall|i: int| p + 2 <= i < p + 5 implies ascii_letter(#[trigger] s[i]) by {
        assert(s.subrange(p + 2, p + 5)[i - p - 2] == s[i]);
    }
    assert(todo_tail(s, p));
    assert(s[0] == '-' && s.last() == '>');
    lemma_trimmed_same(s);
    lemma_first_tail(s, 7, p);
    assert(s.subrange(0, 6) =~= "- [ ] "@);
    assert(s.subrange(6, p) =~= t.content@);
    lemma_unsigned_round_trip(t.group_id as int, u64::MAX as int);
    lemma_unsigned_round_trip(t.topic_id as int, u64::MAX as int);
    lemma_signed_round_trip(id, i32::MIN as int, i32::MAX as int);
}

/// A file of tasks that was left as it is asks for no deletions.
pub proof fn law_no_todo_is_gone(ts: Seq<Task>)
    ensures
        gone(ts, ts) == Seq::<Task>::empty(),
{
    lemma_none_gone(ts, ts);
}

proof fn lemma_none_gone(ts: Seq<Task>, all: Seq<Task>)
    requires
        forall|i: int| 0 <= i < ts.len() ==> all.contains(#[trigger] ts[i]),
    ensures
        gone(ts, all) == Seq::<Task>::empty(),
    decreases ts.len(),
{
    if ts.len() > 0 {
        let front = ts.drop_last();
        assert forall|i: int| 0 <= i < front.len() implies all.contains(#[trigger] front[i]) by {
            assert(ts[i] == front[i]);
        }
        assert(all.contains(ts[ts.len() - 1]));
        lemma_none_gone(front, all);
    }
}

/// No task comes before one that it has to come behind.
pub open spec fn todos_in_order(v: Seq<TodoItem>) -> bool {
    forall|i: int, j: int|
        0 <= i < j < v.len() ==> !todo_before(#[trigger] v[j], #[trigger] v[i])
}

pub proof fn lemma_todo_order(a: TodoItem, b: TodoItem, c: TodoItem)
    ensures
        !todo_before(a, a),
        todo_before(a, b) ==> !todo_before(b, a),
        !todo_before(b, a) && !todo_before(c, b) ==> !todo_before(c, a),
{
    lemma_text_before(a.source@, b.source@);
    if !text_before(b.source@, a.source@) && !text_before(c.source@, b.source@) {
        lemma_text_order(a.source@, b.source@, c.source@);
    }
}

proof fn lemma_put_todo(v: Seq<TodoItem>, t: TodoItem)
    requires
        todos_in_order(v),
    ensures
        todos_in_order(put_todo(v, t)),
        put_todo(v, t).to_multiset() == v.to_multiset().insert(t),
        put_todo(v, t).len() == v.len() + 1,
    decreases v.len(),
{
    if v.len() > 0 && todo_before(t, v.last()) {
        let front = v.drop_last();
        let last = v.last();
        assert forall|i: int, j: int| 0 <= i < j < front.len() implies !todo_before(
            #[trigger] front[j],
            #[trigger] front[i],
        ) by {
            assert(v[i] == front[i] && v[j] == front[j]);
        }
        lemma_put_todo(front, t);
        let r = put_todo(front, t);
        assert(v =~= front.push(last));
        front.to_multiset_ensures();
        r.to_multiset_ensures();
        assert(front.to_multiset().insert(t).insert(last) =~= front.to_multiset().insert(
            last,
        ).insert(t));
        assert forall|i: int| 0 <= i < r.len() implies !todo_before(last, #[trigger] r[i]) by {
            assert(r.contains(r[i]));
            assert(r.to_multiset().count(r[i]) > 0);
            if r[i] == t {
                lemma_todo_order(t, last, last);
            } else {
                assert(front.to_multiset().count(r[i]) > 0);
                assert(front.contains(r[i]));
                let k = choose|k: int| 0 <= k < front.len() && front[k] == r[i];
                assert(v[k] == r[i] && v[v.len() - 1] == last);
            }
        }
    } else {
        v.to_multiset_ensures();
        assert forall|i: int| 0 <= i < v.len() implies !todo_before(t, #[trigger] v[i]) by {
            let last = v.last();
            assert(v[v.len() - 1] == last);
            if i < v.len() - 1 {
                lemma_todo_order(v[i], last, t);
            }
        }
    }
}

/// The tasks in order are all the tasks: those without dates first, then the
/// youngest first, and those of one date by their files.
pub proof fn law_todos_in_order(v: Seq<TodoItem>)
    ensures
        todos_in_order(sorted_todos(v)),
        sorted_todos(v).to_multiset() == v.to_multiset(),
    decreases v.len(),
{
    if v.len() > 0 {
        law_todos_in_order(v.drop_last());
        lemma_put_todo(sorted_todos(v.drop_last()), v.last());
        assert(v =~= v.drop_last().push(v.last()));
        v.drop_last().to_multiset_ensures();
    }
}

/// A message is an open task wherever in it `TODO:` stands, unless it is dated before
/// the cutoff. No other message is.
pub proof fn law_tasks_are_the_messages_with_todo(
    ls: Seq<Seq<char>>,
    id: i32,
    today: Date,
    cutoff: Date,
    a: Seq<char>,
    b: Seq<char>,
)
    requires
        messages_on(ls).contains_key(id),
    ensures
        ({
            let dates = message_dates(ls, today.year, today);
            let content = messages_on(ls)[id].content;
            let late = dates.contains_key(id) ==> !before(dates[id], cutoff);
            &&& content == a + "TODO:"@ + b && late ==> is_open_task(ls, id, today, cutoff)
            &&& is_open_task(ls, id, today, cutoff) ==> late && exists|i: int|
                0 <= i <= content.len() - 5 && #[trigger] content.subrange(i, i + 5) == seq![
                    'T',
                    'O',
                    'D',
                    'O',
                    ':',
                ]
        }),
{
    reveal_strlit("TODO:");
    assert("TODO:"@ =~= seq!['T', 'O', 'D', 'O', ':']);
    let content = messages_on(ls)[id].content;
    if content == a + "TODO:"@ + b {
        let i = a.len() as int;
        assert(content.subrange(i, i + 5) =~= "TODO:"@);
        assert(occurs_at(content, i, "TODO:"@));
    }
    if is_open_task(ls, id, today, cutoff) {
        let i = choose|i: int| occurs_at(content, i, "TODO:"@);
        assert(content.subrange(i, i + 5) == "TODO:"@);
    }
}

} // verus!
