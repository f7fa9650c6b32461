//! What becomes of tasks.
use vstd::prelude::*;

use crate::calendar::{
    Date, MAX_SPAN, before, law_before_is_earlier, lemma_number_in_range, month_text,
};
use crate::config::Timeframe;
use crate::decimal::{decimal, numeral, padded};
use crate::last::message_dates;
use crate::sync::{Update, growing, lemma_push_contains, messages_on};
use crate::text::{lines, occurs, occurs_at, text_before, trimmed};
use crate::todos::{
    Task, TodoItem, TopicFile, all_parts, deletions_of, find_tail, gone, is_aggregate, is_cutoff,
    is_open_task, is_task_of, law_todos_in_order, lemma_todo_order, marked_lines, message_at,
    parts_of, put_todo, run_end, sorted_todos, task_ids, tasks_of, todo_before, todo_file,
    todo_line, todo_listing, todo_mark, todo_on, todo_tail, todos_on,
};

verus! {

// ---------------------------------------------------------------------------
// Gathering
// ---------------------------------------------------------------------------

/// The tasks of a file are its messages with `TODO:` that are not dated before the
/// cutoff, each once, with all that the file says of them.
pub proof fn law_tasks_of_a_file(
    v: Seq<TodoItem>,
    file: TopicFile,
    today: Date,
    cutoff: Date,
    id: i32,
)
    requires
        tasks_of(v, file, today, cutoff),
    ensures
        ({
            let ls = lines(file.content@);
            let ms = messages_on(ls);
            let dates = message_dates(ls, today.year, today);
            &&& (exists|i: int| 0 <= i < v.len() && (#[trigger] v[i]).message_id == Some(id)) <==> (
            ms.contains_key(id) && occurs(ms[id].content, "TODO:"@) && (dates.contains_key(id)
                ==> !before(dates[id], cutoff)))
            &&& forall|i: int|
                0 <= i < v.len() && (#[trigger] v[i]).message_id == Some(id) ==> v[i].content@
                    == ms[id].content && v[i].source@ == file.source@ && v[i].group_id
                    == file.group_id && v[i].topic_id == file.topic_id && v[i].date == (
                if dates.contains_key(id) {
                    Some(dates[id])
                } else {
                    None
                })
            &&& forall|i: int, j: int|
                0 <= i < j < v.len() ==> (#[trigger] v[i]).message_id != (#[trigger] v[j]).message_id
        }),
{
    let ids = task_ids(v);
    assert(ids.contains(id) <==> is_open_task(lines(file.content@), id, today, cutoff));
    assert forall|i: int| 0 <= i < v.len() implies (#[trigger] v[i]).message_id == Some(ids[i]) by {
        assert(is_task_of(v[i], file, today));
    }
    if ids.contains(id) {
        let i = choose|i: int| 0 <= i < ids.len() && ids[i] == id;
        assert(v[i].message_id == Some(id));
    }
    if exists|i: int| 0 <= i < v.len() && (#[trigger] v[i]).message_id == Some(id) {
        let i = choose|i: int| 0 <= i < v.len() && (#[trigger] v[i]).message_id == Some(id);
        assert(ids[i] == id);
    }
    assert forall|i: int, j: int| 0 <= i < j < v.len() implies (#[trigger] v[i]).message_id != (
    #[trigger] v[j]).message_id by {
        assert(ids[i] < ids[j]);
    }
    assert forall|i: int| 0 <= i < v.len() && (#[trigger] v[i]).message_id == Some(id) implies v[i].content@
        == messages_on(lines(file.content@))[id].content && v[i].source@ == file.source@
        && v[i].group_id == file.group_id && v[i].topic_id == file.topic_id && v[i].date == (
    if message_dates(lines(file.content@), today.year, today).contains_key(id) {
        Some(message_dates(lines(file.content@), today.year, today)[id])
    } else {
        None
    }) by {
        assert(is_task_of(v[i], file, today));
    }
}

/// The tasks of files come one file after the other, and none is lost.
pub proof fn law_tasks_of_all_files(parts: Seq<Seq<TodoItem>>, part: Seq<TodoItem>)
    ensures
        all_parts(Seq::empty()) == Seq::<TodoItem>::empty(),
        all_parts(parts.push(part)) == all_parts(parts) + part,
        forall|i: int, k: int|
            0 <= i < parts.len() && 0 <= k < parts[i].len() ==> all_parts(parts).contains(
                #[trigger] parts[i][k],
            ),
{
    assert(parts.push(part).drop_last() =~= parts);
    lemma_parts_hold(parts);
}

proof fn lemma_parts_hold(parts: Seq<Seq<TodoItem>>)
    ensures
        forall|i: int, k: int|
            0 <= i < parts.len() && 0 <= k < parts[i].len() ==> all_parts(parts).contains(
                #[trigger] parts[i][k],
            ),
    decreases parts.len(),
{
    if parts.len() > 0 {
        let front = parts.drop_last();
        lemma_parts_hold(front);
        assert forall|i: int, k: int|
            0 <= i < parts.len() && 0 <= k < parts[i].len() implies all_parts(parts).contains(
            #[trigger] parts[i][k],
        ) by {
            if i < front.len() {
                assert(parts[i] == front[i]);
                assert(all_parts(front).contains(front[i][k]));
                let x = choose|x: int| 0 <= x < all_parts(front).len() && all_parts(front)[x]
                    == front[i][k];
                assert(all_parts(parts)[x] == parts[i][k]);
            } else {
                assert(all_parts(parts)[all_parts(front).len() + k] == parts[i][k]);
            }
        }
    }
}

/// Tasks count from a date on that lies as many whole days back as the span has, where
/// the span is no longer than ten thousand years and there is such a date.
pub proof fn law_tasks_reach_back(from: Date, today: Date, over: Timeframe)
    requires
        today.valid(),
        is_cutoff(from, today, over),
        over.seconds <= 86400 * 3_650_000,
        today.number() - over.seconds / 86400 >= -4371587,
    ensures
        from.valid(),
        from.number() == today.number() - over.seconds / 86400,
{
    lemma_number_in_range(today);
}

// ---------------------------------------------------------------------------
// Order
// ---------------------------------------------------------------------------

/// Tasks without a date come first, then those of later days before those of earlier
/// ones. Those of one day, and those without, come by the names of their files.
pub proof fn law_order_of_tasks(a: TodoItem, b: TodoItem)
    requires
        a.date is Some ==> a.date->0.valid(),
        b.date is Some ==> b.date->0.valid(),
    ensures
        a.date is None && b.date is Some ==> todo_before(a, b) && !todo_before(b, a),
        a.date is Some && b.date is Some && a.date->0.number() > b.date->0.number() ==> todo_before(
            a,
            b,
        ) && !todo_before(b, a),
        a.date == b.date ==> todo_before(a, b) == text_before(a.source@, b.source@),
{
    if a.date is Some && b.date is Some {
        law_before_is_earlier(a.date->0, b.date->0);
        law_before_is_earlier(b.date->0, a.date->0);
        law_before_is_earlier(a.date->0, a.date->0);
    }
}

/// Texts are compared by their first difference, and a text comes before what it starts.
pub proof fn law_texts_are_compared(p: Seq<char>, a: char, x: Seq<char>, b: char, y: Seq<char>)
    ensures
        a < b ==> text_before(p + seq![a] + x, p + seq![b] + y),
        text_before(p, p + seq![a] + x),
        !text_before(p + seq![a] + x, p),
    decreases p.len(),
{
    let s = p + seq![a] + x;
    let t = p + seq![b] + y;
    if p.len() > 0 {
        let q = p.skip(1);
        law_texts_are_compared(q, a, x, b, y);
        assert(s.skip(1) =~= q + seq![a] + x);
        assert(t.skip(1) =~= q + seq![b] + y);
        assert(s[0] == p[0] && t[0] == p[0]);
    } else {
        assert(s[0] == a && t[0] == b);
    }
}

proof fn lemma_put_class(v: Seq<TodoItem>, t: TodoItem, x: TodoItem)
    ensures
        put_todo(v, t).filter(|y: TodoItem| !todo_before(y, x) && !todo_before(x, y)) == (
        if !todo_before(t, x) && !todo_before(x, t) {
            v.filter(|y: TodoItem| !todo_before(y, x) && !todo_before(x, y)).push(t)
        } else {
            v.filter(|y: TodoItem| !todo_before(y, x) && !todo_before(x, y))
        }),
    decreases v.len(),
{
    reveal(Seq::filter);
    let f = |y: TodoItem| !todo_before(y, x) && !todo_before(x, y);
    if v.len() > 0 && todo_before(t, v.last()) {
        let l = v.last();
        lemma_put_class(v.drop_last(), t, x);
        assert(put_todo(v, t).drop_last() =~= put_todo(v.drop_last(), t));
        if f(t) && f(l) {
            lemma_todo_order(l, x, t);
        }
    } else {
        assert(v.push(t).drop_last() =~= v);
    }
}

/// Tasks that come in no order keep the order that they had.
pub proof fn law_tasks_are_sorted_stably(v: Seq<TodoItem>, x: TodoItem)
    ensures
        sorted_todos(v).filter(|y: TodoItem| !todo_before(y, x) && !todo_before(x, y)) == v.filter(
            |y: TodoItem| !todo_before(y, x) && !todo_before(x, y),
        ),
    decreases v.len(),
{
    reveal(Seq::filter);
    if v.len() > 0 {
        law_tasks_are_sorted_stably(v.drop_last(), x);
        lemma_put_class(sorted_todos(v.drop_last()), v.last(), x);
    }
}

// ---------------------------------------------------------------------------
// Writing
// ---------------------------------------------------------------------------

/// A task on its line: a box, its content, its day where it has one, and its mark.
pub proof fn law_task_lines(t: TodoItem)
    requires
        t.message_id is Some,
    ensures
        ({
            let mark = " <!-- todo:"@ + decimal(t.group_id as int) + ":"@ + decimal(
                t.topic_id as int,
            ) + ":"@ + numeral(t.message_id->0 as int) + " -->"@;
            &&& t.date is None ==> todo_line(t) == "- [ ] "@ + t.content@ + mark
            &&& t.date matches Some(d) ==> todo_line(t) == "- [ ] "@ + t.content@ + " ("@
                + month_text(d.month as int) + " "@ + padded(d.day as int, 2) + ")"@ + mark
        }),
{
    reveal_strlit(" ");
    assert(" "@ =~= seq![' ']);
    let mark = todo_mark(t.group_id, t.topic_id, t.message_id->0 as int);
    match t.date {
        None => {
            assert(todo_line(t) =~= "- [ ] "@ + t.content@ + mark);
        },
        Some(d) => {
            assert(todo_line(t) =~= "- [ ] "@ + t.content@ + " ("@ + month_text(d.month as int)
                + " "@ + padded(d.day as int, 2) + ")"@ + mark);
        },
    }
}

/// Tasks are listed one below the other. Where the file changes, its name stands above,
/// behind a blank line unless it comes first.
pub proof fn law_task_listing(v: Seq<TodoItem>, t: TodoItem)
    ensures
        todo_listing(Seq::empty()) == Seq::<char>::empty(),
        v.len() == 0 ==> todo_listing(v.push(t)) == "## "@ + t.source@ + "\n"@ + todo_line(t)
            + "\n"@,
        v.len() > 0 && v.last().source@ == t.source@ ==> todo_listing(v.push(t)) == todo_listing(v)
            + todo_line(t) + "\n"@,
        v.len() > 0 && v.last().source@ != t.source@ ==> todo_listing(v.push(t)) == todo_listing(v)
            + "\n## "@ + t.source@ + "\n"@ + todo_line(t) + "\n"@,
{
    reveal_strlit("\n## ");
    reveal_strlit("## ");
    reveal_strlit("\n");
    let all = v.push(t);
    assert(all.drop_last() =~= v);
    let line = todo_line(t);
    if v.len() == 0 {
        assert(todo_listing(v) =~= Seq::empty());
        assert(todo_listing(all) =~= "## "@ + t.source@ + "\n"@ + line + "\n"@);
    } else if v.last().source@ == t.source@ {
        assert(all[v.len() - 1] == v.last());
        assert(todo_listing(all) =~= todo_listing(v) + line + "\n"@);
    } else {
        assert(all[v.len() - 1] == v.last());
        assert(todo_listing(all) =~= todo_listing(v) + "\n## "@ + t.source@ + "\n"@ + line + "\n"@);
    }
}

/// The file of tasks says how far back it looks, and then lists the tasks, or says that
/// there are none.
pub proof fn law_task_files(v: Seq<TodoItem>, over: Seq<char>)
    ensures
        v.len() == 0 ==> todo_file(v, over)
            == "# TODOs\n*Auto-aggregated from group messages (last "@ + over
            + ").*\n\nNo TODOs found.\n"@,
        v.len() > 0 ==> todo_file(v, over)
            == "# TODOs\n*Auto-aggregated from group messages (last "@ + over + ").*\n\n"@
            + todo_listing(v),
{
    reveal_strlit("# TODOs\n");
    reveal_strlit("*Auto-aggregated from group messages (last ");
    reveal_strlit("# TODOs\n*Auto-aggregated from group messages (last ");
    reveal_strlit(").*\n\n");
    reveal_strlit("No TODOs found.\n");
    reveal_strlit(").*\n\nNo TODOs found.\n");
    assert("# TODOs\n*Auto-aggregated from group messages (last "@ =~= "# TODOs\n"@
        + "*Auto-aggregated from group messages (last "@);
    assert(").*\n\nNo TODOs found.\n"@ =~= ").*\n\n"@ + "No TODOs found.\n"@);
    let head = "# TODOs\n"@ + "*Auto-aggregated from group messages (last "@;
    if v.len() == 0 {
        assert(todo_file(v, over) =~= head + over + (").*\n\n"@ + "No TODOs found.\n"@));
    }
}

proof fn lemma_listing_holds(v: Seq<TodoItem>, i: int) -> (at: int)
    requires
        0 <= i < v.len(),
    ensures
        occurs_at(todo_listing(v), at, todo_line(v[i])),
    decreases v.len(),
{
    let t = v.last();
    let front = v.drop_last();
    assert(v =~= front.push(t));
    law_task_listing(front, t);
    let s = todo_listing(v);
    let line = todo_line(v[i]);
    if i < front.len() {
        let at = lemma_listing_holds(front, i);
        assert(front[i] == v[i]);
        let b = todo_listing(front);
        assert(s.take(b.len() as int) =~= b);
        assert(s.subrange(at, at + line.len()) =~= b.subrange(at, at + line.len()));
        at
    } else {
        reveal_strlit("\n");
        let at = s.len() - 1 - line.len();
        assert(s.subrange(at, at + line.len()) =~= line);
        at
    }
}

/// Every open task of every file is in the file of tasks, on the line that its message
/// makes.
pub proof fn law_every_task_is_listed(
    text: Seq<char>,
    count: int,
    files: Seq<TopicFile>,
    today: Date,
    from: Date,
    label: Seq<char>,
    f: int,
    id: i32,
)
    requires
        is_aggregate(text, count, files, today, from, label),
        0 <= f < files.len(),
        is_open_task(lines(files[f].content@), id, today, from),
    ensures
        count > 0,
        exists|t: TodoItem|
            #![trigger todo_line(t)]
            t.message_id == Some(id) && t.group_id == files[f].group_id && t.topic_id
                == files[f].topic_id && t.content@ == messages_on(
                lines(files[f].content@),
            )[id].content && occurs(text, todo_line(t)),
{
    let parts = choose|parts: Seq<Seq<TodoItem>>| #[trigger]
        parts_of(parts, files, today, from) && count == all_parts(parts).len() && text == todo_file(
            sorted_todos(all_parts(parts)),
            label,
        );
    let part = parts[f];
    assert(tasks_of(part, files[f], today, from));
    law_tasks_of_a_file(part, files[f], today, from, id);
    assert(task_ids(part).contains(id));
    let k = choose|k: int| 0 <= k < task_ids(part).len() && task_ids(part)[k] == id;
    let t = part[k];
    assert(is_task_of(part[k], files[f], today));
    assert(t.message_id == Some(id));
    let all = all_parts(parts);
    lemma_parts_hold(parts);
    assert(parts[f][k] == t);
    assert(all.contains(t));
    let s = sorted_todos(all);
    law_todos_in_order(all);
    all.to_multiset_ensures();
    s.to_multiset_ensures();
    assert(all.to_multiset().count(t) > 0);
    assert(s.contains(t));
    let i = choose|i: int| 0 <= i < s.len() && s[i] == t;
    let at = lemma_listing_holds(s, i);
    let line = todo_line(t);
    let list = todo_listing(s);
    let head = text.len() - list.len();
    assert(s.len() > 0);
    assert(text.skip(head) =~= list);
    assert(text.subrange(head + at, head + at + line.len()) =~= list.subrange(
        at,
        at + line.len(),
    ));
    assert(occurs_at(text, head + at, line));
}

// ---------------------------------------------------------------------------
// Reading, and following deletions
// ---------------------------------------------------------------------------

/// The tasks of a file of tasks are those on its lines, each once.
pub proof fn law_tasks_are_read(ls: Seq<Seq<char>>, t: Task)
    ensures
        todos_on(ls).contains(t) <==> exists|i: int|
            0 <= i < ls.len() && todo_on(#[trigger] ls[i]) == Some(t),
        todos_on(ls).no_duplicates(),
    decreases ls.len(),
{
    if ls.len() > 0 {
        let front = ls.drop_last();
        law_tasks_are_read(front, t);
        let before = todos_on(front);
        match todo_on(ls.last()) {
            Some(x) => {
                law_tasks_are_read(front, x);
                lemma_push_contains(before, x, t);
            },
            None => {},
        }
        if todos_on(ls).contains(t) {
            if before.contains(t) {
                let i = choose|i: int| 0 <= i < front.len() && todo_on(#[trigger] front[i]) == Some(
                    t,
                );
                assert(ls[i] == front[i]);
            } else {
                assert(todo_on(ls[ls.len() - 1]) == Some(t));
            }
        }
        if exists|i: int| 0 <= i < ls.len() && todo_on(#[trigger] ls[i]) == Some(t) {
            let i = choose|i: int| 0 <= i < ls.len() && todo_on(#[trigger] ls[i]) == Some(t);
            if i < front.len() {
                assert(front[i] == ls[i]);
            }
        }
    }
}

/// The tasks that were taken out of a file of tasks are those of the old file that the
/// new one lacks, in their order, and each deletes its message.
pub proof fn law_removed_tasks(old_todos: Seq<Task>, new_todos: Seq<Task>)
    ensures
        gone(old_todos, new_todos) == old_todos.filter(|t: Task| !new_todos.contains(t)),
        forall|i: int|
            0 <= i < gone(old_todos, new_todos).len() ==> #[trigger] deletions_of(
                gone(old_todos, new_todos),
            )[i] == Update::Delete(
                gone(old_todos, new_todos)[i].group,
                gone(old_todos, new_todos)[i].topic,
                gone(old_todos, new_todos)[i].id,
            ),
        deletions_of(gone(old_todos, new_todos)).len() == gone(old_todos, new_todos).len(),
    decreases old_todos.len(),
{
    reveal(Seq::filter);
    if old_todos.len() > 0 {
        law_removed_tasks(old_todos.drop_last(), new_todos);
    }
}

/// The lines that are counted are those that hold the start of a mark.
pub proof fn law_marked_lines_are_counted(ls: Seq<Seq<char>>)
    ensures
        marked_lines(ls) == ls.filter(|line: Seq<char>| occurs(line, "<!-- todo:"@)).len(),
    decreases ls.len(),
{
    reveal(Seq::filter);
    if ls.len() > 0 {
        law_marked_lines_are_counted(ls.drop_last());
    }
}

/// A span that is too long counts as a week.
pub proof fn law_long_spans_are_a_week(from: Date, today: Date, over: Timeframe)
    requires
        today.valid(),
        is_cutoff(from, today, over),
        over.seconds > MAX_SPAN,
        today.number() - 7 >= -4371587,
    ensures
        from.valid(),
        from.number() == today.number() - 7,
{
    lemma_number_in_range(today);
}

proof fn lemma_growing_set(a: Seq<i32>)
    requires
        growing(a),
    ensures
        a.no_duplicates(),
        a.to_set().len() == a.len(),
{
    a.unique_seq_to_set();
}

/// The tasks of a file are counted, each once.
pub proof fn law_tasks_are_counted(
    text: Seq<char>,
    count: int,
    file: TopicFile,
    today: Date,
    from: Date,
    label: Seq<char>,
    v: Seq<TodoItem>,
)
    requires
        is_aggregate(text, count, seq![file], today, from, label),
        tasks_of(v, file, today, from),
    ensures
        count == v.len(),
{
    let files = seq![file];
    let parts = choose|parts: Seq<Seq<TodoItem>>| #[trigger]
        parts_of(parts, files, today, from) && count == all_parts(parts).len() && text == todo_file(
            sorted_todos(all_parts(parts)),
            label,
        );
    let w = parts[0];
    assert(tasks_of(parts[0], files[0], today, from));
    assert(parts.drop_last() =~= Seq::empty());
    assert(all_parts(parts.drop_last()) =~= Seq::empty());
    assert(all_parts(parts) =~= w);
    let a = task_ids(v);
    let b = task_ids(w);
    lemma_growing_set(a);
    lemma_growing_set(b);
    assert forall|id: i32| a.to_set().contains(id) <==> b.to_set().contains(id) by {
        assert(a.contains(id) <==> is_open_task(lines(file.content@), id, today, from));
        assert(b.contains(id) <==> is_open_task(lines(file.content@), id, today, from));
    }
    assert(a.to_set() =~= b.to_set());
}

/// The tasks of several files are counted together.
pub proof fn law_counts_add_up(a: Seq<Seq<TodoItem>>, b: Seq<Seq<TodoItem>>)
    ensures
        all_parts(a + b) == all_parts(a) + all_parts(b),
    decreases b.len(),
{
    if b.len() == 0 {
        assert(a + b =~= a);
        assert(all_parts(a) + all_parts(b) =~= all_parts(a));
    } else {
        law_counts_add_up(a, b.drop_last());
        assert((a + b).drop_last() =~= a + b.drop_last());
        assert((a + b).last() == b.last());
        assert(all_parts(a + b) =~= all_parts(a) + all_parts(b));
    }
}

/// What is read as a task is a line with an empty box in front and a whole mark at the
/// end, and its content stands between them.
pub proof fn law_what_tasks_are(line: Seq<char>)
    requires
        todo_on(line) is Some,
    ensures
        ({
            let s = trimmed(line);
            let t = todo_on(line)->0;
            &&& s.take(6) == "- [ ] "@
            &&& s.skip(s.len() - 4) == " -->"@
            &&& 0 < t.content.len() <= s.len() - 10
            &&& s.subrange(6, 6 + t.content.len() as int) == t.content
            &&& s.subrange(6 + t.content.len() as int, 8 + t.content.len() as int) == " ("@
            &&& t.id != 0
        }),
{
    reveal_strlit("- [ ] ");
    reveal_strlit(" -->");
    reveal_strlit(" (");
    let s = trimmed(line);
    let p = find_tail(s, 7);
    lemma_find_tail(s, 7);
    assert(s.subrange(0, 6) =~= s.take(6));
    let m = message_at(s, p);
    let e = run_end(s, m);
    assert(s.subrange(e, e + 4) =~= s.skip(s.len() - 4));
    let c = s.subrange(6, p);
    assert(c.len() == p - 6);
}

proof fn lemma_find_tail(s: Seq<char>, p: int)
    ensures
        p <= find_tail(s, p),
        find_tail(s, p) < s.len() ==> todo_tail(s, find_tail(s, p)),
    decreases s.len() - p,
{
    if p < s.len() && !todo_tail(s, p) {
        lemma_find_tail(s, p + 1);
    }
}

} // verus!
