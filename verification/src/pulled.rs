//! What a pull makes of a topic file.
use vstd::prelude::*;

use crate::cleanup::{cleaned_up, cleanup_tagless_messages, law_cleanup_keeps_tags};
use crate::fetch::{Fetched, FetchedMessage, fetched};
use crate::header::{backfill_file_date_headers, backfilled, has_undated};
use crate::merge::{
    content_of, ids_brought, law_made_ready_keeps_ids, law_merging_appends_ids,
    lemma_backfilled_ids, made_ready, merge_messages, merged, sendable,
};
use crate::pull::law_max_id;
use crate::tag::{increasing, max_id, tag_ids};
use crate::text::{from_chars, lines, to_chars};

verus! {

/// The file with years in its headers, where any lacks one.
pub open spec fn with_years(content: Seq<char>, current: int) -> Seq<char> {
    if has_undated(lines(content)) {
        backfilled(content, current)
    } else {
        content
    }
}

/// The file after a pull that brought these messages: its headers get years, new
/// messages are merged, and then it is cleaned up.
pub open spec fn after_pull(content: Seq<char>, ms: Seq<Fetched>, current: int) -> Seq<char> {
    let dated = with_years(content, current);
    cleaned_up(
        if ms.len() > 0 {
            merged(dated, ms, current)
        } else {
            dated
        },
    )
}

/// The file with years in its headers, where any lacks one.
fn fill_years(content: &str, current: i16) -> (r: String)
    ensures
        r@ == with_years(content@, current as int),
{
    match backfill_file_date_headers(content, current) {
        Some(new) => new,
        None => from_chars(to_chars(content).as_slice()),
    }
}

/// The file once it is cleaned up.
fn clean_up(content: String) -> (r: String)
    ensures
        r@ == cleaned_up(content@),
{
    match cleanup_tagless_messages(content.as_str()) {
        Some(new) => new,
        None => content,
    }
}

/// The file after a pull that brought these messages. `current` is the current
/// year.
pub fn pull_into_file(content: &str, messages: &Vec<FetchedMessage>, current: i16) -> (r: String)
    ensures
        r@ == after_pull(content@, fetched(messages@), current as int),
{
    let dated = fill_years(content, current);
    if messages.len() > 0 {
        clean_up(merge_messages(dated.as_str(), messages, current))
    } else {
        clean_up(dated)
    }
}

/// Filling in years and cleaning up change no tags.
proof fn lemma_kept_ids(content: Seq<char>, current: int)
    ensures
        tag_ids(with_years(content, current)) == tag_ids(content),
        tag_ids(cleaned_up(content)) == tag_ids(content),
{
    lemma_backfilled_ids(content, current);
    law_cleanup_keeps_tags(content);
}

/// A pull that brings nothing changes no tags.
pub proof fn law_empty_pull_keeps_ids(content: Seq<char>, current: int)
    ensures
        tag_ids(after_pull(content, Seq::empty(), current)) == tag_ids(content),
{
    lemma_kept_ids(content, current);
    lemma_kept_ids(with_years(content, current), current);
}

/// A pull puts the ids of the messages that it brings, in order, behind those of
/// the file, which stay as they are where they grow.
pub proof fn law_pull_appends_ids(content: Seq<char>, ms: Seq<Fetched>, current: int)
    requires
        increasing(tag_ids(content)),
        forall|i: int| 0 <= i < ms.len() ==> sendable(#[trigger] ms[i]),
    ensures
        tag_ids(after_pull(content, ms, current)) == tag_ids(content) + ids_brought(ms),
{
    let dated = with_years(content, current);
    lemma_kept_ids(content, current);
    if ms.len() > 0 {
        law_merging_appends_ids(dated, ms, current);
        law_made_ready_keeps_ids(dated, current);
        lemma_kept_ids(merged(dated, ms, current), current);
    } else {
        lemma_kept_ids(dated, current);
        assert(tag_ids(content) + Seq::<int>::empty() =~= tag_ids(content));
    }
}

/// No message that a pull brought is asked for again: its id is not above the
/// largest one in the file.
pub proof fn law_pulled_messages_are_not_asked_for(
    content: Seq<char>,
    ms: Seq<Fetched>,
    current: int,
    i: int,
)
    requires
        forall|i: int| 0 <= i < ms.len() ==> sendable(#[trigger] ms[i]),
        0 <= i < ms.len(),
        content_of(ms[i]) is Some,
    ensures
        ms[i].id <= max_id(tag_ids(after_pull(content, ms, current))),
{
    let dated = with_years(content, current);
    let new = merged(dated, ms, current);
    law_merging_appends_ids(dated, ms, current);
    lemma_kept_ids(new, current);
    lemma_brought(ms, i);
    let ids = tag_ids(new);
    let before = tag_ids(made_ready(dated, current));
    let x = choose|x: int| 0 <= x < ids_brought(ms).len() && ids_brought(ms)[x] == ms[i].id;
    assert(ids[before.len() + x] == ms[i].id);
    law_max_id(ids);
}

proof fn lemma_brought(ms: Seq<Fetched>, i: int)
    requires
        0 <= i < ms.len(),
        content_of(ms[i]) is Some,
    ensures
        ids_brought(ms).contains(ms[i].id),
    decreases ms.len(),
{
    let before = ids_brought(ms.drop_last());
    let all = ids_brought(ms);
    if i < ms.len() - 1 {
        lemma_brought(ms.drop_last(), i);
        let x = choose|x: int| 0 <= x < before.len() && before[x] == ms[i].id;
        assert(all[x] == ms[i].id);
    } else {
        let part = tag_ids(content_of(ms[i])->0).push(ms[i].id);
        assert(all =~= before + part);
        assert(part[part.len() - 1] == ms[i].id);
        assert(all[before.len() + part.len() - 1] == ms[i].id);
    }
}

} // verus!
