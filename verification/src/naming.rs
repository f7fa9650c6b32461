//! What things are called: files, groups, topics and shells.
use vstd::prelude::*;

use crate::attachments::{Attachment, AttachmentKind, is_attachment, is_plan};
use crate::config::{
    GroupMetadata, group_label, group_renamed, own_name, topic_label, topic_renamed,
};
use crate::decimal::decimal;
use crate::destination::without_leading;
use crate::errors::{bytes_of_lines, error_offset};
use crate::pull::{
    file_char, files_of, group_files_match, keys_in_order, sanitized, without_trailing,
};
use crate::shell_init::{Shell, alias_text};
use crate::sync::lemma_push_contains;
use crate::text::{blank, byte_len, occurs, occurs_at, trimmed};
use crate::topics::{
    SendDestination, TopicChoice, TopicMatch, are_all_topics, are_matches, display_name, earlier,
    is_choice, is_destination, is_found, is_known, is_picked, is_topic_of, match_topics,
    matches_pattern, matching_files, source_text, topic_paths,
};
use crate::unicode::{all_ascii, ascii, ascii_lower, lowercase};

verus! {

// ---------------------------------------------------------------------------
// Groups and topics
// ---------------------------------------------------------------------------

/// A group is called by its own name, and a topic by its own. One without a name is
/// called by its number.
pub proof fn law_names_of_groups_and_topics(groups: Map<u64, GroupMetadata>, g: u64, t: u64)
    ensures
        groups.contains_key(g) && groups[g].name is Some ==> group_label(groups, g)
            == groups[g].name->0@,
        !groups.contains_key(g) || groups[g].name is None ==> group_label(groups, g) == "group_"@
            + decimal(g as int),
        groups.contains_key(g) && groups[g].topics@.contains_key(t) ==> topic_label(groups, g, t)
            == groups[g].topics@[t]@,
        !groups.contains_key(g) || !groups[g].topics@.contains_key(t) ==> topic_label(groups, g, t)
            == "topic_"@ + decimal(t as int),
        source_text(groups, g, t) == group_label(groups, g) + "/"@ + topic_label(groups, g, t)
            + ".md"@,
        display_name(groups, g, t) == group_label(groups, g) + "/"@ + topic_label(groups, g, t),
        is_known(groups, g, t) <==> groups.contains_key(g) && groups[g].topics@.contains_key(t),
{
}

/// A topic that got a name has it, beside all topics and names that were there.
pub proof fn law_naming_a_topic(
    old_groups: Map<u64, GroupMetadata>,
    groups: Map<u64, GroupMetadata>,
    g: u64,
    t: u64,
    name: Seq<char>,
    h: u64,
    u: u64,
)
    requires
        topic_renamed(old_groups, groups, g, t, name),
    ensures
        groups.contains_key(g) && groups[g].topics@.contains_key(t) && groups[g].topics@[t]@ == name,
        h != g ==> (groups.contains_key(h) <==> old_groups.contains_key(h)),
        h != g && old_groups.contains_key(h) ==> groups[h] == old_groups[h],
        u != t && old_groups.contains_key(g) && old_groups[g].topics@.contains_key(u)
            ==> groups[g].topics@.contains_key(u) && groups[g].topics@[u]
            == old_groups[g].topics@[u],
        u != t && groups[g].topics@.contains_key(u) ==> old_groups.contains_key(g)
            && old_groups[g].topics@.contains_key(u),
        old_groups.contains_key(g) ==> groups[g].name == old_groups[g].name,
        !old_groups.contains_key(g) ==> groups[g].name is None,
{
    assert(own_name(groups, g) == own_name(old_groups, g));
}

/// A group that got a name has it, beside its topics and all that was there.
pub proof fn law_naming_a_group(
    old_groups: Map<u64, GroupMetadata>,
    groups: Map<u64, GroupMetadata>,
    g: u64,
    name: Seq<char>,
    h: u64,
)
    requires
        group_renamed(old_groups, groups, g, name),
    ensures
        groups.contains_key(g) && groups[g].name is Some && groups[g].name->0@ == name,
        h != g ==> (groups.contains_key(h) <==> old_groups.contains_key(h)),
        h != g && old_groups.contains_key(h) ==> groups[h] == old_groups[h],
        old_groups.contains_key(g) ==> groups[g].topics@ == old_groups[g].topics@,
{
}

/// All topics with names are there, each once, by their groups and their ids.
pub proof fn law_all_topics_are_listed(
    v: Seq<(u64, u64)>,
    groups: Map<u64, GroupMetadata>,
    g: u64,
    t: u64,
)
    requires
        are_all_topics(v, groups),
    ensures
        v.contains((g, t)) <==> groups.contains_key(g) && groups[g].topics@.contains_key(t),
        v.no_duplicates(),
        forall|i: int, j: int|
            0 <= i < j < v.len() ==> (#[trigger] v[i]).0 <= (#[trigger] v[j]).0 && (v[i].0 == v[j].0
                ==> v[i].1 < v[j].1),
{
    assert forall|i: int, j: int| 0 <= i < j < v.len() implies (#[trigger] v[i]).0 <= (
    #[trigger] v[j]).0 && (v[i].0 == v[j].0 ==> v[i].1 < v[j].1) by {
        assert(earlier(v[i], v[j]));
    }
}

/// A topic is found by its directory and its file, which are those of its names.
pub proof fn law_topics_of_files(
    groups: Map<u64, GroupMetadata>,
    g: u64,
    t: u64,
    dir: Seq<char>,
    file: Seq<char>,
)
    ensures
        is_topic_of(groups, g, t, dir, file) <==> groups.contains_key(g)
            && groups[g].topics@.contains_key(t) && dir == group_label(groups, g) && file
            == groups[g].topics@[t]@ + ".md"@,
{
}

// ---------------------------------------------------------------------------
// File names
// ---------------------------------------------------------------------------

/// The character of a file name that stands for an ASCII character: small letters for
/// capitals, and underscores for what is neither a letter, a digit nor a hyphen.
pub open spec fn stands_for(c: char) -> char {
    if 'A' <= c && c <= 'Z' {
        ((c as u32 + 32) as u32) as char
    } else if ('a' <= c && c <= 'z') || ('0' <= c && c <= '9') || c == '-' {
        c
    } else {
        '_'
    }
}

/// The name of a file for a name in ASCII: each character's own, but for the underscores
/// at the ends. The result says how many go at the start.
pub proof fn law_file_names(name: Seq<char>) -> (k: int)
    requires
        all_ascii(name),
    ensures
        ({
            let r = sanitized(name);
            &&& 0 <= k <= name.len() - r.len()
            &&& forall|i: int| 0 <= i < r.len() ==> #[trigger] r[i] == stands_for(name[k + i])
            &&& forall|i: int|
                (0 <= i < k || k + r.len() <= i < name.len()) ==> stands_for(#[trigger] name[i])
                    == '_'
        }),
{
    let low = lowercase(name);
    let mapped = low.map_values(|c: char| file_char(c));
    let front = without_leading(mapped, '_');
    let r = without_trailing(front, '_');
    lemma_leading_gone(mapped, '_');
    lemma_trailing_gone(front, '_');
    let k = mapped.len() - front.len();
    assert forall|i: int| 0 <= i < name.len() implies #[trigger] mapped[i] == stands_for(name[i]) by {
        assert(ascii(name[i]));
        assert(low[i] == ascii_lower(name[i]));
    }
    assert forall|i: int| 0 <= i < r.len() implies #[trigger] r[i] == stands_for(name[k + i]) by {
        assert(r[i] == front[i]);
        assert(front[i] == mapped[k + i]);
    }
    assert forall|i: int| (0 <= i < k || k + r.len() <= i < name.len()) implies stands_for(
        #[trigger] name[i],
    ) == '_' by {
        if i < k {
            assert(mapped[i] == '_');
        } else {
            assert(front[i - k] == '_');
            assert(front[i - k] == mapped[i]);
        }
    }
    k
}

proof fn lemma_leading_gone(s: Seq<char>, c: char)
    ensures
        without_leading(s, c).len() <= s.len(),
        without_leading(s, c) == s.skip(s.len() - without_leading(s, c).len()),
        forall|i: int| 0 <= i < s.len() - without_leading(s, c).len() ==> #[trigger] s[i] == c,
    decreases s.len(),
{
    if s.len() > 0 && s[0] == c {
        let t = s.skip(1);
        lemma_leading_gone(t, c);
        let n = s.len() - without_leading(s, c).len();
        assert(t.skip(n - 1) =~= s.skip(n));
        assert forall|i: int| 0 <= i < n implies #[trigger] s[i] == c by {
            if i > 0 {
                assert(t[i - 1] == s[i]);
            }
        }
    } else {
        assert(s.skip(0) =~= s);
    }
}

proof fn lemma_trailing_gone(s: Seq<char>, c: char)
    ensures
        without_trailing(s, c).len() <= s.len(),
        without_trailing(s, c) == s.take(without_trailing(s, c).len() as int),
        forall|i: int| without_trailing(s, c).len() <= i < s.len() ==> #[trigger] s[i] == c,
    decreases s.len(),
{
    if s.len() > 0 && s.last() == c {
        let t = s.drop_last();
        lemma_trailing_gone(t, c);
        let n = without_trailing(s, c).len() as int;
        assert(t.take(n) =~= s.take(n));
        assert forall|i: int| n <= i < s.len() implies #[trigger] s[i] == c by {
            if i < t.len() {
                assert(t[i] == s[i]);
            }
        }
    } else {
        assert(s.take(s.len() as int) =~= s);
    }
}

/// The files of a group are those of its topics: one for each name, by the ids.
pub proof fn law_files_of_a_group(
    files: (String, Vec<String>),
    groups: Map<u64, GroupMetadata>,
    g: u64,
    t: u64,
    i: int,
)
    requires
        groups.contains_key(g),
        group_files_match(files, groups, g),
    ensures
        files.0@ == group_label(groups, g),
        groups[g].topics@.contains_key(t) ==> exists|i: int|
            0 <= i < files.1.len() && (#[trigger] files.1[i])@ == groups[g].topics@[t]@ + ".md"@,
        0 <= i < files.1.len() ==> exists|u: u64|
            #![trigger groups[g].topics@[u]]
            groups[g].topics@.contains_key(u) && files.1@[i]@ == groups[g].topics@[u]@ + ".md"@,
{
    let topics = groups[g].topics@;
    let keys = choose|keys: Seq<u64>|
        #![auto]
        keys_in_order(keys, topics) && files_of(files.1@, topics, keys);
    if topics.contains_key(t) {
        assert(keys.to_set().contains(t));
        let k = choose|k: int| 0 <= k < keys.len() && keys[k] == t;
        assert(files.1[k]@ == topics[keys[k]]@ + ".md"@);
    }
    if 0 <= i < files.1.len() {
        let u = keys[i];
        assert(keys.to_set().contains(u));
        assert(groups[g].topics@.contains_key(u));
        assert(files.1@[i]@ == groups[g].topics@[u]@ + ".md"@);
    }
}

// ---------------------------------------------------------------------------
// Patterns
// ---------------------------------------------------------------------------

/// A pattern matches a text that holds it, wherever it stands.
pub proof fn law_patterns(a: Seq<char>, p: Seq<char>, b: Seq<char>)
    requires
        all_ascii(a),
        all_ascii(p),
        all_ascii(b),
    ensures
        matches_pattern(a + p + b, p),
        matches_pattern(a + lowercase(p) + b, p),
        matches_pattern(a + p + b, lowercase(p)),
{
    lemma_lowered(p);
    lemma_lowered_concat(a, p, b);
    lemma_lowered_concat(a, lowercase(p), b);
    let la = lowercase(a);
    let lp = lowercase(p);
    let s = la + lp + lowercase(b);
    assert(s.subrange(la.len() as int, la.len() as int + lp.len()) =~= lp);
    assert(occurs_at(s, la.len() as int, lp));
}

proof fn lemma_lowered(p: Seq<char>)
    requires
        all_ascii(p),
    ensures
        all_ascii(lowercase(p)),
        lowercase(lowercase(p)) == lowercase(p),
{
    let l = lowercase(p);
    assert forall|i: int| 0 <= i < l.len() implies ascii(#[trigger] l[i]) && ascii_lower(l[i])
        == l[i] by {
        assert(ascii(p[i]));
        assert(l[i] == ascii_lower(p[i]));
    }
    assert(lowercase(l) =~= l);
}

proof fn lemma_lowered_concat(a: Seq<char>, p: Seq<char>, b: Seq<char>)
    requires
        all_ascii(a),
        all_ascii(p),
        all_ascii(b),
    ensures
        lowercase(a + p + b) == lowercase(a) + lowercase(p) + lowercase(b),
{
    let s = a + p + b;
    assert forall|i: int| 0 <= i < s.len() implies ascii(#[trigger] s[i]) by {
        if i < a.len() {
            assert(s[i] == a[i]);
        } else if i < a.len() + p.len() {
            assert(s[i] == p[i - a.len()]);
        } else {
            assert(s[i] == b[i - a.len() - p.len()]);
        }
    }
    assert(lowercase(s) =~= lowercase(a) + lowercase(p) + lowercase(b));
}

/// A text matches exactly where the pattern stands in it as it is, in one piece, but for
/// the case.
pub proof fn law_matches_are_pieces(text: Seq<char>, p: Seq<char>)
    ensures
        matches_pattern(text, p) <==> exists|i: int|
            0 <= i && i + lowercase(p).len() <= lowercase(text).len() && #[trigger] lowercase(
                text,
            ).subrange(i, i + lowercase(p).len()) == lowercase(p),
{
    let s = lowercase(text);
    let q = lowercase(p);
    if occurs(s, q) {
        let i = choose|i: int| occurs_at(s, i, q);
        assert(s.subrange(i, i + q.len()) == q);
    }
    if exists|i: int| 0 <= i && i + q.len() <= s.len() && #[trigger] s.subrange(i, i + q.len()) == q {
        let i = choose|i: int|
            0 <= i && i + q.len() <= s.len() && #[trigger] s.subrange(i, i + q.len()) == q;
        assert(occurs_at(s, i, q));
    }
}

/// A text in which a letter of the pattern stands nowhere does not match.
pub proof fn law_what_does_not_match(text: Seq<char>, p: Seq<char>, i: int)
    requires
        0 <= i < lowercase(p).len(),
        !lowercase(text).contains(lowercase(p)[i]),
    ensures
        !matches_pattern(text, p),
{
    let s = lowercase(text);
    let q = lowercase(p);
    if occurs(s, q) {
        let at = choose|at: int| occurs_at(s, at, q);
        assert(s.subrange(at, at + q.len())[i] == s[at + i]);
        assert(s.contains(s[at + i]));
    }
}

/// The topics that match a pattern are all those whose names do, each once and in order.
pub proof fn law_matching_topics(
    v: Seq<TopicMatch>,
    groups: Map<u64, GroupMetadata>,
    pattern: Seq<char>,
    g: u64,
    t: u64,
)
    requires
        are_matches(v, groups, pattern),
    ensures
        (exists|i: int| 0 <= i < v.len() && (#[trigger] v[i]).group_id == g && v[i].topic_id == t)
            <==> groups.contains_key(g) && groups[g].topics@.contains_key(t) && matches_pattern(
            groups[g].topics@[t]@,
            pattern,
        ),
        forall|i: int|
            0 <= i < v.len() && (#[trigger] v[i]).group_id == g && v[i].topic_id == t
                ==> v[i].display@ == group_label(groups, g) + "/"@ + topic_label(groups, g, t),
{
    let m = match_topics(v);
    assert(m.contains((g, t)) <==> is_known(groups, g, t) && matches_pattern(
        topic_label(groups, g, t),
        pattern,
    ));
    if m.contains((g, t)) {
        let i = choose|i: int| 0 <= i < m.len() && m[i] == (g, t);
        assert(v[i].group_id == g);
    }
    if exists|i: int| 0 <= i < v.len() && (#[trigger] v[i]).group_id == g && v[i].topic_id == t {
        let i = choose|i: int|
            0 <= i < v.len() && (#[trigger] v[i]).group_id == g && v[i].topic_id == t;
        assert(m[i] == (g, t));
    }
}

/// The files that match a pattern are all those whose path or name does, in order.
pub proof fn law_matching_files(files: Seq<(String, String)>, pattern: Seq<char>, i: usize)
    requires
        files.len() <= usize::MAX,
    ensures
        matching_files(files, pattern).contains(i) <==> i < files.len() && (matches_pattern(
            files[i as int].0@,
            pattern,
        ) || matches_pattern(files[i as int].1@, pattern)),
        forall|a: int, b: int|
            0 <= a < b < matching_files(files, pattern).len() ==> #[trigger] matching_files(
                files,
                pattern,
            )[a] < #[trigger] matching_files(files, pattern)[b],
        forall|a: int|
            0 <= a < matching_files(files, pattern).len() ==> #[trigger] matching_files(
                files,
                pattern,
            )[a] < files.len(),
    decreases files.len(),
{
    if files.len() > 0 {
        let front = files.drop_last();
        law_matching_files(front, pattern, i);
        let before = matching_files(front, pattern);
        let all = matching_files(files, pattern);
        let n = (files.len() - 1) as usize;
        lemma_push_contains(before, n, i);
        if i < front.len() {
            assert(front[i as int] == files[i as int]);
        }
        assert forall|a: int, b: int| 0 <= a < b < all.len() implies #[trigger] all[a]
            < #[trigger] all[b] by {
            assert(all[a] == before[a]);
            if b < before.len() {
                assert(all[b] == before[b]);
            }
        }
        assert forall|a: int| 0 <= a < all.len() implies #[trigger] all[a] < files.len() by {
            if a < before.len() {
                assert(all[a] == before[a]);
            }
        }
    }
}

/// The files of topics in a listing are its lines that are neither blank nor images.
pub proof fn law_listed_files(ls: Seq<Seq<char>>, line: Seq<char>)
    ensures
        topic_paths(Seq::empty()) == Seq::<Seq<char>>::empty(),
        blank(line) || occurs(trimmed(line), "/images/"@) ==> topic_paths(ls.push(line))
            == topic_paths(ls),
        !blank(line) && !occurs(trimmed(line), "/images/"@) ==> topic_paths(ls.push(line))
            == topic_paths(ls).push(trimmed(line)),
{
    assert(ls.push(line).drop_last() =~= ls);
}

// ---------------------------------------------------------------------------
// Errors, attachments and shells
// ---------------------------------------------------------------------------

/// The place of an error is counted in bytes: those of the lines above, with their line
/// feeds, and of the columns before it.
pub proof fn law_places_of_errors(a: Seq<Seq<char>>, b: Seq<Seq<char>>, line: Seq<char>, column: int)
    requires
        column > 0,
    ensures
        error_offset(a + seq![line] + b, a.len() as int + 1, column) == bytes_of_lines(a) + column
            - 1,
        bytes_of_lines(a.push(line)) == bytes_of_lines(a) + byte_len(line) + 1,
        bytes_of_lines(Seq::empty()) == 0,
        error_offset(a, 0, column) == 0,
        error_offset(a, a.len() as int + 1, column) == bytes_of_lines(a),
{
    let all = a + seq![line] + b;
    assert(all.take(a.len() as int) =~= a);
    assert(a.push(line).drop_last() =~= a);
}

/// A file goes out with its own path, as a photo where it is to be shown inline, and the
/// first one with the caption. Its line in a topic file is the caption, or its kind.
pub proof fn law_attachments(
    a: Attachment,
    place: int,
    path: Seq<char>,
    inline: bool,
    caption: Seq<char>,
)
    requires
        is_attachment(a, place, path, inline, caption),
    ensures
        a.path@ == path,
        inline <==> a.kind == AttachmentKind::Photo,
        place == 0 ==> a.caption@ == caption,
        place != 0 ==> a.caption@.len() == 0,
        a.caption@.len() > 0 ==> a.file_text() == a.caption@,
        a.caption@.len() == 0 && inline ==> a.file_text() == "[photo]"@,
        a.caption@.len() == 0 && !inline ==> a.file_text() == "[document]"@,
{
    reveal_strlit("[");
    reveal_strlit("]");
    reveal_strlit("photo");
    reveal_strlit("document");
    reveal_strlit("[photo]");
    reveal_strlit("[document]");
    assert("["@ + "photo"@ + "]"@ =~= "[photo]"@);
    assert("["@ + "document"@ + "]"@ =~= "[document]"@);
}

/// The aliases of a shell are the same with alerts but for one more, and the same for all
/// shells that assign with an equals sign.
pub proof fn law_aliases(a: Shell, b: Shell, alerts: bool)
    ensures
        a == Shell::Fish ==> alias_text(a, true) == alias_text(a, false)
            + "\nalias tga 'tg send-alert'"@,
        a != Shell::Fish ==> alias_text(a, true) == alias_text(a, false)
            + "\nalias tga='tg send-alert'"@,
        a != Shell::Fish && b != Shell::Fish ==> alias_text(a, alerts) == alias_text(b, alerts),
        alias_text(Shell::Fish, false)
            == "\n# tg aliases\nalias tgo 'tg open'\nalias tgs 'tg send'\nalias tgl 'tg list'\nalias tgt 'tg todos open'"@,
        a != Shell::Fish ==> alias_text(a, false)
            == "\n# tg aliases\nalias tgo='tg open'\nalias tgs='tg send'\nalias tgl='tg list'\nalias tgt='tg todos open'"@,
{
}

/// A message goes to the topic of the given numbers, or to the general topic of a group.
/// With a pattern it goes to the one topic whose name matches; of several one is chosen.
pub proof fn law_where_messages_go(
    r: SendDestination,
    group: u64,
    topic: u64,
    pattern: Seq<char>,
    groups: Map<u64, GroupMetadata>,
    h: u64,
    u: u64,
)
    ensures
        is_destination(r, Some(group), Some(topic), Some(pattern), groups) ==> r
            == SendDestination::Topic(group, topic),
        is_destination(r, Some(group), None, Some(pattern), groups) ==> r == SendDestination::Topic(
            group,
            1,
        ),
        is_destination(r, None, Some(topic), None, groups) ==> r == SendDestination::NoPattern,
        is_destination(r, None, Some(topic), Some(pattern), groups) ==> match r {
            SendDestination::Topic(g, t) => is_known(groups, g, t) && matches_pattern(
                topic_label(groups, g, t),
                pattern,
            ) && (is_known(groups, h, u) && matches_pattern(topic_label(groups, h, u), pattern)
                ==> h == g && u == t),
            SendDestination::NoPattern => false,
            SendDestination::NotFound => !(is_known(groups, h, u) && matches_pattern(
                topic_label(groups, h, u),
                pattern,
            )),
            SendDestination::Choose(v) => v.len() > 1 && are_matches(v@, groups, pattern),
        },
{
    if is_destination(r, None, Some(topic), Some(pattern), groups) {
        assert(is_found(r, pattern, groups));
        let ms = choose|ms: Seq<TopicMatch>| #[trigger]
            are_matches(ms, groups, pattern) && is_picked(r, ms);
        let ts = match_topics(ms);
        assert(ts.contains((h, u)) <==> is_known(groups, h, u) && matches_pattern(
            topic_label(groups, h, u),
            pattern,
        ));
        match r {
            SendDestination::Topic(g, t) => {
                assert(ts[0] == (g, t));
                assert(ts.contains((g, t)));
            },
            _ => {},
        }
    }
}

/// With a pattern the one file that matches is opened, and of several one is chosen.
/// Without a pattern one of all files is chosen.
pub proof fn law_which_file_is_opened(
    r: TopicChoice,
    files: Seq<(String, String)>,
    pattern: Seq<char>,
    i: usize,
)
    requires
        files.len() <= usize::MAX,
    ensures
        is_choice(r, files, None) && files.len() == 0 ==> r is NoFiles,
        is_choice(r, files, None) && files.len() > 0 ==> r is Choose && r->Choose_0.len()
            == files.len() && (i < files.len() ==> r->Choose_0@[i as int] == i),
        is_choice(r, files, Some(pattern)) ==> ({
            let matched = i < files.len() && (matches_pattern(files[i as int].0@, pattern)
                || matches_pattern(files[i as int].1@, pattern));
            match r {
                TopicChoice::NoFiles => false,
                TopicChoice::NotFound => !matched,
                TopicChoice::One(k) => matched <==> i == k,
                TopicChoice::Choose(v) => v.len() > 1 && (v@.contains(i) <==> matched),
            }
        }),
{
    law_matching_files(files, pattern, i);
    let found = matching_files(files, pattern);
    if is_choice(r, files, Some(pattern)) {
        match r {
            TopicChoice::One(k) => {
                assert(found == seq![k]);
                assert(found[0] == k);
                assert(found.contains(k));
                law_matching_files(files, pattern, k);
            },
            _ => {},
        }
    }
}

/// All files go out, or none where one is missing.
pub proof fn law_all_files_go_out(
    r: Result<Vec<Attachment>, String>,
    paths: Seq<String>,
    there: Seq<bool>,
    inline: bool,
    caption: Seq<char>,
    i: int,
)
    requires
        is_plan(r, paths, there, inline, caption),
        paths.len() == there.len(),
        0 <= i < paths.len(),
    ensures
        r matches Ok(v) ==> there[i] && v.len() == paths.len() && v@[i].path@ == paths[i]@,
        !there[i] ==> r is Err,
        r matches Err(path) ==> exists|k: int|
            0 <= k < paths.len() && (#[trigger] paths[k])@ == path@ && !there[k],
{
    match r {
        Ok(v) => {
            assert(there[i]);
            assert(is_attachment(v@[i], i, paths[i]@, inline, caption));
        },
        Err(path) => {
            let k = choose|k: int|
                0 <= k < there.len() && !(#[trigger] there[k]) && path@ == paths[k]@ && forall|
                    j: int,
                | 0 <= j < k ==> #[trigger] there[j];
            assert(paths[k]@ == path@);
        },
    }
}

} // verus!
