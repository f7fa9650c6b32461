//! What texts name as senders and receivers.
use vstd::prelude::*;

use crate::chat::{Address, ChatError, address_named, address_params};
use crate::decimal::{decimal, lemma_decimal, lemma_unsigned_round_trip, numeral, unsigned_value};
use crate::destination::{
    Name, Target, chat_id_of, chat_param, destination_named, group_named, group_of, is_letter_text,
    lemma_hundred_in_front, minus_hundred, target_id, target_params, user_named, without_leading,
    without_prefix,
};
use crate::text::{
    lacks, lemma_first_index_is, lemma_trimmed_end, lemma_trimmed_same, trimmed, trimmed_end,
    trimmed_start,
};
use crate::unicode::{alphabetic, alphanumeric, ascii_digit, whitespace};

verus! {

// ---------------------------------------------------------------------------
// Numbers
// ---------------------------------------------------------------------------

/// The chat id of a group has `-100` in front of the group's own digits.
pub proof fn law_chat_ids(id: u64)
    ensures
        numeral(chat_id_of(id as int)) == "-100"@ + decimal(id as int),
{
    reveal_strlit("-100");
    lemma_hundred_in_front(id as int);
    assert(numeral(chat_id_of(id as int)) =~= "-100"@ + decimal(id as int));
}

/// The group of a positive chat id is that id.
pub proof fn law_positive_chat_ids(chat_id: int)
    requires
        0 < chat_id,
    ensures
        group_of(chat_id) == Some(chat_id),
{
    lemma_decimal(chat_id);
    let s = numeral(chat_id);
    assert(ascii_digit(s[0]));
    if s.len() >= 4 && s.take(4) == minus_hundred() {
        assert(s.take(4)[0] == s[0]);
    }
}

/// A name is sent behind an `@`, and an id behind `-100`. A topic is sent beside its
/// group.
pub proof fn law_parameters(name: Seq<char>, id: u64, topic: u64)
    ensures
        name.len() > 0 && name[0] == '@' ==> chat_param(Name::At(name)) == name,
        name.len() == 0 || name[0] != '@' ==> chat_param(Name::At(name)) == "@"@ + name,
        chat_param(Name::Id(id)) == "-100"@ + decimal(id as int),
        target_params(Target::Group(Name::Id(id))) == seq![
            ("chat_id"@, "-100"@ + decimal(id as int)),
        ],
        target_params(Target::Channel(Name::Id(id))) == seq![
            ("chat_id"@, "-100"@ + decimal(id as int)),
        ],
        target_params(Target::Group(Name::At(name))) == seq![
            ("chat_id"@, chat_param(Name::At(name))),
        ],
        target_params(Target::GroupTopic(Name::Id(id), topic)) == seq![
            ("chat_id"@, "-100"@ + decimal(id as int)),
            ("message_thread_id"@, decimal(topic as int)),
        ],
        address_params(Address::Id(id)) == seq![("chat_id"@, "-100"@ + decimal(id as int))],
        address_params(Address::Username(name)) == seq![
            ("chat_id"@, chat_param(Name::At(name))),
        ],
        address_params(Address::Thread(id, topic)) == seq![
            ("chat_id"@, "-100"@ + decimal(id as int)),
            ("message_thread_id"@, decimal(topic as int)),
        ],
        target_id(Target::Group(Name::Id(id))) == Some(id),
        target_id(Target::Channel(Name::Id(id))) == Some(id),
        target_id(Target::GroupTopic(Name::Id(id), topic)) == Some(id),
        target_id(Target::Group(Name::At(name))) is None,
{
    reveal_strlit("-100");
    reveal_strlit("@");
    assert("-100"@ =~= minus_hundred());
    assert("@"@ =~= seq!['@']);
}

// ---------------------------------------------------------------------------
// Users
// ---------------------------------------------------------------------------

/// A user is named by a text behind an `@`, by a number, or by a word of letters, digits
/// and underscores that is no number. White space around it does not count. Any other
/// text names none.
pub proof fn law_users(s: Seq<char>, id: u64)
    requires
        trimmed(s) == s,
    ensures
        s.len() > 0 && s[0] == '@' ==> user_named(s) == Some(Name::At(s)),
        user_named(decimal(id as int)) == Some(Name::Id(id)),
        (forall|i: int| 0 <= i < s.len() ==> alphanumeric(#[trigger] s[i]) || s[i] == '_') && (
        exists|i: int| 0 <= i < s.len() && !ascii_digit(#[trigger] s[i])) ==> user_named(s) == Some(
            Name::At(s),
        ),
        s.len() > 0 && s[0] != '@' && (exists|i: int|
            0 <= i < s.len() && !alphanumeric(#[trigger] s[i]) && s[i] != '_' && s[i] != '+')
            ==> user_named(s) is None,
{
    let d = decimal(id as int);
    lemma_decimal(id as int);
    assert(ascii_digit(d[0]));
    assert(ascii_digit(d[d.len() - 1]));
    lemma_trimmed_same(d);
    lemma_unsigned_round_trip(id as int, u64::MAX as int);
    if (forall|i: int| 0 <= i < s.len() ==> alphanumeric(#[trigger] s[i]) || s[i] == '_') && (
    exists|i: int| 0 <= i < s.len() && !ascii_digit(#[trigger] s[i])) {
        let i = choose|i: int| 0 <= i < s.len() && !ascii_digit(#[trigger] s[i]);
        assert(alphanumeric(s[i]) || s[i] == '_');
        assert(!alphanumeric('+'));
        lemma_no_number(s, i);
    }
    if exists|i: int|
        0 <= i < s.len() && !alphanumeric(#[trigger] s[i]) && s[i] != '_' && s[i] != '+' {
        let i = choose|i: int|
            0 <= i < s.len() && !alphanumeric(#[trigger] s[i]) && s[i] != '_' && s[i] != '+';
        lemma_no_number(s, i);
    }
}

/// A text with a character that is no digit is no number, unless that is a plus sign.
proof fn lemma_no_number(s: Seq<char>, i: int)
    requires
        0 <= i < s.len(),
        !ascii_digit(s[i]),
        s[i] != '+',
    ensures
        unsigned_value(s, u64::MAX as int) is None,
{
    if s[0] == '+' {
        assert(s.skip(1)[i - 1] == s[i]);
    }
}

// ---------------------------------------------------------------------------
// Groups and topics
// ---------------------------------------------------------------------------

/// A group is named by a text behind an `@` or by letters and underscores. A number may
/// have a minus sign, unless it starts with 100. A text that holds anything but letters,
/// digits, underscores and signs, and no `@` in front, names none; nor does one of letters
/// and digits.
pub proof fn law_groups(s: Seq<char>, id: u64)
    requires
        trimmed(s) == s,
    ensures
        s.len() > 0 && s[0] == '@' ==> group_named(s) == Some(Name::At(s)),
        (forall|i: int| 0 <= i < s.len() ==> alphabetic(#[trigger] s[i]) || s[i] == '_')
            ==> group_named(s) == Some(Name::At(s)),
        group_named("-"@ + decimal(id as int)) == Some(Name::Id(id)) || (decimal(id as int).len()
            >= 3 && decimal(id as int).take(3) == "100"@),
        s.len() > 0 && s[0] != '@' && s[0] != '-' && (exists|i: int|
            0 <= i < s.len() && !alphabetic(#[trigger] s[i]) && s[i] != '_') && (exists|i: int|
            0 <= i < s.len() && !ascii_digit(#[trigger] s[i]) && s[i] != '+') ==> group_named(s)
            is None,
{
    reveal_strlit("-");
    reveal_strlit("100");
    let d = decimal(id as int);
    let t = "-"@ + d;
    lemma_decimal(id as int);
    assert(ascii_digit(d[0]));
    assert(ascii_digit(d[d.len() - 1]));
    assert(t.last() == d.last());
    lemma_trimmed_same(t);
    lemma_unsigned_round_trip(id as int, u64::MAX as int);
    assert(!alphabetic(t[0]));
    if t.len() >= 4 && t.take(4) == minus_hundred() {
        assert(t.take(4)[1] == d[0] && t.take(4)[2] == d[1] && t.take(4)[3] == d[2]);
        assert(d.take(3) =~= "100"@);
    } else {
        assert(t.skip(1) =~= d);
        assert(without_leading(d, '-') == d);
    }
    if s.len() > 0 && s[0] != '@' && s[0] != '-' && (exists|i: int|
        0 <= i < s.len() && !ascii_digit(#[trigger] s[i]) && s[i] != '+') {
        let i = choose|i: int| 0 <= i < s.len() && !ascii_digit(#[trigger] s[i]) && s[i] != '+';
        lemma_no_number(s, i);
        if s.len() >= 4 && s.take(4) == minus_hundred() {
            assert(s.take(4)[0] == s[0]);
        }
    }
}

/// A topic is named by its group, a slash and its number. A group that names none makes
/// the one failure, and a topic that is no number the other. Without a slash the text
/// names a group.
pub proof fn law_destinations(g: Seq<char>, t: Seq<char>, topic: u64)
    requires
        lacks(g, '/'),
        g.len() > 0,
        !whitespace(g[0]),
        !whitespace(g.last()),
        t.len() > 0,
        !whitespace(t.last()),
    ensures
        group_named(g) matches Some(name) ==> destination_named(
            g + seq!['/'] + decimal(topic as int),
        ) == Ok::<Target, bool>(Target::GroupTopic(name, topic)),
        group_named(g) matches Some(name) ==> destination_named(g) == Ok::<Target, bool>(
            Target::Group(name),
        ),
        group_named(g) is None ==> destination_named(g) == Err::<Target, bool>(true)
            && destination_named(g + seq!['/'] + t) == Err::<Target, bool>(true),
        group_named(g) is Some && unsigned_value(t, u64::MAX as int) is None ==> destination_named(
            g + seq!['/'] + t,
        ) == Err::<Target, bool>(false),
{
    let d = decimal(topic as int);
    lemma_decimal(topic as int);
    assert(ascii_digit(d[d.len() - 1]));
    lemma_unsigned_round_trip(topic as int, u64::MAX as int);
    lemma_trimmed_same(g);
    lemma_first_index_is(g, '/', g.len() as int);
    let a = g + seq!['/'] + d;
    let b = g + seq!['/'] + t;
    assert(a[0] == g[0] && a.last() == d.last());
    assert(b[0] == g[0] && b.last() == t.last());
    lemma_trimmed_same(a);
    lemma_trimmed_same(b);
    assert forall|j: int| 0 <= j < g.len() implies a[j] != '/' && b[j] != '/' by {
        assert(a[j] == g[j] && b[j] == g[j]);
    }
    lemma_first_index_is(a, '/', g.len() as int);
    lemma_first_index_is(b, '/', g.len() as int);
    assert(a.take(g.len() as int) =~= g);
    assert(b.take(g.len() as int) =~= g);
    assert(a.skip(g.len() as int + 1) =~= d);
    assert(b.skip(g.len() as int + 1) =~= t);
}

/// The same of the plain form of destinations: a name behind an `@` or of letters, a
/// chat, or a chat and a thread. A chat or a thread that is no number is a failure.
pub proof fn law_addresses(s: Seq<char>, g: Seq<char>, t: Seq<char>, id: u64)
    requires
        trimmed(s) == s,
        lacks(g, '/'),
    ensures
        s.len() > 0 && s[0] == '@' ==> address_named(s) == Ok::<Address, ChatError>(
            Address::Username(s),
        ),
        (forall|i: int| 0 <= i < s.len() ==> alphabetic(#[trigger] s[i]) || s[i] == '_') && lacks(
            s,
            '/',
        ) ==> address_named(s) == Ok::<Address, ChatError>(Address::Username(s)),
        g.len() > 0 && ascii_digit(g[0]) && (exists|i: int|
            0 <= i < g.len() && !ascii_digit(#[trigger] g[i]) && g[i] != '+') ==> address_named(g)
            == Err::<Address, ChatError>(ChatError::InvalidChatId),
        unsigned_value(t, u64::MAX as int) is None ==> address_named(
            decimal(id as int) + seq!['/'] + t,
        ) == Err::<Address, ChatError>(ChatError::InvalidThreadId),
{
    if lacks(s, '/') {
        assert(!s.contains('/')) by {
            if s.contains('/') {
                let i = choose|i: int| 0 <= i < s.len() && s[i] == '/';
            }
        }
    }
    if g.len() > 0 && ascii_digit(g[0]) && (exists|i: int|
        0 <= i < g.len() && !ascii_digit(#[trigger] g[i]) && g[i] != '+') {
        let i = choose|i: int| 0 <= i < g.len() && !ascii_digit(#[trigger] g[i]) && g[i] != '+';
        lemma_no_number(g, i);
        lemma_first_index_is(g, '/', g.len() as int);
        lemma_starts_in_digit(g);
        if g.len() >= 4 && g.take(4) == minus_hundred() {
            assert(g.take(4)[0] == g[0]);
        }
    }
    let d = decimal(id as int);
    let a = d + seq!['/'] + t;
    lemma_decimal(id as int);
    assert(ascii_digit(d[0]));
    assert(a[0] == d[0]);
    lemma_starts_in_digit(a);
    assert forall|j: int| 0 <= j < d.len() implies a[j] != '/' by {
        assert(a[j] == d[j]);
        assert(ascii_digit(d[j]));
    }
    lemma_first_index_is(a, '/', d.len() as int);
    assert(a.take(d.len() as int) =~= d);
    assert(a.skip(d.len() as int + 1) =~= t);
    lemma_unsigned_round_trip(id as int, u64::MAX as int);
    if d.len() >= 4 && d.take(4) == minus_hundred() {
        assert(d.take(4)[0] == d[0]);
    }
}

/// A text that starts with a digit still does once it is trimmed, and is no name.
proof fn lemma_starts_in_digit(s: Seq<char>)
    requires
        s.len() > 0,
        ascii_digit(s[0]),
    ensures
        trimmed(s).len() > 0,
        trimmed(s)[0] == s[0],
        !is_letter_text(trimmed(s)),
{
    assert(trimmed_start(s) == s);
    lemma_trimmed_end(s);
    let t = trimmed_end(s);
    if t.len() == 0 {
        assert(whitespace(s[0]));
    }
    assert(t[0] == s[0]);
    assert(!alphabetic(t[0]));
}

/// What is no digit and no sign stays through all prefixes.
proof fn lemma_stays_behind_prefixes(s: Seq<char>, c: char)
    requires
        s.contains(c),
        c != '-',
        c != '1',
        c != '0',
    ensures
        without_prefix(s).contains(c),
        without_leading(s, '-').contains(c),
    decreases s.len(),
{
    let i = choose|i: int| 0 <= i < s.len() && s[i] == c;
    if s.len() >= 4 && s.take(4) == minus_hundred() {
        assert(s.take(4)[0] == s[0] && s.take(4)[1] == s[1] && s.take(4)[2] == s[2] && s.take(4)[3]
            == s[3]);
        assert(s.skip(4)[i - 4] == c);
        lemma_stays_behind_prefixes(s.skip(4), c);
    }
    if s.len() > 0 && s[0] == '-' {
        assert(s.skip(1)[i - 1] == c);
        lemma_stays_behind_prefixes(s.skip(1), c);
    }
}

/// A text behind a minus sign that holds anything but digits and signs names no group.
pub proof fn law_no_groups(s: Seq<char>, i: int)
    requires
        trimmed(s) == s,
        0 <= i < s.len(),
        s[0] == '-',
        !ascii_digit(s[i]),
        s[i] != '-',
        s[i] != '+',
    ensures
        group_named(s) is None,
{
    assert(!alphabetic(s[0]));
    assert(s.contains(s[i]));
    lemma_stays_behind_prefixes(s, s[i]);
    let t = without_prefix(s);
    lemma_stays_behind_prefixes(t, s[i]);
    let u = without_leading(t, '-');
    let k = choose|k: int| 0 <= k < u.len() && u[k] == s[i];
    lemma_no_number(u, k);
}

} // verus!
