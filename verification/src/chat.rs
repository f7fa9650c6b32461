//! Destinations in their flat form: a channel by its id or its name, or a topic.
use vstd::prelude::*;
use vstd::slice::slice_subrange;

use crate::decimal::{
    append_numeral, decimal, lemma_decimal, lemma_unsigned_round_trip, numeral, parse_u64,
    unsigned_value,
};
use crate::destination::{
    Username, all_letters, at_text, decimal_string, is_letter_text, minus_hundred, param_texts,
    prefixed_id, strip_prefix, with_at, without_prefix,
};
use crate::text::{
    find_char, first_index, from_chars, lemma_first_index, lemma_first_index_is, lemma_trimmed_same,
    to_chars, trim, trimmed,
};
use crate::unicode::{alphabetic, ascii_digit};

verus! {

/// A destination. Numeric ids stand without the prefix `-100`.
#[derive(Clone, Debug, Eq, Hash, PartialEq)]
pub enum TelegramDestination {
    ChannelExactUid(u64),
    ChannelUsername(String),
    Group { id: u64, thread_id: u64 },
}

/// What a destination stands for.
pub enum Address {
    Id(u64),
    Username(Seq<char>),
    Thread(u64, u64),
}

/// Why a text names no destination.
#[derive(Clone, Copy, Debug, Eq, PartialEq)]
pub enum ChatError {
    /// The text holds no chat id.
    InvalidChatId,
    /// The text holds no thread id.
    InvalidThreadId,
}

impl View for TelegramDestination {
    type V = Address;

    open spec fn view(&self) -> Address {
        match *self {
            TelegramDestination::ChannelExactUid(id) => Address::Id(id),
            TelegramDestination::ChannelUsername(name) => Address::Username(name@),
            TelegramDestination::Group { id, thread_id } => Address::Thread(id, thread_id),
        }
    }
}

/// The chat id in a text, after prefixes `-100`.
pub open spec fn chat_id_in(s: Seq<char>) -> Option<int> {
    unsigned_value(without_prefix(s), u64::MAX as int)
}

/// The destination that a text names: a username after `@` or of letters and
/// underscores, a chat id, or a chat id and a thread id with a slash between
/// them.
pub open spec fn address_named(s: Seq<char>) -> Result<Address, ChatError> {
    let t = trimmed(s);
    let slash = first_index(s, '/');
    if (t.len() > 0 && t[0] == '@') || (!t.contains('/') && is_letter_text(t)) {
        Ok(Address::Username(t))
    } else if slash < s.len() {
        match chat_id_in(s.take(slash)) {
            None => Err(ChatError::InvalidChatId),
            Some(id) => match unsigned_value(s.skip(slash + 1), u64::MAX as int) {
                Some(thread) => Ok(Address::Thread(id as u64, thread as u64)),
                None => Err(ChatError::InvalidThreadId),
            },
        }
    } else {
        match chat_id_in(s) {
            None => Err(ChatError::InvalidChatId),
            Some(id) => Ok(Address::Id(id as u64)),
        }
    }
}

/// The parameters that name a destination in a call.
pub open spec fn address_params(a: Address) -> Seq<(Seq<char>, Seq<char>)> {
    match a {
        Address::Id(id) => seq![("chat_id"@, minus_hundred() + decimal(id as int))],
        Address::Username(name) => seq![("chat_id"@, at_text(name))],
        Address::Thread(id, thread) => seq![
            ("chat_id"@, minus_hundred() + decimal(id as int)),
            ("message_thread_id"@, decimal(thread as int)),
        ],
    }
}

impl TelegramDestination {
    /// The parameters that name the destination in a call.
    pub fn destination_params(&self) -> (r: Vec<(&'static str, String)>)
        ensures
            param_texts(r@) == address_params(self@),
    {
        let mut r: Vec<(&'static str, String)> = Vec::new();
        match self {
            TelegramDestination::ChannelExactUid(id) => {
                r.push(("chat_id", prefixed_id(*id)));
            },
            TelegramDestination::ChannelUsername(name) => {
                r.push(("chat_id", with_at(name)));
            },
            TelegramDestination::Group { id, thread_id } => {
                r.push(("chat_id", prefixed_id(*id)));
                r.push(("message_thread_id", decimal_string(*thread_id)));
            },
        }
        assert(param_texts(r@) =~= address_params(self@));
        r
    }

    /// The destination that a signed number names.
    pub fn from_signed(id: i64) -> (r: Result<TelegramDestination, ChatError>)
        ensures
            match r {
                Ok(d) => address_named(numeral(id as int)) == Ok::<Address, ChatError>(d@),
                Err(e) => address_named(numeral(id as int)) == Err::<Address, ChatError>(e),
            },
    {
        let mut v: Vec<char> = Vec::new();
        append_numeral(&mut v, id as i128);
        assert(v@ =~= numeral(id as int));
        parse_address(v.as_slice())
    }
}

impl Default for TelegramDestination {
    fn default() -> (r: Self)
        ensures
            r@ == Address::Id(0),
    {
        TelegramDestination::ChannelExactUid(0)
    }
}

impl std::str::FromStr for TelegramDestination {
    type Err = ChatError;

    fn from_str(s: &str) -> (r: Result<Self, ChatError>)
        ensures
            match r {
                Ok(d) => address_named(s@) == Ok::<Address, ChatError>(d@),
                Err(e) => address_named(s@) == Err::<Address, ChatError>(e),
            },
    {
        parse_telegram_destination_str(s)
    }
}

/// The destination that a text names.
pub fn parse_telegram_destination_str(s: &str) -> (r: Result<TelegramDestination, ChatError>)
    ensures
        match r {
            Ok(d) => address_named(s@) == Ok::<Address, ChatError>(d@),
            Err(e) => address_named(s@) == Err::<Address, ChatError>(e),
        },
{
    parse_address(to_chars(s).as_slice())
}

fn parse_address(s: &[char]) -> (r: Result<TelegramDestination, ChatError>)
    ensures
        match r {
            Ok(d) => address_named(s@) == Ok::<Address, ChatError>(d@),
            Err(e) => address_named(s@) == Err::<Address, ChatError>(e),
        },
{
    let t = trim(s);
    let inner_slash = find_char(t, 0, '/');
    proof {
        assert(t@.skip(0) =~= t@);
        assert(s@.skip(0) =~= s@);
        lemma_first_index(t@, '/');
        if inner_slash < t.len() {
            assert(t@[inner_slash as int] == '/');
        }
    }
    if (t.len() > 0 && t[0] == '@') || (inner_slash == t.len() && all_letters(t)) {
        return Ok(TelegramDestination::ChannelUsername(from_chars(t)));
    }
    let slash = find_char(s, 0, '/');
    if slash < s.len() {
        let id = match parse_u64(strip_prefix(slice_subrange(s, 0, slash))) {
            Some(id) => id,
            None => {
                return Err(ChatError::InvalidChatId);
            },
        };
        let thread = slice_subrange(s, slash + 1, s.len());
        assert(thread@ =~= s@.skip(slash + 1));
        match parse_u64(thread) {
            Some(thread_id) => Ok(TelegramDestination::Group { id, thread_id }),
            None => Err(ChatError::InvalidThreadId),
        }
    } else {
        match parse_u64(strip_prefix(s)) {
            Some(id) => Ok(TelegramDestination::ChannelExactUid(id)),
            None => Err(ChatError::InvalidChatId),
        }
    }
}

// ---------------------------------------------------------------------------
// Laws
// ---------------------------------------------------------------------------

/// The chat id parameter of a channel with an id names that channel.
pub proof fn law_channel_id_reads_back(id: u64)
    ensures
        address_named(decimal(id as int)) == Ok::<Address, ChatError>(Address::Id(id)),
        address_named(minus_hundred() + decimal(id as int)) == Ok::<Address, ChatError>(
            Address::Id(id),
        ),
{
    let d = decimal(id as int);
    let s = minus_hundred() + d;
    lemma_decimal(id as int);
    lemma_unsigned_round_trip(id as int, u64::MAX as int);
    assert(ascii_digit(d[0]));
    assert(ascii_digit(d[d.len() - 1]));
    assert(s.last() == d.last());
    lemma_trimmed_same(d);
    lemma_trimmed_same(s);
    assert(!alphabetic(d[0]) && !alphabetic(s[0]));
    assert forall|j: int| 0 <= j < d.len() implies d[j] != '/' by {
        assert(ascii_digit(d[j]));
    }
    assert forall|j: int| 0 <= j < s.len() implies s[j] != '/' by {
        if j >= 4 {
            assert(s[j] == d[j - 4]);
        }
    }
    lemma_first_index_is(d, '/', d.len() as int);
    lemma_first_index_is(s, '/', s.len() as int);
    assert(s.take(4) =~= minus_hundred());
    assert(s.skip(4) =~= d);
    if d.len() >= 4 {
        assert(d.take(4)[0] == d[0]);
    }
}

/// A chat id and a thread id with a slash between them name that thread.
pub proof fn law_thread_texts(id: u64, thread: u64)
    ensures
        address_named(decimal(id as int) + seq!['/'] + decimal(thread as int)) == Ok::<
            Address,
            ChatError,
        >(Address::Thread(id, thread)),
{
    let g = decimal(id as int);
    let t = decimal(thread as int);
    let s = g + seq!['/'] + t;
    lemma_decimal(id as int);
    lemma_decimal(thread as int);
    lemma_unsigned_round_trip(id as int, u64::MAX as int);
    lemma_unsigned_round_trip(thread as int, u64::MAX as int);
    assert(ascii_digit(g[0]));
    assert(ascii_digit(t[t.len() - 1]));
    assert(s[0] == g[0] && s.last() == t.last());
    lemma_trimmed_same(s);
    assert(s[g.len() as int] == '/');
    assert(s.contains('/'));
    assert forall|j: int| 0 <= j < g.len() implies s[j] != '/' by {
        assert(ascii_digit(g[j]));
    }
    lemma_first_index_is(s, '/', g.len() as int);
    assert(s.take(g.len() as int) =~= g);
    assert(s.skip(g.len() as int + 1) =~= t);
    if g.len() >= 4 {
        assert(g.take(4)[0] == g[0]);
    }
}

} // verus!
