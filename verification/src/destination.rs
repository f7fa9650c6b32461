//! Where messages go: users, channels, groups and topics.
use vstd::prelude::*;
use vstd::slice::slice_subrange;
use vstd::string::StrSliceExecFns;

use crate::decimal::{
    all_digits, append_decimal, append_numeral, decimal, digit_char, lemma_decimal,
    lemma_unsigned_round_trip, numeral, parse_u64, unsigned_value,
};
use crate::text::{
    append, find_char, first_index, from_chars, lemma_first_index_is, lemma_trimmed_same, to_chars,
    trim, trimmed,
};
use crate::unicode::{alphabetic, alphanumeric, ascii_digit};

verus! {

/// A Telegram user or bot: a username, with or without `@`, or a numeric id.
#[derive(Clone, Debug, Eq, Hash, PartialEq)]
pub enum Username {
    /// A username like `@username` or `username`.
    At(String),
    /// A numeric user id.
    Id(u64),
}

/// A channel or group: a username or a numeric id without the prefix `-100`.
#[derive(Clone, Debug, Eq, Hash, PartialEq)]
pub enum TopLevelId {
    /// A username like `@channel_name` or `channel_name`.
    AtName(String),
    /// A numeric id, without the prefix `-100`.
    Id(u64),
}

/// A destination for messages.
#[derive(Clone, Debug, Eq, Hash, PartialEq)]
pub enum TelegramDestination {
    /// A channel, which only broadcasts.
    Channel(TopLevelId),
    /// A group without a topic.
    Group(TopLevelId),
    /// A topic of a forum group.
    GroupTopic { group: TopLevelId, topic_id: u64 },
}

/// Why a text or a number names no user, group or topic.
#[derive(Clone, Debug, Eq, PartialEq)]
pub enum DestinationError {
    /// The text is no username.
    InvalidUsername(String),
    /// A user id is negative.
    NegativeUserId,
    /// The text holds no group id.
    InvalidId,
    /// The text holds no topic id.
    InvalidTopicId,
}

/// What a name or an id stands for.
pub enum Name {
    At(Seq<char>),
    Id(u64),
}

/// What a destination stands for.
pub enum Target {
    Channel(Name),
    Group(Name),
    GroupTopic(Name, u64),
}

impl View for Username {
    type V = Name;

    open spec fn view(&self) -> Name {
        match *self {
            Username::At(name) => Name::At(name@),
            Username::Id(id) => Name::Id(id),
        }
    }
}

impl View for TopLevelId {
    type V = Name;

    open spec fn view(&self) -> Name {
        match *self {
            TopLevelId::AtName(name) => Name::At(name@),
            TopLevelId::Id(id) => Name::Id(id),
        }
    }
}

impl View for TelegramDestination {
    type V = Target;

    open spec fn view(&self) -> Target {
        match *self {
            TelegramDestination::Channel(id) => Target::Channel(id@),
            TelegramDestination::Group(id) => Target::Group(id@),
            TelegramDestination::GroupTopic { group, topic_id } => Target::GroupTopic(
                group@,
                topic_id,
            ),
        }
    }
}

// ---------------------------------------------------------------------------
// What texts and numbers stand for
// ---------------------------------------------------------------------------

/// A name with `@` in front.
pub open spec fn at_text(name: Seq<char>) -> Seq<char> {
    if name.len() > 0 && name[0] == '@' {
        name
    } else {
        seq!['@'] + name
    }
}

/// The text without the characters `c` at its start.
pub open spec fn without_leading(s: Seq<char>, c: char) -> Seq<char>
    decreases s.len(),
{
    if s.len() > 0 && s[0] == c {
        without_leading(s.skip(1), c)
    } else {
        s
    }
}

/// The prefix of channel and group ids.
pub open spec fn minus_hundred() -> Seq<char> {
    seq!['-', '1', '0', '0']
}

/// The text without prefixes `-100` at its start.
pub open spec fn without_prefix(s: Seq<char>) -> Seq<char>
    decreases s.len(),
{
    if s.len() >= 4 && s.take(4) == minus_hundred() {
        without_prefix(s.skip(4))
    } else {
        s
    }
}

/// Letters, numbers and underscores alone.
pub open spec fn is_word_text(s: Seq<char>) -> bool {
    forall|i: int| 0 <= i < s.len() ==> alphanumeric(#[trigger] s[i]) || s[i] == '_'
}

/// Letters and underscores alone.
pub open spec fn is_letter_text(s: Seq<char>) -> bool {
    forall|i: int| 0 <= i < s.len() ==> alphabetic(#[trigger] s[i]) || s[i] == '_'
}

/// The user that a text names: one after `@`, a number, or a word.
pub open spec fn user_named(text: Seq<char>) -> Option<Name> {
    let s = trimmed(text);
    if s.len() > 0 && s[0] == '@' {
        Some(Name::At(s))
    } else if unsigned_value(s, u64::MAX as int) is Some {
        Some(Name::Id(unsigned_value(s, u64::MAX as int)->0 as u64))
    } else if is_word_text(s) {
        Some(Name::At(s))
    } else {
        None
    }
}

/// The numeric id in a text, after prefixes `-100` and minus signs.
pub open spec fn bare_id(s: Seq<char>) -> Option<Name> {
    match unsigned_value(without_leading(without_prefix(s), '-'), u64::MAX as int) {
        Some(id) => Some(Name::Id(id as u64)),
        None => None,
    }
}

/// The channel or group that a text names: one after `@`, letters and
/// underscores, or a number.
pub open spec fn group_named(text: Seq<char>) -> Option<Name> {
    let s = trimmed(text);
    if (s.len() > 0 && s[0] == '@') || is_letter_text(s) {
        Some(Name::At(s))
    } else {
        bare_id(s)
    }
}

/// The destination that a text names: a group, or a group and a topic with a
/// slash between them. A failure says whether it is the group that is no good.
pub open spec fn destination_named(text: Seq<char>) -> Result<Target, bool> {
    let s = trimmed(text);
    let slash = first_index(s, '/');
    if slash < s.len() {
        match group_named(s.take(slash)) {
            None => Err(true),
            Some(group) => match unsigned_value(s.skip(slash + 1), u64::MAX as int) {
                Some(topic) => Ok(Target::GroupTopic(group, topic as u64)),
                None => Err(false),
            },
        }
    } else {
        match group_named(s) {
            None => Err(true),
            Some(group) => Ok(Target::Group(group)),
        }
    }
}

/// The least power of ten above `id` that is at least ten.
pub open spec fn ten_above(id: int) -> int
    decreases id,
{
    if id < 10 {
        10
    } else {
        10 * ten_above(id / 10)
    }
}

/// The chat id of a channel or group: `-100` in front of the digits of its id.
pub open spec fn chat_id_of(id: int) -> int {
    -(100 * ten_above(id) + id)
}

/// The largest ids have sixteen digits: the chat id of a longer one is no `i64`.
pub const MAX_GROUP_ID: u64 = 9_999_999_999_999_999;

/// The group of a chat id: what follows `-100`, or the number without its sign.
pub open spec fn group_of(chat_id: int) -> Option<int> {
    let s = numeral(chat_id);
    if s.len() >= 4 && s.take(4) == minus_hundred() {
        unsigned_value(s.skip(4), u64::MAX as int)
    } else if chat_id > 0 {
        Some(chat_id)
    } else {
        unsigned_value(s.skip(1), u64::MAX as int)
    }
}

/// The group id of a destination, where it is known by a number.
pub open spec fn target_id(t: Target) -> Option<u64> {
    let name = match t {
        Target::Channel(n) => n,
        Target::Group(n) => n,
        Target::GroupTopic(n, topic) => n,
    };
    match name {
        Name::At(s) => None,
        Name::Id(id) => Some(id),
    }
}

/// The chat id parameter of a channel or group.
pub open spec fn chat_param(name: Name) -> Seq<char> {
    match name {
        Name::At(s) => at_text(s),
        Name::Id(id) => minus_hundred() + decimal(id as int),
    }
}

/// The parameters that name a destination in a call.
pub open spec fn target_params(t: Target) -> Seq<(Seq<char>, Seq<char>)> {
    match t {
        Target::Channel(n) => seq![("chat_id"@, chat_param(n))],
        Target::Group(n) => seq![("chat_id"@, chat_param(n))],
        Target::GroupTopic(n, topic) => seq![
            ("chat_id"@, chat_param(n)),
            ("message_thread_id"@, decimal(topic as int)),
        ],
    }
}

/// The texts of parameters.
pub open spec fn param_texts(v: Seq<(&'static str, String)>) -> Seq<(Seq<char>, Seq<char>)> {
    v.map_values(|p: (&'static str, String)| (p.0@, p.1@))
}

// ---------------------------------------------------------------------------
// Users, channels and groups
// ---------------------------------------------------------------------------

/// The text without the `@`s at its start.
fn without_ats(s: &str) -> (r: &str)
    ensures
        r@ == without_leading(s@, '@'),
{
    let len = s.unicode_len();
    let mut i: usize = 0;
    assert(s@.skip(0) =~= s@);
    while i < len && s.get_char(i) == '@'
        invariant
            i <= len,
            len == s@.len(),
            without_leading(s@, '@') == without_leading(s@.skip(i as int), '@'),
        decreases len - i,
    {
        assert(s@.skip(i as int).skip(1) =~= s@.skip(i + 1));
        i += 1;
    }
    let r = s.substring_char(i, len);
    assert(r@ =~= s@.skip(i as int));
    r
}

/// The decimal digits of a number.
pub fn decimal_string(n: u64) -> (r: String)
    ensures
        r@ == decimal(n as int),
{
    let mut v: Vec<char> = Vec::new();
    append_decimal(&mut v, n as u128);
    assert(v@ =~= decimal(n as int));
    from_chars(v.as_slice())
}

/// A name with `@` in front.
pub fn with_at(name: &String) -> (r: String)
    ensures
        r@ == at_text(name@),
{
    let v = to_chars(name.as_str());
    if v.len() > 0 && v[0] == '@' {
        from_chars(v.as_slice())
    } else {
        let mut out: Vec<char> = Vec::new();
        out.push('@');
        append(&mut out, v.as_slice());
        assert(out@ =~= seq!['@'] + name@);
        from_chars(out.as_slice())
    }
}

/// `-100` in front of the digits of an id.
pub fn prefixed_id(id: u64) -> (r: String)
    ensures
        r@ == minus_hundred() + decimal(id as int),
{
    let mut v: Vec<char> = Vec::new();
    v.push('-');
    v.push('1');
    v.push('0');
    v.push('0');
    assert(v@ =~= minus_hundred());
    append_decimal(&mut v, id as u128);
    from_chars(v.as_slice())
}

impl Username {
    /// The identifier as a parameter of a call: a username with `@`, or the
    /// digits of an id.
    pub fn api_param(&self) -> (r: String)
        ensures
            r@ == (match self@ {
                Name::At(name) => at_text(name),
                Name::Id(id) => decimal(id as int),
            }),
    {
        match self {
            Username::At(name) => with_at(name),
            Username::Id(id) => decimal_string(*id),
        }
    }

    /// The numeric id, where there is one.
    pub fn numeric_id(&self) -> (r: Option<u64>)
        ensures
            r == (match self@ {
                Name::At(name) => None,
                Name::Id(id) => Some(id),
            }),
    {
        match self {
            Username::At(_) => None,
            Username::Id(id) => Some(*id),
        }
    }

    /// The username without `@`, where there is one.
    pub fn name(&self) -> (r: Option<&str>)
        ensures
            match self@ {
                Name::At(name) => r is Some && r->0@ == without_leading(name, '@'),
                Name::Id(id) => r is None,
            },
    {
        match self {
            Username::At(name) => Some(without_ats(name.as_str())),
            Username::Id(_) => None,
        }
    }

    /// The user with a signed id, which must not be negative.
    pub fn from_signed(id: i64) -> (r: Result<Username, DestinationError>)
        ensures
            match r {
                Ok(u) => id >= 0 && u@ == Name::Id(id as u64),
                Err(e) => id < 0 && e is NegativeUserId,
            },
    {
        if id < 0 {
            Err(DestinationError::NegativeUserId)
        } else {
            Ok(Username::Id(id as u64))
        }
    }
}

/// Whether all characters are letters, numbers or underscores.
fn all_word(s: &[char]) -> (r: bool)
    ensures
        r == is_word_text(s@),
{
    let mut i: usize = 0;
    while i < s.len()
        invariant
            i <= s.len(),
            forall|j: int| 0 <= j < i ==> alphanumeric(#[trigger] s@[j]) || s@[j] == '_',
        decreases s.len() - i,
    {
        if !s[i].is_alphanumeric() && s[i] != '_' {
            assert(!alphanumeric(s@[i as int]));
            return false;
        }
        i += 1;
    }
    true
}

/// Whether all characters are letters or underscores.
pub fn all_letters(s: &[char]) -> (r: bool)
    ensures
        r == is_letter_text(s@),
{
    let mut i: usize = 0;
    while i < s.len()
        invariant
            i <= s.len(),
            forall|j: int| 0 <= j < i ==> alphabetic(#[trigger] s@[j]) || s@[j] == '_',
        decreases s.len() - i,
    {
        if !s[i].is_alphabetic() && s[i] != '_' {
            assert(!alphabetic(s@[i as int]));
            return false;
        }
        i += 1;
    }
    true
}

/// The user that a text names.
pub fn parse_username(s: &str) -> (r: Result<Username, DestinationError>)
    ensures
        match r {
            Ok(u) => user_named(s@) == Some(u@),
            Err(DestinationError::InvalidUsername(t)) => user_named(s@) is None && t@ == trimmed(
                s@,
            ),
            Err(_) => false,
        },
{
    let chars = to_chars(s);
    let t = trim(chars.as_slice());
    if t.len() > 0 && t[0] == '@' {
        return Ok(Username::At(from_chars(t)));
    }
    match parse_u64(t) {
        Some(id) => {
            return Ok(Username::Id(id));
        },
        None => {},
    }
    if all_word(t) {
        Ok(Username::At(from_chars(t)))
    } else {
        Err(DestinationError::InvalidUsername(from_chars(t)))
    }
}

/// The text without prefixes `-100` and then without minus signs at its start.
fn strip_sign(s: &[char]) -> (r: &[char])
    ensures
        r@ == without_leading(without_prefix(s@), '-'),
{
    let t = strip_prefix(s);
    let mut i: usize = 0;
    assert(t@.skip(0) =~= t@);
    while i < t.len() && t[i] == '-'
        invariant
            i <= t.len(),
            without_leading(t@, '-') == without_leading(t@.skip(i as int), '-'),
        decreases t.len() - i,
    {
        assert(t@.skip(i as int).skip(1) =~= t@.skip(i + 1));
        i += 1;
    }
    slice_subrange(t, i, t.len())
}

/// The text without prefixes `-100` at its start.
pub fn strip_prefix(s: &[char]) -> (r: &[char])
    ensures
        r@ == without_prefix(s@),
{
    let mut i: usize = 0;
    assert(s@.skip(0) =~= s@);
    while s.len() - i >= 4 && s[i] == '-' && s[i + 1] == '1' && s[i + 2] == '0' && s[i + 3] == '0'
        invariant
            i <= s.len(),
            without_prefix(s@) == without_prefix(s@.skip(i as int)),
        decreases s.len() - i,
    {
        proof {
            let t = s@.skip(i as int);
            assert(t.take(4) =~= minus_hundred());
            assert(t.skip(4) =~= s@.skip(i + 4));
        }
        i += 4;
    }
    proof {
        let t = s@.skip(i as int);
        if t.len() >= 4 && t.take(4) == minus_hundred() {
            assert(t.take(4)[0] == '-' && t.take(4)[1] == '1' && t.take(4)[2] == '0' && t.take(
                4,
            )[3] == '0');
        }
    }
    slice_subrange(s, i, s.len())
}

/// The channel or group that a text names.
pub fn parse_top_level_id(s: &str) -> (r: Result<TopLevelId, DestinationError>)
    ensures
        match r {
            Ok(g) => group_named(s@) == Some(g@),
            Err(e) => group_named(s@) is None && e is InvalidId,
        },
{
    parse_top_level_chars(to_chars(s).as_slice())
}

fn parse_top_level_chars(s: &[char]) -> (r: Result<TopLevelId, DestinationError>)
    ensures
        match r {
            Ok(g) => group_named(s@) == Some(g@),
            Err(e) => group_named(s@) is None && e is InvalidId,
        },
{
    let t = trim(s);
    if (t.len() > 0 && t[0] == '@') || all_letters(t) {
        return Ok(TopLevelId::AtName(from_chars(t)));
    }
    match parse_u64(strip_sign(t)) {
        Some(id) => Ok(TopLevelId::Id(id)),
        None => Err(DestinationError::InvalidId),
    }
}

impl TopLevelId {
    /// The chat id parameter of a call.
    pub fn chat_id_param(&self) -> (r: String)
        ensures
            r@ == chat_param(self@),
    {
        match self {
            TopLevelId::AtName(name) => with_at(name),
            TopLevelId::Id(id) => prefixed_id(*id),
        }
    }

    /// The numeric id, where there is one.
    pub fn numeric_id(&self) -> (r: Option<u64>)
        ensures
            r == (match self@ {
                Name::At(name) => None,
                Name::Id(id) => Some(id),
            }),
    {
        match self {
            TopLevelId::AtName(_) => None,
            TopLevelId::Id(id) => Some(*id),
        }
    }

    /// The channel or group with a signed id, which may have the prefix `-100`.
    pub fn from_signed(id: i64) -> (r: Result<TopLevelId, DestinationError>)
        ensures
            match r {
                Ok(g) => bare_id(numeral(id as int)) == Some(g@),
                Err(e) => bare_id(numeral(id as int)) is None && e is InvalidId,
            },
    {
        let mut v: Vec<char> = Vec::new();
        append_numeral(&mut v, id as i128);
        assert(v@ =~= numeral(id as int));
        match parse_u64(strip_sign(v.as_slice())) {
            Some(n) => Ok(TopLevelId::Id(n)),
            None => Err(DestinationError::InvalidId),
        }
    }
}

// ---------------------------------------------------------------------------
// Destinations
// ---------------------------------------------------------------------------

impl TelegramDestination {
    /// The parameters that name the destination in a call.
    pub fn destination_params(&self) -> (r: Vec<(&'static str, String)>)
        ensures
            param_texts(r@) == target_params(self@),
    {
        let mut r: Vec<(&'static str, String)> = Vec::new();
        match self {
            TelegramDestination::Channel(id) => {
                r.push(("chat_id", id.chat_id_param()));
            },
            TelegramDestination::Group(id) => {
                r.push(("chat_id", id.chat_id_param()));
            },
            TelegramDestination::GroupTopic { group, topic_id } => {
                r.push(("chat_id", group.chat_id_param()));
                r.push(("message_thread_id", decimal_string(*topic_id)));
            },
        }
        assert(param_texts(r@) =~= target_params(self@));
        r
    }

    /// The id of the channel or group, where it is known by a number.
    pub fn group_id(&self) -> (r: Option<u64>)
        ensures
            r == target_id(self@),
    {
        match self {
            TelegramDestination::Channel(id) => id.numeric_id(),
            TelegramDestination::Group(id) => id.numeric_id(),
            TelegramDestination::GroupTopic { group, topic_id: _ } => group.numeric_id(),
        }
    }

    /// The topic, where the destination is one.
    pub fn topic_id(&self) -> (r: Option<u64>)
        ensures
            r == (match self@ {
                Target::GroupTopic(n, topic) => Some(topic),
                _ => None,
            }),
    {
        match self {
            TelegramDestination::GroupTopic { group: _, topic_id } => Some(*topic_id),
            _ => None,
        }
    }

    /// The group and the topic, which is the general topic 1 where none is named.
    pub fn as_group_topic(&self) -> (r: Option<(u64, u64)>)
        ensures
            r == (match target_id(self@) {
                None => None,
                Some(id) => Some(
                    (id, (match self@ {
                        Target::GroupTopic(n, topic) => topic,
                        _ => 1,
                    })),
                ),
            }),
    {
        let topic: u64 = match self.topic_id() {
            Some(t) => t,
            None => 1,
        };
        match self.group_id() {
            Some(id) => Some((id, topic)),
            None => None,
        }
    }

    /// The chat id of the channel or group, where it is known by a number.
    pub fn telegram_chat_id(&self) -> (r: Option<i64>)
        requires
            target_id(self@) is Some ==> target_id(self@)->0 <= MAX_GROUP_ID,
        ensures
            match target_id(self@) {
                Some(id) => r is Some && r->0 == chat_id_of(id as int),
                None => r is None,
            },
    {
        match self.group_id() {
            Some(id) => Some(telegram_chat_id(id)),
            None => None,
        }
    }

    /// The group with a signed id, which may have the prefix `-100`.
    pub fn from_signed(id: i64) -> (r: Result<TelegramDestination, DestinationError>)
        ensures
            match r {
                Ok(d) => bare_id(numeral(id as int)) is Some && d@ == Target::Group(
                    bare_id(numeral(id as int))->0,
                ),
                Err(e) => bare_id(numeral(id as int)) is None && e is InvalidId,
            },
    {
        match TopLevelId::from_signed(id) {
            Ok(g) => Ok(TelegramDestination::Group(g)),
            Err(e) => Err(e),
        }
    }
}

impl Default for TelegramDestination {
    fn default() -> (r: Self)
        ensures
            r@ == Target::Group(Name::Id(0)),
    {
        TelegramDestination::Group(TopLevelId::Id(0))
    }
}

impl std::str::FromStr for TelegramDestination {
    type Err = DestinationError;

    fn from_str(s: &str) -> (r: Result<Self, DestinationError>)
        ensures
            match r {
                Ok(d) => destination_named(s@) == Ok::<Target, bool>(d@),
                Err(DestinationError::InvalidId) => destination_named(s@) == Err::<Target, bool>(
                    true,
                ),
                Err(DestinationError::InvalidTopicId) => destination_named(s@) == Err::<
                    Target,
                    bool,
                >(false),
                Err(_) => false,
            },
    {
        parse_telegram_destination_str(s)
    }
}

/// The destination that a text names.
pub fn parse_telegram_destination_str(s: &str) -> (r: Result<TelegramDestination, DestinationError>)
    ensures
        match r {
            Ok(d) => destination_named(s@) == Ok::<Target, bool>(d@),
            Err(DestinationError::InvalidId) => destination_named(s@) == Err::<Target, bool>(true),
            Err(DestinationError::InvalidTopicId) => destination_named(s@) == Err::<Target, bool>(
                false,
            ),
            Err(_) => false,
        },
{
    let chars = to_chars(s);
    let t = trim(chars.as_slice());
    let slash = find_char(t, 0, '/');
    assert(t@.skip(0) =~= t@);
    if slash < t.len() {
        let group = match parse_top_level_chars(slice_subrange(t, 0, slash)) {
            Ok(g) => g,
            Err(e) => {
                return Err(e);
            },
        };
        let topic = slice_subrange(t, slash + 1, t.len());
        assert(topic@ =~= t@.skip(slash + 1));
        match parse_u64(topic) {
            Some(topic_id) => Ok(TelegramDestination::GroupTopic { group, topic_id }),
            None => Err(DestinationError::InvalidTopicId),
        }
    } else {
        match parse_top_level_chars(t) {
            Ok(g) => Ok(TelegramDestination::Group(g)),
            Err(e) => Err(e),
        }
    }
}

// ---------------------------------------------------------------------------
// Chat ids
// ---------------------------------------------------------------------------

/// Powers of ten.
spec fn power_of_ten(k: int) -> int
    decreases k,
{
    if k <= 0 {
        1
    } else {
        10 * power_of_ten(k - 1)
    }
}

proof fn lemma_ten_above(id: int, k: int)
    requires
        0 <= id < power_of_ten(k),
        1 <= k,
    ensures
        10 <= ten_above(id) <= power_of_ten(k),
        id < ten_above(id),
    decreases id,
{
    if id < 10 {
        lemma_power_grows(k);
    } else {
        if k == 1 {
            assert(power_of_ten(0) == 1);
        }
        lemma_ten_above(id / 10, k - 1);
    }
}

proof fn lemma_power_grows(k: int)
    requires
        1 <= k,
    ensures
        10 <= power_of_ten(k),
    decreases k,
{
    if k == 1 {
        assert(power_of_ten(0) == 1);
    } else {
        lemma_power_grows(k - 1);
    }
}

proof fn lemma_sixteen_digits(id: int)
    requires
        0 <= id <= MAX_GROUP_ID,
    ensures
        10 <= ten_above(id) <= MAX_GROUP_ID + 1,
        id < ten_above(id),
{
    reveal_with_fuel(power_of_ten, 17);
    lemma_ten_above(id, 16);
}

/// The digits of `100` stand in front of those of `id`.
pub proof fn lemma_hundred_in_front(id: int)
    requires
        0 <= id,
    ensures
        decimal(100 * ten_above(id) + id) == seq!['1', '0', '0'] + decimal(id),
        ten_above(id) >= 10,
    decreases id,
{
    if id < 10 {
        reveal_with_fuel(decimal, 4);
        assert(decimal(1000 + id) =~= seq!['1', '0', '0'] + decimal(id));
    } else {
        lemma_hundred_in_front(id / 10);
        let n = 100 * ten_above(id) + id;
        assert(n / 10 == 100 * ten_above(id / 10) + id / 10);
        assert(n % 10 == id % 10);
        assert((seq!['1', '0', '0'] + decimal(id / 10)).push(digit_char(id % 10)) =~= seq![
            '1',
            '0',
            '0',
        ] + decimal(id));
    }
}

/// The least power of ten above `id` that is at least ten.
fn find_ten_above(id: u64) -> (r: u64)
    requires
        id <= MAX_GROUP_ID,
    ensures
        r == ten_above(id as int),
        r <= MAX_GROUP_ID + 1,
    decreases id,
{
    proof {
        lemma_sixteen_digits(id as int);
    }
    if id < 10 {
        10
    } else {
        10 * find_ten_above(id / 10)
    }
}

/// The chat id of a channel or group: `-100` in front of the digits of its id.
pub fn telegram_chat_id(id: u64) -> (r: i64)
    requires
        id <= MAX_GROUP_ID,
    ensures
        r == chat_id_of(id as int),
        numeral(r as int) == minus_hundred() + decimal(id as int),
{
    let p = find_ten_above(id);
    proof {
        lemma_hundred_in_front(id as int);
        let s = seq!['-'] + (seq!['1', '0', '0'] + decimal(id as int));
        assert(s =~= minus_hundred() + decimal(id as int));
    }
    -((100 * p + id) as i64)
}

/// The group id in a chat id: what follows `-100`, or the number without its sign.
pub fn extract_group_id(chat_id: i64) -> (r: Option<u64>)
    ensures
        match r {
            Some(id) => group_of(chat_id as int) == Some(id as int),
            None => group_of(chat_id as int) is None,
        },
{
    let mut v: Vec<char> = Vec::new();
    append_numeral(&mut v, chat_id as i128);
    assert(v@ =~= numeral(chat_id as int));
    let s = v.as_slice();
    proof {
        lemma_decimal(if chat_id < 0 {
            -(chat_id as int)
        } else {
            chat_id as int
        });
        if s@.len() >= 4 && s@.take(4) == minus_hundred() {
            assert(s@.take(4)[0] == s@[0] && s@.take(4)[1] == s@[1] && s@.take(4)[2] == s@[2]
                && s@.take(4)[3] == s@[3]);
        }
    }
    if s.len() >= 4 && s[0] == '-' && s[1] == '1' && s[2] == '0' && s[3] == '0' {
        assert(s@.take(4) =~= minus_hundred());
        let rest = slice_subrange(s, 4, s.len());
        assert(rest@ =~= s@.skip(4));
        parse_u64(rest)
    } else if chat_id > 0 {
        Some(chat_id as u64)
    } else {
        let rest = slice_subrange(s, 1, s.len());
        assert(rest@ =~= s@.skip(1));
        parse_u64(rest)
    }
}

// ---------------------------------------------------------------------------
// Laws
// ---------------------------------------------------------------------------

/// The group of the chat id made for a group is that group.
pub proof fn law_chat_id_round_trip(id: u64)
    requires
        id <= MAX_GROUP_ID,
    ensures
        group_of(chat_id_of(id as int)) == Some(id as int),
        i64::MIN <= chat_id_of(id as int) < 0,
{
    lemma_sixteen_digits(id as int);
    lemma_hundred_in_front(id as int);
    let s = numeral(chat_id_of(id as int));
    assert(s =~= minus_hundred() + decimal(id as int));
    assert(s.take(4) =~= minus_hundred());
    assert(s.skip(4) =~= decimal(id as int));
    lemma_unsigned_round_trip(id as int, u64::MAX as int);
}

/// A digit text names a number: it is no name.
proof fn lemma_digits_name_no_word(d: Seq<char>)
    requires
        d.len() > 0,
        all_digits(d),
    ensures
        trimmed(d) == d,
        !is_letter_text(d),
        without_leading(d, '-') == d,
        without_prefix(d) == d,
        d[0] != '@',
{
    assert(ascii_digit(d[0]));
    assert(ascii_digit(d[d.len() - 1]));
    lemma_trimmed_same(d);
    assert(!alphabetic(d[0]));
    if d.len() >= 4 {
        assert(d.take(4)[0] == d[0]);
    }
}

/// The digits of an id name the group with that id, with and without `-100` in
/// front.
pub proof fn law_group_id_texts(id: u64)
    ensures
        group_named(decimal(id as int)) == Some(Name::Id(id)),
        group_named(minus_hundred() + decimal(id as int)) == Some(Name::Id(id)),
{
    let d = decimal(id as int);
    lemma_decimal(id as int);
    lemma_unsigned_round_trip(id as int, u64::MAX as int);
    lemma_digits_name_no_word(d);
    let s = minus_hundred() + d;
    assert(ascii_digit(d[d.len() - 1]));
    assert(s.last() == d.last());
    lemma_trimmed_same(s);
    assert(!alphabetic(s[0]));
    assert(s.take(4) =~= minus_hundred());
    assert(s.skip(4) =~= d);
}

/// The chat id parameter of a channel or group names that channel or group; a
/// name gets its `@`.
pub proof fn law_chat_id_param_reads_back(name: Name)
    requires
        name matches Name::At(s) ==> trimmed(at_text(s)) == at_text(s),
    ensures
        group_named(chat_param(name)) == Some(
            (match name {
                Name::At(s) => Name::At(at_text(s)),
                Name::Id(id) => Name::Id(id),
            }),
        ),
{
    match name {
        Name::At(s) => {},
        Name::Id(id) => {
            law_group_id_texts(id);
        },
    }
}

/// A group id and a topic id with a slash between them name that topic.
pub proof fn law_topic_texts(group: u64, topic: u64)
    ensures
        destination_named(decimal(group as int) + seq!['/'] + decimal(topic as int)) == Ok::<
            Target,
            bool,
        >(Target::GroupTopic(Name::Id(group), topic)),
{
    let g = decimal(group as int);
    let t = decimal(topic as int);
    let s = g + seq!['/'] + t;
    lemma_decimal(group as int);
    lemma_decimal(topic as int);
    lemma_unsigned_round_trip(topic as int, u64::MAX as int);
    law_group_id_texts(group);
    assert(ascii_digit(g[0]));
    assert(ascii_digit(t[t.len() - 1]));
    assert(s[0] == g[0] && s.last() == t.last());
    lemma_trimmed_same(s);
    assert forall|j: int| 0 <= j < g.len() implies s[j] != '/' by {
        assert(ascii_digit(g[j]));
    }
    lemma_first_index_is(s, '/', g.len() as int);
    assert(s.take(g.len() as int) =~= g);
    assert(s.skip(g.len() as int + 1) =~= t);
}

/// A name is sent with one `@` more than it is shown with, or as it stands where it
/// has one already; without its leading ones it starts with none.
pub proof fn law_names_and_ats(name: Seq<char>)
    ensures
        at_text(name).len() > 0 && at_text(name)[0] == '@',
        at_text(at_text(name)) == at_text(name),
        without_leading(at_text(name), '@') == without_leading(name, '@'),
        without_leading(name, '@').len() > 0 ==> without_leading(name, '@')[0] != '@',
{
    lemma_no_leading(name, '@');
    let t = seq!['@'] + name;
    assert(t.skip(1) =~= name);
}

proof fn lemma_no_leading(s: Seq<char>, c: char)
    ensures
        without_leading(s, c).len() > 0 ==> without_leading(s, c)[0] != c,
    decreases s.len(),
{
    if s.len() > 0 && s[0] == c {
        lemma_no_leading(s.skip(1), c);
    }
}

} // verus!
