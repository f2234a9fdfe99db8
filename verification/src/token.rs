//! Subscription tokens, subscription handles and the outcomes of removal.

use vstd::prelude::*;

verus! {

/// The character of a decimal digit `d` (0 through 9).
pub open spec fn digit_char(d: int) -> char {
    if d == 0 {
        '0'
    } else if d == 1 {
        '1'
    } else if d == 2 {
        '2'
    } else if d == 3 {
        '3'
    } else if d == 4 {
        '4'
    } else if d == 5 {
        '5'
    } else if d == 6 {
        '6'
    } else if d == 7 {
        '7'
    } else if d == 8 {
        '8'
    } else {
        '9'
    }
}

/// The decimal representation of `n`, most significant digit first, with no
/// leading zeros.
pub open spec fn decimal(n: nat) -> Seq<char>
    decreases n,
{
    if n < 10 {
        seq![digit_char(n as int)]
    } else {
        decimal(n / 10).push(digit_char((n % 10) as int))
    }
}

/// The text of the token with counter value `uid`: `uid_` followed by the
/// number in decimal.
pub open spec fn uid_text(uid: nat) -> Seq<char> {
    seq!['u', 'i', 'd', '_'] + decimal(uid)
}

proof fn lemma_decimal_len(n: nat)
    ensures
        decimal(n).len() >= 1,
        n >= 10 ==> decimal(n).len() >= 2,
    decreases n,
{
    if n >= 10 {
        lemma_decimal_len(n / 10);
    }
}

/// Distinct numbers have distinct decimal representations.
proof fn lemma_decimal_injective(a: nat, b: nat)
    requires
        decimal(a) == decimal(b),
    ensures
        a == b,
    decreases a,
{
    lemma_decimal_len(a);
    lemma_decimal_len(b);
    if a < 10 && b < 10 {
        assert(decimal(a)[0] == digit_char(a as int));
        assert(decimal(b)[0] == digit_char(b as int));
    } else if a >= 10 && b >= 10 {
        let da = decimal(a);
        let db = decimal(b);
        assert(da.last() == digit_char((a % 10) as int));
        assert(db.last() == digit_char((b % 10) as int));
        assert(da.drop_last() =~= decimal(a / 10));
        assert(db.drop_last() =~= decimal(b / 10));
        lemma_decimal_injective(a / 10, b / 10);
    } else {
        assert(decimal(a).len() != decimal(b).len());
    }
}

/// Law: tokens are never reused. Two different counter values give two
/// different token texts.
pub proof fn lemma_uid_text_injective(a: nat, b: nat)
    requires
        a != b,
    ensures
        uid_text(a) != uid_text(b),
{
    if uid_text(a) == uid_text(b) {
        assert(decimal(a) =~= uid_text(a).subrange(4, uid_text(a).len() as int));
        assert(decimal(b) =~= uid_text(b).subrange(4, uid_text(b).len() as int));
        lemma_decimal_injective(a, b);
    }
}

/// The one-character string of digit `d`.
fn digit_str(d: u64) -> (s: &'static str)
    requires
        d < 10,
    ensures
        s@ == seq![digit_char(d as int)],
{
    proof {
        reveal_strlit("0");
        reveal_strlit("1");
        reveal_strlit("2");
        reveal_strlit("3");
        reveal_strlit("4");
        reveal_strlit("5");
        reveal_strlit("6");
        reveal_strlit("7");
        reveal_strlit("8");
        reveal_strlit("9");
    }
    let s = if d == 0 {
        "0"
    } else if d == 1 {
        "1"
    } else if d == 2 {
        "2"
    } else if d == 3 {
        "3"
    } else if d == 4 {
        "4"
    } else if d == 5 {
        "5"
    } else if d == 6 {
        "6"
    } else if d == 7 {
        "7"
    } else if d == 8 {
        "8"
    } else {
        "9"
    };
    assert(s@ =~= seq![digit_char(d as int)]);
    s
}

/// Appends the decimal representation of `n` to `text`.
fn push_decimal(text: &mut String, n: u64)
    ensures
        final(text)@ == old(text)@ + decimal(n as nat),
    decreases n,
{
    if n >= 10 {
        push_decimal(text, n / 10);
    }
    text.append(digit_str(n % 10));
    assert(text@ =~= old(text)@ + decimal(n as nat));
}

/// A handle to one subscription.
///
/// Tokens are unique for the life of a bus and never reused, even after a
/// subscriber is removed. A token's text is `uid_<n>`, where `n` counts the
/// subscriptions made on the bus before it, from zero.
#[derive(Debug, Clone, PartialEq, Eq, Hash)]
pub struct Token(String);

impl View for Token {
    type V = Seq<char>;

    closed spec fn view(&self) -> Seq<char> {
        self.0@
    }
}

impl Token {
    /// The token of the subscription with counter value `uid`.
    pub(crate) fn from_uid(uid: u64) -> (t: Token)
        ensures
            t@ == uid_text(uid as nat),
    {
        proof {
            reveal_strlit("uid_");
        }
        let mut text = "uid_".to_owned();
        push_decimal(&mut text, uid);
        Token(text)
    }

    /// A copy of this token.
    pub(crate) fn duplicate(&self) -> (t: Token)
        ensures
            t@ == self@,
    {
        Token(self.0.clone())
    }

    /// True when both tokens have the same text.
    pub(crate) fn same_as(&self, other: &Token) -> (r: bool)
        ensures
            r == (self@ == other@),
    {
        self.0 == other.0
    }

    /// The token's text as an owned `String`, shaped `uid_<n>`.
    pub fn text(&self) -> (s: String)
        ensures
            s@ == self@,
    {
        self.0.clone()
    }

    /// The token's string form, shaped `uid_<n>`.
    pub fn as_str(&self) -> (s: &str)
        ensures
            s@ == self@,
    {
        self.0.as_str()
    }
}

/// The outcome of a removal request.
///
/// A topic clear returns `Topic`, a found token returns itself, a removed
/// subscription handle returns `Removed`, and any miss returns `NoMatch`.
#[derive(Debug, Clone, PartialEq, Eq)]
pub enum Unsubscribed {
    /// A topic and its descendants were cleared. No token is recoverable.
    Topic,
    /// A token matched and was removed. Holds that token.
    Token(Token),
    /// A handle matched and at least one subscription was removed.
    Removed,
    /// Nothing matched.
    NoMatch,
}

impl Unsubscribed {
    /// True for any outcome that removed at least one subscription.
    pub fn is_some(&self) -> (r: bool)
        ensures
            r == !(self is NoMatch),
    {
        match self {
            Unsubscribed::NoMatch => false,
            _ => true,
        }
    }
}

/// A grouping handle returned with a token by a subscription.
///
/// Closures cannot be compared, so removal by function identity has no direct
/// analogue; a `Subscription` fills that gap. Removing by subscription removes
/// every entry registered under its handle.
#[derive(Debug, Clone, PartialEq, Eq, Hash)]
pub struct Subscription {
    token: Token,
    handle: u64,
}

impl View for Subscription {
    /// The token's text and the handle number.
    type V = (Seq<char>, u64);

    closed spec fn view(&self) -> (Seq<char>, u64) {
        (self.token@, self.handle)
    }
}

impl Subscription {
    pub(crate) fn new(token: Token, handle: u64) -> (s: Subscription)
        ensures
            s@ == (token@, handle),
    {
        Subscription { token, handle }
    }

    /// The handle number that groups this subscription's entries.
    pub(crate) fn handle(&self) -> (h: u64)
        ensures
            h == self@.1,
    {
        self.handle
    }

    /// The token for this subscription.
    pub fn token(&self) -> (t: &Token)
        ensures
            t@ == self@.0,
    {
        &self.token
    }
}

} // verus!
