//! How thresholds are read out of JSON.
//!
//! A small part of JSON: objects, names without escapes, and whole numbers,
//! with white space between them. It is what a `per_relay` section is written
//! in, and it serves to say what a text means.

use vstd::prelude::*;

verus! {

/// One piece of JSON.
pub ghost enum Token {
    Open,
    Close,
    Colon,
    Comma,
    Name(Seq<char>),
    Number(nat),
}

/// The white space that JSON allows between pieces.
pub open spec fn is_space(c: char) -> bool {
    c == ' ' || c == '\n' || c == '\r' || c == '\t'
}

/// The piece that one character is.
pub open spec fn mark(c: char) -> Option<Token> {
    if c == '{' {
        Some(Token::Open)
    } else if c == '}' {
        Some(Token::Close)
    } else if c == ':' {
        Some(Token::Colon)
    } else if c == ',' {
        Some(Token::Comma)
    } else {
        None
    }
}

/// Whether a character stands for itself within a name: no quotation mark, no
/// backslash, and no control character.
pub open spec fn is_plain(c: char) -> bool {
    c != '"' && c != '\\' && c as int >= 32
}

/// How many plain characters a text starts with.
pub open spec fn plain_run(s: Seq<char>) -> nat
    decreases s.len(),
{
    if s.len() == 0 || !is_plain(s[0]) {
        0
    } else {
        1 + plain_run(s.skip(1))
    }
}

/// How many digits a text starts with.
pub open spec fn digit_run(s: Seq<char>) -> nat
    decreases s.len(),
{
    if s.len() == 0 || !crate::ratio::is_digit(s[0]) {
        0
    } else {
        1 + digit_run(s.skip(1))
    }
}

/// One piece and those that follow it, when they can be read.
pub open spec fn lead(t: Token, rest: Option<Seq<Token>>) -> Option<Seq<Token>> {
    match rest {
        Some(more) => Some(seq![t] + more),
        None => None,
    }
}

/// The pieces of a text; nothing when it is not made of such pieces.
#[verifier::opaque]
pub open spec fn tokens(s: Seq<char>) -> Option<Seq<Token>>
    decreases s.len(),
{
    if s.len() == 0 {
        Some(Seq::empty())
    } else if is_space(s[0]) {
        tokens(s.skip(1))
    } else if mark(s[0]) is Some {
        lead(mark(s[0])->0, tokens(s.skip(1)))
    } else if s[0] == '"' {
        let n = plain_run(s.skip(1)) as int;
        if n + 1 < s.len() && s[n + 1] == '"' {
            lead(Token::Name(s.subrange(1, n + 1)), tokens(s.skip(n + 2)))
        } else {
            None
        }
    } else {
        let n = digit_run(s) as int;
        if 0 < n <= s.len() && (n == 1 || s[0] != '0') {
            lead(Token::Number(crate::ratio::digits_value(s.take(n))), tokens(s.skip(n)))
        } else {
            None
        }
    }
}

/// One threshold: a name, and an object that holds nothing but its
/// `idle_seconds`.
pub open spec fn read_threshold(t: Seq<Token>) -> Option<(Seq<char>, nat)> {
    if t.len() >= 7 && t[0] is Name && t[1] == Token::Colon && t[2] == Token::Open && t[3]
        == Token::Name("idle_seconds"@) && t[4] == Token::Colon && t[5] is Number && t[6]
        == Token::Close {
        Some((t[0]->Name_0, t[5]->Number_0))
    } else {
        None
    }
}

/// Thresholds with commas between them, and what follows.
pub open spec fn read_thresholds(t: Seq<Token>) -> Option<(Seq<(Seq<char>, nat)>, Seq<Token>)>
    decreases t.len(),
{
    match read_threshold(t) {
        Some(one) => if t.len() > 7 && t[7] == Token::Comma {
            match read_thresholds(t.skip(8)) {
                Some((more, rest)) => Some((seq![one] + more, rest)),
                None => None,
            }
        } else {
            Some((seq![one], t.skip(7)))
        },
        None => None,
    }
}

/// The thresholds of a JSON object that holds a `per_relay` section and nothing
/// else, in their order.
pub open spec fn read_per_relay(s: Seq<char>) -> Option<Seq<(Seq<char>, nat)>> {
    match tokens(s) {
        Some(t) => if t.len() >= 4 && t[0] == Token::Open && t[1] == Token::Name("per_relay"@)
            && t[2] == Token::Colon && t[3] == Token::Open {
            let end = seq![Token::Close, Token::Close];
            if t.skip(4) == end {
                Some(Seq::empty())
            } else {
                match read_thresholds(t.skip(4)) {
                    Some((all, rest)) => if rest == end {
                        Some(all)
                    } else {
                        None
                    },
                    None => None,
                }
            }
        } else {
            None
        },
        None => None,
    }
}

// Reading pieces off the front.

/// White space is stepped over.
pub proof fn lemma_space(c: char, rest: Seq<char>)
    requires
        is_space(c),
    ensures
        tokens(seq![c] + rest) == tokens(rest),
{
    reveal(tokens);
    assert((seq![c] + rest).skip(1) =~= rest);
}

/// A mark is read off the front.
pub proof fn lemma_mark(c: char, rest: Seq<char>)
    requires
        mark(c) is Some,
    ensures
        tokens(seq![c] + rest) == lead(mark(c)->0, tokens(rest)),
{
    reveal(tokens);
    assert((seq![c] + rest).skip(1) =~= rest);
}

proof fn lemma_plain_run(name: Seq<char>, rest: Seq<char>)
    requires
        forall|i: int| 0 <= i < name.len() ==> is_plain(#[trigger] name[i]),
        rest.len() > 0,
        !is_plain(rest[0]),
    ensures
        plain_run(name + rest) == name.len(),
    decreases name.len(),
{
    let s = name + rest;
    if name.len() == 0 {
        assert(s[0] == rest[0]);
    } else {
        let less = name.skip(1);
        assert(is_plain(name[0]));
        assert forall|i: int| 0 <= i < less.len() implies is_plain(#[trigger] less[i]) by {
            assert(is_plain(name[i + 1]));
        }
        lemma_plain_run(less, rest);
        assert(s.skip(1) =~= less + rest);
    }
}

/// A name is read off the front.
pub proof fn lemma_name(name: Seq<char>, rest: Seq<char>)
    requires
        forall|i: int| 0 <= i < name.len() ==> is_plain(#[trigger] name[i]),
    ensures
        tokens(seq!['"'] + (name + (seq!['"'] + rest))) == lead(Token::Name(name), tokens(rest)),
{
    reveal(tokens);
    let tail = seq!['"'] + rest;
    let s = seq!['"'] + (name + tail);
    let n = name.len() as int;
    lemma_plain_run(name, tail);
    assert(s.skip(1) =~= name + tail);
    assert(s[n + 1] == tail[0]);
    assert(s.subrange(1, n + 1) =~= name);
    assert(s.skip(n + 2) =~= rest);
}

proof fn lemma_digit_run(digits: Seq<char>, rest: Seq<char>)
    requires
        crate::ratio::all_digits(digits),
        rest.len() > 0 ==> !crate::ratio::is_digit(rest[0]),
    ensures
        digit_run(digits + rest) == digits.len(),
    decreases digits.len(),
{
    let s = digits + rest;
    if digits.len() == 0 {
        assert(s =~= rest);
    } else {
        let less = digits.skip(1);
        assert(crate::ratio::is_digit(digits[0]));
        assert forall|i: int| 0 <= i < less.len() implies crate::ratio::is_digit(
            #[trigger] less[i],
        ) by {
            assert(crate::ratio::is_digit(digits[i + 1]));
        }
        lemma_digit_run(less, rest);
        assert(s.skip(1) =~= less + rest);
    }
}

/// A number is read off the front.
pub proof fn lemma_number(n: nat, rest: Seq<char>)
    requires
        rest.len() > 0 ==> !crate::ratio::is_digit(rest[0]),
    ensures
        tokens(crate::text::dec(n) + rest) == lead(Token::Number(n), tokens(rest)),
{
    reveal(tokens);
    let digits = crate::text::dec(n);
    let s = digits + rest;
    crate::ratio::lemma_dec_reads_back(n);
    lemma_digit_run(digits, rest);
    assert(s[0] == digits[0]);
    assert(crate::ratio::is_digit(digits[0]));
    assert(s.take(digits.len() as int) =~= digits);
    assert(s.skip(digits.len() as int) =~= rest);
}

} // verus!
