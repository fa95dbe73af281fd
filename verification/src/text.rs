//! Text with an exact meaning.
//!
//! Every line this crate writes is put together from the pieces below, and
//! each piece says which characters it appends.

use vstd::prelude::*;

verus! {

/// `String::push` appends one character and changes nothing else.
pub assume_specification[ String::push ](s: &mut String, ch: char)
    ensures
        final(s)@ == old(s)@.push(ch),
;

/// The characters of several strings, in order.
pub open spec fn texts(parts: Seq<String>) -> Seq<Seq<char>> {
    Seq::new(parts.len(), |i: int| parts[i]@)
}

/// The character of one decimal digit.
pub open spec fn digit(d: nat) -> char {
    (48 + d) as char
}

/// A number in decimal, without leading zeroes.
pub open spec fn dec(n: nat) -> Seq<char>
    decreases n,
{
    if n < 10 {
        seq![digit(n)]
    } else {
        dec(n / 10).push(digit(n % 10))
    }
}

/// A number in decimal, with a sign when it is negative.
pub open spec fn dec_int(n: int) -> Seq<char> {
    if n < 0 {
        seq!['-'] + dec((-n) as nat)
    } else {
        dec(n as nat)
    }
}

/// As many copies of `c` as `width` has room for beside `len` characters.
pub open spec fn fill(c: char, len: nat, width: nat) -> Seq<char> {
    if len < width {
        Seq::new((width - len) as nat, |i: int| c)
    } else {
        Seq::empty()
    }
}

/// `s` filled up with spaces on the right to `width` characters.
pub open spec fn pad_right(s: Seq<char>, width: nat) -> Seq<char> {
    s + fill(' ', s.len(), width)
}

/// `s` filled up with spaces on the left to `width` characters.
pub open spec fn pad_left(s: Seq<char>, width: nat) -> Seq<char> {
    fill(' ', s.len(), width) + s
}

/// A number in decimal, filled up with zeroes on the left to `width` digits.
pub open spec fn dec_padded(n: nat, width: nat) -> Seq<char> {
    fill('0', dec(n).len(), width) + dec(n)
}

/// The parts one after another, with `sep` between each two.
pub open spec fn joined(parts: Seq<Seq<char>>, sep: Seq<char>) -> Seq<char>
    decreases parts.len(),
{
    if parts.len() == 0 {
        Seq::empty()
    } else if parts.len() == 1 {
        parts[0]
    } else {
        joined(parts.drop_last(), sep) + sep + parts.last()
    }
}

/// The first part, and the rest behind a separator.
pub proof fn lemma_joined_from_the_front(parts: Seq<Seq<char>>, sep: Seq<char>)
    requires
        parts.len() >= 2,
    ensures
        joined(parts, sep) == parts[0] + (sep + joined(parts.skip(1), sep)),
    decreases parts.len(),
{
    let less = parts.drop_last();
    let rest = parts.skip(1);
    assert(rest.last() == parts.last());
    if parts.len() == 2 {
        assert(joined(less, sep) == parts[0]);
        assert(joined(rest, sep) == parts[1]);
        assert(parts[0] + sep + parts[1] =~= parts[0] + (sep + parts[1]));
    } else {
        lemma_joined_from_the_front(less, sep);
        assert(less.skip(1) =~= rest.drop_last());
        let middle = joined(rest.drop_last(), sep);
        assert(parts[0] + (sep + middle) + sep + parts.last() =~= parts[0] + (sep + (middle + sep
            + parts.last())));
    }
}

/// Appends a number in decimal.
pub fn push_dec(out: &mut String, n: u64)
    ensures
        final(out)@ == old(out)@ + dec(n as nat),
    decreases n,
{
    if n >= 10 {
        push_dec(out, n / 10);
    }
    let d: u8 = (n % 10) as u8;
    out.push((48u8 + d) as char);
    assert(out@ =~= old(out)@ + dec(n as nat));
}

/// Appends a number in decimal, with a sign when it is negative.
pub fn push_int(out: &mut String, n: i64)
    ensures
        final(out)@ == old(out)@ + dec_int(n as int),
{
    if n < 0 {
        out.push('-');
        let size: u64 = (-(n as i128)) as u64;
        push_dec(out, size);
        assert(out@ =~= old(out)@ + dec_int(n as int));
    } else {
        push_dec(out, n as u64);
    }
}

/// Appends the copies of `c` that `width` has room for beside `len`
/// characters.
fn push_fill(out: &mut String, c: char, len: usize, width: usize)
    ensures
        final(out)@ == old(out)@ + fill(c, len as nat, width as nat),
{
    let mut have: usize = len;
    while have < width
        invariant
            len <= have,
            have <= width || have == len,
            out@ == old(out)@ + Seq::new((have - len) as nat, |i: int| c),
        decreases width - have,
    {
        out.push(c);
        have = have + 1;
        assert(out@ =~= old(out)@ + Seq::new((have - len) as nat, |i: int| c));
    }
    assert(out@ =~= old(out)@ + fill(c, len as nat, width as nat));
}

/// Appends `s`, filled up with spaces on the right to `width` characters.
pub fn push_right(out: &mut String, s: &str, width: usize)
    ensures
        final(out)@ == old(out)@ + pad_right(s@, width as nat),
{
    out.append(s);
    push_fill(out, ' ', s.unicode_len(), width);
    assert(out@ =~= old(out)@ + pad_right(s@, width as nat));
}

/// Appends `s`, filled up with spaces on the left to `width` characters.
pub fn push_left(out: &mut String, s: &str, width: usize)
    ensures
        final(out)@ == old(out)@ + pad_left(s@, width as nat),
{
    push_fill(out, ' ', s.unicode_len(), width);
    out.append(s);
    assert(out@ =~= old(out)@ + pad_left(s@, width as nat));
}

/// A number in decimal.
pub fn decimal(n: u64) -> (out: String)
    ensures
        out@ == dec(n as nat),
{
    let mut out = String::new();
    push_dec(&mut out, n);
    assert(out@ =~= dec(n as nat));
    out
}

/// Appends a number in decimal, filled up with spaces on the left to `width`
/// characters.
pub fn push_dec_left(out: &mut String, n: u64, width: usize)
    ensures
        final(out)@ == old(out)@ + pad_left(dec(n as nat), width as nat),
{
    let s = decimal(n);
    push_left(out, s.as_str(), width);
}

/// Appends a number in decimal, filled up with zeroes on the left to `width`
/// digits.
pub fn push_dec_padded(out: &mut String, n: u64, width: usize)
    ensures
        final(out)@ == old(out)@ + dec_padded(n as nat, width as nat),
{
    let s = decimal(n);
    push_fill(out, '0', s.as_str().unicode_len(), width);
    out.append(s.as_str());
    assert(out@ =~= old(out)@ + dec_padded(n as nat, width as nat));
}

/// Appends the parts one after another, with `sep` between each two.
pub fn push_joined(out: &mut String, parts: &Vec<String>, sep: &str)
    ensures
        final(out)@ == old(out)@ + joined(texts(parts@), sep@),
{
    let mut i: usize = 0;
    while i < parts.len()
        invariant
            i <= parts.len(),
            out@ == old(out)@ + joined(texts(parts@).take(i as int), sep@),
        decreases parts.len() - i,
    {
        let ghost before = texts(parts@).take(i as int);
        let ghost after = texts(parts@).take(i + 1);
        if i > 0 {
            out.append(sep);
        }
        out.append(parts[i].as_str());
        proof {
            assert(after.drop_last() =~= before);
            assert(after.last() == parts[i as int]@);
            assert(out@ =~= old(out)@ + joined(after, sep@));
        }
        i = i + 1;
    }
    assert(texts(parts@).take(parts.len() as int) =~= texts(parts@));
}

/// The characters of a string, as values that can be indexed.
pub fn chars_of(s: &str) -> (out: Vec<char>)
    ensures
        out@ == s@,
{
    let mut out: Vec<char> = Vec::new();
    for c in it: s.chars()
        invariant
            it.seq() == s@,
            out@ == it.seq().take(it.index() as int),
    {
        out.push(c);
        assert(out@ =~= it.seq().take(it.index() + 1));
    }
    assert(out@ =~= s@);
    out
}

/// Whether two strings hold the same characters.
pub fn same(a: &str, b: &str) -> (r: bool)
    ensures
        r == (a@ == b@),
{
    let x = chars_of(a);
    let y = chars_of(b);
    if x.len() != y.len() {
        return false;
    }
    let mut i: usize = 0;
    while i < x.len()
        invariant
            x@ == a@,
            y@ == b@,
            x.len() == y.len(),
            i <= x.len(),
            forall|j: int| 0 <= j < i ==> x@[j] == y@[j],
        decreases x.len() - i,
    {
        if x[i] != y[i] {
            return false;
        }
        i = i + 1;
    }
    assert(x@ =~= y@);
    true
}

/// The characters that Unicode calls white space.
pub open spec fn white(c: char) -> bool {
    let n = c as int;
    9 <= n <= 13 || n == 32 || n == 0x85 || n == 0xA0 || n == 0x1680 || 0x2000 <= n <= 0x200A || n
        == 0x2028 || n == 0x2029 || n == 0x202F || n == 0x205F || n == 0x3000
}

/// Nothing but white space.
pub open spec fn blank(s: Seq<char>) -> bool {
    forall|i: int| 0 <= i < s.len() ==> white(#[trigger] s[i])
}

/// `s` from its first character on that is no white space.
pub open spec fn without_leading(s: Seq<char>) -> Seq<char>
    decreases s.len(),
{
    if s.len() > 0 && white(s[0]) {
        without_leading(s.skip(1))
    } else {
        s
    }
}

/// `s` up to its last character that is no white space.
pub open spec fn without_trailing(s: Seq<char>) -> Seq<char>
    decreases s.len(),
{
    if s.len() > 0 && white(s.last()) {
        without_trailing(s.drop_last())
    } else {
        s
    }
}

fn is_white(c: char) -> (r: bool)
    ensures
        r == white(c),
{
    ('\u{9}' <= c && c <= '\u{d}') || c == ' ' || c == '\u{85}' || c == '\u{a0}' || c
        == '\u{1680}' || ('\u{2000}' <= c && c <= '\u{200a}') || c == '\u{2028}' || c
        == '\u{2029}' || c == '\u{202f}' || c == '\u{205f}' || c == '\u{3000}'
}

/// Whether a string holds nothing but white space.
pub fn is_blank(s: &str) -> (r: bool)
    ensures
        r == blank(s@),
{
    let x = chars_of(s);
    let mut i: usize = 0;
    while i < x.len()
        invariant
            x@ == s@,
            i <= x@.len(),
            forall|j: int| 0 <= j < i ==> white(#[trigger] x@[j]),
        decreases x@.len() - i,
    {
        if !is_white(x[i]) {
            return false;
        }
        i = i + 1;
    }
    true
}

/// A string without the white space at its front.
pub fn trim_start(s: &str) -> (r: &str)
    ensures
        r@ == without_leading(s@),
{
    let x = chars_of(s);
    let mut i: usize = 0;
    assert(x@.skip(0) =~= x@);
    while i < x.len() && is_white(x[i])
        invariant
            x@ == s@,
            i <= x@.len(),
            without_leading(s@) == without_leading(x@.skip(i as int)),
        decreases x@.len() - i,
    {
        assert(x@.skip(i as int).skip(1) =~= x@.skip(i + 1));
        i = i + 1;
    }
    let r = s.substring_char(i, x.len());
    assert(r@ =~= x@.skip(i as int));
    r
}

/// A string without the white space at its end.
pub fn trim_end(s: &str) -> (r: &str)
    ensures
        r@ == without_trailing(s@),
{
    let x = chars_of(s);
    let mut n: usize = x.len();
    assert(x@.take(n as int) =~= x@);
    while n > 0 && is_white(x[n - 1])
        invariant
            x@ == s@,
            n <= x@.len(),
            without_trailing(s@) == without_trailing(x@.take(n as int)),
        decreases n,
    {
        assert(x@.take(n as int).drop_last() =~= x@.take(n - 1));
        n = n - 1;
    }
    let r = s.substring_char(0, n);
    assert(r@ =~= x@.take(n as int));
    r
}

/// Whether a string starts with another.
pub fn starts_with(s: &str, start: &str) -> (r: bool)
    ensures
        r == start@.is_prefix_of(s@),
{
    let x = chars_of(s);
    let y = chars_of(start);
    if y.len() > x.len() {
        return false;
    }
    let mut i: usize = 0;
    while i < y.len()
        invariant
            x@ == s@,
            y@ == start@,
            y@.len() <= x@.len(),
            i <= y@.len(),
            forall|j: int| 0 <= j < i ==> x@[j] == y@[j],
        decreases y@.len() - i,
    {
        if x[i] != y[i] {
            assert(s@.subrange(0, start@.len() as int)[i as int] != start@[i as int]);
            return false;
        }
        i = i + 1;
    }
    assert(start@ =~= s@.subrange(0, start@.len() as int));
    true
}

// The order of texts.

/// Whether one text sorts before another: by the first character that differs,
/// and a text before every longer one that it starts.
pub open spec fn sorts_before(a: Seq<char>, b: Seq<char>) -> bool
    decreases a.len(),
{
    if b.len() == 0 {
        false
    } else if a.len() == 0 {
        true
    } else if a[0] != b[0] {
        (a[0] as int) < (b[0] as int)
    } else {
        sorts_before(a.skip(1), b.skip(1))
    }
}

/// No text sorts before itself, and of two that differ one sorts before the
/// other.
pub proof fn lemma_sorts_apart(a: Seq<char>, b: Seq<char>)
    ensures
        !(sorts_before(a, b) && sorts_before(b, a)),
        a == b ==> !sorts_before(a, b),
        a != b ==> sorts_before(a, b) || sorts_before(b, a),
    decreases a.len(),
{
    if a.len() == 0 || b.len() == 0 {
        if a.len() == b.len() {
            assert(a =~= b);
        }
    } else if a[0] == b[0] {
        lemma_sorts_apart(a.skip(1), b.skip(1));
        if a.skip(1) == b.skip(1) {
            assert(a =~= seq![a[0]] + a.skip(1));
            assert(b =~= seq![b[0]] + b.skip(1));
        }
    }
}

/// What sorts before a text sorts before everything behind it.
pub proof fn lemma_sorts_through(a: Seq<char>, b: Seq<char>, c: Seq<char>)
    requires
        sorts_before(a, b),
        sorts_before(b, c),
    ensures
        sorts_before(a, c),
    decreases a.len(),
{
    if a.len() > 0 && a[0] == b[0] && b[0] == c[0] {
        lemma_sorts_through(a.skip(1), b.skip(1), c.skip(1));
    }
}

/// Whether one text sorts before another.
pub fn before(a: &str, b: &str) -> (r: bool)
    ensures
        r == sorts_before(a@, b@),
{
    let x = chars_of(a);
    let y = chars_of(b);
    let mut i: usize = 0;
    assert(x@.skip(0) =~= x@);
    assert(y@.skip(0) =~= y@);
    while i < x.len() && i < y.len() && x[i] == y[i]
        invariant
            i <= x@.len(),
            i <= y@.len(),
            sorts_before(a@, b@) == sorts_before(x@.skip(i as int), y@.skip(i as int)),
        decreases x@.len() - i,
    {
        assert(x@.skip(i as int).skip(1) =~= x@.skip(i + 1));
        assert(y@.skip(i as int).skip(1) =~= y@.skip(i + 1));
        i = i + 1;
    }
    if i == y.len() {
        false
    } else if i == x.len() {
        true
    } else {
        x[i] < y[i]
    }
}

// What each piece of text is for.

/// A number in decimal: one digit up to nine, and above that the digits of a
/// tenth of it and then the last one.
pub proof fn law_a_number_is_its_digits(n: nat)
    ensures
        n < 10 ==> dec(n) == seq![(48 + n) as char],
        n >= 10 ==> dec(n) == dec(n / 10) + seq![(48 + n % 10) as char],
{
    if n >= 10 {
        assert(dec(n) =~= dec(n / 10) + seq![(48 + n % 10) as char]);
    }
}

/// A sign stands before a number below nought, and before no other.
pub proof fn law_a_sign_is_for_what_is_below_nought(n: nat)
    ensures
        dec_int(n as int) == dec(n),
        n > 0 ==> dec_int(-(n as int)) == seq!['-'] + dec(n),
{
}

/// Padding adds spaces up to a width and changes nothing else: text stands at
/// the right when it is filled up on the left, and the other way round, and
/// what is wider than the width stays as it is.
pub proof fn law_padding_is_spaces(s: Seq<char>, width: nat)
    ensures
        ({
            let n: nat = if s.len() < width {
                (width - s.len()) as nat
            } else {
                0
            };
            &&& pad_left(s, width) == Seq::new(n, |i: int| ' ') + s
            &&& pad_right(s, width) == s + Seq::new(n, |i: int| ' ')
        }),
{
    if s.len() >= width {
        assert(pad_left(s, width) =~= Seq::new(0, |i: int| ' ') + s);
        assert(pad_right(s, width) =~= s + Seq::new(0, |i: int| ' '));
    }
}

/// A padded number has noughts in front of its digits, up to a width.
pub proof fn law_a_padded_number_has_noughts_in_front(n: nat, width: nat)
    ensures
        dec(n).len() >= width ==> dec_padded(n, width) == dec(n),
        dec(n).len() < width ==> dec_padded(n, width) == Seq::new(
            (width - dec(n).len()) as nat,
            |i: int| '0',
        ) + dec(n),
{
    if dec(n).len() >= width {
        assert(dec_padded(n, width) =~= dec(n));
    }
}

/// A list in words is its parts with the separator between each two, and
/// nowhere else.
pub proof fn law_a_list_has_separators_between(
    parts: Seq<Seq<char>>,
    last: Seq<char>,
    sep: Seq<char>,
)
    ensures
        joined(Seq::<Seq<char>>::empty(), sep) == Seq::<char>::empty(),
        joined(seq![last], sep) == last,
        parts.len() > 0 ==> joined(parts.push(last), sep) == joined(parts, sep) + sep + last,
{
    assert(parts.push(last).drop_last() =~= parts);
}

/// Strings are their characters, one by one.
pub proof fn law_texts_are_one_by_one(parts: Seq<String>)
    ensures
        texts(parts).len() == parts.len(),
        forall|i: int| 0 <= i < parts.len() ==> #[trigger] texts(parts)[i] == parts[i]@,
{
}

/// Which characters are white space: in ASCII the five from tab to carriage
/// return and the space, and nineteen others.
pub proof fn law_what_white_space_is(c: char)
    ensures
        (c as int) < 128 ==> (white(c) <==> c == '\t' || c == '\n' || c as int == 11 || c as int == 12
            || c == '\r' || c == ' '),
        (c as int) >= 128 ==> (white(c) <==> c == '\u{85}' || c == '\u{a0}' || c == '\u{1680}' || (
        '\u{2000}' <= c && c <= '\u{200a}') || c == '\u{2028}' || c == '\u{2029}' || c == '\u{202f}'
            || c == '\u{205f}' || c == '\u{3000}'),
{
}

/// White space is taken off the front, all of it, and nothing else is.
pub proof fn law_only_leading_white_space_goes(s: Seq<char>)
    ensures
        ({
            let rest = without_leading(s);
            let n = s.len() - rest.len();
            &&& 0 <= n
            &&& rest == s.skip(n)
            &&& blank(s.take(n))
            &&& rest.len() > 0 ==> !white(rest[0])
        }),
    decreases s.len(),
{
    if s.len() > 0 && white(s[0]) {
        let less = s.skip(1);
        law_only_leading_white_space_goes(less);
        let rest = without_leading(s);
        let n = s.len() - rest.len();
        assert(rest =~= s.skip(n));
        assert forall|i: int| 0 <= i < n implies white(#[trigger] s.take(n)[i]) by {
            if i > 0 {
                assert(white(less.take(n - 1)[i - 1]));
            }
        }
    } else {
        assert(s.skip(0) =~= s);
    }
}

/// The same of the end.
pub proof fn law_only_trailing_white_space_goes(s: Seq<char>)
    ensures
        ({
            let rest = without_trailing(s);
            &&& rest.len() <= s.len()
            &&& rest == s.take(rest.len() as int)
            &&& blank(s.skip(rest.len() as int))
            &&& rest.len() > 0 ==> !white(rest.last())
        }),
    decreases s.len(),
{
    if s.len() > 0 && white(s.last()) {
        let less = s.drop_last();
        law_only_trailing_white_space_goes(less);
        let rest = without_trailing(s);
        let n = rest.len() as int;
        assert(rest =~= s.take(n));
        assert forall|i: int| 0 <= i < s.len() - n implies white(#[trigger] s.skip(n)[i]) by {
            if i < less.len() - n {
                assert(white(less.skip(n)[i]));
            }
        }
    } else {
        assert(s.take(s.len() as int) =~= s);
    }
}

/// A text is blank exactly when all of it is white space, and then nothing is
/// left of it.
pub proof fn law_a_blank_text_is_all_white(s: Seq<char>)
    ensures
        blank(s) <==> forall|i: int| 0 <= i < s.len() ==> white(#[trigger] s[i]),
        blank(s) <==> without_leading(s).len() == 0,
{
    law_only_leading_white_space_goes(s);
    let rest = without_leading(s);
    if rest.len() == 0 {
        assert(s.take(s.len() as int) =~= s);
    } else if blank(s) {
        let n = s.len() - rest.len();
        assert(rest[0] == s[n]);
    }
}

/// Texts are sorted by the first character in which they differ; and one that
/// is the beginning of another comes first.
pub proof fn law_the_first_difference_decides(
    start: Seq<char>,
    a: Seq<char>,
    b: Seq<char>,
)
    ensures
        a.len() > 0 && b.len() > 0 && a[0] != b[0] ==> (sorts_before(start + a, start + b) <==> (
        a[0] as int) < (b[0] as int)),
        a.len() == 0 && b.len() > 0 ==> sorts_before(start + a, start + b),
        b.len() == 0 ==> !sorts_before(start + a, start + b),
    decreases start.len(),
{
    if start.len() == 0 {
        assert(start + a =~= a);
        assert(start + b =~= b);
    } else {
        let less = start.skip(1);
        law_the_first_difference_decides(less, a, b);
        assert((start + a).skip(1) =~= less + a);
        assert((start + b).skip(1) =~= less + b);
    }
}

} // verus!
