//! Text helpers shared by the key formats: decimal digits, splitting on a
//! separator, lexicographic order, and conversions between `String` and
//! `Vec<char>`.
use vstd::prelude::*;

verus! {

/// The ASCII digit for `d` (`0 <= d < 10`).
pub open spec fn digit_char(d: int) -> char {
    (48 + d) as char
}

pub open spec fn is_digit(c: char) -> bool {
    '0' <= c && c <= '9'
}

/// The value of an ASCII digit.
pub open spec fn digit_value(c: char) -> int {
    (c as int) - 48
}

/// The decimal representation of `n` without leading zeros (`"0"` for zero).
pub open spec fn decimal(n: nat) -> Seq<char>
    decreases n,
{
    if n < 10 {
        seq![digit_char(n as int)]
    } else {
        decimal(n / 10).push(digit_char((n % 10) as int))
    }
}

/// The `w` low-order decimal digits of `n`, most significant first
/// (`n` zero-padded to width `w` when `n < 10^w`).
pub open spec fn fixed_digits(n: nat, w: nat) -> Seq<char>
    decreases w,
{
    if w == 0 {
        Seq::empty()
    } else {
        fixed_digits(n / 10, (w - 1) as nat).push(digit_char((n % 10) as int))
    }
}

/// The number that a sequence of ASCII digits denotes.
pub open spec fn digits_value(s: Seq<char>) -> nat
    decreases s.len(),
{
    if s.len() == 0 {
        0
    } else {
        (digits_value(s.drop_last()) * 10 + digit_value(s.last())) as nat
    }
}

pub open spec fn all_digits(s: Seq<char>) -> bool {
    forall|i: int| 0 <= i < s.len() ==> is_digit(#[trigger] s[i])
}

/// Why an integer could not be read from a text, as `ParseIntError` tells it.
#[derive(Clone, Copy, Debug, PartialEq, Eq, Structural)]
pub enum IntErrorKind {
    /// The text is empty.
    Empty,
    /// The text holds a character that is not a digit.
    InvalidDigit,
    /// The number is larger than the type holds.
    PosOverflow,
}

/// Reads the digits `d` left to right after `acc` has been read, failing at
/// the first non-digit or at the first prefix whose value exceeds `max`.
pub open spec fn scan_digits(d: Seq<char>, acc: nat, max: nat) -> Result<nat, IntErrorKind>
    decreases d.len(),
{
    if d.len() == 0 {
        Ok(acc)
    } else if !is_digit(d[0]) {
        Err(IntErrorKind::InvalidDigit)
    } else if acc * 10 + digit_value(d[0]) > max {
        Err(IntErrorKind::PosOverflow)
    } else {
        scan_digits(d.drop_first(), (acc * 10 + digit_value(d[0])) as nat, max)
    }
}

/// How Rust's `from_str` reads an unsigned integer whose maximal value is
/// `max`: an optional leading `+` (which is not a number on its own), then
/// digits only.
pub open spec fn parse_unsigned(s: Seq<char>, max: nat) -> Result<nat, IntErrorKind> {
    if s.len() == 0 {
        Err(IntErrorKind::Empty)
    } else if s.len() == 1 && (s[0] == '+' || s[0] == '-') {
        Err(IntErrorKind::InvalidDigit)
    } else if s[0] == '+' {
        scan_digits(s.drop_first(), 0, max)
    } else {
        scan_digits(s, 0, max)
    }
}

/// `s` split at every occurrence of `sep`: one part more than there are
/// separators, as `str::split` yields them.
pub open spec fn split_on(s: Seq<char>, sep: char) -> Seq<Seq<char>>
    decreases s.len(),
{
    if s.len() == 0 {
        seq![Seq::<char>::empty()]
    } else {
        let p = split_on(s.drop_last(), sep);
        if s.last() == sep {
            p.push(Seq::<char>::empty())
        } else {
            p.update(p.len() - 1, p.last().push(s.last()))
        }
    }
}

/// `s` contains `c`.
pub open spec fn has_char(s: Seq<char>, c: char) -> bool {
    exists|i: int| 0 <= i < s.len() && s[i] == c
}

/// Strict lexicographic order of texts by code point, which is also the
/// order of their UTF-8 bytes.
pub open spec fn lex_lt(a: Seq<char>, b: Seq<char>) -> bool
    decreases a.len(),
{
    if a.len() == 0 {
        b.len() > 0
    } else if b.len() == 0 {
        false
    } else if a[0] != b[0] {
        (a[0] as int) < (b[0] as int)
    } else {
        lex_lt(a.drop_first(), b.drop_first())
    }
}

pub open spec fn lex_le(a: Seq<char>, b: Seq<char>) -> bool {
    a == b || lex_lt(a, b)
}

/// The texts held by a sequence of character vectors.
pub open spec fn char_views(v: Seq<Vec<char>>) -> Seq<Seq<char>> {
    v.map_values(|x: Vec<char>| x@)
}

pub open spec fn is_prefix(p: Seq<char>, s: Seq<char>) -> bool {
    p.len() <= s.len() && s.take(p.len() as int) == p
}

// ---------------------------------------------------------------------------
// Lemmas
// ---------------------------------------------------------------------------

/// The character of a decimal digit is a digit of that value, and no `:`.
pub proof fn lemma_digit_char(d: int)
    requires
        0 <= d < 10,
    ensures
        is_digit(digit_char(d)),
        digit_value(digit_char(d)) == d,
        digit_char(d) != ':',
{
}

/// The decimal text of a number is nonempty, all digits, without `:`, and
/// reads back as the number.
pub proof fn lemma_decimal_digits(n: nat)
    ensures
        all_digits(decimal(n)),
        decimal(n).len() >= 1,
        digits_value(decimal(n)) == n,
        !has_char(decimal(n), ':'),
    decreases n,
{
    if n >= 10 {
        lemma_decimal_digits(n / 10);
        lemma_digit_char((n % 10) as int);
        let d = decimal(n);
        assert(d.drop_last() == decimal(n / 10));
        assert(n == (n / 10) * 10 + n % 10);
        assert(d.last() == digit_char((n % 10) as int));
        assert(digits_value(d) == digits_value(decimal(n / 10)) * 10 + (n % 10));
        assert(all_digits(d));
        assert(!has_char(d, ':')) by {
            assert forall|i: int| 0 <= i < d.len() implies d[i] != ':' by {
                assert(is_digit(d[i]));
            }
        }
    } else {
        lemma_digit_char(n as int);
        let d = decimal(n);
        assert(d.drop_last() =~= Seq::<char>::empty());
        assert(digits_value(Seq::<char>::empty()) == 0);
        assert(digits_value(d) == n);
        assert(!has_char(d, ':')) by {
            assert forall|i: int| 0 <= i < d.len() implies d[i] != ':' by {
                assert(is_digit(d[i]));
            }
        }
    }
}

/// A zero-padded decimal of width `w` has `w` digits and no `:`.
pub proof fn lemma_fixed_digits(n: nat, w: nat)
    ensures
        fixed_digits(n, w).len() == w,
        all_digits(fixed_digits(n, w)),
        !has_char(fixed_digits(n, w), ':'),
    decreases w,
{
    if w > 0 {
        lemma_fixed_digits(n / 10, (w - 1) as nat);
        lemma_digit_char((n % 10) as int);
        let d = fixed_digits(n, w);
        assert(d.drop_last() == fixed_digits(n / 10, (w - 1) as nat));
        assert forall|i: int| 0 <= i < d.len() implies is_digit(#[trigger] d[i]) by {
            if i < d.len() - 1 {
                assert(d[i] == d.drop_last()[i]);
            }
        }
    }
    let d = fixed_digits(n, w);
    assert forall|i: int| 0 <= i < d.len() implies d[i] != ':' by {
        assert(is_digit(d[i]));
    }
}


/// A text without the separator splits into itself alone.
pub proof fn lemma_split_no_sep(a: Seq<char>, sep: char)
    requires
        !has_char(a, sep),
    ensures
        split_on(a, sep) == seq![a],
    decreases a.len(),
{
    if a.len() == 0 {
        assert(split_on(a, sep) == seq![Seq::<char>::empty()]);
        assert(a =~= Seq::<char>::empty());
    } else {
        let a0 = a.drop_last();
        assert(!has_char(a0, sep)) by {
            if has_char(a0, sep) {
                let i = choose|i: int| 0 <= i < a0.len() && a0[i] == sep;
                assert(a[i] == sep);
            }
        }
        lemma_split_no_sep(a0, sep);
        assert(a.last() != sep) by {
            assert(a[a.len() - 1] == a.last());
        }
        assert(a0.push(a.last()) =~= a);
        assert(split_on(a, sep) =~= seq![a]);
    }
}

/// Splitting two texts joined by the separator gives the parts of the
/// first, then those of the second.
pub proof fn lemma_split_join(a: Seq<char>, b: Seq<char>, sep: char)
    ensures
        split_on(a + seq![sep] + b, sep) == split_on(a, sep) + split_on(b, sep),
    decreases b.len(),
{
    let s = a + seq![sep] + b;
    if b.len() == 0 {
        assert(s.drop_last() =~= a);
        assert(s.last() == sep);
        assert(split_on(b, sep) == seq![Seq::<char>::empty()]);
        assert(split_on(s, sep) =~= split_on(a, sep) + split_on(b, sep));
    } else {
        let b0 = b.drop_last();
        lemma_split_join(a, b0, sep);
        assert(s.drop_last() =~= a + seq![sep] + b0);
        assert(s.last() == b.last());
        let x = split_on(a, sep);
        let y = split_on(b0, sep);
        assert(y.len() >= 1) by {
            lemma_split_nonempty(b0, sep);
        }
        if b.last() == sep {
            assert(split_on(s, sep) =~= x + y.push(Seq::<char>::empty()));
        } else {
            assert((x + y).update((x + y).len() - 1, (x + y).last().push(b.last())) =~= x + y.update(
                y.len() - 1,
                y.last().push(b.last()),
            ));
        }
    }
}

/// Splitting always gives at least one part.
pub proof fn lemma_split_nonempty(a: Seq<char>, sep: char)
    ensures
        split_on(a, sep).len() >= 1,
    decreases a.len(),
{
    if a.len() > 0 {
        lemma_split_nonempty(a.drop_last(), sep);
    }
}

/// Comparing two texts with a common prefix compares what follows it.
pub proof fn lemma_lex_common_prefix(p: Seq<char>, x: Seq<char>, y: Seq<char>)
    ensures
        lex_lt(p + x, p + y) == lex_lt(x, y),
    decreases p.len(),
{
    if p.len() > 0 {
        lemma_lex_common_prefix(p.drop_first(), x, y);
        assert((p + x).drop_first() =~= p.drop_first() + x);
        assert((p + y).drop_first() =~= p.drop_first() + y);
    } else {
        assert(p + x =~= x);
        assert(p + y =~= y);
    }
}

/// Among texts of equal length, an earlier text stays earlier whatever
/// follows each of them.
pub proof fn lemma_lex_extend(x: Seq<char>, y: Seq<char>, r1: Seq<char>, r2: Seq<char>)
    requires
        x.len() == y.len(),
        lex_lt(x, y),
    ensures
        lex_lt(x + r1, y + r2),
    decreases x.len(),
{
    if x.len() > 0 && x[0] == y[0] {
        lemma_lex_extend(x.drop_first(), y.drop_first(), r1, r2);
        assert((x + r1).drop_first() =~= x.drop_first() + r1);
        assert((y + r2).drop_first() =~= y.drop_first() + r2);
    }
}

/// Appending one character to texts of equal length: the earlier stays
/// earlier, and equal texts are ordered by the appended characters.
pub proof fn lemma_lex_push(x: Seq<char>, y: Seq<char>, c: char, d: char)
    requires
        x.len() == y.len(),
        lex_lt(x, y) || (x == y && (c as int) < (d as int)),
    ensures
        lex_lt(x.push(c), y.push(d)),
    decreases x.len(),
{
    if x.len() == 0 {
        assert(x.push(c)[0] == c);
        assert(y.push(d)[0] == d);
    } else if x[0] == y[0] {
        lemma_lex_push(x.drop_first(), y.drop_first(), c, d);
        assert(x.push(c).drop_first() =~= x.drop_first().push(c));
        assert(y.push(d).drop_first() =~= y.drop_first().push(d));
    } else {
        assert(x.push(c)[0] == x[0]);
        assert(y.push(d)[0] == y[0]);
    }
}

/// A text comes no earlier than each of its prefixes.
pub proof fn lemma_lex_prefix_le(p: Seq<char>, t: Seq<char>)
    requires
        is_prefix(p, t),
    ensures
        lex_le(p, t),
    decreases p.len(),
{
    if p.len() == 0 {
        if t.len() > 0 {
            assert(lex_lt(p, t));
        } else {
            assert(p =~= t);
        }
    } else {
        assert(t[0] == p[0]) by {
            assert(t.take(p.len() as int)[0] == t[0]);
        }
        assert(t.drop_first().take(p.drop_first().len() as int) =~= p.drop_first()) by {
            assert forall|i: int| 0 <= i < p.len() - 1 implies t.drop_first()[i] == p.drop_first()[i] by {
                assert(t.take(p.len() as int)[i + 1] == t[i + 1]);
            }
        }
        lemma_lex_prefix_le(p.drop_first(), t.drop_first());
        if p.drop_first() == t.drop_first() {
            assert(p =~= t) by {
                assert forall|i: int| 0 <= i < p.len() implies p[i] == t[i] by {
                    if i > 0 {
                        assert(p[i] == p.drop_first()[i - 1]);
                        assert(t[i] == t.drop_first()[i - 1]);
                    }
                }
            }
        }
    }
}

/// The highest code point.
pub open spec fn max_char() -> char {
    '\u{10FFFF}'
}

/// Every character other than the highest code point comes below it.
pub proof fn lemma_below_max_char(c: char)
    requires
        c != max_char(),
    ensures
        (c as int) < (max_char() as int),
{
}

/// A text that extends `p` by a character other than the highest code point
/// (or equals `p`) comes before `p` followed by the highest code point.
pub proof fn lemma_lex_below_cap(p: Seq<char>, t: Seq<char>)
    requires
        is_prefix(p, t),
        t.len() == p.len() || (t[p.len() as int] as int) < (max_char() as int),
    ensures
        lex_lt(t, p.push(max_char())),
{
    let r = t.skip(p.len() as int);
    assert(t =~= p + r);
    assert(p.push(max_char()) =~= p + seq![max_char()]);
    lemma_lex_common_prefix(p, r, seq![max_char()]);
    if r.len() > 0 {
        assert(r[0] == t[p.len() as int]);
        assert((r[0] as int) < (max_char() as int));
    }
}

/// A text between `p` and `p` followed by the highest code point begins
/// with `p`.
pub proof fn lemma_lex_between_has_prefix(p: Seq<char>, t: Seq<char>)
    requires
        lex_le(p, t),
        lex_lt(t, p.push(max_char())),
    ensures
        is_prefix(p, t),
    decreases p.len(),
{
    if p.len() == 0 {
        assert(t.take(0) =~= p);
    } else if t == p {
        assert(t.take(p.len() as int) =~= p);
    } else {
        // both comparisons are decided at or after the first character
        assert(t.len() > 0);
        assert(p.push(max_char())[0] == p[0]);
        if t[0] != p[0] {
            assert((p[0] as int) < (t[0] as int));
            assert((t[0] as int) < (p[0] as int));
        }
        assert(p.push(max_char()).drop_first() =~= p.drop_first().push(max_char()));
        lemma_lex_between_has_prefix(p.drop_first(), t.drop_first());
        assert(t.take(p.len() as int) =~= p) by {
            assert forall|i: int| 0 <= i < p.len() implies t[i] == p[i] by {
                if i > 0 {
                    assert(t.drop_first().take(p.drop_first().len() as int)[i - 1] == t[i]);
                    assert(p.drop_first()[i - 1] == p[i]);
                }
            }
        }
    }
}

pub open spec fn pow10(w: nat) -> nat
    decreases w,
{
    if w == 0 {
        1
    } else {
        10 * pow10((w - 1) as nat)
    }
}

/// Zero-padded decimals of one width are ordered as the numbers are.
pub proof fn lemma_fixed_digits_order(a: nat, b: nat, w: nat)
    requires
        a < b,
        b < pow10(w),
    ensures
        lex_lt(fixed_digits(a, w), fixed_digits(b, w)),
    decreases w,
{
    if w == 0 {
        assert(pow10(0) == 1);
    } else {
        let w1 = (w - 1) as nat;
        lemma_fixed_digits(a / 10, w1);
        lemma_fixed_digits(b / 10, w1);
        assert(b / 10 < pow10(w1));
        lemma_digit_char((a % 10) as int);
        lemma_digit_char((b % 10) as int);
        if a / 10 < b / 10 {
            lemma_fixed_digits_order(a / 10, b / 10, w1);
        } else {
            assert(a / 10 == b / 10);
            assert(a % 10 < b % 10);
        }
        lemma_lex_push(
            fixed_digits(a / 10, w1),
            fixed_digits(b / 10, w1),
            digit_char((a % 10) as int),
            digit_char((b % 10) as int),
        );
    }
}

/// A zero-padded decimal of width `w` reads back as its number.
pub proof fn lemma_fixed_digits_value(n: nat, w: nat)
    requires
        n < pow10(w),
    ensures
        digits_value(fixed_digits(n, w)) == n,
    decreases w,
{
    if w == 0 {
        assert(n == 0);
    } else {
        let w1 = (w - 1) as nat;
        assert(n / 10 < pow10(w1));
        lemma_fixed_digits_value(n / 10, w1);
        lemma_digit_char((n % 10) as int);
        let d = fixed_digits(n, w);
        assert(d.drop_last() == fixed_digits(n / 10, w1));
        assert(n == (n / 10) * 10 + n % 10);
    }
}

/// Every `u64` has at most 20 decimal digits.
pub proof fn lemma_u64_below_pow10_20(n: u64)
    ensures
        (n as nat) < pow10(20),
{
    reveal_with_fuel(pow10, 21);
    assert(pow10(20) == 100000000000000000000nat);
}

// ---------------------------------------------------------------------------
// Executable helpers
// ---------------------------------------------------------------------------

/// The characters of `s`.
pub fn chars_of(s: &str) -> (v: Vec<char>)
    ensures
        v@ == s@,
{
    let mut v: Vec<char> = Vec::new();
    for c in it: s.chars()
        invariant
            v@ == it.seq().take(it.index()),
            it.seq() == s@,
    {
        v.push(c);
        proof {
            assert(it.seq().take(it.index() + 1) == it.seq().take(it.index()).push(c));
        }
    }
    proof {
        assert(s@.take(s@.len() as int) == s@);
    }
    v
}

/// Collects characters into a `String` (`FromIterator<char>` of std).
#[verifier::external_body]
pub(crate) fn string_from_chars(v: &Vec<char>) -> (s: String)
    ensures
        s@ == v@,
{
    v.iter().collect()
}

/// Appends the characters of `src` to `dst`.
pub fn append_chars(dst: &mut Vec<char>, src: &Vec<char>)
    ensures
        final(dst)@ == old(dst)@ + src@,
{
    let mut i: usize = 0;
    while i < src.len()
        invariant
            0 <= i <= src.len(),
            dst@ == old(dst)@ + src@.take(i as int),
        decreases src.len() - i,
    {
        dst.push(src[i]);
        i = i + 1;
        assert(src@.take(i as int) == src@.take(i - 1).push(src@[i - 1]));
    }
    assert(src@.take(src@.len() as int) == src@);
}

/// Appends the characters of `src` to `dst`.
pub fn append_str(dst: &mut Vec<char>, src: &str)
    ensures
        final(dst)@ == old(dst)@ + src@,
{
    let v = chars_of(src);
    append_chars(dst, &v);
}

/// Whether two character vectors hold the same text.
pub fn chars_equal(a: &Vec<char>, b: &Vec<char>) -> (r: bool)
    ensures
        r == (a@ == b@),
{
    if a.len() != b.len() {
        return false;
    }
    let mut i: usize = 0;
    while i < a.len()
        invariant
            0 <= i <= a.len(),
            a.len() == b.len(),
            forall|j: int| 0 <= j < i ==> a@[j] == b@[j],
        decreases a.len() - i,
    {
        if a[i] != b[i] {
            return false;
        }
        i = i + 1;
    }
    assert(a@ =~= b@);
    true
}

/// Whether `v` contains `c`.
pub fn contains_char(v: &Vec<char>, c: char) -> (r: bool)
    ensures
        r == has_char(v@, c),
{
    let mut i: usize = 0;
    while i < v.len()
        invariant
            0 <= i <= v.len(),
            forall|j: int| 0 <= j < i ==> v@[j] != c,
        decreases v.len() - i,
    {
        if v[i] == c {
            return true;
        }
        i = i + 1;
    }
    false
}

/// The ASCII digit for `d`.
pub fn digit(d: u64) -> (c: char)
    requires
        d < 10,
    ensures
        c == digit_char(d as int),
{
    let b: u8 = 48u8 + (d as u8);
    b as char
}

/// The decimal representation of `n`, as `format!("{}", n)` writes it.
pub fn decimal_chars(n: u64) -> (v: Vec<char>)
    ensures
        v@ == decimal(n as nat),
    decreases n,
{
    if n < 10 {
        let mut v: Vec<char> = Vec::new();
        v.push(digit(n));
        proof {
            assert(v@ =~= seq![digit_char(n as int)]);
        }
        v
    } else {
        let mut v = decimal_chars(n / 10);
        v.push(digit(n % 10));
        v
    }
}

/// The `w` low-order decimal digits of `n`, as `format!("{:0w$}", n)` writes
/// them when `n` has at most `w` digits.
pub fn fixed_digit_chars(n: u64, w: usize) -> (v: Vec<char>)
    ensures
        v@ == fixed_digits(n as nat, w as nat),
    decreases w,
{
    if w == 0 {
        Vec::new()
    } else {
        let mut v = fixed_digit_chars(n / 10, w - 1);
        v.push(digit(n % 10));
        v
    }
}

proof fn lemma_digits_value_grows(s: Seq<char>, c: char)
    requires
        is_digit(c),
    ensures
        digits_value(s.push(c)) == digits_value(s) * 10 + digit_value(c),
        digits_value(s.push(c)) >= digits_value(s),
{
    assert(s.push(c).drop_last() == s);
}

proof fn lemma_digits_value_monotone(s: Seq<char>, t: Seq<char>)
    requires
        all_digits(t),
    ensures
        digits_value(s + t) >= digits_value(s),
    decreases t.len(),
{
    if t.len() > 0 {
        let t0 = t.drop_last();
        lemma_digits_value_monotone(s, t0);
        assert((s + t).drop_last() == s + t0);
        assert(is_digit(t.last()));
    }
}

/// Reading digits after a prefix that was read without error gives the
/// value of the whole digit sequence, when it does not exceed `max`.
pub proof fn lemma_scan_value(p: Seq<char>, q: Seq<char>, max: nat)
    requires
        all_digits(q),
        digits_value(p + q) <= max,
    ensures
        scan_digits(q, digits_value(p), max) == Ok::<nat, IntErrorKind>(digits_value(p + q)),
    decreases q.len(),
{
    if q.len() == 0 {
        assert(p + q == p);
    } else {
        let c = q[0];
        assert(is_digit(c));
        let p1 = p.push(c);
        let q1 = q.drop_first();
        assert(p1 + q1 == p + q);
        lemma_digits_value_grows(p, c);
        assert(all_digits(q1)) by {
            assert forall|i: int| 0 <= i < q1.len() implies is_digit(#[trigger] q1[i]) by {
                assert(q1[i] == q[i + 1]);
            }
        }
        lemma_digits_value_monotone(p1, q1);
        lemma_scan_value(p1, q1, max);
    }
}

/// A nonempty digit sequence whose value fits reads back as that value.
pub proof fn lemma_parse_digits(d: Seq<char>, max: nat)
    requires
        d.len() > 0,
        all_digits(d),
        digits_value(d) <= max,
    ensures
        parse_unsigned(d, max) == Ok::<nat, IntErrorKind>(digits_value(d)),
{
    assert(is_digit(d[0]));
    assert(Seq::<char>::empty() + d == d);
    assert(digits_value(Seq::<char>::empty()) == 0);
    lemma_scan_value(Seq::<char>::empty(), d, max);
}

/// Parses an unsigned decimal of maximal value `max`, the way Rust's
/// `from_str` of the unsigned integer types reads it.
pub fn parse_unsigned_chars(s: &Vec<char>, max: u64) -> (r: Result<u64, IntErrorKind>)
    ensures
        match r {
            Ok(v) => parse_unsigned(s@, max as nat) == Ok::<nat, IntErrorKind>(v as nat),
            Err(e) => parse_unsigned(s@, max as nat) == Err::<nat, IntErrorKind>(e),
        },
{
    if s.len() == 0 {
        return Err(IntErrorKind::Empty);
    }
    if s.len() == 1 && (s[0] == '+' || s[0] == '-') {
        return Err(IntErrorKind::InvalidDigit);
    }
    let start: usize = if s[0] == '+' { 1 } else { 0 };
    let ghost d = s@.skip(start as int);
    assert(parse_unsigned(s@, max as nat) == scan_digits(d, 0, max as nat)) by {
        if start == 0 {
            assert(d == s@);
        } else {
            assert(d == s@.drop_first());
        }
    }
    let mut acc: u64 = 0;
    let mut i: usize = start;
    while i < s.len()
        invariant
            start <= i <= s.len(),
            d == s@.skip(start as int),
            parse_unsigned(s@, max as nat) == scan_digits(d, 0, max as nat),
            scan_digits(d, 0, max as nat) == scan_digits(s@.skip(i as int), acc as nat, max as nat),
            acc <= max,
        decreases s.len() - i,
    {
        let c = s[i];
        let ghost rest = s@.skip(i as int);
        assert(rest[0] == c);
        assert(rest.drop_first() == s@.skip(i + 1));
        if c < '0' || c > '9' {
            assert(scan_digits(rest, acc as nat, max as nat) == Err::<nat, IntErrorKind>(IntErrorKind::InvalidDigit));
            return Err(IntErrorKind::InvalidDigit);
        }
        let dv: u64 = (c as u32 - 48u32) as u64;
        assert(dv == digit_value(c));
        match acc.checked_mul(10) {
            None => {
                assert(scan_digits(rest, acc as nat, max as nat) == Err::<nat, IntErrorKind>(IntErrorKind::PosOverflow));
                return Err(IntErrorKind::PosOverflow);
            }
            Some(m) => match m.checked_add(dv) {
                None => {
                    assert(scan_digits(rest, acc as nat, max as nat) == Err::<nat, IntErrorKind>(IntErrorKind::PosOverflow));
                    return Err(IntErrorKind::PosOverflow);
                }
                Some(v) => {
                    if v > max {
                        assert(scan_digits(rest, acc as nat, max as nat) == Err::<nat, IntErrorKind>(IntErrorKind::PosOverflow));
                        return Err(IntErrorKind::PosOverflow);
                    }
                    acc = v;
                },
            },
        }
        i = i + 1;
    }
    assert(s@.skip(i as int).len() == 0);
    Ok(acc)
}

/// Splits `s` at every `sep`, as `str::split` does.
pub fn split_chars(s: &Vec<char>, sep: char) -> (parts: Vec<Vec<char>>)
    ensures
        char_views(parts@) == split_on(s@, sep),
{
    let mut parts: Vec<Vec<char>> = Vec::new();
    let mut cur: Vec<char> = Vec::new();
    let mut i: usize = 0;
    while i < s.len()
        invariant
            0 <= i <= s.len(),
            char_views(parts@).push(cur@) == split_on(s@.take(i as int), sep),
        decreases s.len() - i,
    {
        let c = s[i];
        let ghost before = char_views(parts@).push(cur@);
        assert(s@.take(i + 1).drop_last() == s@.take(i as int));
        if c == sep {
            let ghost old_dv = char_views(parts@);
            let done = cur;
            let ghost done_v = done@;
            parts.push(done);
            cur = Vec::new();
            assert(char_views(parts@) =~= old_dv.push(done_v));
            assert(char_views(parts@).push(cur@) =~= before.push(Seq::<char>::empty()));
        } else {
            cur.push(c);
            assert(char_views(parts@).push(cur@) =~= before.update(before.len() - 1, before.last().push(c)));
        }
        i = i + 1;
    }
    assert(s@.take(s@.len() as int) == s@);
    let ghost old_dv = char_views(parts@);
    let ghost cur_v = cur@;
    parts.push(cur);
    assert(char_views(parts@) =~= old_dv.push(cur_v));
    parts
}

} // verus!
