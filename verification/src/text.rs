//! Character-level helpers shared by the parser and the emulator: runs of
//! plain text, decimal rendering of numbers and decimal parsing.
use vstd::prelude::*;
use itertools::Itertools;

verus! {

/// A character that continues a run of plain text: anything but a C0
/// control character (codes below the space), so ESC ends a run too.
pub open spec fn is_text_char(c: char) -> bool {
    (c as u32) >= 32
}

/// Executable form of [`is_text_char`].
pub fn text_char(c: char) -> (r: bool)
    ensures
        r == is_text_char(c),
{
    (c as u32) >= 32
}

/// Number of text characters at the front of `s`.
pub open spec fn text_run_len(s: Seq<char>) -> nat
    decreases s.len(),
{
    if s.len() > 0 && is_text_char(s[0]) {
        1 + text_run_len(s.drop_first())
    } else {
        0
    }
}

/// A prefix `s.take(n)` made of text characters, followed by the end of `s` or
/// by a character that is not text, is exactly the run that `text_run_len` counts.
pub proof fn lemma_text_run_unique(s: Seq<char>, n: int)
    requires
        0 <= n <= s.len(),
        forall|i: int| 0 <= i < n ==> is_text_char(#[trigger] s[i]),
        n < s.len() ==> !is_text_char(s[n]),
    ensures
        text_run_len(s) == n,
    decreases n,
{
    if n > 0 {
        assert forall|i: int| 0 <= i < n - 1 implies is_text_char(#[trigger] s.drop_first()[i]) by {
            assert(s.drop_first()[i] == s[i + 1]);
        }
        if n - 1 < s.drop_first().len() {
            assert(s.drop_first()[n - 1] == s[n]);
        }
        lemma_text_run_unique(s.drop_first(), n - 1);
    }
}

/// `text_run_len(s)` never exceeds the length of `s`, and the run it counts is
/// made of text characters.
pub proof fn lemma_text_run_bounds(s: Seq<char>)
    ensures
        text_run_len(s) <= s.len(),
        forall|i: int| 0 <= i < text_run_len(s) ==> is_text_char(#[trigger] s[i]),
        text_run_len(s) < s.len() ==> !is_text_char(s[text_run_len(s) as int]),
    decreases s.len(),
{
    if s.len() > 0 && is_text_char(s[0]) {
        lemma_text_run_bounds(s.drop_first());
        assert forall|i: int| 0 <= i < text_run_len(s) implies is_text_char(#[trigger] s[i]) by {
            if i > 0 {
                assert(s[i] == s.drop_first()[i - 1]);
            }
        }
        if text_run_len(s) < s.len() {
            assert(s[text_run_len(s) as int] == s.drop_first()[text_run_len(s) - 1]);
        }
    }
}

/// Runs `itertools::Itertools::take_while_ref` over the characters of
/// `input[start..]`, keeping those for which [`text_char`] holds, and collects
/// them into a `String`.
///
/// Claimed of the outside call: it yields the characters from the front of the
/// iterator while the predicate accepts them and stops at the first one it
/// rejects, or at the end (the rejected one is put back, not taken).
#[verifier::external_body]
pub(crate) fn take_text_run(input: &Vec<char>, start: usize) -> (run: String)
    requires
        start <= input@.len(),
    ensures
        start + run@.len() <= input@.len(),
        run@ == input@.subrange(start as int, start + run@.len()),
        forall|i: int| 0 <= i < run@.len() ==> is_text_char(#[trigger] run@[i]),
        start + run@.len() < input@.len() ==> !is_text_char(input@[start + run@.len()]),
{
    let mut rest = input[start..].iter().copied();
    rest.take_while_ref(|c: &char| text_char(*c)).collect()
}

/// `String::push` appends one character to the string.
pub assume_specification[ String::push ](s: &mut String, ch: char)
    ensures
        final(s)@ == old(s)@.push(ch),
;

/// A `String` holding the characters of `chars`.
pub fn string_from_chars(chars: &[char]) -> (s: String)
    ensures
        s@ == chars@,
{
    let mut s = String::new();
    let mut i: usize = 0;
    while i < chars.len()
        invariant
            i <= chars@.len(),
            s@ == chars@.take(i as int),
        decreases chars@.len() - i,
    {
        s.push(chars[i]);
        assert(chars@.take(i + 1) == chars@.take(i as int).push(chars@[i as int]));
        i = i + 1;
    }
    assert(chars@.take(chars@.len() as int) == chars@);
    s
}

/// The characters of `s`, in order.
pub fn chars_of(s: &str) -> (v: Vec<char>)
    ensures
        v@ == s@,
{
    let mut v: Vec<char> = Vec::new();
    for c in it: s.chars()
        invariant
            v@ == it.seq().take(it.index()),
    {
        v.push(c);
    }
    proof {
        broadcast use vstd::string::group_string_axioms;
    }
    v
}

/// The decimal digit character for `d < 10`.
pub open spec fn digit_char(d: nat) -> char {
    ((d + 48) as u32) as char
}

/// The decimal rendering of `n`, without sign or leading zeros.
pub open spec fn decimal(n: nat) -> Seq<char>
    decreases n,
{
    if n < 10 {
        seq![digit_char(n)]
    } else {
        decimal(n / 10).push(digit_char(n % 10))
    }
}

/// Appends the decimal rendering of `n` to `s`.
pub fn push_decimal(s: &mut String, n: u32)
    ensures
        final(s)@ == old(s)@ + decimal(n as nat),
    decreases n,
{
    if n >= 10 {
        push_decimal(s, n / 10);
    }
    let d: u8 = (n % 10) as u8;
    let c: char = (d + 48) as char;
    s.push(c);
    assert(final(s)@ == old(s)@ + decimal(n as nat));
}

/// An ASCII decimal digit.
pub open spec fn is_digit(c: char) -> bool {
    '0' <= c <= '9'
}

/// The number that the digits of `s` stand for (most significant first).
pub open spec fn digits_value(s: Seq<char>) -> nat
    decreases s.len(),
{
    if s.len() == 0 {
        0
    } else {
        digits_value(s.drop_last()) * 10 + ((s.last() as u32) - 48) as nat
    }
}

/// What follows an optional leading `+`.
pub open spec fn unsigned_digits(s: Seq<char>) -> Seq<char> {
    if s.len() > 0 && s[0] == '+' {
        s.drop_first()
    } else {
        s
    }
}

/// Reading of `s` as an unsigned 32-bit decimal number: an optional `+`
/// followed by at least one digit and nothing else, of a value that fits.
pub open spec fn spec_parse_u32(s: Seq<char>) -> Option<u32> {
    let d = unsigned_digits(s);
    if d.len() > 0 && (forall|i: int| 0 <= i < d.len() ==> is_digit(#[trigger] d[i]))
        && digits_value(d) <= u32::MAX {
        Some(digits_value(d) as u32)
    } else {
        None
    }
}

/// A number never drops when more digits are appended to it.
proof fn lemma_digits_value_grows(s: Seq<char>, k: int)
    requires
        0 <= k <= s.len(),
        forall|i: int| 0 <= i < s.len() ==> is_digit(#[trigger] s[i]),
    ensures
        digits_value(s.take(k)) <= digits_value(s),
    decreases s.len() - k,
{
    if k < s.len() {
        lemma_digits_value_grows(s, k + 1);
        assert(s.take(k + 1).drop_last() == s.take(k));
        assert(is_digit(s[k]));
    } else {
        assert(s.take(k) == s);
    }
}

/// Parses `s` as an unsigned 32-bit decimal number, as `str::parse::<u32>`
/// reads it: an optional `+`, then one or more digits, with no overflow.
pub fn parse_u32(s: &[char]) -> (r: Option<u32>)
    ensures
        r == spec_parse_u32(s@),
{
    let len = s.len();
    let mut start: usize = 0;
    if len > 0 && s[0] == '+' {
        start = 1;
    }
    let ghost d = unsigned_digits(s@);
    assert(d == s@.subrange(start as int, len as int));
    if start == len {
        return None;
    }
    let mut v: u32 = 0;
    let mut i = start;
    while i < len
        invariant
            start <= i <= len,
            len == s@.len(),
            d == s@.subrange(start as int, len as int),
            d == unsigned_digits(s@),
            forall|j: int| 0 <= j < i - start ==> is_digit(#[trigger] d[j]),
            v == digits_value(d.take(i - start)),
        decreases len - i,
    {
        let c = s[i];
        if !('0' <= c && c <= '9') {
            assert(!is_digit(d[i - start]));
            assert(spec_parse_u32(s@) is None);
            return None;
        }
        let dv: u32 = (c as u32) - 48;
        assert(d.take(i + 1 - start).drop_last() == d.take(i - start));
        if v > (u32::MAX - dv) / 10 {
            proof {
                assert(v * 10 + dv > u32::MAX) by (nonlinear_arith)
                    requires v > (u32::MAX - dv) / 10, dv <= 9;
                if forall|j: int| 0 <= j < d.len() ==> is_digit(#[trigger] d[j]) {
                    lemma_digits_value_grows(d, i + 1 - start);
                }
            }
            assert(spec_parse_u32(s@) is None);
            return None;
        }
        assert(v * 10 + dv <= u32::MAX) by (nonlinear_arith)
            requires v <= (u32::MAX - dv) / 10, dv <= 9;
        v = v * 10 + dv;
        i = i + 1;
    }
    assert(d.take(len - start) == d);
    Some(v)
}

/// The decimal rendering of a number is a nonempty run of digits standing for it.
pub proof fn lemma_decimal_digits(n: nat)
    ensures
        decimal(n).len() >= 1,
        forall|i: int| 0 <= i < decimal(n).len() ==> is_digit(#[trigger] decimal(n)[i]),
        digits_value(decimal(n)) == n,
    decreases n,
{
    if n < 10 {
        assert(decimal(n).drop_last() =~= Seq::<char>::empty());
        assert(digits_value(Seq::<char>::empty()) == 0);
    } else {
        lemma_decimal_digits(n / 10);
        let d = decimal(n);
        assert(d.drop_last() == decimal(n / 10));
        assert forall|i: int| 0 <= i < d.len() implies is_digit(#[trigger] d[i]) by {
            if i < d.len() - 1 {
                assert(d[i] == decimal(n / 10)[i]);
            }
        }
    }
}

/// The decimal rendering of `n` is short: at most `n / 8 + 1` characters.
pub proof fn lemma_decimal_len(n: nat)
    ensures
        decimal(n).len() <= n / 8 + 1,
    decreases n,
{
    if n >= 10 {
        lemma_decimal_len(n / 10);
        assert(n / 10 / 8 + 2 <= n / 8 + 1) by (nonlinear_arith)
            requires n >= 10;
    }
}

/// `parse_u32` reads back what `push_decimal` writes: the decimal rendering
/// of a 32-bit number parses to that number.
pub proof fn law_decimal_round_trip(n: u32)
    ensures
        spec_parse_u32(decimal(n as nat)) == Some(n),
{
    lemma_decimal_digits(n as nat);
    assert(is_digit(decimal(n as nat)[0]));
    assert(unsigned_digits(decimal(n as nat)) == decimal(n as nat));
}


/// A leading zero does not change the number that digits stand for.
proof fn lemma_digits_value_leading_zero(ds: Seq<char>)
    ensures
        digits_value(seq!['0'] + ds) == digits_value(ds),
    decreases ds.len(),
{
    if ds.len() == 0 {
        assert(seq!['0'] + ds =~= seq!['0']);
        assert(seq!['0'].drop_last() =~= Seq::<char>::empty());
        assert(digits_value(Seq::<char>::empty()) == 0);
    } else {
        lemma_digits_value_leading_zero(ds.drop_last());
        assert((seq!['0'] + ds).drop_last() =~= seq!['0'] + ds.drop_last());
        assert((seq!['0'] + ds).last() == ds.last());
    }
}

/// How decimal numbers read: every 32-bit number reads back from its
/// decimal form, also after a `+` or a leading zero; nothing, a lone `+`, and
/// anything holding a character other than a digit (or a first `+`) do not
/// read as a number.
pub proof fn law_parse_u32_forms(n: u32, s: Seq<char>)
    ensures
        spec_parse_u32(decimal(n as nat)) == Some(n),
        spec_parse_u32(seq!['+'] + decimal(n as nat)) == Some(n),
        spec_parse_u32(seq!['0'] + decimal(n as nat)) == Some(n),
        spec_parse_u32(Seq::<char>::empty()) is None,
        spec_parse_u32(seq!['+']) is None,
        (exists|k: int| 0 <= k < s.len() && !is_digit(#[trigger] s[k]) && !(k == 0 && s[k] == '+'))
            ==> spec_parse_u32(s) is None,
{
    law_decimal_round_trip(n);
    let d = decimal(n as nat);
    lemma_decimal_digits(n as nat);
    let p = seq!['+'] + d;
    assert(p[0] == '+');
    assert(p.drop_first() =~= d);
    let z = seq!['0'] + d;
    lemma_digits_value_leading_zero(d);
    assert(z[0] == '0');
    assert(unsigned_digits(z) == z);
    assert forall|i: int| 0 <= i < z.len() implies is_digit(#[trigger] z[i]) by {
        if i > 0 {
            assert(z[i] == d[i - 1]);
        }
    }
    assert(seq!['+'].drop_first() =~= Seq::<char>::empty());
    if exists|k: int| 0 <= k < s.len() && !is_digit(#[trigger] s[k]) && !(k == 0 && s[k] == '+') {
        let k = choose|k: int| 0 <= k < s.len() && !is_digit(#[trigger] s[k]) && !(k == 0 && s[k]
            == '+');
        let u = unsigned_digits(s);
        if s.len() > 0 && s[0] == '+' {
            assert(u[k - 1] == s[k]);
        } else {
            assert(u[k] == s[k]);
        }
    }
}

} // verus!
