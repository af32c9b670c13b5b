use vstd::prelude::*;

verus! {

broadcast use vstd::string::group_string_axioms;

/// Unicode white space, as `char::is_whitespace` and `str::trim` see it.
#[verifier::allow_in_spec]
pub fn is_ws(c: char) -> bool
    returns
        ('\u{9}' <= c <= '\u{d}') || c == ' ' || c == '\u{85}' || c == '\u{a0}' || c == '\u{1680}'
            || ('\u{2000}' <= c <= '\u{200a}') || c == '\u{2028}' || c == '\u{2029}'
            || c == '\u{202f}' || c == '\u{205f}' || c == '\u{3000}',
{
    ('\u{9}' <= c && c <= '\u{d}') || c == ' ' || c == '\u{85}' || c == '\u{a0}' || c == '\u{1680}'
        || ('\u{2000}' <= c && c <= '\u{200a}') || c == '\u{2028}' || c == '\u{2029}'
        || c == '\u{202f}' || c == '\u{205f}' || c == '\u{3000}'
}

/// ASCII decimal digit.
pub open spec fn is_digit(c: char) -> bool {
    '0' <= c <= '9'
}

/// The character of a decimal digit 0..9.
pub open spec fn digit_char(d: int) -> char {
    (d + 48) as char
}

/// Decimal notation of a natural number.
pub open spec fn dec_chars(n: nat) -> Seq<char>
    decreases n,
{
    if n < 10 {
        seq![digit_char(n as int)]
    } else {
        dec_chars(n / 10).push(digit_char((n % 10) as int))
    }
}

/// Decimal notation of an integer, with a leading '-' when negative.
pub open spec fn signed_chars(v: int) -> Seq<char> {
    if v < 0 {
        seq!['-'] + dec_chars((-v) as nat)
    } else {
        dec_chars(v as nat)
    }
}

/// Value of a string of decimal digits.
pub open spec fn digits_value(t: Seq<char>) -> nat
    decreases t.len(),
{
    if t.len() == 0 {
        0
    } else {
        digits_value(t.drop_last()) * 10 + ((t.last() as int - 48) as nat)
    }
}

/// What `u32::from_str` accepts: an optional '+', then one or more decimal digits whose value
/// fits in a `u32`.
pub open spec fn parse_u32_spec(t: Seq<char>) -> Option<u32> {
    body_parse(strip_plus(t))
}

/// The digits part of a `u32` literal: without its leading '+', if any.
pub open spec fn strip_plus(t: Seq<char>) -> Seq<char> {
    if t.len() > 0 && t[0] == '+' {
        t.drop_first()
    } else {
        t
    }
}

/// Value of a nonempty run of decimal digits that fits in a `u32`.
pub open spec fn body_parse(body: Seq<char>) -> Option<u32> {
    if body.len() == 0 || !(forall|i: int| 0 <= i < body.len() ==> is_digit(#[trigger] body[i]))
        || digits_value(body) > u32::MAX {
        None
    } else {
        Some(digits_value(body) as u32)
    }
}

/// Appends a character to a string (`String::push`).
#[verifier::external_body]
pub(crate) fn push_char(s: &mut String, c: char)
    ensures
        final(s)@ == old(s)@.push(c),
{
    s.push(c);
}

/// The characters of a string slice, in order.
pub fn str_chars(s: &str) -> (v: Vec<char>)
    ensures
        v@ == s@,
{
    let mut v: Vec<char> = Vec::new();
    for c in iter: s.chars()
        invariant
            iter.seq() == s@,
            v@ == iter.seq().take(iter.index()),
    {
        v.push(c);
        assert(iter.seq().take(iter.index() + 1) == iter.seq().take(iter.index()).push(c));
    }
    assert(s@.take(s@.len() as int) == s@);
    v
}

/// A string made of the given characters.
pub fn string_of(cs: &[char]) -> (s: String)
    ensures
        s@ == cs@,
{
    let mut s = String::new();
    let mut i: usize = 0;
    while i < cs.len()
        invariant
            0 <= i <= cs@.len(),
            s@ == cs@.subrange(0, i as int),
        decreases cs@.len() - i,
    {
        push_char(&mut s, cs[i]);
        assert(cs@.subrange(0, i + 1) == cs@.subrange(0, i as int).push(cs@[i as int]));
        i += 1;
    }
    assert(cs@.subrange(0, cs@.len() as int) == cs@);
    s
}

/// Appends the characters of `t` to `s`.
pub fn push_chars(s: &mut String, t: &[char])
    ensures
        final(s)@ == old(s)@ + t@,
{
    let mut i: usize = 0;
    while i < t.len()
        invariant
            0 <= i <= t@.len(),
            s@ == old(s)@ + t@.subrange(0, i as int),
        decreases t@.len() - i,
    {
        push_char(s, t[i]);
        assert(t@.subrange(0, i + 1) == t@.subrange(0, i as int).push(t@[i as int]));
        i += 1;
    }
    assert(t@.subrange(0, t@.len() as int) == t@);
}

/// Appends the decimal notation of `n`.
pub fn push_dec(s: &mut String, n: u64)
    ensures
        final(s)@ == old(s)@ + dec_chars(n as nat),
    decreases n,
{
    if n >= 10 {
        push_dec(s, n / 10);
    }
    let d = (n % 10) as u8;
    push_char(s, (48u8 + d) as char);
    proof {
        if n < 10 {
            assert(old(s)@ + dec_chars(n as nat) == old(s)@.push(digit_char(n as int)));
        } else {
            assert(old(s)@ + dec_chars(n as nat) == (old(s)@ + dec_chars((n / 10) as nat)).push(
                digit_char((n % 10) as int),
            ));
        }
    }
}

/// Appends the decimal notation of `v`, with '-' when negative.
pub fn push_signed(s: &mut String, v: i64)
    ensures
        final(s)@ == old(s)@ + signed_chars(v as int),
{
    if v < 0 {
        push_char(s, '-');
        let mag: u64 = if v == i64::MIN {
            9223372036854775808u64
        } else {
            (-v) as u64
        };
        push_dec(s, mag);
        assert(old(s)@ + signed_chars(v as int) == old(s)@.push('-') + dec_chars(mag as nat));
    } else {
        push_dec(s, v as u64);
    }
}

proof fn lemma_digits_value_prefix(t: Seq<char>, k: int)
    requires
        0 <= k <= t.len(),
        forall|i: int| 0 <= i < t.len() ==> is_digit(#[trigger] t[i]),
    ensures
        digits_value(t.subrange(0, k)) <= digits_value(t),
    decreases t.len() - k,
{
    if k < t.len() {
        lemma_digits_value_prefix(t, k + 1);
        let a = t.subrange(0, k + 1);
        assert(a.drop_last() == t.subrange(0, k));
    } else {
        assert(t.subrange(0, k) == t);
    }
}

/// Parses a `u32` the way `u32::from_str` does.
pub fn parse_u32(t: &[char]) -> (r: Option<u32>)
    ensures
        r == parse_u32_spec(t@),
{
    let start: usize = if t.len() > 0 && t[0] == '+' {
        1
    } else {
        0
    };
    let ghost body = strip_plus(t@);
    assert(body == t@.subrange(start as int, t@.len() as int));
    if t.len() == start {
        return None;
    }
    let mut v: u64 = 0;
    let mut i: usize = start;
    while i < t.len()
        invariant
            start <= i <= t@.len(),
            body == t@.subrange(start as int, t@.len() as int),
            body == strip_plus(t@),
            forall|j: int| start <= j < i ==> is_digit(#[trigger] t@[j]),
            v == digits_value(t@.subrange(start as int, i as int)),
            v <= u32::MAX,
        decreases t@.len() - i,
    {
        let c = t[i];
        if !('0' <= c && c <= '9') {
            assert(body[i - start] == c);
            assert(!is_digit(body[i - start]));
            assert(!(forall|j: int| 0 <= j < body.len() ==> is_digit(#[trigger] body[j])));
            assert(parse_u32_spec(t@) == body_parse(body));
            return None;
        }
        let ghost pre = t@.subrange(start as int, i + 1);
        assert(pre.drop_last() == t@.subrange(start as int, i as int));
        v = v * 10 + ((c as u32) - 48) as u64;
        assert(pre.last() == c);
        assert(v == digits_value(pre));
        if v > 4294967295u64 {
            proof {
                if forall|j: int| 0 <= j < body.len() ==> is_digit(#[trigger] body[j]) {
                    assert(pre == body.subrange(0, i + 1 - start));
                    lemma_digits_value_prefix(body, i + 1 - start);
                    assert(digits_value(body) > u32::MAX);
                }
                assert(parse_u32_spec(t@) == body_parse(body));
            }
            return None;
        }
        i += 1;
    }
    assert(t@.subrange(start as int, i as int) == body);
    Some(v as u32)
}

/// What `u64::from_str` accepts: an optional '+', then one or more decimal digits whose value
/// fits in a `u64`.
pub open spec fn parse_u64_spec(t: Seq<char>) -> Option<u64> {
    let body = strip_plus(t);
    if body.len() == 0 || !(forall|i: int| 0 <= i < body.len() ==> is_digit(#[trigger] body[i]))
        || digits_value(body) > u64::MAX {
        None
    } else {
        Some(digits_value(body) as u64)
    }
}

/// Parses a `u64` the way `u64::from_str` does.
pub fn parse_u64(t: &[char]) -> (r: Option<u64>)
    ensures
        r == parse_u64_spec(t@),
{
    let start: usize = if t.len() > 0 && t[0] == '+' {
        1
    } else {
        0
    };
    let ghost body = strip_plus(t@);
    assert(body == t@.subrange(start as int, t@.len() as int));
    if t.len() == start {
        return None;
    }
    let mut v: u128 = 0;
    let mut i: usize = start;
    while i < t.len()
        invariant
            start <= i <= t@.len(),
            body == t@.subrange(start as int, t@.len() as int),
            body == strip_plus(t@),
            forall|j: int| start <= j < i ==> is_digit(#[trigger] t@[j]),
            v == digits_value(t@.subrange(start as int, i as int)),
            v <= u64::MAX,
        decreases t@.len() - i,
    {
        let c = t[i];
        if !('0' <= c && c <= '9') {
            assert(body[i - start] == c);
            assert(!is_digit(body[i - start]));
            assert(!(forall|j: int| 0 <= j < body.len() ==> is_digit(#[trigger] body[j])));
            return None;
        }
        let ghost pre = t@.subrange(start as int, i + 1);
        assert(pre.drop_last() == t@.subrange(start as int, i as int));
        v = v * 10 + ((c as u32) - 48) as u128;
        assert(pre.last() == c);
        assert(v == digits_value(pre));
        if v > 18446744073709551615u128 {
            proof {
                if forall|j: int| 0 <= j < body.len() ==> is_digit(#[trigger] body[j]) {
                    assert(pre == body.subrange(0, i + 1 - start));
                    lemma_digits_value_prefix(body, i + 1 - start);
                    assert(digits_value(body) > u64::MAX);
                }
            }
            return None;
        }
        i += 1;
    }
    assert(t@.subrange(start as int, i as int) == body);
    Some(v as u64)
}

/// Appends the characters of a string slice.
pub fn push_str(s: &mut String, t: &str)
    ensures
        final(s)@ == old(s)@ + t@,
{
    let cs = str_chars(t);
    push_chars(s, cs.as_slice());
}

/// Decimal notation is made of digits, and reads back as the number it writes.
pub proof fn lemma_dec_chars_value(n: nat)
    ensures
        dec_chars(n).len() > 0,
        forall|i: int| 0 <= i < dec_chars(n).len() ==> is_digit(#[trigger] dec_chars(n)[i]),
        digits_value(dec_chars(n)) == n,
    decreases n,
{
    if n >= 10 {
        lemma_dec_chars_value(n / 10);
        let d = dec_chars(n);
        let pre = dec_chars(n / 10);
        assert(d.drop_last() == pre);
        assert(d.last() == digit_char((n % 10) as int));
        assert forall|i: int| 0 <= i < d.len() implies is_digit(#[trigger] d[i]) by {
            if i < pre.len() {
                assert(d[i] == pre[i]);
            }
        }
        let r = (n % 10) as int;
        assert(digit_char(r) as int == r + 48);
        assert(digits_value(d) == digits_value(pre) * 10 + (d.last() as int - 48));
        assert((n / 10) * 10 + n % 10 == n) by (nonlinear_arith);
        assert(digits_value(d) == n);
    } else {
        assert(dec_chars(n).drop_last() =~= Seq::<char>::empty());
        assert(digit_char(n as int) as int == n + 48);
        assert(digits_value(Seq::<char>::empty()) == 0);
        assert(digits_value(dec_chars(n)) == digits_value(dec_chars(n).drop_last()) * 10 + ((dec_chars(n).last() as int - 48) as nat));
    }
}

/// Reading the decimal notation of a `u64` as a `u64` gives it back.
pub proof fn lemma_parse_u64_dec(n: u64)
    ensures
        parse_u64_spec(dec_chars(n as nat)) == Some(n),
{
    lemma_dec_chars_value(n as nat);
    assert(is_digit(dec_chars(n as nat)[0]));
    assert(strip_plus(dec_chars(n as nat)) == dec_chars(n as nat));
}

} // verus!
