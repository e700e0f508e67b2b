//! Character-level text helpers shared by the line-oriented formats.
//!
//! Text is reasoned about through its `Seq<char>` view. Numbers are written
//! and read in plain decimal, the way `to_string` and `str::parse` do.

use vstd::prelude::*;

verus! {

/// Appends one character: calls `String::push`, trusted to append `c` to the
/// characters of `s` and change nothing else.
#[verifier::external_body]
pub(crate) fn push_char(s: &mut String, c: char)
    ensures
        final(s)@ == old(s)@.push(c),
{
    s.push(c);
}

/// Appends a string slice: calls `String::push_str`, trusted to append the
/// characters of `t` to those of `s` and change nothing else.
#[verifier::external_body]
pub(crate) fn push_str(s: &mut String, t: &str)
    ensures
        final(s)@ == old(s)@ + t@,
{
    s.push_str(t);
}

/// The characters of `s`, in order.
pub fn chars_of(s: &str) -> (v: Vec<char>)
    ensures
        v@ == s@,
{
    let n = s.unicode_len();
    let mut v: Vec<char> = Vec::new();
    let mut i: usize = 0;
    while i < n
        invariant
            n == s@.len(),
            i <= n,
            v@ == s@.subrange(0, i as int),
        decreases n - i,
    {
        let c = s.get_char(i);
        v.push(c);
        i = i + 1;
    }
    assert(v@ =~= s@);
    v
}

/// The string made of the characters `cs[from..to]`.
pub fn string_of(cs: &Vec<char>, from: usize, to: usize) -> (s: String)
    requires
        from <= to <= cs.len(),
    ensures
        s@ == cs@.subrange(from as int, to as int),
{
    let mut s = String::new();
    let mut i = from;
    while i < to
        invariant
            from <= i <= to <= cs.len(),
            s@ == cs@.subrange(from as int, i as int),
        decreases to - i,
    {
        push_char(&mut s, cs[i]);
        i = i + 1;
        assert(s@ =~= cs@.subrange(from as int, i as int));
    }
    s
}

/// The string with exactly the characters of `s`.
pub fn string_from(s: &str) -> (r: String)
    ensures
        r@ == s@,
{
    let mut r = String::new();
    push_str(&mut r, s);
    assert(r@ =~= s@);
    r
}

/// Whether two texts hold the same characters.
pub fn same_text(a: &str, b: &str) -> (r: bool)
    ensures
        r == (a@ == b@),
{
    let ca = chars_of(a);
    let cb = chars_of(b);
    if ca.len() != cb.len() {
        return false;
    }
    let mut i: usize = 0;
    while i < ca.len()
        invariant
            ca@ == a@,
            cb@ == b@,
            ca.len() == cb.len(),
            i <= ca.len(),
            forall|j: int| 0 <= j < i ==> ca@[j] == cb@[j],
        decreases ca.len() - i,
    {
        if ca[i] != cb[i] {
            return false;
        }
        i = i + 1;
    }
    assert(a@ =~= b@);
    true
}

/// The decimal digit for a value below ten.
pub open spec fn digit_char(d: nat) -> char {
    if d == 0 { '0' }
    else if d == 1 { '1' }
    else if d == 2 { '2' }
    else if d == 3 { '3' }
    else if d == 4 { '4' }
    else if d == 5 { '5' }
    else if d == 6 { '6' }
    else if d == 7 { '7' }
    else if d == 8 { '8' }
    else { '9' }
}

/// Decimal text of a natural number, without leading zeros.
pub open spec fn dec(n: nat) -> Seq<char>
    decreases n,
{
    if n < 10 {
        seq![digit_char(n)]
    } else {
        dec(n / 10).push(digit_char(n % 10))
    }
}

/// Decimal text of a signed integer, with a leading `-` when negative.
pub open spec fn dec_signed(v: int) -> Seq<char> {
    if v < 0 { seq!['-'] + dec((-v) as nat) } else { dec(v as nat) }
}

fn digit(d: u64) -> (c: char)
    requires
        d < 10,
    ensures
        c == digit_char(d as nat),
{
    if d == 0 { '0' }
    else if d == 1 { '1' }
    else if d == 2 { '2' }
    else if d == 3 { '3' }
    else if d == 4 { '4' }
    else if d == 5 { '5' }
    else if d == 6 { '6' }
    else if d == 7 { '7' }
    else if d == 8 { '8' }
    else { '9' }
}

/// Appends the decimal text of `n`.
pub fn push_u64(s: &mut String, n: u64)
    ensures
        final(s)@ == old(s)@ + dec(n as nat),
    decreases n,
{
    if n < 10 {
        push_char(s, digit(n));
        assert(dec(n as nat) =~= seq![digit_char(n as nat)]);
    } else {
        push_u64(s, n / 10);
        push_char(s, digit(n % 10));
    }
}

/// Decimal text of `n` (`u64::to_string`).
pub fn u64_text(n: u64) -> (s: String)
    ensures
        s@ == dec(n as nat),
{
    let mut s = String::new();
    push_u64(&mut s, n);
    assert(s@ =~= dec(n as nat));
    s
}

/// Appends the decimal text of a signed value.
pub fn push_i64(s: &mut String, v: i64)
    ensures
        final(s)@ == old(s)@ + dec_signed(v as int),
{
    if v < 0 {
        push_char(s, '-');
        let m: u64 = if v == i64::MIN { 9223372036854775808u64 } else { (-v) as u64 };
        assert(m as int == -(v as int));
        push_u64(s, m);
        assert(final(s)@ =~= old(s)@ + dec_signed(v as int));
    } else {
        push_u64(s, v as u64);
    }
}

/// Decimal text of a signed value (`i64::to_string`).
pub fn i64_text(v: i64) -> (s: String)
    ensures
        s@ == dec_signed(v as int),
{
    let mut s = String::new();
    push_i64(&mut s, v);
    assert(s@ =~= dec_signed(v as int));
    s
}


/// Whether `c` is an ASCII decimal digit.
pub open spec fn is_digit(c: char) -> bool {
    '0' <= c && c <= '9'
}

/// Whether every character is a decimal digit.
pub open spec fn all_digits(s: Seq<char>) -> bool {
    forall|i: int| 0 <= i < s.len() ==> is_digit(#[trigger] s[i])
}

/// The value of a run of decimal digits (most significant first).
pub open spec fn digits_value(s: Seq<char>) -> nat
    decreases s.len(),
{
    if s.len() == 0 {
        0
    } else {
        digits_value(s.drop_last()) * 10 + ((s.last() as int - '0' as int) as nat)
    }
}

/// Unsigned decimal grammar of `str::parse`: an optional `+`, then one or
/// more digits.
pub open spec fn parse_nat(s: Seq<char>) -> Option<nat> {
    let body = if s.len() > 0 && s[0] == '+' { s.drop_first() } else { s };
    if body.len() == 0 || !all_digits(body) {
        None
    } else {
        Some(digits_value(body))
    }
}

/// Signed decimal grammar of `str::parse`: an optional `+` or `-`, then one
/// or more digits.
pub open spec fn parse_int(s: Seq<char>) -> Option<int> {
    if s.len() > 0 && s[0] == '-' {
        let body = s.drop_first();
        if body.len() == 0 || !all_digits(body) {
            None
        } else {
            Some(-(digits_value(body) as int))
        }
    } else {
        match parse_nat(s) {
            Some(v) => Some(v as int),
            None => None,
        }
    }
}

/// `parse_nat` restricted to a bound, as the fixed-width parsers behave.
pub open spec fn parse_bounded(s: Seq<char>, max: nat) -> Option<nat> {
    match parse_nat(s) {
        Some(v) => if v <= max { Some(v) } else { None },
        None => None,
    }
}

proof fn lemma_digits_value_monotone(s: Seq<char>, k: int)
    requires
        0 <= k <= s.len(),
        all_digits(s),
    ensures
        digits_value(s.subrange(0, k)) <= digits_value(s),
    decreases s.len() - k,
{
    if k < s.len() {
        lemma_digits_value_monotone(s, k + 1);
        assert(s.subrange(0, k + 1).drop_last() =~= s.subrange(0, k));
    } else {
        assert(s.subrange(0, k) =~= s);
    }
}

/// Reads the digits `cs[from..to]`, giving up once the value passes `max`.
fn digits_upto(cs: &Vec<char>, from: usize, to: usize, max: u64) -> (r: Option<u64>)
    requires
        from <= to <= cs.len(),
        all_digits(cs@.subrange(from as int, to as int)),
    ensures
        r matches Some(v) ==> v == digits_value(cs@.subrange(from as int, to as int)) && v <= max,
        r is None ==> digits_value(cs@.subrange(from as int, to as int)) > max,
{
    let ghost body = cs@.subrange(from as int, to as int);
    let mut acc: u64 = 0;
    let mut i = from;
    while i < to
        invariant
            from <= i <= to <= cs.len(),
            body == cs@.subrange(from as int, to as int),
            all_digits(body),
            acc as nat == digits_value(cs@.subrange(from as int, i as int)),
            acc <= max,
        decreases to - i,
    {
        let c = cs[i];
        assert(is_digit(body[i - from]));
        let d: u64 = ((c as u32) - ('0' as u32)) as u64;
        assert(cs@.subrange(from as int, i + 1).drop_last() =~= cs@.subrange(from as int, i as int));
        if d > max || acc > (max - d) / 10 {
            proof {
                if d <= max {
                    assert(acc * 10 + d > max) by (nonlinear_arith)
                        requires acc > (max - d) / 10, d <= max;
                }
                lemma_digits_value_monotone(body, (i + 1 - from) as int);
                assert(body.subrange(0, (i + 1 - from) as int) =~= cs@.subrange(from as int, i + 1));
            }
            return None;
        }
        assert(acc * 10 + d <= max) by (nonlinear_arith)
            requires acc <= (max - d) / 10, d <= 9;
        acc = acc * 10 + d;
        i = i + 1;
    }
    Some(acc)
}


/// Whether every character of `cs[from..to]` is a digit.
fn digits_only(cs: &Vec<char>, from: usize, to: usize) -> (r: bool)
    requires
        from <= to <= cs.len(),
    ensures
        r == all_digits(cs@.subrange(from as int, to as int)),
{
    let mut i = from;
    while i < to
        invariant
            from <= i <= to <= cs.len(),
            all_digits(cs@.subrange(from as int, i as int)),
        decreases to - i,
    {
        let c = cs[i];
        if !('0' <= c && c <= '9') {
            assert(!is_digit(cs@.subrange(from as int, to as int)[i - from]));
            return false;
        }
        i = i + 1;
        assert forall|j: int| 0 <= j < cs@.subrange(from as int, i as int).len() implies
            is_digit(#[trigger] cs@.subrange(from as int, i as int)[j]) by {
            if j < i - 1 - from {
                assert(cs@.subrange(from as int, i as int)[j] == cs@.subrange(from as int, i - 1)[j]);
            }
        }
    }
    true
}

/// Reads an unsigned decimal (optional `+`) not above `max`, from the
/// characters `cs[from..to]`.
pub fn parse_unsigned_in(cs: &Vec<char>, from: usize, to: usize, max: u64) -> (r: Option<u64>)
    requires
        from <= to <= cs.len(),
    ensures
        r == (match parse_bounded(cs@.subrange(from as int, to as int), max as nat) {
            Some(v) => Some(v as u64),
            None => None::<u64>,
        }),
{
    let ghost t = cs@.subrange(from as int, to as int);
    let mut start = from;
    if from < to && cs[from] == '+' {
        start = from + 1;
        assert(t.drop_first() =~= cs@.subrange(start as int, to as int));
    } else {
        assert(t =~= cs@.subrange(start as int, to as int));
    }
    if start == to {
        return None;
    }
    if !digits_only(cs, start, to) {
        return None;
    }
    digits_upto(cs, start, to, max)
}

/// Reads an unsigned decimal not above `max` (`str::parse` for unsigned
/// fixed-width integers whose maximum is `max`).
pub fn parse_unsigned(s: &str, max: u64) -> (r: Option<u64>)
    ensures
        r == (match parse_bounded(s@, max as nat) {
            Some(v) => Some(v as u64),
            None => None::<u64>,
        }),
{
    let cs = chars_of(s);
    assert(cs@.subrange(0, cs@.len() as int) =~= s@);
    parse_unsigned_in(&cs, 0, cs.len(), max)
}

/// The signed grammar restricted to the range of `i64`.
pub open spec fn parse_i64_spec(s: Seq<char>) -> Option<i64> {
    match parse_int(s) {
        Some(v) => if i64::MIN <= v <= i64::MAX { Some(v as i64) } else { None },
        None => None,
    }
}

/// Reads a signed decimal within `i64` (`str::parse::<i64>`).
pub fn parse_i64(s: &str) -> (r: Option<i64>)
    ensures
        r == parse_i64_spec(s@),
{
    let cs = chars_of(s);
    let n = cs.len();
    if n > 0 && cs[0] == '-' {
        assert(s@.drop_first() =~= cs@.subrange(1, n as int));
        if n == 1 {
            return None;
        }
        if !digits_only(&cs, 1, n) {
            return None;
        }
        match digits_upto(&cs, 1, n, 9223372036854775808u64) {
            Some(m) => {
                if m == 9223372036854775808u64 {
                    Some(i64::MIN)
                } else {
                    Some(-(m as i64))
                }
            }
            None => None,
        }
    } else {
        assert(cs@.subrange(0, n as int) =~= s@);
        match parse_unsigned_in(&cs, 0, n, 9223372036854775807u64) {
            Some(v) => Some(v as i64),
            None => None,
        }
    }
}

proof fn lemma_digit_char(d: nat)
    requires
        d < 10,
    ensures
        is_digit(digit_char(d)),
        digit_char(d) as int - '0' as int == d,
{
}

/// Decimal text is all digits and reads back as the same number.
pub proof fn lemma_dec_digits(n: nat)
    ensures
        all_digits(dec(n)),
        digits_value(dec(n)) == n,
        dec(n).len() > 0,
        dec(n)[0] != '+' && dec(n)[0] != '-',
    decreases n,
{
    if n < 10 {
        lemma_digit_char(n);
        assert(dec(n).drop_last() =~= Seq::<char>::empty());
        assert(digits_value(Seq::<char>::empty()) == 0);
        assert(dec(n).last() == digit_char(n));
        assert(digits_value(dec(n)) == digits_value(dec(n).drop_last()) * 10
            + ((dec(n).last() as int - '0' as int) as nat));
    } else {
        lemma_dec_digits(n / 10);
        lemma_digit_char(n % 10);
        let s = dec(n);
        assert(s.drop_last() =~= dec(n / 10));
        assert(digits_value(s) == digits_value(dec(n / 10)) * 10 + n % 10);
        assert forall|i: int| 0 <= i < s.len() implies is_digit(#[trigger] s[i]) by {
            if i < s.len() - 1 {
                assert(s[i] == dec(n / 10)[i]);
            }
        }
    }
}

/// Writing a number in decimal and reading it back gives the number.
pub proof fn lemma_parse_dec(n: nat)
    ensures
        parse_nat(dec(n)) == Some(n),
        parse_int(dec(n)) == Some(n as int),
{
    lemma_dec_digits(n);
}

/// Writing a signed number in decimal and reading it back gives the number.
pub proof fn lemma_parse_dec_signed(v: int)
    ensures
        parse_int(dec_signed(v)) == Some(v),
{
    if v < 0 {
        lemma_dec_digits((-v) as nat);
        let s = dec_signed(v);
        assert(s.drop_first() =~= dec((-v) as nat));
    } else {
        lemma_parse_dec(v as nat);
    }
}


/// `a` followed by `b`.
pub fn join2(a: &str, b: &str) -> (r: String)
    ensures
        r@ == a@ + b@,
{
    let mut r = String::new();
    push_str(&mut r, a);
    push_str(&mut r, b);
    assert(r@ =~= a@ + b@);
    r
}

/// `a`, `b` and `c` one after the other.
pub fn join3(a: &str, b: &str, c: &str) -> (r: String)
    ensures
        r@ == a@ + b@ + c@,
{
    let mut r = String::new();
    push_str(&mut r, a);
    push_str(&mut r, b);
    push_str(&mut r, c);
    assert(r@ =~= a@ + b@ + c@);
    r
}

/// An independent copy of a string.
pub fn copy_string(s: &String) -> (r: String)
    ensures
        r@ == s@,
{
    s.clone()
}

/// Whether `s` begins with `prefix`.
pub open spec fn has_prefix(s: Seq<char>, prefix: Seq<char>) -> bool {
    prefix.len() <= s.len() && s.subrange(0, prefix.len() as int) == prefix
}

/// Whether `needle` occurs somewhere in `s`.
pub open spec fn contains_seq(s: Seq<char>, needle: Seq<char>) -> bool {
    exists|i: int| 0 <= i && i + needle.len() <= s.len() && #[trigger] s.subrange(i, i + needle.len()) == needle
}

/// Whether `cs[at..]` begins with `prefix`.
pub fn has_prefix_at(cs: &Vec<char>, at: usize, prefix: &Vec<char>) -> (r: bool)
    requires
        at <= cs.len(),
    ensures
        r == has_prefix(cs@.subrange(at as int, cs.len() as int), prefix@),
{
    if prefix.len() > cs.len() - at {
        return false;
    }
    let mut i: usize = 0;
    while i < prefix.len()
        invariant
            at + prefix.len() <= cs.len(),
            i <= prefix.len(),
            forall|j: int| 0 <= j < i ==> cs@[at + j] == prefix@[j],
        decreases prefix.len() - i,
    {
        if cs[at + i] != prefix[i] {
            assert(cs@.subrange(at as int, cs.len() as int).subrange(0, prefix.len() as int)[i as int] != prefix@[i as int]);
            return false;
        }
        i = i + 1;
    }
    assert(cs@.subrange(at as int, cs.len() as int).subrange(0, prefix.len() as int) =~= prefix@);
    true
}

/// Whether `s` begins with `prefix` (`str::starts_with`).
pub fn starts_with(s: &str, prefix: &str) -> (r: bool)
    ensures
        r == has_prefix(s@, prefix@),
{
    let cs = chars_of(s);
    let ps = chars_of(prefix);
    assert(cs@.subrange(0, cs.len() as int) =~= cs@);
    has_prefix_at(&cs, 0, &ps)
}

/// Whether `needle` occurs in `s` (`str::contains`).
pub fn contains(s: &str, needle: &str) -> (r: bool)
    ensures
        r == contains_seq(s@, needle@),
{
    let cs = chars_of(s);
    let ns = chars_of(needle);
    if ns.len() > cs.len() {
        return false;
    }
    let last = cs.len() - ns.len();
    let mut i: usize = 0;
    while i < last
        invariant
            cs@ == s@,
            ns@ == needle@,
            last == cs.len() - ns.len(),
            ns.len() <= cs.len(),
            i <= last,
            forall|k: int| 0 <= k < i ==> #[trigger] cs@.subrange(k, k + ns.len()) != ns@,
        decreases last - i,
    {
        assert(cs@.subrange(i as int, cs.len() as int).subrange(0, ns.len() as int)
            =~= cs@.subrange(i as int, i + ns.len()));
        if has_prefix_at(&cs, i, &ns) {
            return true;
        }
        i = i + 1;
    }
    assert(cs@.subrange(last as int, cs.len() as int).subrange(0, ns.len() as int)
        =~= cs@.subrange(last as int, last + ns.len()));
    if has_prefix_at(&cs, last, &ns) {
        return true;
    }
    assert forall|k: int| 0 <= k && k + needle@.len() <= s@.len() implies
        #[trigger] s@.subrange(k, k + needle@.len()) != needle@ by {
        assert(k <= last);
    }
    false
}

} // verus!
