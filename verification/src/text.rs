//! Character-level helpers shared by the lexer, the parser and the code generator:
//! building strings, substring search and replacement, decimal rendering and the
//! syntax of numeric literals.
use vstd::prelude::*;
use vstd::string::StringExecFns;

verus! {

/// `String::push` from std appends one character at the end of the string.
pub assume_specification[ std::string::String::push ](string: &mut std::string::String, ch: char)
    ensures
        final(string)@ == old(string)@.push(ch),
;

/// The characters of `s`, in order.
pub fn chars_of(s: &str) -> (v: Vec<char>)
    ensures
        v@ == s@,
{
    broadcast use vstd::string::group_string_axioms;

    let mut v: Vec<char> = Vec::new();
    for c in it: s.chars()
        invariant
            it.seq() == s@,
            v@ == s@.take(it.index() as int),
    {
        v.push(c);
        assert(s@.take(it.index() + 1) =~= s@.take(it.index() as int).push(c));
    }
    assert(s@.take(s@.len() as int) =~= s@);
    v
}

/// A string made of the characters `v[from..to]`.
pub fn string_of(v: &Vec<char>, from: usize, to: usize) -> (s: String)
    requires
        from <= to <= v@.len(),
    ensures
        s@ == v@.subrange(from as int, to as int),
{
    let mut s = String::new();
    let mut i: usize = from;
    while i < to
        invariant
            from <= i <= to <= v@.len(),
            s@ == v@.subrange(from as int, i as int),
        decreases to - i,
    {
        s.push(v[i]);
        assert(v@.subrange(from as int, i + 1) =~= v@.subrange(from as int, i as int).push(v@[i as int]));
        i += 1;
    }
    s
}

/// Appends `tail` to `s`.
pub fn push_str(s: &mut String, tail: &str)
    ensures
        final(s)@ == old(s)@ + tail@,
{
    s.append(tail);
}

/// The string `s` followed by `tail`.
pub fn concat_str(s: &str, tail: &str) -> (r: String)
    ensures
        r@ == s@ + tail@,
{
    let mut r = String::from_str(s);
    r.append(tail);
    r
}

/// Whether `w` starts with `pat` at position `at`.
pub open spec fn occurs_at(w: Seq<char>, pat: Seq<char>, at: int) -> bool {
    0 <= at && at + pat.len() <= w.len() && w.subrange(at, at + pat.len()) == pat
}

/// Whether `pat` occurs somewhere in `w`.
pub open spec fn contains(w: Seq<char>, pat: Seq<char>) -> bool {
    exists|at: int| occurs_at(w, pat, at)
}

/// Every non-overlapping occurrence of `pat` in `w`, taken from left to right,
/// replaced by `rep`.
pub open spec fn replace_all(w: Seq<char>, pat: Seq<char>, rep: Seq<char>) -> Seq<char>
    decreases w.len(),
{
    if pat.len() == 0 || w.len() < pat.len() {
        w
    } else if w.take(pat.len() as int) == pat {
        rep + replace_all(w.skip(pat.len() as int), pat, rep)
    } else {
        seq![w[0]] + replace_all(w.drop_first(), pat, rep)
    }
}

fn occurs_at_exec(w: &Vec<char>, pat: &Vec<char>, at: usize) -> (r: bool)
    requires
        at <= w@.len(),
    ensures
        r == occurs_at(w@, pat@, at as int),
{
    if pat.len() > w.len() - at {
        return false;
    }
    let mut j: usize = 0;
    while j < pat.len()
        invariant
            at + pat@.len() <= w@.len(),
            w@.len() == w.len(),
            j <= pat@.len(),
            forall|k: int| 0 <= k < j ==> w@[at + k] == pat@[k],
        decreases pat@.len() - j,
    {
        if w[at + j] != pat[j] {
            assert(w@.subrange(at as int, at + pat@.len())[j as int] != pat@[j as int]);
            return false;
        }
        j += 1;
    }
    assert(w@.subrange(at as int, at + pat@.len()) =~= pat@);
    true
}

/// Whether `pat` occurs in `w`.
pub fn contains_exec(w: &str, pat: &str) -> (r: bool)
    ensures
        r == contains(w@, pat@),
{
    let wv = chars_of(w);
    let pv = chars_of(pat);
    let mut at: usize = 0;
    while at < wv.len()
        invariant
            wv@ == w@,
            pv@ == pat@,
            at <= wv@.len(),
            forall|k: int| 0 <= k < at ==> !occurs_at(w@, pat@, k),
        decreases wv@.len() - at,
    {
        if occurs_at_exec(&wv, &pv, at) {
            return true;
        }
        at += 1;
    }
    if occurs_at_exec(&wv, &pv, at) {
        return true;
    }
    assert forall|k: int| !occurs_at(w@, pat@, k) by {
        if k > at && occurs_at(w@, pat@, k) {
            assert(k + pat@.len() <= w@.len());
        }
    }
    false
}

/// `w` with every occurrence of `pat` replaced by `rep`, as `str::replace` does.
pub fn replace(w: &str, pat: &str, rep: &str) -> (r: String)
    requires
        pat@.len() > 0,
    ensures
        r@ == replace_all(w@, pat@, rep@),
{
    let wv = chars_of(w);
    let pv = chars_of(pat);
    let mut out = String::new();
    let mut i: usize = 0;
    assert(w@.skip(0) =~= w@);
    assert(out@ + replace_all(w@, pat@, rep@) =~= replace_all(w@, pat@, rep@));
    while i < wv.len()
        invariant
            wv@ == w@,
            pv@ == pat@,
            pat@.len() > 0,
            i <= wv@.len(),
            out@ + replace_all(w@.skip(i as int), pat@, rep@) == replace_all(w@, pat@, rep@),
        decreases wv@.len() - i,
    {
        let ghost rest = w@.skip(i as int);
        if occurs_at_exec(&wv, &pv, i) {
            assert(rest.take(pat@.len() as int) =~= w@.subrange(i as int, i + pat@.len()));
            assert(rest.skip(pat@.len() as int) =~= w@.skip(i + pat@.len()));
            push_str(&mut out, rep);
            i += pv.len();
        } else {
            proof {
                if rest.len() >= pat@.len() {
                    assert(rest.take(pat@.len() as int) =~= w@.subrange(i as int, i + pat@.len()));
                }
                assert(rest.drop_first() =~= w@.skip(i + 1));
                if rest.len() < pat@.len() {
                    assert(replace_all(rest.drop_first(), pat@, rep@) == rest.drop_first());
                    assert(rest =~= seq![rest[0]] + rest.drop_first());
                }
            }
            out.push(wv[i]);
            i += 1;
        }
    }
    assert(w@.skip(i as int) =~= Seq::<char>::empty());
    out
}

/// The character of a decimal digit `d < 10`.
pub open spec fn digit_char(d: int) -> char {
    if d == 0 { '0' }
    else if d == 1 { '1' }
    else if d == 2 { '2' }
    else if d == 3 { '3' }
    else if d == 4 { '4' }
    else if d == 5 { '5' }
    else if d == 6 { '6' }
    else if d == 7 { '7' }
    else if d == 8 { '8' }
    else { '9' }
}

/// The decimal rendering of `n`, without leading zeros.
pub open spec fn decimal(n: nat) -> Seq<char>
    decreases n,
{
    if n < 10 {
        seq![digit_char(n as int)]
    } else {
        decimal(n / 10).push(digit_char((n % 10) as int))
    }
}

/// The decimal rendering of a signed integer, with a leading `-` when it is negative.
pub open spec fn signed_decimal(n: int) -> Seq<char> {
    if n < 0 {
        seq!['-'] + decimal((-n) as nat)
    } else {
        decimal(n as nat)
    }
}

fn digit_exec(d: u64) -> (c: char)
    requires
        d < 10,
    ensures
        c == digit_char(d as int),
{
    if d == 0 { '0' }
    else if d == 1 { '1' }
    else if d == 2 { '2' }
    else if d == 3 { '3' }
    else if d == 4 { '4' }
    else if d == 5 { '5' }
    else if d == 6 { '6' }
    else if d == 7 { '7' }
    else if d == 8 { '8' }
    else { '9' }
}

/// Appends the decimal rendering of `n` to `s`.
pub fn push_decimal(s: &mut String, n: u64)
    ensures
        final(s)@ == old(s)@ + decimal(n as nat),
    decreases n,
{
    if n >= 10 {
        push_decimal(s, n / 10);
    }
    let c = digit_exec(n % 10);
    s.push(c);
    proof {
        if n >= 10 {
            assert(old(s)@ + decimal(n as nat) =~= old(s)@ + decimal((n / 10) as nat) + seq![c]);
        } else {
            assert(old(s)@ + decimal(n as nat) =~= old(s)@ + seq![c]);
        }
    }
}

/// Appends the decimal rendering of the signed integer `n` to `s`.
pub fn push_signed_decimal(s: &mut String, n: i32)
    ensures
        final(s)@ == old(s)@ + signed_decimal(n as int),
{
    if n < 0 {
        s.push('-');
        let m: i64 = -(n as i64);
        push_decimal(s, m as u64);
        assert(final(s)@ =~= old(s)@ + signed_decimal(n as int));
    } else {
        push_decimal(s, n as u64);
    }
}

/// The decimal rendering of `n` as a new string.
pub fn decimal_string(n: u64) -> (s: String)
    ensures
        s@ == decimal(n as nat),
{
    let mut s = String::new();
    push_decimal(&mut s, n);
    assert(s@ =~= decimal(n as nat));
    s
}

/// `c` is one of the ASCII digits `0` to `9`.
pub open spec fn is_digit(c: char) -> bool {
    '0' <= c <= '9'
}

/// Every character of `w` is an ASCII digit.
pub open spec fn all_digits(w: Seq<char>) -> bool {
    forall|i: int| 0 <= i < w.len() ==> is_digit(#[trigger] w[i])
}

/// The value of a string of decimal digits.
pub open spec fn digits_value(w: Seq<char>) -> nat
    decreases w.len(),
{
    if w.len() == 0 {
        0
    } else {
        digits_value(w.drop_last()) * 10 + ((w.last() as int) - ('0' as int)) as nat
    }
}

/// What `str::parse::<i32>` accepts: an optional `+` or `-`, then at least one digit,
/// with a value that fits in an `i32`; `None` where it reports an error.
pub open spec fn parse_i32(w: Seq<char>) -> Option<i32> {
    let negative = w.len() > 0 && w[0] == '-';
    let digits = if w.len() > 0 && (w[0] == '-' || w[0] == '+') { w.drop_first() } else { w };
    if digits.len() == 0 || !all_digits(digits) {
        None
    } else {
        let v: int = if negative { -(digits_value(digits) as int) } else { digits_value(digits) as int };
        if i32::MIN <= v <= i32::MAX {
            Some(v as i32)
        } else {
            None
        }
    }
}

proof fn lemma_digit_char(d: int)
    requires
        0 <= d < 10,
    ensures
        is_digit(digit_char(d)),
        (digit_char(d) as int) - ('0' as int) == d,
{
}

/// The decimal rendering of `n` is a non-empty string of digits whose value is `n`.
pub proof fn lemma_decimal_digits(n: nat)
    ensures
        decimal(n).len() > 0,
        all_digits(decimal(n)),
        digits_value(decimal(n)) == n,
    decreases n,
{
    lemma_digit_char((n % 10) as int);
    if n >= 10 {
        lemma_decimal_digits(n / 10);
        let w = decimal(n);
        assert(w.drop_last() =~= decimal(n / 10));
        assert(w.last() == digit_char((n % 10) as int));
        assert(digits_value(w) == digits_value(decimal(n / 10)) * 10 + (n % 10));
        assert(n == (n / 10) * 10 + n % 10);
        assert forall|i: int| 0 <= i < w.len() implies is_digit(#[trigger] w[i]) by {
            if i < w.len() - 1 {
                assert(w[i] == decimal(n / 10)[i]);
            }
        }
    } else {
        assert(decimal(n).drop_last() =~= Seq::<char>::empty());
        assert(digits_value(decimal(n)) == digits_value(Seq::<char>::empty()) * 10 + n % 10);
    }
}

/// An integer written in decimal, with a `-` where it is negative, reads back as
/// the same integer.
pub proof fn lemma_integer_round_trip(v: i32)
    ensures
        parse_i32(signed_decimal(v as int)) == Some(v),
{
    let w = signed_decimal(v as int);
    if v < 0 {
        let m = (-(v as int)) as nat;
        lemma_decimal_digits(m);
        assert(w.drop_first() =~= decimal(m));
    } else {
        lemma_decimal_digits(v as nat);
        assert(is_digit(decimal(v as nat)[0]));
    }
}

/// `str::parse::<i32>` on `w`, as a decision from the characters alone.
pub fn parse_i32_exec(w: &str) -> (r: Option<i32>)
    ensures
        r == parse_i32(w@),
{
    let v = chars_of(w);
    let n = v.len();
    let negative = n > 0 && v[0] == '-';
    let start: usize = if n > 0 && (v[0] == '-' || v[0] == '+') { 1 } else { 0 };
    let ghost digits = if w@.len() > 0 && (w@[0] == '-' || w@[0] == '+') { w@.drop_first() } else { w@ };
    assert(digits =~= w@.skip(start as int));
    if start == n {
        return None;
    }
    let cap: u64 = 2147483649;
    let mut acc: u64 = 0;
    let mut i: usize = start;
    while i < n
        invariant
            v@ == w@,
            n == v@.len(),
            start <= i <= n,
            digits =~= w@.skip(start as int),
            all_digits(w@.subrange(start as int, i as int)),
            cap == 2147483649,
            digits == (if w@.len() > 0 && (w@[0] == '-' || w@[0] == '+') { w@.drop_first() } else { w@ }),
            acc <= cap,
            acc == if digits_value(w@.subrange(start as int, i as int)) >= cap {
                cap as nat
            } else {
                digits_value(w@.subrange(start as int, i as int))
            },
        decreases n - i,
    {
        let c = v[i];
        if !('0' <= c && c <= '9') {
            assert(w@.skip(start as int)[i - start] == w@[i as int]);
            assert(digits[i - start] == c);
            assert(!is_digit(digits[i - start]));
            return None;
        }
        let d: u64 = (c as u64) - ('0' as u64);
        let ghost prev = w@.subrange(start as int, i as int);
        let ghost next = w@.subrange(start as int, i + 1);
        assert(next.drop_last() =~= prev);
        assert(all_digits(next)) by {
            assert forall|j: int| 0 <= j < next.len() implies is_digit(#[trigger] next[j]) by {
                if j < prev.len() {
                    assert(next[j] == prev[j]);
                }
            }
        }
        if acc >= cap {
            acc = cap;
        } else {
            let t = acc * 10 + d;
            acc = if t >= cap { cap } else { t };
        }
        i += 1;
    }
    assert(w@.subrange(start as int, n as int) =~= digits);
    if negative {
        if acc > 2147483648 {
            None
        } else {
            let m: i64 = -(acc as i64);
            Some(m as i32)
        }
    } else {
        if acc > 2147483647 {
            None
        } else {
            Some(acc as i32)
        }
    }
}

/// The number of digits at the start of `w`.
pub open spec fn lead_digits(w: Seq<char>) -> nat
    decreases w.len(),
{
    if w.len() > 0 && is_digit(w[0]) {
        1 + lead_digits(w.drop_first())
    } else {
        0
    }
}

/// An exponent part of a float literal: `e` or `E`, an optional sign, then at least one digit.
pub open spec fn exponent_ok(w: Seq<char>) -> bool {
    &&& w.len() >= 2
    &&& (w[0] == 'e' || w[0] == 'E')
    &&& {
        let rest = if w[1] == '+' || w[1] == '-' { w.skip(2) } else { w.skip(1) };
        rest.len() > 0 && all_digits(rest)
    }
}

/// The decimal form of the float grammar of `str::parse::<f32>`: an optional sign, digits
/// around an optional `.` with at least one digit in all, then an optional exponent.
pub open spec fn float_literal(w: Seq<char>) -> bool {
    let body = if w.len() > 0 && (w[0] == '+' || w[0] == '-') { w.drop_first() } else { w };
    let whole = lead_digits(body);
    let after_whole = body.skip(whole as int);
    if after_whole.len() > 0 && after_whole[0] == '.' {
        let frac = lead_digits(after_whole.drop_first());
        let rest = after_whole.drop_first().skip(frac as int);
        whole + frac >= 1 && (rest.len() == 0 || exponent_ok(rest))
    } else {
        whole >= 1 && (after_whole.len() == 0 || exponent_ok(after_whole))
    }
}


fn lead_digits_exec(v: &Vec<char>, from: usize) -> (k: usize)
    requires
        from <= v@.len(),
    ensures
        k == lead_digits(v@.skip(from as int)),
        from + k <= v@.len(),
{
    let mut i: usize = from;
    while i < v.len() && '0' <= v[i] && v[i] <= '9'
        invariant
            from <= i <= v@.len(),
            lead_digits(v@.skip(from as int)) == (i - from) + lead_digits(v@.skip(i as int)),
        decreases v@.len() - i,
    {
        assert(v@.skip(i as int).drop_first() =~= v@.skip(i + 1));
        i += 1;
    }
    i - from
}

fn all_digits_from(v: &Vec<char>, from: usize) -> (r: bool)
    requires
        from <= v@.len(),
    ensures
        r == all_digits(v@.skip(from as int)),
{
    let k = lead_digits_exec(v, from);
    proof {
        lemma_lead_digits(v@.skip(from as int));
    }
    k == v.len() - from
}

proof fn lemma_lead_digits(w: Seq<char>)
    ensures
        lead_digits(w) <= w.len(),
        all_digits(w.take(lead_digits(w) as int)),
        lead_digits(w) < w.len() ==> !is_digit(w[lead_digits(w) as int]),
        all_digits(w) <==> lead_digits(w) == w.len(),
    decreases w.len(),
{
    if w.len() > 0 && is_digit(w[0]) {
        lemma_lead_digits(w.drop_first());
        let k: int = lead_digits(w.drop_first()) as int;
        assert forall|i: int| 0 <= i < w.take(k + 1).len() implies is_digit(#[trigger] w.take(k + 1)[i]) by {
            if i > 0 {
                assert(w.take(k + 1)[i] == w.drop_first().take(k)[i - 1]);
            }
        }
        if all_digits(w) {
            assert forall|i: int| 0 <= i < w.drop_first().len() implies is_digit(#[trigger] w.drop_first()[i]) by {
                assert(w.drop_first()[i] == w[i + 1]);
            }
        }
        if lead_digits(w) == w.len() {
            assert forall|i: int| 0 <= i < w.len() implies is_digit(#[trigger] w[i]) by {
                if i > 0 {
                    assert(w[i] == w.drop_first()[i - 1]);
                }
            }
        }
    } else {
        if w.len() > 0 {
            assert(!is_digit(w[0]));
        }
    }
}

fn exponent_ok_exec(v: &Vec<char>, from: usize) -> (r: bool)
    requires
        from <= v@.len(),
    ensures
        r == exponent_ok(v@.skip(from as int)),
{
    let ghost w = v@.skip(from as int);
    if v.len() - from < 2 {
        return false;
    }
    if !(v[from] == 'e' || v[from] == 'E') {
        return false;
    }
    let start = if v[from + 1] == '+' || v[from + 1] == '-' { from + 2 } else { from + 1 };
    assert(w.skip(2) =~= v@.skip(from + 2));
    assert(w.skip(1) =~= v@.skip(from + 1));
    start < v.len() && all_digits_from(v, start)
}

/// Whether `w` is a literal that `str::parse::<f32>` accepts in its decimal form.
pub fn float_literal_exec(w: &str) -> (r: bool)
    ensures
        r == float_literal(w@),
{
    let v = chars_of(w);
    let n = v.len();
    let start: usize = if n > 0 && (v[0] == '+' || v[0] == '-') { 1 } else { 0 };
    let ghost body = if w@.len() > 0 && (w@[0] == '+' || w@[0] == '-') { w@.drop_first() } else { w@ };
    assert(body =~= v@.skip(start as int));
    let whole = lead_digits_exec(&v, start);
    let after = start + whole;
    assert(body.skip(whole as int) =~= v@.skip(after as int));
    if after < n && v[after] == '.' {
        let frac = lead_digits_exec(&v, after + 1);
        assert(body.skip(whole as int).drop_first() =~= v@.skip(after + 1));
        let rest = after + 1 + frac;
        assert(body.skip(whole as int).drop_first().skip(frac as int) =~= v@.skip(rest as int));
        (whole + frac >= 1) && (rest == n || exponent_ok_exec(&v, rest))
    } else {
        whole >= 1 && (after == n || exponent_ok_exec(&v, after))
    }
}

/// The characters with the Unicode `White_Space` property, which `char::is_whitespace` tests for.
pub open spec fn is_whitespace(c: char) -> bool {
    ||| '\u{9}' <= c <= '\u{d}'
    ||| c == ' '
    ||| c == '\u{85}'
    ||| c == '\u{a0}'
    ||| c == '\u{1680}'
    ||| '\u{2000}' <= c <= '\u{200a}'
    ||| c == '\u{2028}'
    ||| c == '\u{2029}'
    ||| c == '\u{202f}'
    ||| c == '\u{205f}'
    ||| c == '\u{3000}'
}

/// `char::is_whitespace`.
pub fn is_whitespace_exec(c: char) -> (r: bool)
    ensures
        r == is_whitespace(c),
{
    ('\u{9}' <= c && c <= '\u{d}') || c == ' ' || c == '\u{85}' || c == '\u{a0}' || c == '\u{1680}'
        || ('\u{2000}' <= c && c <= '\u{200a}') || c == '\u{2028}' || c == '\u{2029}'
        || c == '\u{202f}' || c == '\u{205f}' || c == '\u{3000}'
}

}
