//! Text: trimming, numbers, joining.
use vstd::arithmetic::power::pow;
use vstd::prelude::*;

verus! {

/// `String::push` of the standard library: appends one character.
pub assume_specification[ String::push ](s: &mut String, c: char)
    ensures
        final(s)@ == old(s)@.push(c),
;

/// The characters of an optional string.
pub open spec fn text_of(s: Option<&str>) -> Option<Seq<char>> {
    match s {
        Some(t) => Some(t@),
        None => None,
    }
}

/// The characters of a string.
pub fn to_chars(s: &str) -> (v: Vec<char>)
    ensures
        v@ == s@,
{
    let mut v: Vec<char> = Vec::new();
    for c in it: s.chars()
        invariant
            v@ == it.seq().take(it.index()),
            it.seq() == s@,
    {
        v.push(c);
        assert(it.seq().take(it.index() + 1) =~= it.seq().take(it.index()).push(c));
    }
    assert(s@.take(s@.len() as int) =~= s@);
    v
}

/// The string of the characters of `v` from `from` up to `to`.
pub fn string_of(v: &Vec<char>, from: usize, to: usize) -> (s: String)
    requires
        from <= to <= v@.len(),
    ensures
        s@ == v@.subrange(from as int, to as int),
{
    let mut s = String::new();
    let mut i = from;
    assert(v@.subrange(from as int, from as int) =~= Seq::<char>::empty());
    while i < to
        invariant
            from <= i <= to <= v@.len(),
            s@ == v@.subrange(from as int, i as int),
        decreases to - i,
    {
        s.push(v[i]);
        assert(v@.subrange(from as int, i + 1) =~= v@.subrange(from as int, i as int).push(
            v@[i as int],
        ));
        i = i + 1;
    }
    s
}

/// Whether two strings hold the same characters.
pub fn str_eq(a: &str, b: &str) -> (r: bool)
    ensures
        r == (a@ == b@),
{
    let left = to_chars(a);
    let right = to_chars(b);
    if left.len() != right.len() {
        return false;
    }
    let mut i: usize = 0;
    while i < left.len()
        invariant
            left@ == a@,
            right@ == b@,
            left@.len() == right@.len(),
            i <= left@.len(),
            forall|j: int| 0 <= j < i ==> left@[j] == right@[j],
        decreases left@.len() - i,
    {
        if left[i] != right[i] {
            return false;
        }
        i = i + 1;
    }
    assert(left@ =~= right@);
    true
}

// ---- trimming

/// The characters with the Unicode property `White_Space`.
pub open spec fn white(c: char) -> bool {
    ||| '\u{9}' <= c <= '\u{d}'
    ||| c == ' '
    ||| c == '\u{85}'
    ||| c == '\u{a0}'
    ||| c == '\u{1680}'
    ||| '\u{2000}' <= c <= '\u{200a}'
    ||| c == '\u{2028}'
    ||| c == '\u{2029}'
    ||| c == '\u{202f}'
    ||| c == '\u{205f}'
    ||| c == '\u{3000}'
}

fn is_white(c: char) -> (w: bool)
    ensures
        w == white(c),
{
    ('\u{9}' <= c && c <= '\u{d}') || c == ' ' || c == '\u{85}' || c == '\u{a0}' || c == '\u{1680}'
        || ('\u{2000}' <= c && c <= '\u{200a}') || c == '\u{2028}' || c == '\u{2029}' || c
        == '\u{202f}' || c == '\u{205f}' || c == '\u{3000}'
}

/// `s` without the white space at its ends.
pub open spec fn trimmed(s: Seq<char>) -> Seq<char>
    decreases s.len(),
{
    if s.len() > 0 && white(s[0]) {
        trimmed(s.skip(1))
    } else if s.len() > 0 && white(s.last()) {
        trimmed(s.drop_last())
    } else {
        s
    }
}

/// Takes the white space off the ends of a string.
pub fn trim(s: &str) -> (t: String)
    ensures
        t@ == trimmed(s@),
{
    let v = to_chars(s);
    let mut i: usize = 0;
    let mut j: usize = v.len();
    assert(v@.subrange(0, v@.len() as int) =~= v@);
    while i < j && is_white(v[i])
        invariant
            i <= j <= v@.len(),
            j == v@.len(),
            trimmed(v@) == trimmed(v@.subrange(i as int, j as int)),
        decreases j - i,
    {
        assert(v@.subrange(i as int, j as int).skip(1) =~= v@.subrange(i + 1, j as int));
        i = i + 1;
    }
    while i < j && is_white(v[j - 1])
        invariant
            i <= j <= v@.len(),
            i < j ==> !white(v@[i as int]),
            trimmed(v@) == trimmed(v@.subrange(i as int, j as int)),
        decreases j - i,
    {
        assert(v@.subrange(i as int, j as int).drop_last() =~= v@.subrange(i as int, j - 1));
        j = j - 1;
    }
    string_of(&v, i, j)
}

// ---- numbers

/// `c` is a decimal digit.
pub open spec fn is_digit(c: char) -> bool {
    '0' <= c <= '9'
}

/// The number that digits write down.
pub open spec fn digits_value(s: Seq<char>) -> nat
    decreases s.len(),
{
    if s.len() == 0 {
        0
    } else {
        digits_value(s.drop_last()) * 10 + (s.last() as nat - '0' as nat) as nat
    }
}

/// The digits of a number with an optional plus sign before them.
pub open spec fn unsigned_part(s: Seq<char>) -> Seq<char> {
    if s.len() > 0 && s[0] == '+' {
        s.skip(1)
    } else {
        s
    }
}

/// The number that `s` writes down, if it is nothing but an optional plus sign and digits.
pub open spec fn parsed(s: Seq<char>) -> Option<nat> {
    let body = unsigned_part(s);
    if body.len() > 0 && forall|i: int| 0 <= i < body.len() ==> is_digit(#[trigger] body[i]) {
        Some(digits_value(body))
    } else {
        None
    }
}

/// The number that `s` writes down, if it is at most `max`.
pub open spec fn parsed_within(s: Seq<char>, max: nat) -> Option<nat> {
    match parsed(s) {
        Some(n) => if n <= max {
            Some(n)
        } else {
            None
        },
        None => None,
    }
}

pub(crate) proof fn lemma_digits_value_grows(s: Seq<char>, k: int)
    requires
        0 <= k <= s.len(),
        forall|i: int| 0 <= i < s.len() ==> is_digit(#[trigger] s[i]),
    ensures
        digits_value(s.take(k)) <= digits_value(s),
    decreases s.len() - k,
{
    if k < s.len() {
        lemma_digits_value_grows(s, k + 1);
        assert(s.take(k + 1).drop_last() =~= s.take(k));
    } else {
        assert(s.take(k) =~= s);
    }
}

/// Reads a number of at most `max`.
pub fn parse_number(s: &str, max: u64) -> (r: Option<u64>)
    ensures
        match r {
            Some(n) => parsed_within(s@, max as nat) == Some(n as nat),
            None => parsed_within(s@, max as nat) is None,
        },
{
    let v = to_chars(s);
    let start: usize = if v.len() > 0 && v[0] == '+' {
        1
    } else {
        0
    };
    let ghost body = unsigned_part(v@);
    assert(body =~= v@.skip(start as int));
    if start == v.len() {
        return None;
    }
    let mut n: u64 = 0;
    let mut i = start;
    assert(body.take(0) =~= Seq::<char>::empty());
    while i < v.len()
        invariant
            v@ == s@,
            start <= i <= v@.len(),
            start < v@.len(),
            body == unsigned_part(v@),
            body == v@.skip(start as int),
            forall|k: int| 0 <= k < i - start ==> is_digit(#[trigger] body[k]),
            n == digits_value(body.take(i - start)),
            n <= max,
        decreases v@.len() - i,
    {
        let c = v[i];
        assert(c == body[i - start]);
        if c < '0' || c > '9' {
            return None;
        }
        let d: u64 = (c as u64) - ('0' as u64);
        proof {
            assert(body.take(i - start + 1).drop_last() =~= body.take(i - start));
            if n * 10 + d > max {
                if parsed(s@) is Some {
                    lemma_digits_value_grows(body, i - start + 1);
                }
            }
        }
        let next = match n.checked_mul(10) {
            Some(m) => match m.checked_add(d) {
                Some(x) => x,
                None => return None,
            },
            None => return None,
        };
        if next > max {
            return None;
        }
        n = next;
        i = i + 1;
    }
    assert(body.take(body.len() as int) =~= body);
    Some(n)
}

/// Reads a `usize`.
pub fn parse_usize(s: &str) -> (r: Option<usize>)
    ensures
        match r {
            Some(n) => parsed_within(s@, usize::MAX as nat) == Some(n as nat),
            None => parsed_within(s@, usize::MAX as nat) is None,
        },
{
    match parse_number(s, usize::MAX as u64) {
        Some(n) => Some(n as usize),
        None => None,
    }
}

/// The decimal digits of `n`, without leading zeros.
pub open spec fn decimal(n: nat) -> Seq<char>
    decreases n,
{
    if n < 10 {
        seq![digit(n)]
    } else {
        decimal(n / 10).push(digit(n % 10))
    }
}

/// The digit of a number below ten.
pub open spec fn digit(d: nat) -> char {
    (d + '0' as nat) as char
}

/// Appends the decimal digits of `n`.
pub fn push_decimal(out: &mut String, n: u64)
    ensures
        final(out)@ == old(out)@ + decimal(n as nat),
    decreases n,
{
    let ghost before = out@;
    if n >= 10 {
        push_decimal(out, n / 10);
    }
    let d: u8 = (n % 10) as u8;
    let c = (d + 48u8) as char;
    out.push(c);
    assert(out@ =~= before + decimal(n as nat));
}

/// The decimal digits of `n`.
pub fn decimal_text(n: u64) -> (s: String)
    ensures
        s@ == decimal(n as nat),
{
    let mut s = String::new();
    push_decimal(&mut s, n);
    assert(s@ =~= decimal(n as nat));
    s
}

/// The decimal digits of a number write that number down.
pub proof fn lemma_decimal_value(n: nat)
    ensures
        decimal(n).len() > 0,
        forall|i: int| 0 <= i < decimal(n).len() ==> is_digit(#[trigger] decimal(n)[i]),
        digits_value(decimal(n)) == n,
    decreases n,
{
    if n >= 10 {
        lemma_decimal_value(n / 10);
        let init = decimal(n / 10);
        assert(decimal(n).drop_last() =~= init);
        assert forall|i: int| 0 <= i < decimal(n).len() implies is_digit(
            #[trigger] decimal(n)[i],
        ) by {
            if i < init.len() {
                assert(decimal(n)[i] == init[i]);
            }
        }
    } else {
        assert(decimal(n).drop_last() =~= Seq::<char>::empty());
        assert(digits_value(Seq::<char>::empty()) == 0);
    }
}

/// Reading the decimal digits of a number gives the number back.
pub proof fn lemma_decimal_parses(n: nat)
    ensures
        parsed(decimal(n)) == Some(n),
{
    lemma_decimal_value(n);
    assert(is_digit(decimal(n)[0]));
}

/// A number can be told from what follows its digits, where that starts with no digit.
pub proof fn lemma_decimal_prefix(a: nat, b: nat, s: Seq<char>, t: Seq<char>)
    requires
        s.len() > 0,
        t.len() > 0,
        !is_digit(s[0]),
        !is_digit(t[0]),
        decimal(a) + s == decimal(b) + t,
    ensures
        a == b,
        s == t,
{
    lemma_decimal_value(a);
    lemma_decimal_value(b);
    let (x, y) = (decimal(a), decimal(b));
    let whole = x + s;
    if x.len() < y.len() {
        assert(whole[x.len() as int] == s[0]);
        assert((y + t)[x.len() as int] == y[x.len() as int]);
    } else if y.len() < x.len() {
        assert((y + t)[y.len() as int] == t[0]);
        assert(whole[y.len() as int] == x[y.len() as int]);
    } else {
        assert(x =~= whole.take(x.len() as int));
        assert(y =~= (y + t).take(x.len() as int));
        assert(s =~= whole.skip(x.len() as int));
        assert(t =~= (y + t).skip(x.len() as int));
    }
}

// ---- laws

/// Trimming takes white space off both ends, all of it and nothing else.
pub proof fn lemma_trimmed(s: Seq<char>) -> (r: (int, int))
    ensures
        0 <= r.0 <= r.1 <= s.len(),
        trimmed(s) == s.subrange(r.0, r.1),
        forall|k: int| 0 <= k < r.0 || r.1 <= k < s.len() ==> white(#[trigger] s[k]),
        r.0 < r.1 ==> !white(s[r.0]) && !white(s[r.1 - 1]),
    decreases s.len(),
{
    if s.len() > 0 && white(s[0]) {
        let t = s.skip(1);
        let (i, j) = lemma_trimmed(t);
        assert(t.subrange(i, j) =~= s.subrange(i + 1, j + 1));
        assert forall|k: int| 0 <= k < i + 1 || j + 1 <= k < s.len() implies white(
            #[trigger] s[k],
        ) by {
            if k > 0 {
                assert(white(t[k - 1]));
            }
        }
        (i + 1, j + 1)
    } else if s.len() > 0 && white(s.last()) {
        let t = s.drop_last();
        let (i, j) = lemma_trimmed(t);
        assert(t.subrange(i, j) =~= s.subrange(i, j));
        assert forall|k: int| 0 <= k < i || j <= k < s.len() implies white(#[trigger] s[k]) by {
            if k < t.len() {
                assert(white(t[k]));
            }
        }
        (i, j)
    } else {
        assert(s.subrange(0, s.len() as int) =~= s);
        (0, s.len() as int)
    }
}

/// Text without white space at its ends is the same trimmed, whatever white space is put around it.
pub proof fn lemma_trims_to(before: Seq<char>, s: Seq<char>, after: Seq<char>)
    requires
        s.len() > 0,
        !white(s[0]),
        !white(s.last()),
        forall|k: int| 0 <= k < before.len() ==> white(#[trigger] before[k]),
        forall|k: int| 0 <= k < after.len() ==> white(#[trigger] after[k]),
    ensures
        trimmed(before + s + after) == s,
{
    let all = before + s + after;
    let (i, j) = lemma_trimmed(all);
    let a = before.len() as int;
    let b = a + s.len();
    assert(all[a] == s[0]);
    assert(all[b - 1] == s.last());
    assert(i <= a && b <= j);
    if i < a {
        assert(all[i] == before[i]);
    }
    if j > b {
        assert(all[j - 1] == after[j - 1 - b]);
    }
    assert(all.subrange(a, b) =~= s);
}

/// Of the characters of ASCII, the space and those from the tab to the carriage return are white.
pub proof fn lemma_white_ascii(c: char)
    requires
        (c as u32) < 128,
    ensures
        white(c) <==> c as u32 == 32 || 9 <= c as u32 <= 13,
{
}

/// The white characters are the twenty-five that Unicode says are white.
pub proof fn lemma_white(c: char)
    ensures
        white(c) <==> {
            let n = c as u32;
            ||| 9 <= n <= 13
            ||| n == 32
            ||| n == 133
            ||| n == 160
            ||| n == 5760
            ||| 8192 <= n <= 8202
            ||| n == 8232
            ||| n == 8233
            ||| n == 8239
            ||| n == 8287
            ||| n == 12288
        },
{
}

/// Digits write down a number place by place: a digit is worth itself, and the digits before others
/// are worth ten times as much for each of those.
pub proof fn lemma_digits_places(a: Seq<char>, b: Seq<char>)
    requires
        forall|i: int| 0 <= i < b.len() ==> is_digit(#[trigger] b[i]),
    ensures
        digits_value(a + b) == digits_value(a) * pow(10, b.len()) + digits_value(b),
        forall|c: char| is_digit(c) ==> #[trigger] digits_value(seq![c]) == c as int - 48,
    decreases b.len(),
{
    assert forall|c: char| is_digit(c) implies #[trigger] digits_value(seq![c]) == c as int - 48 by {
        assert(seq![c].drop_last() =~= Seq::<char>::empty());
        assert(digits_value(Seq::<char>::empty()) == 0);
    }
    reveal(pow);
    if b.len() == 0 {
        assert(a + b =~= a);
    } else {
        let init = b.drop_last();
        lemma_digits_places(a, init);
        assert((a + b).drop_last() =~= a + init);
        let (x, y, p) = (digits_value(a) as int, digits_value(init) as int, pow(10, init.len()));
        assert((x * p + y) * 10 == x * (10 * p) + y * 10) by (nonlinear_arith);
    }
}

/// A run of zeros.
pub open spec fn zeros(k: nat) -> Seq<char> {
    Seq::new(k, |i: int| '0')
}

proof fn lemma_digits_decimal(s: Seq<char>) -> (k: nat)
    requires
        s.len() > 0,
        forall|i: int| 0 <= i < s.len() ==> is_digit(#[trigger] s[i]),
    ensures
        s == zeros(k) + decimal(digits_value(s)),
    decreases s.len(),
{
    let init = s.drop_last();
    let d = (s.last() as nat - '0' as nat) as nat;
    assert(is_digit(s[s.len() - 1]));
    assert(digit(d) == s.last());
    if init.len() == 0 {
        assert(digits_value(init) == 0);
        assert(s =~= zeros(0) + decimal(d));
        0
    } else {
        let k = lemma_digits_decimal(init);
        let m = digits_value(init);
        if m == 0 {
            assert(init =~= zeros(k + 1));
            assert(s =~= zeros(k + 1) + decimal(d));
            k + 1
        } else {
            let n = digits_value(s);
            assert(n / 10 == m && n % 10 == d);
            assert(n >= 10);
            assert(decimal(n) == decimal(m).push(digit(d)));
            assert(s =~= init.push(s.last()));
            assert(s =~= zeros(k) + decimal(n));
            k
        }
    }
}

/// A text reads as a number exactly if it is the decimal digits of the number, with any number of
/// zeros before them and perhaps a plus sign before all.
pub proof fn lemma_parsed(s: Seq<char>, n: nat)
    ensures
        parsed(s) == Some(n) <==> exists|k: nat|
            s == #[trigger] zeros(k) + decimal(n) || s == seq!['+'] + (zeros(k) + decimal(n)),
{
    if parsed(s) == Some(n) {
        let body = unsigned_part(s);
        let k = lemma_digits_decimal(body);
        if body != s {
            assert(s =~= seq!['+'] + body);
        }
        assert(s == zeros(k) + decimal(n) || s == seq!['+'] + (zeros(k) + decimal(n)));
    }
    if exists|k: nat|
        s == #[trigger] zeros(k) + decimal(n) || s == seq!['+'] + (zeros(k) + decimal(n)) {
        let k = choose|k: nat|
            s == #[trigger] zeros(k) + decimal(n) || s == seq!['+'] + (zeros(k) + decimal(n));
        let body = zeros(k) + decimal(n);
        lemma_decimal_value(n);
        lemma_zeros(k);
        lemma_digits_places(zeros(k), decimal(n));
        assert(0 * pow(10, decimal(n).len()) == 0);
        assert forall|i: int| 0 <= i < body.len() implies is_digit(#[trigger] body[i]) by {
            if i >= k {
                assert(is_digit(decimal(n)[i - k]));
            }
        }
        assert(is_digit(body[0]));
        if s != body {
            assert(s.skip(1) =~= body);
        }
        assert(unsigned_part(s) == body);
    }
}

/// Of the texts that read as numbers, those count whose numbers are not too large.
pub proof fn lemma_parsed_within(s: Seq<char>, n: nat, max: nat)
    ensures
        parsed_within(s, max) == Some(n) <==> n <= max && exists|k: nat|
            s == #[trigger] zeros(k) + decimal(n) || s == seq!['+'] + (zeros(k) + decimal(n)),
        n <= max ==> parsed_within(decimal(n), max) == Some(n),
        n > max ==> parsed_within(decimal(n), max) is None,
{
    lemma_parsed(s, n);
    lemma_decimal_parses(n);
}

proof fn lemma_zeros(k: nat)
    ensures
        digits_value(zeros(k)) == 0,
    decreases k,
{
    if k > 0 {
        lemma_zeros((k - 1) as nat);
        assert(zeros(k).drop_last() =~= zeros((k - 1) as nat));
    }
}

/// The decimal digits of a number are digits, the first is no zero unless it is the only one, and
/// other numbers have others.
pub proof fn lemma_decimal(n: nat, m: nat)
    ensures
        decimal(n).len() > 0,
        forall|i: int| 0 <= i < decimal(n).len() ==> '0' <= #[trigger] decimal(n)[i] <= '9',
        n > 0 ==> decimal(n)[0] != '0',
        decimal(n) == decimal(m) ==> n == m,
    decreases n,
{
    lemma_decimal_value(n);
    lemma_decimal_value(m);
    assert forall|i: int| 0 <= i < decimal(n).len() implies '0' <= #[trigger] decimal(n)[i] <= '9' by {
        assert(is_digit(decimal(n)[i]));
    }
    if n >= 10 {
        lemma_decimal(n / 10, m);
    }
}

} // verus!
