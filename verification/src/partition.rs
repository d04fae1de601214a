//! Degrees of parallelism, and cutting data into partitions.
use vstd::arithmetic::div_mod::{lemma_div_is_ordered, lemma_div_multiples_vanish};
use vstd::arithmetic::mul::{lemma_mul_inequality, lemma_mul_nonnegative};
use vstd::prelude::*;

use crate::error::Error;
use crate::seqs::{concat, lemma_concat_flattens, lemma_concat_push};
use crate::shuffle::empty_buckets;
use crate::text::{
    decimal, lemma_decimal, lemma_parsed, lemma_trims_to, parse_usize, parsed, parsed_within,
    str_eq, string_of, to_chars, trim, trimmed, white, zeros,
};

verus! {

/// What a master of the form `local[..]` has between its brackets.
pub open spec fn between_brackets(m: Seq<char>) -> Option<Seq<char>> {
    if m.len() >= 7 && m.take(6) == "local["@ && m.last() == ']' {
        Some(m.subrange(6, m.len() - 1))
    } else {
        None
    }
}

/// What a master asks for: `local` is one thread, `local[*]` is `available`, and `local[N]` is N,
/// which must be at least one. White space around the master is ignored.
pub open spec fn local_threads(
    master: Seq<char>,
    available: usize,
    r: Result<usize, Error>,
) -> bool {
    let m = trimmed(master);
    let inner = between_brackets(m);
    if m == "local"@ {
        r == Ok::<usize, Error>(1)
    } else if m == "local[*]"@ {
        r == Ok::<usize, Error>(available)
    } else if inner is Some {
        match parsed_within(inner->0, usize::MAX as nat) {
            Some(n) => if n == 0 {
                r == Err::<usize, Error>(Error::InvalidParallelism(0))
            } else {
                r matches Ok(t) && t == n
            },
            None => r matches Err(Error::InvalidMaster(t)) && t@ == m,
        }
    } else {
        r matches Err(Error::InvalidMaster(t)) && t@ == m
    }
}

/// The number of threads that a local master asks for: `local` is one, `local[*]` is `available`,
/// and `local[N]` is N, which must be at least one. White space around the master is ignored.
pub fn parse_local_threads(master: &str, available: usize) -> (r: Result<usize, Error>)
    ensures
        ({
            let m = trimmed(master@);
            let inner = between_brackets(m);
            if m == "local"@ {
                r == Ok::<usize, Error>(1)
            } else if m == "local[*]"@ {
                r == Ok::<usize, Error>(available)
            } else if inner is Some {
                match parsed_within(inner->0, usize::MAX as nat) {
                    Some(n) => if n == 0 {
                        r == Err::<usize, Error>(Error::InvalidParallelism(0))
                    } else {
                        r matches Ok(t) && t == n
                    },
                    None => r matches Err(Error::InvalidMaster(t)) && t@ == m,
                }
            } else {
                r matches Err(Error::InvalidMaster(t)) && t@ == m
            }
        }),
        local_threads(master@, available, r),
        forall|n: nat|
            0 < n <= usize::MAX && trimmed(master@) == "local["@ + #[trigger] decimal(n) + "]"@
                ==> r == Ok::<usize, Error>(n as usize),
{
    let r = read_master(master, available);
    proof {
        assert forall|n: nat|
            0 < n <= usize::MAX && trimmed(master@) == "local["@ + #[trigger] decimal(n)
                + "]"@ implies r == Ok::<usize, Error>(n as usize) by {
            lemma_local_number(master@, n, 0, false);
        }
    }
    r
}

fn read_master(master: &str, available: usize) -> (r: Result<usize, Error>)
    ensures
        local_threads(master@, available, r),
{
    let master = trim(master);
    if str_eq(master.as_str(), "local") {
        return Ok(1);
    }
    if str_eq(master.as_str(), "local[*]") {
        return Ok(available);
    }
    let v = to_chars(master.as_str());
    let n = v.len();
    if n >= 7 && v[n - 1] == ']' && str_eq(string_of(&v, 0, 6).as_str(), "local[") {
        assert(v@.subrange(0, 6) =~= v@.take(6));
        let inner = string_of(&v, 6, n - 1);
        return match parse_usize(inner.as_str()) {
            Some(0) => Err(Error::InvalidParallelism(0)),
            Some(n) => Ok(n),
            None => Err(Error::InvalidMaster(master)),
        };
    }
    proof {
        if between_brackets(master@) is Some {
            assert(v@.subrange(0, 6) =~= v@.take(6));
        }
    }
    Err(Error::InvalidMaster(master))
}

/// The master asks for `n` threads between brackets.
spec fn local_number(master: Seq<char>, n: nat) -> bool {
    forall|available: usize, r: Result<usize, Error>| #[trigger]
        local_threads(master, available, r) ==> match r {
            Ok(t) => 0 < n <= usize::MAX && t == n,
            Err(Error::InvalidParallelism(t)) => n == 0 && t == 0,
            Err(Error::InvalidMaster(t)) => n > usize::MAX && t@ == trimmed(master),
            Err(_) => false,
        }
}

/// `local[..]` with these digits, and perhaps a plus sign before them.
pub open spec fn local_master(plus: bool, digits: Seq<char>) -> Seq<char> {
    if plus {
        "local["@ + (seq!['+'] + digits) + "]"@
    } else {
        "local["@ + digits + "]"@
    }
}

proof fn lemma_local_number(master: Seq<char>, n: nat, k: nat, plus: bool)
    requires
        trimmed(master) == local_master(plus, zeros(k) + decimal(n)) || k == 0 && !plus && trimmed(
            master,
        ) == "local["@ + decimal(n) + "]"@,
    ensures
        local_number(master, n),
{
    reveal_strlit("local[");
    reveal_strlit("local");
    reveal_strlit("local[*]");
    reveal_strlit("]");
    let digits = zeros(k) + decimal(n);
    if k == 0 {
        assert(digits =~= decimal(n));
    }
    let body = if plus {
        seq!['+'] + digits
    } else {
        digits
    };
    let m = trimmed(master);
    lemma_decimal(n, n);
    assert(m =~= "local["@ + body + "]"@);
    assert(m.take(6) =~= "local["@);
    assert(m.subrange(6, m.len() - 1) =~= body);
    assert(m[6] == body[0]);
    assert(body[0] != '*') by {
        if !plus {
            if k > 0 {
                assert(digits[0] == '0');
            } else {
                assert(digits[0] == decimal(n)[0]);
            }
        }
    }
    assert("local[*]"@[6] == '*');
    lemma_parsed(body, n);
    assert(body == zeros(k) + decimal(n) || body == seq!['+'] + (zeros(k) + decimal(n)));
    assert(parsed(body) == Some(n));
}

/// For every number `n`, the master `local[n]` gives `n` threads, with whatever white space around
/// it, with or without zeros or a plus sign before the number. Zero is refused, and so is a number
/// that is too large.
pub proof fn lemma_local_n(
    before: Seq<char>,
    plus: bool,
    k: nat,
    n: nat,
    after: Seq<char>,
    available: usize,
    r: Result<usize, Error>,
)
    requires
        forall|i: int| 0 <= i < before.len() ==> white(#[trigger] before[i]),
        forall|i: int| 0 <= i < after.len() ==> white(#[trigger] after[i]),
        local_threads(
            before + local_master(plus, zeros(k) + decimal(n)) + after,
            available,
            r,
        ),
    ensures
        0 < n <= usize::MAX ==> r == Ok::<usize, Error>(n as usize),
        n == 0 ==> r == Err::<usize, Error>(Error::InvalidParallelism(0)),
        n > usize::MAX ==> (r matches Err(Error::InvalidMaster(t)) && t@ == local_master(
            plus,
            zeros(k) + decimal(n),
        )),
{
    reveal_strlit("local[");
    reveal_strlit("]");
    let m = local_master(plus, zeros(k) + decimal(n));
    assert(m[0] == 'l');
    assert(m.last() == ']');
    lemma_trims_to(before, m, after);
    lemma_local_number(before + m + after, n, k, plus);
}

/// Threads are had only of the masters `local`, which is one thread, `local[*]`, which is as many as
/// there are, and `local[n]`, which is `n`. Every other master is refused with its text.
pub proof fn lemma_local_masters(master: Seq<char>, available: usize, r: Result<usize, Error>)
    requires
        local_threads(master, available, r),
    ensures
        ({
            let m = trimmed(master);
            &&& m == "local"@ ==> r == Ok::<usize, Error>(1)
            &&& m == "local[*]"@ ==> r == Ok::<usize, Error>(available)
            &&& match r {
                Ok(t) => {
                    ||| m == "local"@
                    ||| m == "local[*]"@
                    ||| t > 0 && exists|plus: bool, k: nat|
                        m == #[trigger] local_master(plus, zeros(k) + decimal(t as nat))
                },
                Err(Error::InvalidParallelism(t)) => t == 0 && exists|plus: bool, k: nat|
                    m == #[trigger] local_master(plus, zeros(k) + decimal(0)),
                Err(Error::InvalidMaster(t)) => t@ == m,
                Err(_) => false,
            }
        }),
{
    reveal_strlit("local[");
    reveal_strlit("local");
    reveal_strlit("local[*]");
    reveal_strlit("]");
    let m = trimmed(master);
    assert("local"@ != "local[*]"@) by {
        assert("local"@.len() != "local[*]"@.len());
    }
    if m != "local"@ && m != "local[*]"@ && between_brackets(m) is Some {
        let inner = between_brackets(m)->0;
        assert(m =~= "local["@ + inner + "]"@);
        if parsed(inner) is Some {
            let n = parsed(inner)->0;
            lemma_parsed(inner, n);
            let k = choose|k: nat|
                inner == #[trigger] zeros(k) + decimal(n) || inner == seq!['+'] + (zeros(k)
                    + decimal(n));
            if inner == zeros(k) + decimal(n) {
                assert(m == local_master(false, zeros(k) + decimal(n)));
            } else {
                assert(m == local_master(true, zeros(k) + decimal(n)));
            }
        }
    }
}

/// Where part `i` of `n` starts in `len` elements.
pub open spec fn cut_at(i: int, len: nat, n: nat) -> int {
    i * len / (n as int)
}

/// Cuts run in order from the start to the end.
pub proof fn lemma_cuts(i: int, len: nat, n: nat)
    requires
        0 <= i < n,
    ensures
        cut_at(0, len, n) == 0,
        cut_at(n as int, len, n) == len,
        0 <= cut_at(i, len, n) <= cut_at(i + 1, len, n) <= len,
{
    let d = n as int;
    lemma_mul_inequality(0, i, len as int);
    lemma_mul_inequality(i, i + 1, len as int);
    lemma_mul_inequality(i + 1, d, len as int);
    lemma_div_is_ordered(0, i * len, d);
    lemma_div_is_ordered(i * len, (i + 1) * len, d);
    lemma_div_is_ordered((i + 1) * len, d * len, d);
    lemma_div_multiples_vanish(len as int, d);
    assert(0 * len == 0);
    assert(0int / d == 0) by (nonlinear_arith)
        requires
            d > 0,
    ;
    assert(d * len / d == len);
}

/// A cut stands where the share of the elements that the parts before it have ends, rounded down.
pub proof fn lemma_cut_rounds_down(i: int, len: nat, n: nat)
    requires
        0 <= i <= n,
        n > 0,
    ensures
        cut_at(i, len, n) * n <= i * len < (cut_at(i, len, n) + 1) * n,
{
    let (a, d) = (i * len, n as int);
    assert(a / d * d <= a < (a / d + 1) * d) by (nonlinear_arith)
        requires
            d > 0,
    ;
}

/// The parts of a cut are as large as each other, up to one element.
pub proof fn lemma_cut_sizes(i: int, len: nat, n: nat)
    requires
        0 <= i < n,
    ensures
        len / n <= cut_at(i + 1, len, n) - cut_at(i, len, n) <= len / n + 1,
{
    let d = n as int;
    let a = i * len;
    let b = (i + 1) * len;
    let l = len as int;
    assert(b == a + l) by (nonlinear_arith)
        requires
            a == i * l,
            b == (i + 1) * l,
    ;
    assert(l / d <= (a + l) / d - a / d <= l / d + 1) by (nonlinear_arith)
        requires
            d > 0,
            l >= 0,
    ;
}

/// Where the first `m` parts of `n` end.
fn cut(i: usize, len: u64, n: usize) -> (c: u64)
    requires
        0 < n,
        i <= n,
    ensures
        c == cut_at(i as int, len as nat, n as nat),
{
    proof {
        if i < n {
            lemma_cuts(i as int, len as nat, n as nat);
        } else {
            lemma_cuts(0, len as nat, n as nat);
        }
        lemma_mul_nonnegative(i as int, len as int);
        assert(i * len <= 0xffff_ffff_ffff_ffff * 0xffff_ffff_ffff_ffff) by (nonlinear_arith)
            requires
                i <= 0xffff_ffff_ffff_ffff,
                len <= 0xffff_ffff_ffff_ffff,
                0 <= i,
                0 <= len,
        ;
    }
    let product: u128 = i as u128 * len as u128;
    let c: u128 = product / n as u128;
    c as u64
}

/// Cuts `data` into `n_partitions` runs of consecutive elements that differ in length by at most
/// one.
pub fn split_contiguous<T>(data: Vec<T>, n_partitions: usize) -> (r: Result<Vec<Vec<T>>, Error>)
    ensures
        match r {
            Ok(parts) => {
                &&& n_partitions > 0
                &&& parts@.len() == n_partitions
                &&& forall|i: int|
                    #![trigger parts@[i]]
                    0 <= i < n_partitions ==> parts@[i]@ == data@.subrange(
                        cut_at(i, data@.len(), n_partitions as nat),
                        cut_at(i + 1, data@.len(), n_partitions as nat),
                    )
            },
            Err(e) => n_partitions == 0 && e == Error::InvalidParallelism(0),
        },
{
    if n_partitions == 0 {
        return Err(Error::InvalidParallelism(0));
    }
    let mut data = data;
    let ghost all = data@;
    let len = data.len();
    let ghost n = n_partitions as nat;
    let mut parts: Vec<Vec<T>> = empty_buckets(n_partitions);
    let mut i = n_partitions;
    proof {
        lemma_cuts(0, all.len(), n);
        assert(all.subrange(0, all.len() as int) =~= all);
    }
    while i > 0
        invariant
            i <= n_partitions,
            n == n_partitions,
            n > 0,
            len == all.len(),
            parts@.len() == n,
            data@ == all.subrange(0, cut_at(i as int, all.len(), n)),
            0 <= cut_at(i as int, all.len(), n) <= all.len(),
            forall|j: int|
                #![trigger parts@[j]]
                i <= j < n ==> parts@[j]@ == all.subrange(
                    cut_at(j, all.len(), n),
                    cut_at(j + 1, all.len(), n),
                ),
        decreases i,
    {
        i = i - 1;
        proof {
            lemma_cuts(i as int, all.len(), n);
        }
        let start = cut(i, len as u64, n_partitions) as usize;
        let part = data.split_off(start);
        proof {
            let end = cut_at(i + 1, all.len(), n);
            assert(part@ =~= all.subrange(start as int, end));
            assert(data@ =~= all.subrange(0, start as int));
        }
        parts[i] = part;
    }
    Ok(parts)
}

/// A contiguous split gives the data back: its parts, flattened, are the data, and no two of them
/// differ in length by more than one element.
pub proof fn lemma_split<T>(data: Seq<T>, n: nat, parts: Seq<Seq<T>>)
    requires
        n > 0,
        parts.len() == n,
        forall|i: int|
            0 <= i < n ==> #[trigger] parts[i] == data.subrange(
                cut_at(i, data.len(), n),
                cut_at(i + 1, data.len(), n),
            ),
    ensures
        parts.flatten() == data,
        forall|i: int, j: int|
            0 <= i < n && 0 <= j < n ==> (#[trigger] parts[i]).len() <= (#[trigger] parts[j]).len()
                + 1,
{
    lemma_split_covers(data, n, parts);
    lemma_concat_flattens(parts);
    assert forall|i: int, j: int| 0 <= i < n && 0 <= j < n implies (#[trigger] parts[i]).len() <= (
    #[trigger] parts[j]).len() + 1 by {
        lemma_cuts(i, data.len(), n);
        lemma_cuts(j, data.len(), n);
        lemma_cut_sizes(i, data.len(), n);
        lemma_cut_sizes(j, data.len(), n);
    }
}

/// The parts of a contiguous split, one after the other, are the data that was split.
pub proof fn lemma_split_covers<T>(data: Seq<T>, n: nat, parts: Seq<Seq<T>>)
    requires
        n > 0,
        parts.len() == n,
        forall|i: int|
            0 <= i < n ==> #[trigger] parts[i] == data.subrange(
                cut_at(i, data.len(), n),
                cut_at(i + 1, data.len(), n),
            ),
    ensures
        concat(parts) == data,
{
    lemma_split_prefix(data, n, parts, n as int);
    lemma_cuts(0, data.len(), n);
    assert(parts.take(n as int) =~= parts);
    assert(data.take(data.len() as int) =~= data);
}

proof fn lemma_split_prefix<T>(data: Seq<T>, n: nat, parts: Seq<Seq<T>>, k: int)
    requires
        n > 0,
        0 <= k <= n,
        parts.len() == n,
        forall|i: int|
            0 <= i < n ==> #[trigger] parts[i] == data.subrange(
                cut_at(i, data.len(), n),
                cut_at(i + 1, data.len(), n),
            ),
    ensures
        concat(parts.take(k)) == data.take(cut_at(k, data.len(), n)),
    decreases k,
{
    lemma_cuts(0, data.len(), n);
    if k > 0 {
        lemma_split_prefix(data, n, parts, k - 1);
        lemma_cuts(k - 1, data.len(), n);
        assert(parts.take(k) =~= parts.take(k - 1).push(parts[k - 1]));
        lemma_concat_push(parts.take(k - 1), parts[k - 1]);
        assert(concat(parts.take(k)) =~= data.take(cut_at(k, data.len(), n)));
    } else {
        assert(parts.take(0) =~= Seq::<Seq<T>>::empty());
        assert(data.take(0) =~= Seq::<T>::empty());
    }
}

/// Cuts a file of `len` bytes into `n_partitions` ranges that follow each other.
pub fn byte_splits(len: u64, n_partitions: usize) -> (r: Result<Vec<(u64, u64)>, Error>)
    ensures
        match r {
            Ok(splits) => {
                &&& n_partitions > 0
                &&& splits@.len() == n_partitions
                &&& forall|i: int|
                    #![trigger splits@[i]]
                    0 <= i < n_partitions ==> {
                        &&& splits@[i].0 == cut_at(i, len as nat, n_partitions as nat)
                        &&& splits@[i].1 == cut_at(i + 1, len as nat, n_partitions as nat)
                    }
            },
            Err(e) => n_partitions == 0 && e == Error::InvalidParallelism(0),
        },
{
    if n_partitions == 0 {
        return Err(Error::InvalidParallelism(0));
    }
    let mut splits: Vec<(u64, u64)> = Vec::with_capacity(n_partitions);
    let mut i: usize = 0;
    while i < n_partitions
        invariant
            i <= n_partitions,
            n_partitions > 0,
            splits@.len() == i,
            forall|j: int|
                #![trigger splits@[j]]
                0 <= j < i ==> {
                    &&& splits@[j].0 == cut_at(j, len as nat, n_partitions as nat)
                    &&& splits@[j].1 == cut_at(j + 1, len as nat, n_partitions as nat)
                },
        decreases n_partitions - i,
    {
        let start = cut(i, len, n_partitions);
        let end = cut(i + 1, len, n_partitions);
        splits.push((start, end));
        i = i + 1;
    }
    Ok(splits)
}

} // verus!
