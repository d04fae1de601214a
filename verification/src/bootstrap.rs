//! How a process was launched, and what it is told to join.
use vstd::prelude::*;

use crate::error::Error;
use crate::text::{
    decimal, decimal_text, digits_value, is_digit, lemma_decimal, lemma_decimal_value,
    lemma_digits_value_grows, lemma_parsed_within, lemma_trims_to, lemma_white_ascii, parse_number,
    parse_usize, parsed_within, str_eq, string_of, text_of, to_chars, trim, trimmed, unsigned_part,
    white,
};

verus! {

#[derive(Clone, Copy, Debug, PartialEq, Eq, Structural)]
pub enum LaunchMode {
    Driver,
    Executor,
}

/// Some argument is `word`.
pub open spec fn has_argument(args: Seq<String>, word: Seq<char>) -> bool {
    exists|i: int| 0 <= i < args.len() && (#[trigger] args[i])@ == word
}

/// A process is an executor if one of its arguments says so.
pub fn launch_mode(args: &Vec<String>) -> (m: LaunchMode)
    ensures
        m == if has_argument(args@, "--spatter-executor"@) {
            LaunchMode::Executor
        } else {
            LaunchMode::Driver
        },
{
    let mut i: usize = 0;
    while i < args.len()
        invariant
            i <= args@.len(),
            forall|j: int| 0 <= j < i ==> (#[trigger] args@[j])@ != "--spatter-executor"@,
        decreases args@.len() - i,
    {
        if str_eq(args[i].as_str(), "--spatter-executor") {
            return LaunchMode::Executor;
        }
        i = i + 1;
    }
    LaunchMode::Driver
}

/// What an executor without tasks answers to every task.
pub fn no_task() -> (e: Error)
    ensures
        e matches Error::Cluster(t) && t@ == "executor has no registered task"@,
{
    Error::Cluster("executor has no registered task".to_string())
}

/// Runs an executor: its rank must be set, it joins a cluster with `join`, and `serve` then serves
/// the cluster's tasks.
pub fn run_executor<
    W,
    J: Fn() -> Result<Option<W>, Error>,
    S: Fn(W) -> Result<(), Error>,
>(rank: Option<&str>, join: &J, serve: &S) -> (r: Result<(), Error>)
    requires
        call_requires(*join, ()),
        forall|w: W| #[trigger] call_requires(*serve, (w,)),
    ensures
        if rank is None {
            r matches Err(Error::Cluster(t)) && t@
                == "executor requires SPATTER_RANK, SPATTER_N, SPATTER_MASTER"@
        } else {
            exists|joined: Result<Option<W>, Error>| #[trigger]
                call_ensures(*join, (), joined) && match joined {
                    Err(e) => r == Err::<(), Error>(e),
                    Ok(None) => r matches Err(Error::Cluster(t)) && t@
                        == "executor failed to join cluster"@,
                    Ok(Some(w)) => call_ensures(*serve, (w,), r),
                }
        },
{
    if rank.is_none() {
        return Err(
            Error::Cluster(
                "executor requires SPATTER_RANK, SPATTER_N, SPATTER_MASTER".to_string(),
            ),
        );
    }
    match join() {
        Err(e) => Err(e),
        Ok(None) => Err(Error::Cluster("executor failed to join cluster".to_string())),
        Ok(Some(w)) => serve(w),
    }
}

/// The position of the last occurrence of `c`, if any.
pub open spec fn last_index(s: Seq<char>, c: char) -> Option<int>
    decreases s.len(),
{
    if s.len() == 0 {
        None
    } else if s.last() == c {
        Some(s.len() - 1)
    } else {
        last_index(s.drop_last(), c)
    }
}

/// `s` up to the first `c`.
pub open spec fn up_to(s: Seq<char>, c: char) -> Seq<char>
    decreases s.len(),
{
    if s.len() == 0 || s[0] == c {
        Seq::empty()
    } else {
        seq![s[0]] + up_to(s.skip(1), c)
    }
}

/// `s` behind the last `c`; all of it where there is none.
pub open spec fn behind_last(s: Seq<char>, c: char) -> Seq<char> {
    match last_index(s, c) {
        Some(i) => s.skip(i + 1),
        None => s,
    }
}

/// The rank that a host name ends in: the number behind its last dash, up to a dot.
pub open spec fn rank_of_host(host: Seq<char>) -> Option<nat> {
    parsed_within(up_to(behind_last(host, '-'), '.'), usize::MAX as nat)
}

proof fn lemma_up_to(s: Seq<char>, c: char, k: int)
    requires
        0 <= k <= s.len(),
        forall|i: int| 0 <= i < k ==> s[i] != c,
        k < s.len() ==> s[k] == c,
    ensures
        up_to(s, c) == s.take(k),
    decreases k,
{
    if k > 0 {
        lemma_up_to(s.skip(1), c, k - 1);
        assert(s.take(k) =~= seq![s[0]] + s.skip(1).take(k - 1));
    } else {
        assert(s.take(0) =~= Seq::<char>::empty());
    }
}

proof fn lemma_last_index(s: Seq<char>, c: char, k: int)
    requires
        -1 <= k < s.len(),
        k >= 0 ==> s[k] == c,
        forall|i: int| k < i < s.len() ==> s[i] != c,
    ensures
        last_index(s, c) == if k >= 0 {
            Some(k)
        } else {
            None
        },
    decreases s.len(),
{
    if s.len() > 0 && k < s.len() - 1 {
        lemma_last_index(s.drop_last(), c, k);
    }
}

/// The end of the run of characters other than `c` that starts at `from`.
fn run_end(v: &Vec<char>, from: usize, c: char) -> (end: usize)
    requires
        from <= v@.len(),
    ensures
        from <= end <= v@.len(),
        up_to(v@.skip(from as int), c) == v@.subrange(from as int, end as int),
{
    let mut i = from;
    while i < v.len() && v[i] != c
        invariant
            from <= i <= v@.len(),
            forall|j: int| from <= j < i ==> v@[j] != c,
        decreases v@.len() - i,
    {
        i = i + 1;
    }
    proof {
        let s = v@.skip(from as int);
        lemma_up_to(s, c, i - from);
        assert(s.take(i - from) =~= v@.subrange(from as int, i as int));
    }
    i
}

/// Reads the rank off a host name.
pub fn parse_rank_host(host: &str) -> (r: Option<usize>)
    ensures
        match r {
            Some(n) => rank_of_host(host@) == Some(n as nat),
            None => rank_of_host(host@) is None,
        },
{
    let v = to_chars(host);
    let mut start = v.len();
    while start > 0 && v[start - 1] != '-'
        invariant
            start <= v@.len(),
            forall|j: int| start <= j < v@.len() ==> v@[j] != '-',
        decreases start,
    {
        start = start - 1;
    }
    let end = run_end(&v, start, '.');
    proof {
        lemma_last_index(v@, '-', start - 1);
        assert(v@.skip(0) =~= v@);
        assert(behind_last(host@, '-') == v@.skip(start as int));
    }
    let s = string_of(&v, start, end);
    parse_usize(s.as_str())
}

/// The first of several hosts, without the white space around it.
pub open spec fn first_host(hosts: Seq<char>) -> Seq<char> {
    trimmed(up_to(hosts, ','))
}

/// Where workers find the driver: at the address they are told; else at the first host of a list,
/// on the given port unless the host says one; else on this machine.
pub open spec fn master_address(
    port: u16,
    master: Option<Seq<char>>,
    hosts: Option<Seq<char>>,
) -> Seq<char> {
    match (master, hosts) {
        (Some(m), _) => m,
        (None, Some(h)) => {
            let first = first_host(h);
            if first.contains(':') {
                first
            } else if first.len() > 0 {
                first + ":"@ + decimal(port as nat)
            } else {
                "127.0.0.1:"@ + decimal(port as nat)
            }
        },
        (None, None) => "127.0.0.1:"@ + decimal(port as nat),
    }
}

fn has_char(s: &str, c: char) -> (b: bool)
    ensures
        b == s@.contains(c),
{
    let v = to_chars(s);
    let mut i: usize = 0;
    while i < v.len()
        invariant
            v@ == s@,
            i <= v@.len(),
            forall|j: int| 0 <= j < i ==> v@[j] != c,
        decreases v@.len() - i,
    {
        if v[i] == c {
            assert(s@[i as int] == c);
            return true;
        }
        i = i + 1;
    }
    false
}

fn with_port(host: &str, port: u16) -> (s: String)
    ensures
        s@ == host@ + ":"@ + decimal(port as nat),
{
    let mut s = host.to_string();
    s.append(":");
    let p = decimal_text(port as u64);
    s.append(p.as_str());
    s
}

/// Where workers find the driver.
pub fn master_addr(port: u16, master: Option<&str>, hosts: Option<&str>) -> (s: String)
    ensures
        s@ == master_address(port, text_of(master), text_of(hosts)),
{
    if let Some(m) = master {
        return m.to_string();
    }
    if let Some(h) = hosts {
        let v = to_chars(h);
        let end = run_end(&v, 0, ',');
        proof {
            assert(v@.skip(0) =~= v@);
        }
        let first = string_of(&v, 0, end);
        let first = trim(first.as_str());
        if has_char(first.as_str(), ':') {
            return first;
        }
        if !str_eq(first.as_str(), "") {
            proof {
                reveal_strlit("");
                if first@.len() == 0 {
                    assert(first@ =~= ""@);
                }
            }
            return with_port(first.as_str(), port);
        }
        proof {
            reveal_strlit("");
        }
    }
    let mut s = "127.0.0.1:".to_string();
    let p = decimal_text(port as u64);
    s.append(p.as_str());
    s
}

/// The host that the driver listens on.
pub fn bind_host(setting: Option<&str>) -> (s: String)
    ensures
        s@ == match setting {
            Some(t) => t@,
            None => "0.0.0.0"@,
        },
{
    match setting {
        Some(t) => t.to_string(),
        None => "0.0.0.0".to_string(),
    }
}

/// The address that the driver listens on.
pub fn bind_addr(setting: Option<&str>, port: u16) -> (s: String)
    ensures
        s@ == (match setting {
            Some(t) => t@,
            None => "0.0.0.0"@,
        }) + ":"@ + decimal(port as nat),
{
    let host = bind_host(setting);
    with_port(host.as_str(), port)
}

/// The startup and socket timeout in milliseconds; 30 seconds where a setting says no number.
pub fn cluster_timeout(setting: Option<&str>) -> (ms: u64)
    ensures
        ms == match setting {
            Some(s) => match parsed_within(s@, u64::MAX as nat) {
                Some(n) => n,
                None => 30000,
            },
            None => 30000,
        },
{
    match setting {
        Some(s) => match parse_number(s, u64::MAX) {
            Some(n) => n,
            None => 30000,
        },
        None => 30000,
    }
}

/// The driver's port where none is set.
pub const DEFAULT_PORT: u16 = 18741;

/// The driver's port: what a setting says, if it is a port.
pub open spec fn port_of(setting: Option<Seq<char>>) -> u16 {
    match setting {
        Some(s) => match parsed_within(s, u16::MAX as nat) {
            Some(n) => n as u16,
            None => DEFAULT_PORT,
        },
        None => DEFAULT_PORT,
    }
}

pub fn cluster_port(setting: Option<&str>) -> (port: u16)
    ensures
        port == port_of(text_of(setting)),
{
    match setting {
        Some(s) => match parse_number(s, u16::MAX as u64) {
            Some(n) => n as u16,
            None => DEFAULT_PORT,
        },
        None => DEFAULT_PORT,
    }
}

/// Where the first `--cluster` with an argument behind it stands among the arguments from `i` on.
pub open spec fn cluster_flag(args: Seq<String>, i: int) -> Option<int>
    decreases args.len() - i,
{
    if i + 1 >= args.len() {
        None
    } else if args[i]@ == "--cluster"@ {
        Some(i)
    } else {
        cluster_flag(args, i + 1)
    }
}

/// The number of processes to start: two or more, asked for behind `--cluster`, in a process that
/// has no rank yet.
pub open spec fn spawn_count(args: Seq<String>, has_rank: bool) -> Option<nat> {
    if has_rank {
        None
    } else {
        match cluster_flag(args, 1) {
            Some(i) => match parsed_within(args[i + 1]@, usize::MAX as nat) {
                Some(n) => if n >= 2 {
                    Some(n)
                } else {
                    None
                },
                None => None,
            },
            None => None,
        }
    }
}

/// The number of processes that the arguments ask for.
pub fn spawn_request(args: &Vec<String>, has_rank: bool) -> (r: Option<usize>)
    ensures
        match r {
            Some(n) => spawn_count(args@, has_rank) == Some(n as nat),
            None => spawn_count(args@, has_rank) is None,
        },
{
    if has_rank || args.len() < 2 {
        return None;
    }
    let mut i: usize = 1;
    while i < args.len() - 1
        invariant
            1 <= i < args@.len(),
            !has_rank,
            cluster_flag(args@, 1) == cluster_flag(args@, i as int),
        decreases args@.len() - i,
    {
        if str_eq(args[i].as_str(), "--cluster") {
            return match parse_usize(args[i + 1].as_str()) {
                Some(n) => if n >= 2 {
                    Some(n)
                } else {
                    None
                },
                None => None,
            };
        }
        i = i + 1;
    }
    None
}

/// The settings of a process of a cluster on this machine: its rank, the number of ranks, the
/// port and the driver's address.
pub fn process_env(rank: usize, n: usize, port: u16) -> (env: Vec<(String, String)>)
    ensures
        env@.len() == 4,
        env@[0].0@ == "SPATTER_RANK"@ && env@[0].1@ == decimal(rank as nat),
        env@[1].0@ == "SPATTER_N"@ && env@[1].1@ == decimal(n as nat),
        env@[2].0@ == "SPATTER_PORT"@ && env@[2].1@ == decimal(port as nat),
        env@[3].0@ == "SPATTER_MASTER"@ && env@[3].1@ == "127.0.0.1:"@ + decimal(port as nat),
{
    let mut env: Vec<(String, String)> = Vec::new();
    env.push(("SPATTER_RANK".to_string(), decimal_text(rank as u64)));
    env.push(("SPATTER_N".to_string(), decimal_text(n as u64)));
    env.push(("SPATTER_PORT".to_string(), decimal_text(port as u64)));
    let mut master = "127.0.0.1:".to_string();
    let p = decimal_text(port as u64);
    master.append(p.as_str());
    env.push(("SPATTER_MASTER".to_string(), master));
    env
}

/// The length of the longest start of `s` that is nothing but digits.
pub open spec fn digit_count(s: Seq<char>) -> nat
    decreases s.len(),
{
    if s.len() == 0 || !is_digit(s[0]) {
        0
    } else {
        1 + digit_count(s.skip(1))
    }
}

/// The number that the digits at the start of `s` write down, behind an optional plus sign.
pub open spec fn leading_number(s: Seq<char>) -> nat {
    let body = unsigned_part(s);
    digits_value(body.take(digit_count(body) as int))
}

/// Why a text is no `usize`: read digit by digit, it is the first problem that counts.
pub open spec fn number_problem(s: Seq<char>) -> Seq<char> {
    if s.len() == 0 {
        "cannot parse integer from empty string"@
    } else if leading_number(s) > usize::MAX {
        "number too large to fit in target type"@
    } else {
        "invalid digit found in string"@
    }
}

fn read_number(s: &str) -> (r: Result<usize, Error>)
    ensures
        match r {
            Ok(n) => parsed_within(s@, usize::MAX as nat) == Some(n as nat),
            Err(e) => parsed_within(s@, usize::MAX as nat) is None && (e matches Error::Cluster(t)
                && t@ == number_problem(s@)),
        },
{
    if let Some(n) = parse_usize(s) {
        return Ok(n);
    }
    if str_eq(s, "") {
        proof {
            reveal_strlit("");
        }
        return Err(Error::Cluster("cannot parse integer from empty string".to_string()));
    }
    proof {
        reveal_strlit("");
        if s@.len() == 0 {
            assert(s@ =~= ""@);
        }
    }
    if starts_too_large(s) {
        Err(Error::Cluster("number too large to fit in target type".to_string()))
    } else {
        Err(Error::Cluster("invalid digit found in string".to_string()))
    }
}

/// The first `k` characters are digits, and so the digits at the start are these and perhaps more.
proof fn lemma_digit_count(s: Seq<char>, k: int)
    requires
        0 <= k <= s.len(),
        forall|i: int| 0 <= i < k ==> is_digit(#[trigger] s[i]),
    ensures
        k <= digit_count(s) <= s.len(),
        k == s.len() || !is_digit(s[k]) ==> digit_count(s) == k,
        forall|i: int| 0 <= i < digit_count(s) ==> is_digit(#[trigger] s[i]),
    decreases s.len(),
{
    if s.len() > 0 && is_digit(s[0]) {
        let rest = s.skip(1);
        let j = if k > 0 {
            k - 1
        } else {
            0
        };
        assert forall|i: int| 0 <= i < j implies is_digit(#[trigger] rest[i]) by {
            assert(s[i + 1] == rest[i]);
        }
        lemma_digit_count(rest, j);
        assert forall|i: int| 0 <= i < digit_count(s) implies is_digit(#[trigger] s[i]) by {
            if i > 0 {
                assert(rest[i - 1] == s[i]);
            }
        }
    }
}

/// Whether the digits at the start of a text are too many for a `usize`.
fn starts_too_large(s: &str) -> (b: bool)
    ensures
        b == (leading_number(s@) > usize::MAX),
{
    let v = to_chars(s);
    let start: usize = if v.len() > 0 && v[0] == '+' {
        1
    } else {
        0
    };
    let ghost body = unsigned_part(v@);
    assert(body =~= v@.skip(start as int));
    let mut i = start;
    let mut value: u128 = 0;
    while i < v.len()
        invariant
            v@ == s@,
            start <= i <= v@.len(),
            body == unsigned_part(v@),
            body == v@.skip(start as int),
            forall|k: int| 0 <= k < i - start ==> is_digit(#[trigger] body[k]),
            value == digits_value(body.take(i - start)),
            value <= usize::MAX,
        decreases v@.len() - i,
    {
        assert(v@[i as int] == body[i - start]);
        if v[i] < '0' || v[i] > '9' {
            proof {
                lemma_digit_count(body, i - start);
            }
            return false;
        }
        let ghost next = body.take(i - start + 1);
        proof {
            assert(next.drop_last() =~= body.take(i - start));
        }
        value = value * 10 + (v[i] as u128 - '0' as u128);
        if value > usize::MAX as u128 {
            proof {
                lemma_digit_count(body, i - start + 1);
                let all = body.take(digit_count(body) as int);
                assert(all.take(i - start + 1) =~= next);
                lemma_digits_value_grows(all, i - start + 1);
            }
            return true;
        }
        i = i + 1;
    }
    proof {
        lemma_digit_count(body, i - start);
    }
    false
}

/// A process's place in the cluster that it is told to join.
#[derive(Clone, Copy, Debug, PartialEq, Eq, Structural)]
pub struct JoinConfig {
    pub rank: usize,
    pub n: usize,
    pub port: u16,
}

/// The place in a cluster that the settings describe; without a number of ranks there is none.
pub fn join_config(n: Option<&str>, rank: Option<&str>, port: Option<&str>) -> (r: Result<
    Option<JoinConfig>,
    Error,
>)
    ensures
        match n {
            None => r == Ok::<Option<JoinConfig>, Error>(None),
            Some(ns) => match parsed_within(ns@, usize::MAX as nat) {
                None => r matches Err(Error::Cluster(t)) && t@ == number_problem(ns@),
                Some(n) => match rank {
                    None => r matches Err(Error::Cluster(t)) && t@
                        == "environment variable not found"@,
                    Some(rs) => match parsed_within(rs@, usize::MAX as nat) {
                        None => r matches Err(Error::Cluster(t)) && t@ == number_problem(rs@),
                        Some(k) => r == Ok::<Option<JoinConfig>, Error>(
                            Some(
                                JoinConfig {
                                    rank: k as usize,
                                    n: n as usize,
                                    port: port_of(text_of(port)),
                                },
                            ),
                        ),
                    },
                },
            },
        },
{
    let n = match n {
        Some(s) => match read_number(s) {
            Ok(n) => n,
            Err(e) => return Err(e),
        },
        None => return Ok(None),
    };
    let rank = match rank {
        Some(s) => match read_number(s) {
            Ok(n) => n,
            Err(e) => return Err(e),
        },
        None => return Err(Error::Cluster("environment variable not found".to_string())),
    };
    let port = cluster_port(port);
    Ok(Some(JoinConfig { rank, n, port }))
}

// ---- laws

/// A text is cut behind its last `c`: what is before is empty or ends in `c`, and `c` does not occur
/// behind.
proof fn lemma_behind_last(s: Seq<char>, c: char) -> (k: int)
    ensures
        0 <= k <= s.len(),
        behind_last(s, c) == s.skip(k),
        k > 0 ==> s[k - 1] == c,
        forall|i: int| k <= i < s.len() ==> s[i] != c,
    decreases s.len(),
{
    if s.len() == 0 {
        assert(s.skip(0) =~= s);
        0
    } else if s.last() == c {
        s.len() as int
    } else {
        let init = s.drop_last();
        let k = lemma_behind_last(init, c);
        assert forall|i: int| k <= i < s.len() implies s[i] != c by {
            if i < init.len() {
                assert(init[i] == s[i]);
            }
        }
        lemma_last_index(s, c, k - 1);
        assert(s.skip(0) =~= s);
        k
    }
}

proof fn lemma_up_to_first(s: Seq<char>, c: char) -> (k: int)
    ensures
        0 <= k <= s.len(),
        up_to(s, c) == s.take(k),
        k < s.len() ==> s[k] == c,
        forall|i: int| 0 <= i < k ==> s[i] != c,
    decreases s.len(),
{
    if s.len() == 0 || s[0] == c {
        assert(s.take(0) =~= Seq::<char>::empty());
        0
    } else {
        let k = lemma_up_to_first(s.skip(1), c);
        assert(s.take(k + 1) =~= seq![s[0]] + s.skip(1).take(k));
        assert forall|i: int| 0 <= i < k + 1 implies s[i] != c by {
            if i > 0 {
                assert(s.skip(1)[i - 1] == s[i]);
            }
        }
        k + 1
    }
}

/// The rank of a host is read from the part of its name between the last dash and the dot behind
/// it: that part is `host.subrange(r.0, r.1)`.
pub proof fn lemma_host_rank(host: Seq<char>) -> (r: (int, int))
    ensures
        0 <= r.0 <= r.1 <= host.len(),
        r.0 > 0 ==> host[r.0 - 1] == '-',
        forall|i: int| r.0 <= i < host.len() ==> host[i] != '-',
        forall|i: int| r.0 <= i < r.1 ==> host[i] != '.',
        r.1 < host.len() ==> host[r.1] == '.',
        rank_of_host(host) == parsed_within(host.subrange(r.0, r.1), usize::MAX as nat),
{
    let a = lemma_behind_last(host, '-');
    let rest = host.skip(a);
    let k = lemma_up_to_first(rest, '.');
    assert(rest.take(k) =~= host.subrange(a, a + k));
    assert forall|i: int| a <= i < a + k implies host[i] != '.' by {
        assert(rest[i - a] == host[i]);
    }
    (a, a + k)
}

/// A host whose name ends in a dash and a number, or has a dot and a domain without a dash behind
/// them, has that number for its rank, whatever comes before.
pub proof fn lemma_numbered_host(name: Seq<char>, n: nat, domain: Seq<char>)
    requires
        n <= usize::MAX,
        domain.len() > 0 ==> domain[0] == '.',
        !domain.contains('-'),
    ensures
        rank_of_host(name.push('-') + decimal(n) + domain) == Some(n),
        rank_of_host(decimal(n) + domain) == Some(n),
{
    lemma_decimal(n, n);
    lemma_parsed_within(decimal(n), n, usize::MAX as nat);
    let d = decimal(n);
    let short = d + domain;
    let host = name.push('-') + d + domain;
    let (a, b) = lemma_host_rank(host);
    let k = name.len() as int + 1;
    assert forall|i: int| k <= i < host.len() implies host[i] != '-' by {
        if i < k + d.len() {
            assert(host[i] == d[i - k]);
        } else {
            assert(host[i] == domain[i - k - d.len()]);
        }
    }
    assert(host[k - 1] == '-');
    assert(a == k);
    assert(b == k + d.len()) by {
        if b < k + d.len() {
            assert(host[b] == d[b - k]);
        } else if b > k + d.len() {
            assert(host[k + d.len()] == domain[0]);
        }
    }
    assert(host.subrange(a, b) =~= d);
    let (a2, b2) = lemma_host_rank(short);
    assert(a2 == 0) by {
        if a2 > 0 {
            if a2 - 1 < d.len() {
                assert(short[a2 - 1] == d[a2 - 1]);
            } else {
                assert(short[a2 - 1] == domain[a2 - 1 - d.len()]);
            }
        }
    }
    assert(b2 == d.len()) by {
        if b2 < d.len() {
            assert(short[b2] == d[b2]);
        } else if b2 > d.len() {
            assert(short[d.len() as int] == domain[0]);
        }
    }
    assert(short.subrange(0, b2) =~= d);
}

/// Workers go to the address that they are told. Else they go to the first host of the list, where
/// the list names one: to the port that the host says, and otherwise to the driver's port.
pub proof fn lemma_master_address(
    port: u16,
    master: Seq<char>,
    hosts: Option<Seq<char>>,
    before: Seq<char>,
    host: Seq<char>,
    after: Seq<char>,
    rest: Seq<char>,
)
    requires
        host.len() > 0,
        !white(host[0]),
        !white(host.last()),
        !host.contains(','),
        forall|k: int| 0 <= k < before.len() ==> white(#[trigger] before[k]),
        forall|k: int| 0 <= k < after.len() ==> white(#[trigger] after[k]),
        rest.len() > 0 ==> rest[0] == ',',
    ensures
        master_address(port, Some(master), hosts) == master,
        master_address(port, None, None) == "127.0.0.1:"@ + decimal(port as nat),
        master_address(port, None, Some(rest)) == "127.0.0.1:"@ + decimal(port as nat),
        host.contains(':') ==> master_address(port, None, Some(before + host + after + rest)) == host,
        !host.contains(':') ==> master_address(port, None, Some(before + host + after + rest)) == host
            + seq![':'] + decimal(port as nat),
{
    reveal_strlit(":");
    assert(":"@ =~= seq![':']);
    let first = before + host + after;
    let list = first + rest;
    let k = lemma_up_to_first(list, ',');
    assert forall|i: int| 0 <= i < first.len() implies first[i] != ',' by {
        if before.len() <= i < before.len() + host.len() {
            assert(first[i] == host[i - before.len()]);
        } else if i < before.len() {
            assert(first[i] == before[i]);
            lemma_white_ascii(',');
        } else {
            assert(first[i] == after[i - before.len() - host.len()]);
            lemma_white_ascii(',');
        }
    }
    assert(k == first.len()) by {
        if k < first.len() {
            assert(list[k] == first[k]);
        } else if k > first.len() {
            assert(list[first.len() as int] == rest[0]);
        }
    }
    assert(list.take(k) =~= first);
    lemma_trims_to(before, host, after);
    let j = lemma_up_to_first(rest, ',');
    assert(rest.take(0) =~= Seq::<char>::empty());
    assert(j == 0);
    assert(first_host(rest) =~= Seq::<char>::empty());
}

/// A setting that is a port is the driver's port; any other leaves it at 18741.
pub proof fn lemma_port(setting: Seq<char>, n: nat)
    ensures
        port_of(None) == 18741,
        n <= 65535 ==> port_of(Some(decimal(n))) == n,
        n > 65535 ==> port_of(Some(decimal(n))) == 18741,
        (forall|m: nat| m <= 65535 ==> parsed_within(setting, 65535) != Some(m)) ==> port_of(
            Some(setting),
        ) == 18741,
{
    lemma_parsed_within(decimal(n), n, 65535);
}

/// Processes are started only where the first `--cluster` among the arguments has a number of two or
/// more behind it, and then as many.
pub proof fn lemma_spawn_count(args: Seq<String>, i: int, has_rank: bool)
    requires
        1 <= i,
        i + 1 < args.len(),
        args[i]@ == "--cluster"@,
        forall|j: int| 1 <= j < i ==> (#[trigger] args[j])@ != "--cluster"@,
    ensures
        spawn_count(args, true) is None,
        forall|n: nat| #[trigger]
            parsed_within(args[i + 1]@, usize::MAX as nat) == Some(n) ==> spawn_count(args, false)
                == if n >= 2 {
                Some(n)
            } else {
                None
            },
        parsed_within(args[i + 1]@, usize::MAX as nat) is None ==> spawn_count(args, false) is None,
{
    lemma_cluster_flag(args, 1, i);
}

proof fn lemma_cluster_flag(args: Seq<String>, from: int, i: int)
    requires
        1 <= from <= i,
        i + 1 < args.len(),
        args[i]@ == "--cluster"@,
        forall|j: int| 1 <= j < i ==> (#[trigger] args[j])@ != "--cluster"@,
    ensures
        cluster_flag(args, from) == Some(i),
    decreases i - from,
{
    if from < i {
        assert(args[from]@ != "--cluster"@);
        lemma_cluster_flag(args, from + 1, i);
    }
}

/// Without `--cluster` and an argument behind it, no processes are started.
pub proof fn lemma_no_spawn(args: Seq<String>, has_rank: bool)
    requires
        forall|j: int| 1 <= j < args.len() - 1 ==> (#[trigger] args[j])@ != "--cluster"@,
    ensures
        spawn_count(args, has_rank) is None,
{
    lemma_no_cluster_flag(args, 1);
}

proof fn lemma_no_cluster_flag(args: Seq<String>, from: int)
    requires
        1 <= from,
        forall|j: int| 1 <= j < args.len() - 1 ==> (#[trigger] args[j])@ != "--cluster"@,
    ensures
        cluster_flag(args, from) is None,
    decreases args.len() - from,
{
    if from + 1 < args.len() {
        assert(args[from]@ != "--cluster"@);
        lemma_no_cluster_flag(args, from + 1);
    }
}

/// Where a text is no number, the number at its start counts first: too large a number is said to be
/// too large, whatever follows; otherwise it is the character behind it that is wrong.
pub proof fn lemma_number_problem(n: nat, rest: Seq<char>, plus: bool)
    requires
        rest.len() > 0 ==> !('0' <= rest[0] <= '9'),
    ensures
        number_problem(Seq::empty()) == "cannot parse integer from empty string"@,
        ({
            let digits = decimal(n) + rest;
            let s = if plus {
                seq!['+'] + digits
            } else {
                digits
            };
            number_problem(s) == if n > usize::MAX {
                "number too large to fit in target type"@
            } else {
                "invalid digit found in string"@
            }
        }),
        rest.len() > 0 ==> number_problem(rest) == "invalid digit found in string"@
            || rest[0] == '+',
{
    let d = decimal(n);
    let digits = d + rest;
    let s = if plus {
        seq!['+'] + digits
    } else {
        digits
    };
    lemma_decimal_value(n);
    lemma_decimal(n, n);
    assert(digits[0] == d[0]);
    assert(unsigned_part(s) =~= digits);
    assert forall|i: int| 0 <= i < d.len() implies is_digit(#[trigger] digits[i]) by {
        assert(digits[i] == d[i]);
    }
    if rest.len() > 0 {
        assert(digits[d.len() as int] == rest[0]);
    }
    lemma_digit_count(digits, d.len() as int);
    assert(digits.take(d.len() as int) =~= d);
    if rest.len() > 0 && rest[0] != '+' {
        lemma_digit_count(rest, 0);
        assert(rest.take(0) =~= Seq::<char>::empty());
        assert(digits_value(rest.take(0)) == 0);
    }
}

/// An argument is given if it is one of the arguments.
pub proof fn lemma_has_argument(args: Seq<String>, word: Seq<char>)
    ensures
        has_argument(args, word) <==> args.map_values(|s: String| s@).contains(word),
{
    let texts = args.map_values(|s: String| s@);
    if has_argument(args, word) {
        let i = choose|i: int| 0 <= i < args.len() && (#[trigger] args[i])@ == word;
        assert(texts[i] == word);
    }
    if texts.contains(word) {
        let i = choose|i: int| 0 <= i < texts.len() && texts[i] == word;
        assert(args[i]@ == word);
    }
}

} // verus!
