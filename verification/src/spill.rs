//! Shuffle output that is kept in memory up to a limit, and spilled to files beyond it.
use vstd::prelude::*;

use crate::actions::sum;
use crate::chunks::{
    chunk_bytes, codes, lemma_spilled_reads, lemma_spilling_fails, read_result, reads, spills, spills_part, stops, undoes,
};
use crate::dataset::cloned_all;
use crate::error::Error;
use crate::seqs::{concat, lemma_concat_first, lemma_concat_flattens, lemma_concat_push, rows};
use crate::shuffle::{empty_buckets, extend_each, RECORD_BYTES};
use crate::text::{
    decimal, lemma_decimal_prefix, lemma_parsed_within, parse_usize, parsed_within, push_decimal, text_of,
};

verus! {

/// The spill limit that a setting in MiB asks for; 64 MiB where it says no number.
pub fn spill_limit_bytes(setting: Option<&str>) -> (n: usize)
    ensures
        n == spill_limit(text_of(setting)),
{
    let mb: usize = match setting {
        Some(s) => match parse_usize(s) {
            Some(n) => n,
            None => 64,
        },
        None => 64,
    };
    capped_product(mb, 1048576)
}

pub open spec fn spill_limit(setting: Option<Seq<char>>) -> usize {
    let mb: nat = match setting {
        Some(s) => match parsed_within(s, usize::MAX as nat) {
            Some(n) => n,
            None => 64,
        },
        None => 64,
    };
    capped(mb * 1048576)
}

/// A number, or the largest that there is.
pub open spec fn capped(n: nat) -> usize {
    if n > usize::MAX {
        usize::MAX
    } else {
        n as usize
    }
}

fn capped_product(a: usize, b: usize) -> (n: usize)
    ensures
        n == capped(a as nat * b as nat),
{
    match a.checked_mul(b) {
        Some(n) => n,
        None => usize::MAX,
    }
}

/// How many threads reduce spilled buckets: what a setting asks for, two where it says no number,
/// but at least one and no more than the context has.
pub fn reduce_threads(setting: Option<&str>, parallelism: usize) -> (n: usize)
    ensures
        n >= 1,
        ({
            let asked: nat = match setting {
                Some(s) => match parsed_within(s@, usize::MAX as nat) {
                    Some(n) => n,
                    None => 2,
                },
                None => 2,
            };
            if asked > parallelism {
                n == if parallelism == 0 {
                    1
                } else {
                    parallelism
                }
            } else {
                n == if asked == 0 {
                    1
                } else {
                    asked
                }
            }
        }),
{
    let asked: usize = match setting {
        Some(s) => match parse_usize(s) {
            Some(n) => n,
            None => 2,
        },
        None => 2,
    };
    let n = if asked > parallelism {
        parallelism
    } else {
        asked
    };
    if n == 0 {
        1
    } else {
        n
    }
}

/// The name of the file that bucket `bucket` of a shuffle is spilled to. `seq` tells spills of the
/// same process apart.
pub open spec fn spill_name(pid: u32, id: u64, seq: u64, bucket: usize) -> Seq<char> {
    "spatter-spill-"@ + decimal(pid as nat) + "-"@ + decimal(id as nat) + "-"@ + decimal(seq as nat)
        + "-"@ + decimal(bucket as nat) + ".bin"@
}

pub fn spill_file_name(pid: u32, id: u64, seq: u64, bucket: usize) -> (name: String)
    ensures
        name@ == spill_name(pid, id, seq, bucket),
{
    let mut name = "spatter-spill-".to_string();
    push_decimal(&mut name, pid as u64);
    name.append("-");
    push_decimal(&mut name, id);
    name.append("-");
    push_decimal(&mut name, seq);
    name.append("-");
    push_decimal(&mut name, bucket as u64);
    name.append(".bin");
    name
}

/// Bytes for the spill file of a bucket: to start it with, or to append to it.
#[derive(Debug)]
pub struct SpillWrite {
    pub bucket: usize,
    pub create: bool,
    pub bytes: Vec<u8>,
}

/// Records of each bucket of a shuffle, taken in piece by piece.
#[derive(Debug)]
pub struct IncrementalBuckets<A> {
    pub id: u64,
    pub seq: u64,
    pub memory: Vec<Vec<A>>,
    pub bytes: usize,
    pub spilled: bool,
}

/// What a piece of records counts for: its encoded size, or an estimate where that is unknown.
pub open spec fn piece_size(encoded: Option<u64>, records: nat) -> usize {
    match encoded {
        Some(n) => n as usize,
        None => capped(records * RECORD_BYTES as nat),
    }
}

/// `piece` may count for `n`.
pub open spec fn counts_for<A, S: Fn(&Vec<A>) -> Option<u64>>(
    size: S,
    piece: Vec<A>,
    n: usize,
) -> bool {
    exists|encoded: Option<u64>| #[trigger]
        call_ensures(size, (&piece,), encoded) && n == piece_size(encoded, piece@.len())
}

/// `sizes` holds what each piece may count for.
pub open spec fn sized<A, S: Fn(&Vec<A>) -> Option<u64>>(
    size: S,
    pieces: Seq<Vec<A>>,
    sizes: Seq<usize>,
) -> bool {
    &&& sizes.len() == pieces.len()
    &&& forall|i: int| 0 <= i < pieces.len() ==> counts_for(size, pieces[i], #[trigger] sizes[i])
}

/// One write for each piece with a record, in order, that appends it to its bucket.
pub open spec fn appends<A>(
    enc: spec_fn(Seq<A>, Result<Seq<u8>, Error>) -> bool,
    pieces: Seq<Seq<A>>,
    writes: Seq<SpillWrite>,
) -> bool
    decreases pieces.len(),
{
    if pieces.len() == 0 {
        writes.len() == 0
    } else if pieces.last().len() == 0 {
        appends(enc, pieces.drop_last(), writes)
    } else {
        &&& writes.len() > 0
        &&& writes.last().bucket == pieces.len() - 1
        &&& !writes.last().create
        &&& spills(enc, pieces.last(), Ok(writes.last().bytes@))
        &&& appends(enc, pieces.drop_last(), writes.drop_last())
    }
}

/// One write for each bucket, that starts its file with the records of the bucket.
pub open spec fn starts<A>(
    enc: spec_fn(Seq<A>, Result<Seq<u8>, Error>) -> bool,
    buckets: Seq<Seq<A>>,
    writes: Seq<SpillWrite>,
) -> bool {
    &&& writes.len() == buckets.len()
    &&& forall|i: int|
        #![trigger writes[i]]
        0 <= i < writes.len() ==> {
            &&& writes[i].bucket == i
            &&& writes[i].create
            &&& spills(enc, buckets[i], Ok(writes[i].bytes@))
        }
}

/// Some chunk cannot be spilled.
pub open spec fn cannot_spill<A>(
    enc: spec_fn(Seq<A>, Result<Seq<u8>, Error>) -> bool,
    chunks: Seq<Seq<A>>,
    e: Error,
) -> bool {
    exists|i: int| 0 <= i < chunks.len() && spills(enc, #[trigger] chunks[i], Err(e))
}

/// Appending pieces fails with `e` at piece `k`: there is a write for each piece before it with a
/// record, and one for what piece `k` added before the error.
pub open spec fn appends_until<A>(
    enc: spec_fn(Seq<A>, Result<Seq<u8>, Error>) -> bool,
    pieces: Seq<Seq<A>>,
    k: int,
    writes: Seq<SpillWrite>,
    e: Error,
) -> bool {
    &&& 0 <= k < pieces.len()
    &&& writes.len() > 0
    &&& writes.last().bucket == k
    &&& !writes.last().create
    &&& spills_part(enc, pieces[k], writes.last().bytes@, e)
    &&& appends(enc, pieces.take(k), writes.drop_last())
}

/// Each bucket with its piece behind it.
pub open spec fn with_pieces<A>(buckets: Seq<Seq<A>>, pieces: Seq<Seq<A>>) -> Seq<Seq<A>> {
    Seq::new(
        buckets.len(),
        |i: int|
            if i < pieces.len() {
                buckets[i] + pieces[i]
            } else {
                buckets[i]
            },
    )
}

/// What taking in pieces does: they are kept in memory while that stays below the limit; when it
/// no longer does, everything goes to files; from then on each piece does.
pub open spec fn took_in<A>(
    enc: spec_fn(Seq<A>, Result<Seq<u8>, Error>) -> bool,
    before: IncrementalBuckets<A>,
    pieces: Seq<Seq<A>>,
    limit: usize,
    after: IncrementalBuckets<A>,
    writes: Seq<SpillWrite>,
) -> bool {
    &&& after.id == before.id
    &&& after.seq == before.seq
    &&& if before.spilled {
        &&& after.spilled
        &&& rows(after.memory@) == rows(before.memory@)
        &&& appends(enc, pieces, writes)
    } else if after.bytes < limit {
        &&& !after.spilled
        &&& rows(after.memory@) == with_pieces(rows(before.memory@), pieces)
        &&& writes.len() == 0
    } else {
        &&& after.spilled
        &&& after.memory@.len() == before.memory@.len()
        &&& forall|i: int| 0 <= i < after.memory@.len() ==> (#[trigger] after.memory@[i])@.len() == 0
        &&& starts(enc, with_pieces(rows(before.memory@), pieces), writes)
    }
}

/// The blocks of what was taken in: the records, or the names of their files.
pub open spec fn finished<A>(
    b: IncrementalBuckets<A>,
    pid: u32,
    blocks: ShuffleBlocks<A>,
) -> bool {
    if b.spilled {
        blocks matches ShuffleBlocks::Spilled(names) && names@.len() == b.memory@.len() && forall|
            i: int,
        |
            0 <= i < names@.len() ==> (#[trigger] names@[i])@ == spill_name(
                pid,
                b.id,
                b.seq,
                i as usize,
            )
    } else {
        blocks == ShuffleBlocks::Memory(b.memory)
    }
}

/// Pieces that could not be taken in.
#[derive(Debug)]
pub struct FailedPush {
    /// What is to be written to spill files all the same.
    pub writes: Vec<SpillWrite>,
    pub error: Error,
}

/// `held` counts the first `k` pieces.
pub open spec fn counted<A, S: Fn(&Vec<A>) -> Option<u64>>(
    size: S,
    pieces: Seq<Vec<A>>,
    k: int,
    before: usize,
    held: usize,
) -> bool {
    exists|sizes: Seq<usize>| #[trigger]
        sized(size, pieces.take(k), sizes) && held == capped(before as nat + sum(sizes))
}

/// What is left of pieces that could not be taken in. Where the buckets were spilled already, the
/// pieces before the failing one are appended and nothing behind it is counted. Where they should
/// have been spilled now, all of the records stay in memory.
pub open spec fn failed_to_take<A, S: Fn(&Vec<A>) -> Option<u64>>(
    enc: spec_fn(Seq<A>, Result<Seq<u8>, Error>) -> bool,
    size: S,
    before: IncrementalBuckets<A>,
    pieces: Seq<Vec<A>>,
    limit: usize,
    after: IncrementalBuckets<A>,
    f: FailedPush,
) -> bool {
    &&& after.id == before.id
    &&& after.seq == before.seq
    &&& after.spilled == before.spilled
    &&& if before.spilled {
        &&& rows(after.memory@) == rows(before.memory@)
        &&& exists|k: int| #[trigger]
            appends_until(enc, rows(pieces), k, f.writes@, f.error) && counted(
                size,
                pieces,
                k + 1,
                before.bytes,
                after.bytes,
            )
    } else {
        let held = with_pieces(rows(before.memory@), rows(pieces));
        &&& rows(after.memory@) == held
        &&& counted(size, pieces, pieces.len() as int, before.bytes, after.bytes)
        &&& after.bytes >= limit
        &&& cannot_spill(enc, held, f.error)
        &&& f.writes@.len() == 0
    }
}

/// Counts the first piece behind `k` more.
fn count_piece<A, S: Fn(&Vec<A>) -> Option<u64>>(
    piece: &Vec<A>,
    size: &S,
    held: usize,
    Ghost(pieces): Ghost<Seq<Vec<A>>>,
    Ghost(k): Ghost<int>,
    Ghost(before): Ghost<usize>,
) -> (more: usize)
    requires
        0 <= k < pieces.len(),
        *piece == pieces[k],
        forall|v: Vec<A>| #[trigger] call_requires(*size, (&v,)),
        counted(*size, pieces, k, before, held),
    ensures
        counted(*size, pieces, k + 1, before, more),
{
    let add = match size(piece) {
        Some(n) => n as usize,
        None => capped_product(piece.len(), RECORD_BYTES),
    };
    let more = held.saturating_add(add);
    proof {
        let sizes = choose|sizes: Seq<usize>| #[trigger]
            sized(*size, pieces.take(k), sizes) && held == capped(before as nat + sum(sizes));
        let longer = sizes.push(add);
        assert(counts_for(*size, pieces[k], add));
        assert forall|i: int| 0 <= i < pieces.take(k + 1).len() implies counts_for(
            *size,
            pieces.take(k + 1)[i],
            #[trigger] longer[i],
        ) by {
            if i < k {
                assert(pieces.take(k)[i] == pieces.take(k + 1)[i]);
                assert(counts_for(*size, pieces.take(k)[i], sizes[i]));
            }
        }
        assert(sized(*size, pieces.take(k + 1), longer));
        assert(longer.drop_last() =~= sizes);
    }
    more
}

proof fn lemma_counted_none<A, S: Fn(&Vec<A>) -> Option<u64>>(
    size: S,
    pieces: Seq<Vec<A>>,
    held: usize,
)
    ensures
        counted(size, pieces, 0, held, held),
{
    let none = Seq::<usize>::empty();
    assert(sized(size, pieces.take(0), none));
    assert(sum(none) == 0);
}

impl<A> IncrementalBuckets<A> {
    pub fn new(n_out: usize, id: u64, seq: u64) -> (b: Self)
        ensures
            b.id == id,
            b.seq == seq,
            b.memory@.len() == n_out,
            forall|i: int| 0 <= i < n_out ==> (#[trigger] b.memory@[i])@ == Seq::<A>::empty(),
            b.bytes == 0,
            !b.spilled,
    {
        IncrementalBuckets { id, seq, memory: empty_buckets(n_out), bytes: 0, spilled: false }
    }

    /// Takes in a piece of records for each bucket. Says what has to be written to spill files.
    pub fn push<
        S: Fn(&Vec<A>) -> Option<u64>,
        E: Fn(&Vec<A>) -> Result<Vec<u8>, Error>,
    >(&mut self, pieces: Vec<Vec<A>>, size: &S, encode: &E, limit: usize) -> (r: Result<
        Vec<SpillWrite>,
        FailedPush,
    >)
        requires
            pieces@.len() <= old(self).memory@.len(),
            forall|v: Vec<A>| #[trigger] call_requires(*size, (&v,)),
            forall|v: Vec<A>| #[trigger] call_requires(*encode, (&v,)),
        ensures
            match r {
                Ok(writes) => took_in(
                    codes(*encode),
                    *old(self),
                    rows(pieces@),
                    limit,
                    *final(self),
                    writes@,
                ) && counted(
                    *size,
                    pieces@,
                    pieces@.len() as int,
                    old(self).bytes,
                    final(self).bytes,
                ),
                Err(f) => failed_to_take(
                    codes(*encode),
                    *size,
                    *old(self),
                    pieces@,
                    limit,
                    *final(self),
                    f,
                ),
            },
    {
        let ghost all = pieces@;
        if self.spilled {
            let (held, r) = append_pieces(self.bytes, pieces, size, encode);
            self.bytes = held;
            return r;
        }
        let ghost start = self.bytes;
        let mut held = self.bytes;
        let mut i: usize = 0;
        proof {
            lemma_counted_none(*size, all, start);
        }
        while i < pieces.len()
            invariant
                pieces@ == all,
                i <= all.len(),
                forall|v: Vec<A>| #[trigger] call_requires(*size, (&v,)),
                counted(*size, all, i as int, start, held),
            decreases all.len() - i,
        {
            held = count_piece(&pieces[i], size, held, Ghost(all), Ghost(i as int), Ghost(start));
            i = i + 1;
        }
        self.bytes = held;
        let ghost base = self.memory@;
        extend_each(&mut self.memory, pieces);
        assert(rows(self.memory@) =~= with_pieces(rows(base), rows(all)));
        if self.bytes < limit {
            return Ok(Vec::new());
        }
        match start_files(&mut self.memory, encode) {
            Ok(writes) => {
                self.memory = empty_buckets(self.memory.len());
                self.spilled = true;
                Ok(writes)
            },
            Err(e) => Err(FailedPush { writes: Vec::new(), error: e }),
        }
    }

    /// What was taken in: the records, or the names of the files that they were spilled to.
    pub fn finish(self, pid: u32) -> (blocks: ShuffleBlocks<A>)
        ensures
            finished(self, pid, blocks),
    {
        if !self.spilled {
            return ShuffleBlocks::Memory(self.memory);
        }
        let n = self.memory.len();
        ShuffleBlocks::Spilled(spill_names(pid, self.id, self.seq, n))
    }
}

/// The names of the files of `n` spilled buckets.
pub fn spill_names(pid: u32, id: u64, seq: u64, n: usize) -> (names: Vec<String>)
    ensures
        names@.len() == n,
        forall|i: int|
            0 <= i < n ==> (#[trigger] names@[i])@ == spill_name(pid, id, seq, i as usize),
{
    let mut names: Vec<String> = Vec::new();
    let mut i: usize = 0;
    while i < n
        invariant
            i <= n,
            names@.len() == i,
            forall|j: int|
                0 <= j < i ==> (#[trigger] names@[j])@ == spill_name(pid, id, seq, j as usize),
        decreases n - i,
    {
        names.push(spill_file_name(pid, id, seq, i));
        i = i + 1;
    }
    names
}

fn append_pieces<
    A,
    S: Fn(&Vec<A>) -> Option<u64>,
    E: Fn(&Vec<A>) -> Result<Vec<u8>, Error>,
>(before: usize, pieces: Vec<Vec<A>>, size: &S, encode: &E) -> (r: (
    usize,
    Result<Vec<SpillWrite>, FailedPush>,
))
    requires
        forall|v: Vec<A>| #[trigger] call_requires(*size, (&v,)),
        forall|v: Vec<A>| #[trigger] call_requires(*encode, (&v,)),
    ensures
        match r.1 {
            Ok(writes) => appends(codes(*encode), rows(pieces@), writes@) && counted(
                *size,
                pieces@,
                pieces@.len() as int,
                before,
                r.0,
            ),
            Err(f) => exists|k: int| #[trigger]
                appends_until(codes(*encode), rows(pieces@), k, f.writes@, f.error) && counted(
                    *size,
                    pieces@,
                    k + 1,
                    before,
                    r.0,
                ),
        },
{
    let ghost all = pieces@;
    let ghost enc = codes(*encode);
    let n = pieces.len();
    let mut held = before;
    let mut writes: Vec<SpillWrite> = Vec::new();
    let mut i: usize = 0;
    proof {
        lemma_counted_none(*size, all, before);
    }
    for piece in it: pieces
        invariant
            it.seq() == all,
            all == pieces@,
            n == all.len(),
            i == it.index(),
            enc == codes(*encode),
            forall|v: Vec<A>| #[trigger] call_requires(*size, (&v,)),
            forall|v: Vec<A>| #[trigger] call_requires(*encode, (&v,)),
            appends(enc, rows(all.take(it.index())), writes@),
            counted(*size, all, i as int, before, held),
    {
        let ghost done = rows(all.take(it.index()));
        let ghost next = rows(all.take(it.index() + 1));
        proof {
            assert(next.drop_last() =~= done);
            assert(next.last() == piece@);
        }
        held = count_piece(&piece, size, held, Ghost(all), Ghost(i as int), Ghost(before));
        if piece.len() > 0 {
            let ghost earlier = writes@;
            assert(rows(all)[i as int] == piece@);
            let mut records = piece;
            match chunk_bytes(&mut records, encode) {
                Ok(bytes) => {
                    writes.push(SpillWrite { bucket: i, create: false, bytes });
                    assert(writes@.drop_last() =~= earlier);
                },
                Err(u) => {
                    writes.push(SpillWrite { bucket: i, create: false, bytes: u.written });
                    let f = FailedPush { writes, error: u.error };
                    proof {
                        assert(f.writes@.drop_last() =~= earlier);
                        assert(rows(all).take(i as int) =~= done);
                        assert(appends_until(enc, rows(all), i as int, f.writes@, f.error));
                        assert(counted(*size, all, i as int + 1, before, held));
                    }
                    return (held, Err(f));
                },
            }
        }
        i = i + 1;
    }
    assert(all.take(all.len() as int) =~= all);
    (held, Ok(writes))
}

fn start_files<A, E: Fn(&Vec<A>) -> Result<Vec<u8>, Error>>(
    buckets: &mut Vec<Vec<A>>,
    encode: &E,
) -> (r: Result<Vec<SpillWrite>, Error>)
    requires
        forall|v: Vec<A>| #[trigger] call_requires(*encode, (&v,)),
    ensures
        rows(final(buckets)@) == rows(old(buckets)@),
        match r {
            Ok(writes) => starts(codes(*encode), rows(old(buckets)@), writes@),
            Err(e) => cannot_spill(codes(*encode), rows(old(buckets)@), e),
        },
{
    let ghost all = rows(buckets@);
    let n = buckets.len();
    let mut writes: Vec<SpillWrite> = Vec::new();
    let mut i: usize = 0;
    while i < n
        invariant
            all == rows(old(buckets)@),
            n == all.len(),
            i <= n,
            rows(buckets@) == all,
            forall|v: Vec<A>| #[trigger] call_requires(*encode, (&v,)),
            writes@.len() == i,
            forall|j: int|
                #![trigger writes@[j]]
                0 <= j < i ==> {
                    &&& writes@[j].bucket == j
                    &&& writes@[j].create
                    &&& spills(codes(*encode), all[j], Ok(writes@[j].bytes@))
                },
        decreases n - i,
    {
        let ghost before = buckets@;
        assert(all[i as int] == before[i as int]@);
        assert(n == before.len());
        let encoded = chunk_bytes(&mut buckets[i], encode);
        assert(rows(buckets@) =~= rows(before));
        let bytes = match encoded {
            Ok(b) => b,
            Err(u) => return Err(u.error),
        };
        writes.push(SpillWrite { bucket: i, create: true, bytes });
        i = i + 1;
    }
    Ok(writes)
}

// ---- blocks

/// The output of a shuffle: its buckets, or the names of the files that hold them.
#[derive(Debug)]
pub enum ShuffleBlocks<A> {
    Memory(Vec<Vec<A>>),
    Spilled(Vec<String>),
}

/// The number of partitions of some blocks.
pub open spec fn block_count<A>(blocks: ShuffleBlocks<A>) -> nat {
    match blocks {
        ShuffleBlocks::Memory(buckets) => buckets@.len(),
        ShuffleBlocks::Spilled(names) => names@.len(),
    }
}

impl<A: Clone> ShuffleBlocks<A> {
    /// The records of a partition; `read` reads those of a spill file.
    pub fn partition<R: Fn(&String) -> Result<Vec<A>, Error>>(&self, p: usize, read: &R) -> (r:
        Result<Vec<A>, Error>)
        requires
            p < block_count(*self),
            forall|name: String| #[trigger] call_requires(*read, (&name,)),
        ensures
            match *self {
                ShuffleBlocks::Memory(buckets) => r matches Ok(v) && cloned_all(
                    buckets@[p as int]@,
                    v@,
                ),
                ShuffleBlocks::Spilled(names) => call_ensures(*read, (&names@[p as int],), r),
            },
    {
        match self {
            ShuffleBlocks::Memory(buckets) => Ok(buckets[p].clone()),
            ShuffleBlocks::Spilled(names) => read(&names[p]),
        }
    }
}

/// The number of records in all buckets.
pub open spec fn record_count<A>(buckets: Seq<Vec<A>>) -> nat
    decreases buckets.len(),
{
    if buckets.len() == 0 {
        0
    } else {
        record_count(buckets.drop_last()) + buckets.last()@.len()
    }
}

/// What becomes of reduced buckets: they stay in memory, or their files are to be written.
#[derive(Debug)]
pub enum Stored<A> {
    Memory(Vec<Vec<A>>),
    Files(Vec<SpillWrite>),
}

proof fn lemma_record_count_grows<A>(buckets: Seq<Vec<A>>, k: int)
    requires
        0 <= k <= buckets.len(),
    ensures
        record_count(buckets.take(k)) <= record_count(buckets),
    decreases buckets.len() - k,
{
    if k < buckets.len() {
        lemma_record_count_grows(buckets, k + 1);
        assert(buckets.take(k + 1).drop_last() =~= buckets.take(k));
    } else {
        assert(buckets.take(k) =~= buckets);
    }
}

/// Counts the records in all buckets.
pub fn count_records<A>(buckets: &Vec<Vec<A>>) -> (n: usize)
    requires
        record_count(buckets@) <= usize::MAX,
    ensures
        n == record_count(buckets@),
{
    let mut records: usize = 0;
    let mut i: usize = 0;
    assert(buckets@.take(0) =~= Seq::<Vec<A>>::empty());
    while i < buckets.len()
        invariant
            i <= buckets@.len(),
            record_count(buckets@) <= usize::MAX,
            records == record_count(buckets@.take(i as int)),
        decreases buckets@.len() - i,
    {
        proof {
            assert(buckets@.take(i + 1).drop_last() =~= buckets@.take(i as int));
            lemma_record_count_grows(buckets@, i + 1);
        }
        records = records + buckets[i].len();
        i = i + 1;
    }
    assert(buckets@.take(buckets@.len() as int) =~= buckets@);
    records
}

/// Decides what becomes of reduced buckets: they stay in memory if their estimated size is below
/// the limit.
pub fn store_blocks<A, E: Fn(&Vec<A>) -> Result<Vec<u8>, Error>>(
    buckets: Vec<Vec<A>>,
    encode: &E,
    limit: usize,
) -> (r: Result<Stored<A>, Error>)
    requires
        record_count(buckets@) <= usize::MAX,
        forall|v: Vec<A>| #[trigger] call_requires(*encode, (&v,)),
    ensures
        if capped(record_count(buckets@) * RECORD_BYTES as nat) < limit {
            r == Ok::<Stored<A>, Error>(Stored::Memory(buckets))
        } else {
            match r {
                Ok(Stored::Files(writes)) => starts(codes(*encode), rows(buckets@), writes@),
                Ok(Stored::Memory(_)) => false,
                Err(e) => cannot_spill(codes(*encode), rows(buckets@), e),
            }
        },
{
    let records = count_records(&buckets);
    if capped_product(records, RECORD_BYTES) < limit {
        return Ok(Stored::Memory(buckets));
    }
    let mut held = buckets;
    match start_files(&mut held, encode) {
        Ok(writes) => Ok(Stored::Files(writes)),
        Err(e) => Err(e),
    }
}

// ---- laws

/// The contents of spill files after some writes.
pub open spec fn written(files: Seq<Seq<u8>>, writes: Seq<SpillWrite>) -> Seq<Seq<u8>>
    decreases writes.len(),
{
    if writes.len() == 0 {
        files
    } else {
        let before = written(files, writes.drop_last());
        let w = writes.last();
        before.update(
            w.bucket as int,
            if w.create {
                w.bytes@
            } else {
                before[w.bucket as int] + w.bytes@
            },
        )
    }
}

/// `parts` holds what each of `chunks` added to a spill file.
pub open spec fn pieces_of<A>(
    enc: spec_fn(Seq<A>, Result<Seq<u8>, Error>) -> bool,
    chunks: Seq<Seq<A>>,
    parts: Seq<Seq<u8>>,
) -> bool {
    &&& chunks.len() == parts.len()
    &&& forall|i: int|
        0 <= i < chunks.len() ==> spills(enc, #[trigger] chunks[i], Ok(parts[i]))
}

/// A spill file was given the records `s`, in some pieces.
pub open spec fn spill_file<A>(
    enc: spec_fn(Seq<A>, Result<Seq<u8>, Error>) -> bool,
    bytes: Seq<u8>,
    s: Seq<A>,
) -> bool {
    exists|chunks: Seq<Seq<A>>, parts: Seq<Seq<u8>>| #[trigger]
        pieces_of(enc, chunks, parts) && bytes == concat(parts) && s == concat(chunks)
}

/// Bucket `i` holds the records `s`, in memory or in its file.
pub open spec fn holds<A>(
    enc: spec_fn(Seq<A>, Result<Seq<u8>, Error>) -> bool,
    b: IncrementalBuckets<A>,
    files: Seq<Seq<u8>>,
    i: int,
    s: Seq<A>,
) -> bool {
    if b.spilled {
        spill_file(enc, files[i], s)
    } else {
        b.memory@[i]@ == s
    }
}

proof fn lemma_spill_file_more<A>(
    enc: spec_fn(Seq<A>, Result<Seq<u8>, Error>) -> bool,
    bytes: Seq<u8>,
    s: Seq<A>,
    chunk: Seq<A>,
    part: Seq<u8>,
)
    requires
        spill_file(enc, bytes, s),
        spills(enc, chunk, Ok(part)),
    ensures
        spill_file(enc, bytes + part, s + chunk),
{
    let (chunks, parts) = choose|chunks: Seq<Seq<A>>, parts: Seq<Seq<u8>>| #[trigger]
        pieces_of(enc, chunks, parts) && bytes == concat(parts) && s == concat(chunks);
    lemma_concat_push(chunks, chunk);
    lemma_concat_push(parts, part);
    assert forall|i: int| 0 <= i < chunks.push(chunk).len() implies spills(
        enc,
        #[trigger] chunks.push(chunk)[i],
        Ok(parts.push(part)[i]),
    ) by {
        if i < chunks.len() {
            assert(chunks.push(chunk)[i] == chunks[i]);
        }
    }
    assert(pieces_of(enc, chunks.push(chunk), parts.push(part)));
}

proof fn lemma_spill_file_start<A>(
    enc: spec_fn(Seq<A>, Result<Seq<u8>, Error>) -> bool,
    chunk: Seq<A>,
    part: Seq<u8>,
)
    requires
        spills(enc, chunk, Ok(part)),
    ensures
        spill_file(enc, part, chunk),
{
    let no_chunks = Seq::<Seq<A>>::empty();
    let no_parts = Seq::<Seq<u8>>::empty();
    assert(pieces_of(enc, no_chunks, no_parts));
    assert(spill_file(enc, Seq::<u8>::empty(), Seq::<A>::empty()));
    lemma_spill_file_more(enc, Seq::empty(), Seq::empty(), chunk, part);
    assert(Seq::<u8>::empty() + part =~= part);
    assert(Seq::<A>::empty() + chunk =~= chunk);
}

proof fn lemma_appends_written<A>(
    enc: spec_fn(Seq<A>, Result<Seq<u8>, Error>) -> bool,
    pieces: Seq<Seq<A>>,
    writes: Seq<SpillWrite>,
    files: Seq<Seq<u8>>,
    i: int,
    s: Seq<A>,
)
    requires
        appends(enc, pieces, writes),
        pieces.len() <= files.len(),
        0 <= i < files.len(),
        spill_file(enc, files[i], s),
    ensures
        written(files, writes).len() == files.len(),
        spill_file(
            enc,
            written(files, writes)[i],
            if i < pieces.len() {
                s + pieces[i]
            } else {
                s
            },
        ),
    decreases pieces.len(),
{
    if pieces.len() > 0 {
        let last = pieces.len() - 1;
        if pieces.last().len() == 0 {
            lemma_appends_written(enc, pieces.drop_last(), writes, files, i, s);
            if i == last {
                assert(s + pieces[i] =~= s);
            }
        } else {
            let init = writes.drop_last();
            lemma_appends_written(enc, pieces.drop_last(), init, files, i, s);
            if i == last {
                lemma_spill_file_more(
                    enc,
                    written(files, init)[i],
                    s,
                    pieces[i],
                    writes.last().bytes@,
                );
            }
        }
    }
}

proof fn lemma_starts_written<A>(
    enc: spec_fn(Seq<A>, Result<Seq<u8>, Error>) -> bool,
    buckets: Seq<Seq<A>>,
    writes: Seq<SpillWrite>,
    files: Seq<Seq<u8>>,
    k: int,
)
    requires
        starts(enc, buckets, writes),
        buckets.len() == files.len(),
        0 <= k <= writes.len(),
    ensures
        written(files, writes.take(k)).len() == files.len(),
        forall|i: int| 0 <= i < k ==> #[trigger] written(files, writes.take(k))[i] == writes[i].bytes@,
    decreases k,
{
    if k > 0 {
        lemma_starts_written(enc, buckets, writes, files, k - 1);
        assert(writes.take(k).drop_last() =~= writes.take(k - 1));
        assert(writes.take(k).last() == writes[k - 1]);
        assert forall|i: int| 0 <= i < k implies #[trigger] written(files, writes.take(k))[i]
            == writes[i].bytes@ by {
            if i < k - 1 {
                assert(written(files, writes.take(k - 1))[i] == writes[i].bytes@);
            }
        }
    } else {
        assert(writes.take(0) =~= Seq::<SpillWrite>::empty());
    }
}

/// Taking in a piece adds its records to what its bucket holds, wherever the bucket is kept.
pub proof fn lemma_push_adds<A>(
    enc: spec_fn(Seq<A>, Result<Seq<u8>, Error>) -> bool,
    before: IncrementalBuckets<A>,
    pieces: Seq<Seq<A>>,
    limit: usize,
    after: IncrementalBuckets<A>,
    writes: Seq<SpillWrite>,
    files: Seq<Seq<u8>>,
    i: int,
    s: Seq<A>,
)
    requires
        took_in(enc, before, pieces, limit, after, writes),
        pieces.len() <= before.memory@.len(),
        files.len() == before.memory@.len(),
        0 <= i < files.len(),
        holds(enc, before, files, i, s),
    ensures
        written(files, writes).len() == files.len(),
        holds(
            enc,
            after,
            written(files, writes),
            i,
            if i < pieces.len() {
                s + pieces[i]
            } else {
                s
            },
        ),
{
    let base = rows(before.memory@);
    assert(base[i] == before.memory@[i]@);
    if before.spilled {
        lemma_appends_written(enc, pieces, writes, files, i, s);
    } else if after.bytes < limit {
        assert(rows(after.memory@).len() == base.len());
        assert(after.memory@[i]@ == rows(after.memory@)[i]);
    } else {
        lemma_starts_written(enc, with_pieces(base, pieces), writes, files, writes.len() as int);
        assert(writes.take(writes.len() as int) =~= writes);
        assert(writes[i].bucket == i);
        lemma_spill_file_start(enc, with_pieces(base, pieces)[i], writes[i].bytes@);
    }
}

/// A spill file that was given records reads back as those records, and reading it never fails,
/// where decoding undoes encoding.
pub proof fn lemma_spill_reads_back<A>(
    enc: spec_fn(Seq<A>, Result<Seq<u8>, Error>) -> bool,
    dec: spec_fn(Seq<u8>, Result<Seq<A>, Error>) -> bool,
    bytes: Seq<u8>,
    s: Seq<A>,
    items: Seq<A>,
    rest: Seq<u8>,
)
    requires
        undoes(enc, dec),
        spill_file(enc, bytes, s),
        reads(dec, bytes, items, rest),
    ensures
        forall|e: Error| !stops(dec, rest, e),
        rest.len() == 0 ==> items == s,
{
    let (chunks, parts) = choose|chunks: Seq<Seq<A>>, parts: Seq<Seq<u8>>| #[trigger]
        pieces_of(enc, chunks, parts) && bytes == concat(parts) && s == concat(chunks);
    lemma_pieces_read_back(enc, dec, chunks, parts, items, rest);
}

proof fn lemma_pieces_read_back<A>(
    enc: spec_fn(Seq<A>, Result<Seq<u8>, Error>) -> bool,
    dec: spec_fn(Seq<u8>, Result<Seq<A>, Error>) -> bool,
    chunks: Seq<Seq<A>>,
    parts: Seq<Seq<u8>>,
    items: Seq<A>,
    rest: Seq<u8>,
)
    requires
        undoes(enc, dec),
        pieces_of(enc, chunks, parts),
        reads(dec, concat(parts), items, rest),
    ensures
        forall|e: Error| !stops(dec, rest, e),
        rest.len() == 0 ==> items == concat(chunks),
    decreases chunks.len(),
{
    if chunks.len() > 0 {
        lemma_concat_first(chunks);
        lemma_concat_first(parts);
        let tail = concat(parts.skip(1));
        assert(spills(enc, chunks[0], Ok(parts[0])));
        lemma_spilled_reads(enc, dec, chunks[0], parts[0], tail, items, rest);
        if exists|after: Seq<A>|
            items == #[trigger] (chunks[0] + after) && reads(dec, tail, after, rest) {
            let after = choose|after: Seq<A>|
                items == #[trigger] (chunks[0] + after) && reads(dec, tail, after, rest);
            assert forall|i: int| 0 <= i < chunks.skip(1).len() implies spills(
                enc,
                #[trigger] chunks.skip(1)[i],
                Ok(parts.skip(1)[i]),
            ) by {
                assert(chunks.skip(1)[i] == chunks[i + 1]);
            }
            lemma_pieces_read_back(enc, dec, chunks.skip(1), parts.skip(1), after, rest);
        }
    } else {
        assert(items =~= concat(chunks));
    }
}

/// Partition `p` of some blocks holds the records `s`, in memory or in its file.
pub open spec fn block_holds<A>(
    enc: spec_fn(Seq<A>, Result<Seq<u8>, Error>) -> bool,
    blocks: ShuffleBlocks<A>,
    files: Seq<Seq<u8>>,
    p: int,
    s: Seq<A>,
) -> bool {
    match blocks {
        ShuffleBlocks::Memory(buckets) => 0 <= p < buckets@.len() && buckets@[p]@ == s,
        ShuffleBlocks::Spilled(names) => 0 <= p < names@.len() && spill_file(enc, files[p], s),
    }
}

/// What asking for partition `p` of some blocks may come to, where a spilled one is read from its
/// file.
pub open spec fn partition_gives<A: Clone>(
    dec: spec_fn(Seq<u8>, Result<Seq<A>, Error>) -> bool,
    blocks: ShuffleBlocks<A>,
    files: Seq<Seq<u8>>,
    p: int,
    r: Result<Seq<A>, Error>,
) -> bool {
    match blocks {
        ShuffleBlocks::Memory(buckets) => r matches Ok(v) && cloned_all(buckets@[p]@, v),
        ShuffleBlocks::Spilled(names) => read_result(dec, files[p], r),
    }
}

/// A partition reads back as the records that its block holds, in memory or spilled, and reading
/// it never fails, where decoding undoes encoding.
pub proof fn lemma_partition_reads_back<A: Clone>(
    enc: spec_fn(Seq<A>, Result<Seq<u8>, Error>) -> bool,
    dec: spec_fn(Seq<u8>, Result<Seq<A>, Error>) -> bool,
    blocks: ShuffleBlocks<A>,
    files: Seq<Seq<u8>>,
    p: int,
    s: Seq<A>,
    r: Result<Seq<A>, Error>,
)
    requires
        undoes(enc, dec),
        block_holds(enc, blocks, files, p, s),
        partition_gives(dec, blocks, files, p, r),
    ensures
        r matches Ok(v) && (v == s || cloned_all(s, v)),
{
    if blocks is Spilled {
        match r {
            Ok(v) => {
                lemma_spill_reads_back(enc, dec, files[p], s, v, Seq::empty());
            },
            Err(e) => {
                let (items, rest) = choose|items: Seq<A>, rest: Seq<u8>| #[trigger]
                    reads(dec, files[p], items, rest) && stops(dec, rest, e);
                lemma_spill_reads_back(enc, dec, files[p], s, items, rest);
            },
        }
    }
}

/// Buckets are stored as some blocks and some contents of their files.
pub open spec fn stored_as<A>(
    enc: spec_fn(Seq<A>, Result<Seq<u8>, Error>) -> bool,
    buckets: Seq<Vec<A>>,
    stored: Stored<A>,
    blocks: ShuffleBlocks<A>,
    before: Seq<Seq<u8>>,
    files: Seq<Seq<u8>>,
) -> bool {
    match stored {
        Stored::Memory(kept) => kept@ == buckets && blocks == ShuffleBlocks::Memory(kept),
        Stored::Files(writes) => {
            &&& starts(enc, rows(buckets), writes@)
            &&& before.len() == buckets.len()
            &&& files == written(before, writes@)
            &&& (blocks matches ShuffleBlocks::Spilled(names) && names@.len() == buckets.len())
        },
    }
}

/// Stored blocks read back as the buckets that were stored, in memory or spilled, whatever was in
/// the files before.
pub proof fn lemma_stored_reads_back<A: Clone>(
    enc: spec_fn(Seq<A>, Result<Seq<u8>, Error>) -> bool,
    dec: spec_fn(Seq<u8>, Result<Seq<A>, Error>) -> bool,
    buckets: Seq<Vec<A>>,
    stored: Stored<A>,
    blocks: ShuffleBlocks<A>,
    before: Seq<Seq<u8>>,
    files: Seq<Seq<u8>>,
    p: int,
    r: Result<Seq<A>, Error>,
)
    requires
        undoes(enc, dec),
        stored_as(enc, buckets, stored, blocks, before, files),
        0 <= p < buckets.len(),
        partition_gives(dec, blocks, files, p, r),
    ensures
        block_count(blocks) == buckets.len(),
        r matches Ok(v) && (v == buckets[p]@ || cloned_all(buckets[p]@, v)),
{
    if let Stored::Files(writes) = stored {
        let w = writes@;
        lemma_starts_written(enc, rows(buckets), w, before, w.len() as int);
        assert(w.take(w.len() as int) =~= w);
        assert(w[p].bucket == p);
        lemma_spill_file_start(enc, rows(buckets)[p], w[p].bytes@);
        assert(written(before, w)[p] == w[p].bytes@);
    }
    lemma_partition_reads_back(enc, dec, blocks, files, p, buckets[p]@, r);
}

/// A run of pushes: state `j` takes in `pieces[j]` and becomes state `j + 1`, and `writes[j]` is
/// what goes to the files.
pub open spec fn pushed<A>(
    enc: spec_fn(Seq<A>, Result<Seq<u8>, Error>) -> bool,
    states: Seq<IncrementalBuckets<A>>,
    pieces: Seq<Seq<Seq<A>>>,
    limits: Seq<usize>,
    writes: Seq<Seq<SpillWrite>>,
) -> bool {
    &&& states.len() == pieces.len() + 1
    &&& limits.len() == pieces.len()
    &&& writes.len() == pieces.len()
    &&& !states[0].spilled
    &&& forall|i: int|
        0 <= i < states[0].memory@.len() ==> (#[trigger] states[0].memory@[i])@.len() == 0
    &&& forall|j: int|
        #![trigger pieces[j]]
        0 <= j < pieces.len() ==> {
            &&& pieces[j].len() <= states[j].memory@.len()
            &&& took_in(enc, states[j], pieces[j], limits[j], states[j + 1], writes[j])
        }
}

/// The contents of the files after the first `k` pushes.
pub open spec fn after_pushes(
    files: Seq<Seq<u8>>,
    writes: Seq<Seq<SpillWrite>>,
    k: int,
) -> Seq<Seq<u8>>
    decreases k,
{
    if k <= 0 {
        files
    } else {
        written(after_pushes(files, writes, k - 1), writes[k - 1])
    }
}

/// The pieces of bucket `i`, in order.
pub open spec fn bucket_pieces<A>(pieces: Seq<Seq<Seq<A>>>, i: int) -> Seq<Seq<A>> {
    Seq::new(
        pieces.len(),
        |j: int|
            if i < pieces[j].len() {
                pieces[j][i]
            } else {
                Seq::empty()
            },
    )
}

proof fn lemma_pushes_add<A>(
    enc: spec_fn(Seq<A>, Result<Seq<u8>, Error>) -> bool,
    states: Seq<IncrementalBuckets<A>>,
    pieces: Seq<Seq<Seq<A>>>,
    limits: Seq<usize>,
    writes: Seq<Seq<SpillWrite>>,
    files: Seq<Seq<u8>>,
    k: int,
    i: int,
)
    requires
        pushed(enc, states, pieces, limits, writes),
        files.len() == states[0].memory@.len(),
        0 <= i < files.len(),
        0 <= k <= pieces.len(),
    ensures
        states[k].memory@.len() == files.len(),
        after_pushes(files, writes, k).len() == files.len(),
        holds(
            enc,
            states[k],
            after_pushes(files, writes, k),
            i,
            concat(bucket_pieces(pieces, i).take(k)),
        ),
    decreases k,
{
    let all = bucket_pieces(pieces, i);
    if k == 0 {
        assert(all.take(0) =~= Seq::<Seq<A>>::empty());
        assert(states[0].memory@[i]@ =~= concat(all.take(0)));
    } else {
        lemma_pushes_add(enc, states, pieces, limits, writes, files, k - 1, i);
        let before = after_pushes(files, writes, k - 1);
        let s = concat(all.take(k - 1));
        assert(took_in(
            enc,
            states[k - 1],
            pieces[k - 1],
            limits[k - 1],
            states[k - 1 + 1],
            writes[k - 1],
        ));
        lemma_push_adds(
            enc,
            states[k - 1],
            pieces[k - 1],
            limits[k - 1],
            states[k],
            writes[k - 1],
            before,
            i,
            s,
        );
        assert(all.take(k) =~= all.take(k - 1).push(all[k - 1]));
        lemma_concat_push(all.take(k - 1), all[k - 1]);
        if i >= pieces[k - 1].len() {
            assert(s + all[k - 1] =~= s);
        }
        assert(rows(states[k].memory@).len() == rows(states[k - 1].memory@).len());
    }
}

/// Any number of pushes and a finish read back, for each bucket, as its pieces joined in order,
/// wherever the limits made the buckets go to files.
pub proof fn lemma_pushes_read_back<A: Clone>(
    enc: spec_fn(Seq<A>, Result<Seq<u8>, Error>) -> bool,
    dec: spec_fn(Seq<u8>, Result<Seq<A>, Error>) -> bool,
    states: Seq<IncrementalBuckets<A>>,
    pieces: Seq<Seq<Seq<A>>>,
    limits: Seq<usize>,
    writes: Seq<Seq<SpillWrite>>,
    files: Seq<Seq<u8>>,
    pid: u32,
    blocks: ShuffleBlocks<A>,
    p: int,
    r: Result<Seq<A>, Error>,
)
    requires
        undoes(enc, dec),
        pushed(enc, states, pieces, limits, writes),
        files.len() == states[0].memory@.len(),
        finished(states.last(), pid, blocks),
        0 <= p < files.len(),
        partition_gives(dec, blocks, after_pushes(files, writes, pieces.len() as int), p, r),
    ensures
        block_count(blocks) == files.len(),
        r matches Ok(v) && (v == concat(bucket_pieces(pieces, p)) || cloned_all(
            concat(bucket_pieces(pieces, p)),
            v,
        )),
{
    let n = pieces.len() as int;
    let all = bucket_pieces(pieces, p);
    lemma_pushes_add(enc, states, pieces, limits, writes, files, n, p);
    assert(all.take(n) =~= all);
    lemma_partition_reads_back(
        enc,
        dec,
        blocks,
        after_pushes(files, writes, n),
        p,
        concat(all),
        r,
    );
}

proof fn lemma_add_assoc(a: Seq<char>, b: Seq<char>, c: Seq<char>)
    ensures
        (a + b) + c == a + (b + c),
{
    assert((a + b) + c =~= a + (b + c));
}

/// What follows the common start of all spill file names.
spec fn after_head(pid: nat, id: nat, seq: nat, bucket: nat) -> Seq<char> {
    decimal(pid) + ("-"@ + (decimal(id) + ("-"@ + (decimal(seq) + ("-"@ + (decimal(bucket)
        + ".bin"@))))))
}

proof fn lemma_spill_name_nested(pid: u32, id: u64, seq: u64, bucket: usize)
    ensures
        spill_name(pid, id, seq, bucket) == "spatter-spill-"@ + after_head(
            pid as nat,
            id as nat,
            seq as nat,
            bucket as nat,
        ),
{
    let h = "spatter-spill-"@;
    let m = "-"@;
    let (a, b, c, d) = (
        decimal(pid as nat),
        decimal(id as nat),
        decimal(seq as nat),
        decimal(bucket as nat),
    );
    let t4 = d + ".bin"@;
    let t3 = c + (m + t4);
    let t2 = b + (m + t3);
    lemma_add_assoc(h + a + m + b + m + c + m, d, ".bin"@);
    lemma_add_assoc(h + a + m + b + m + c, m, t4);
    lemma_add_assoc(h + a + m + b + m, c, m + t4);
    lemma_add_assoc(h + a + m + b, m, t3);
    lemma_add_assoc(h + a + m, b, m + t3);
    lemma_add_assoc(h + a, m, t2);
    lemma_add_assoc(h, a, m + t2);
}

/// Numbers with a dash behind them can be told apart.
proof fn lemma_dashed(a: nat, b: nat, s: Seq<char>, t: Seq<char>)
    requires
        decimal(a) + ("-"@ + s) == decimal(b) + ("-"@ + t),
    ensures
        a == b,
        s == t,
{
    reveal_strlit("-");
    lemma_decimal_prefix(a, b, "-"@ + s, "-"@ + t);
    assert(("-"@ + s).skip(1) =~= s);
    assert(("-"@ + t).skip(1) =~= t);
}

/// No two spills of a process share a file name.
pub proof fn lemma_spill_names_differ(
    pid: u32,
    id: u64,
    seq: u64,
    bucket: usize,
    pid2: u32,
    id2: u64,
    seq2: u64,
    bucket2: usize,
)
    requires
        spill_name(pid, id, seq, bucket) == spill_name(pid2, id2, seq2, bucket2),
    ensures
        pid == pid2,
        id == id2,
        seq == seq2,
        bucket == bucket2,
{
    lemma_spill_name_nested(pid, id, seq, bucket);
    lemma_spill_name_nested(pid2, id2, seq2, bucket2);
    let h = "spatter-spill-"@;
    let m = "-"@;
    let one = after_head(pid as nat, id as nat, seq as nat, bucket as nat);
    let two = after_head(pid2 as nat, id2 as nat, seq2 as nat, bucket2 as nat);
    assert((h + one).skip(h.len() as int) =~= one);
    assert((h + two).skip(h.len() as int) =~= two);
    let (d1, d2) = (decimal(bucket as nat) + ".bin"@, decimal(bucket2 as nat) + ".bin"@);
    let (c1, c2) = (decimal(seq as nat) + (m + d1), decimal(seq2 as nat) + (m + d2));
    let (b1, b2) = (decimal(id as nat) + (m + c1), decimal(id2 as nat) + (m + c2));
    lemma_dashed(pid as nat, pid2 as nat, b1, b2);
    lemma_dashed(id as nat, id2 as nat, c1, c2);
    lemma_dashed(seq as nat, seq2 as nat, d1, d2);
    reveal_strlit(".bin");
    lemma_decimal_prefix(bucket as nat, bucket2 as nat, ".bin"@, ".bin"@);
}

/// A setting of `n` MiB limits what is held to `n` times 1048576 bytes, as far as a machine word
/// counts them; without a number the limit is 67108864 bytes.
pub proof fn lemma_spill_limit(n: nat, setting: Seq<char>)
    requires
        n <= usize::MAX,
    ensures
        n * 1048576 <= usize::MAX ==> spill_limit(Some(decimal(n))) == n * 1048576,
        n * 1048576 > usize::MAX ==> spill_limit(Some(decimal(n))) == usize::MAX,
        spill_limit(None) == 67108864,
        parsed_within(setting, usize::MAX as nat) is None ==> spill_limit(Some(setting))
            == 67108864,
{
    lemma_parsed_within(decimal(n), n, usize::MAX as nat);
}

/// Records count for as many bytes as their encoding has; where that is not known, for 64 each.
pub proof fn lemma_piece_size(encoded: u64, records: nat)
    ensures
        encoded <= usize::MAX ==> piece_size(Some(encoded), records) == encoded,
        records * 64 <= usize::MAX ==> piece_size(None, records) == records * 64,
        records * 64 > usize::MAX ==> piece_size(None, records) == usize::MAX,
{
}

/// A piece counts for the size that is found for it.
pub proof fn lemma_counts_for<A, S: Fn(&Vec<A>) -> Option<u64>>(
    size: S,
    piece: Vec<A>,
    n: usize,
) -> (encoded: Option<u64>)
    requires
        counts_for(size, piece, n),
    ensures
        call_ensures(size, (&piece,), encoded),
        encoded matches Some(m) ==> (m <= usize::MAX ==> n == m),
        encoded is None && piece@.len() * 64 <= usize::MAX ==> n == piece@.len() * 64,
{
    choose|encoded: Option<u64>| #[trigger]
        call_ensures(size, (&piece,), encoded) && n == piece_size(encoded, piece@.len())
}

/// What is held grows by the size of each piece that comes in, as far as a machine word counts it.
pub proof fn lemma_counted<A, S: Fn(&Vec<A>) -> Option<u64>>(
    size: S,
    pieces: Seq<Vec<A>>,
    before: usize,
    held: usize,
) -> (sizes: Seq<usize>)
    requires
        counted(size, pieces, pieces.len() as int, before, held),
    ensures
        sizes.len() == pieces.len(),
        forall|i: int|
            0 <= i < pieces.len() ==> counts_for(size, pieces[i], #[trigger] sizes[i]),
        ({
            let total = sizes.fold_left(before as int, |acc: int, n: usize| acc + n);
            held == if total <= usize::MAX {
                total
            } else {
                usize::MAX as int
            }
        }),
{
    let sizes = choose|sizes: Seq<usize>| #[trigger]
        sized(size, pieces.take(pieces.len() as int), sizes) && held == capped(
            before as nat + sum(sizes),
        );
    assert(pieces.take(pieces.len() as int) =~= pieces);
    lemma_sum_from(sizes, before);
    sizes
}

proof fn lemma_sum_from(sizes: Seq<usize>, before: usize)
    ensures
        sizes.fold_left(before as int, |acc: int, n: usize| acc + n) == before + sum(sizes),
    decreases sizes.len(),
{
    if sizes.len() > 0 {
        lemma_sum_from(sizes.drop_last(), before);
    }
}

/// Buckets spill exactly when what they hold reaches the limit, and stay spilled.
pub proof fn lemma_when_spilled<A>(
    enc: spec_fn(Seq<A>, Result<Seq<u8>, Error>) -> bool,
    before: IncrementalBuckets<A>,
    pieces: Seq<Seq<A>>,
    limit: usize,
    after: IncrementalBuckets<A>,
    writes: Seq<SpillWrite>,
)
    requires
        took_in(enc, before, pieces, limit, after, writes),
    ensures
        after.spilled <==> before.spilled || after.bytes >= limit,
        !after.spilled ==> writes.len() == 0,
        !before.spilled && after.spilled ==> writes.len() == before.memory@.len(),
        forall|i: int| 0 <= i < writes.len() ==> (#[trigger] writes[i]).create == !before.spilled,
{
    if before.spilled {
        lemma_appends_only(enc, pieces, writes);
    } else if after.spilled {
        let held = with_pieces(rows(before.memory@), pieces);
        assert(starts(enc, held, writes));
    }
}

proof fn lemma_appends_only<A>(
    enc: spec_fn(Seq<A>, Result<Seq<u8>, Error>) -> bool,
    pieces: Seq<Seq<A>>,
    writes: Seq<SpillWrite>,
)
    requires
        appends(enc, pieces, writes),
    ensures
        forall|i: int| 0 <= i < writes.len() ==> !(#[trigger] writes[i]).create,
    decreases pieces.len(),
{
    if pieces.len() > 0 {
        if pieces.last().len() == 0 {
            lemma_appends_only(enc, pieces.drop_last(), writes);
        } else {
            let init = writes.drop_last();
            lemma_appends_only(enc, pieces.drop_last(), init);
            assert forall|i: int| 0 <= i < writes.len() implies !(#[trigger] writes[i]).create by {
                if i < init.len() {
                    assert(init[i] == writes[i]);
                }
            }
        }
    }
}

/// The records of buckets are counted over all of them.
pub proof fn lemma_records<A>(buckets: Seq<Vec<A>>)
    ensures
        record_count(buckets) == rows(buckets).flatten().len(),
    decreases buckets.len(),
{
    lemma_concat_flattens(rows(buckets));
    if buckets.len() > 0 {
        lemma_records(buckets.drop_last());
        lemma_concat_flattens(rows(buckets.drop_last()));
        assert(rows(buckets).drop_last() =~= rows(buckets.drop_last()));
    }
}

/// The name of a spill file holds the process, the shuffle, the spill and the bucket, in this order.
pub proof fn lemma_spill_name(pid: u32, id: u64, seq: u64, bucket: usize)
    ensures
        spill_name(pid, id, seq, bucket) == "spatter-spill"@ + (seq!['-'] + decimal(pid as nat)) + (
        seq!['-'] + decimal(id as nat)) + (seq!['-'] + decimal(seq as nat)) + (seq!['-'] + decimal(
            bucket as nat,
        )) + ".bin"@,
{
    reveal_strlit("spatter-spill-");
    reveal_strlit("spatter-spill");
    reveal_strlit("-");
    assert("spatter-spill-"@ =~= "spatter-spill"@ + seq!['-']);
    assert("-"@ =~= seq!['-']);
    assert(spill_name(pid, id, seq, bucket) =~= "spatter-spill"@ + (seq!['-'] + decimal(pid as nat))
        + (seq!['-'] + decimal(id as nat)) + (seq!['-'] + decimal(seq as nat)) + (seq!['-']
        + decimal(bucket as nat)) + ".bin"@);
}

/// Finishing hands out what is in memory, bucket by bucket, or the name of each bucket's file; no two
/// buckets share a file.
pub proof fn lemma_finished<A>(b: IncrementalBuckets<A>, pid: u32, blocks: ShuffleBlocks<A>)
    requires
        finished(b, pid, blocks),
        b.memory@.len() <= usize::MAX,
    ensures
        !b.spilled ==> blocks == ShuffleBlocks::Memory(b.memory),
        b.spilled ==> (blocks matches ShuffleBlocks::Spilled(names) && names@.len()
            == b.memory@.len() && forall|i: int|
            0 <= i < names@.len() ==> (#[trigger] names@[i])@ == spill_name(
                pid,
                b.id,
                b.seq,
                i as usize,
            )),
        blocks matches ShuffleBlocks::Spilled(names) ==> forall|i: int, j: int|
            0 <= i < j < names@.len() ==> (#[trigger] names@[i])@ != (#[trigger] names@[j])@,
{
    if b.spilled {
        let names = blocks->Spilled_0;
        assert forall|i: int, j: int| 0 <= i < j < names@.len() implies (#[trigger] names@[i])@ != (
        #[trigger] names@[j])@ by {
            if names@[i]@ == names@[j]@ {
                lemma_spill_names_differ(
                    pid,
                    b.id,
                    b.seq,
                    i as usize,
                    pid,
                    b.id,
                    b.seq,
                    j as usize,
                );
            }
        }
    }
}

/// Buckets that cannot be spilled hold one that cannot: its records fail to spill with the error.
pub proof fn lemma_cannot_spill<A>(
    enc: spec_fn(Seq<A>, Result<Seq<u8>, Error>) -> bool,
    buckets: Seq<Seq<A>>,
    e: Error,
) -> (r: (int, int, int))
    requires
        cannot_spill(enc, buckets, e),
    ensures
        0 <= r.0 < buckets.len(),
        0 <= r.1 < r.2 <= buckets[r.0].len(),
        enc(buckets[r.0].subrange(r.1, r.2), Err(e)) || r.2 == r.1 + 1 && (e matches Error::Io(t)
            && t@ == "spill record too large"@) && exists|b: Seq<u8>|
            b.len() > 67108864 && #[trigger] enc(buckets[r.0].subrange(r.1, r.2), Ok(b)),
{
    let i = choose|i: int| 0 <= i < buckets.len() && spills(enc, #[trigger] buckets[i], Err(e));
    let (a, b) = lemma_spilling_fails(enc, buckets[i], e);
    (i, a, b)
}

/// A push that fails loses nothing: what was in memory is still there with the new records behind it;
/// and where buckets had spilled, files only get records added.
pub proof fn lemma_failed_push<A, S: Fn(&Vec<A>) -> Option<u64>>(
    enc: spec_fn(Seq<A>, Result<Seq<u8>, Error>) -> bool,
    size: S,
    before: IncrementalBuckets<A>,
    pieces: Seq<Vec<A>>,
    limit: usize,
    after: IncrementalBuckets<A>,
    f: FailedPush,
)
    requires
        failed_to_take(enc, size, before, pieces, limit, after, f),
    ensures
        after.id == before.id,
        after.seq == before.seq,
        after.spilled == before.spilled,
        after.memory@.len() == before.memory@.len(),
        before.spilled ==> forall|i: int|
            0 <= i < before.memory@.len() ==> (#[trigger] after.memory@[i])@ == before.memory@[i]@,
        !before.spilled ==> f.writes@.len() == 0 && after.bytes >= limit && forall|i: int|
            0 <= i < before.memory@.len() ==> (#[trigger] after.memory@[i])@ == if i < pieces.len() {
                before.memory@[i]@ + pieces[i]@
            } else {
                before.memory@[i]@
            },
        forall|i: int| 0 <= i < f.writes@.len() ==> !(#[trigger] f.writes@[i]).create,
{
    let (a, b) = (rows(after.memory@), rows(before.memory@));
    assert(a.len() == after.memory@.len() && b.len() == before.memory@.len());
    if before.spilled {
        let k = choose|k: int| #[trigger]
            appends_until(enc, rows(pieces), k, f.writes@, f.error) && counted(
                size,
                pieces,
                k + 1,
                before.bytes,
                after.bytes,
            );
        lemma_appends_only(enc, rows(pieces).take(k), f.writes@.drop_last());
        assert forall|i: int| 0 <= i < f.writes@.len() implies !(#[trigger] f.writes@[i]).create by {
            if i < f.writes@.len() - 1 {
                assert(f.writes@.drop_last()[i] == f.writes@[i]);
            }
        }
        assert forall|i: int| 0 <= i < before.memory@.len() implies (#[trigger] after.memory@[i])@
            == before.memory@[i]@ by {
            assert(a[i] == b[i]);
        }
    } else {
        let held = with_pieces(b, rows(pieces));
        assert forall|i: int| 0 <= i < before.memory@.len() implies (#[trigger] after.memory@[i])@
            == if i < pieces.len() {
            before.memory@[i]@ + pieces[i]@
        } else {
            before.memory@[i]@
        } by {
            assert(a[i] == held[i]);
        }
    }
}

} // verus!
