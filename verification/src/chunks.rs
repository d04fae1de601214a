//! Spill files: records in encoded chunks, each behind its length.
use vstd::prelude::*;

use crate::bytes::{
    be32, be32_value, get_be32, lemma_be32_of_value, lemma_be32_value, lemma_big_endian, put_be32,
};
use crate::combine::{
    by_view, combined, foldable_by_key, keeps, keeps_on, lemma_can_upsert, lemma_upserted_combined,
    merges, merges_on, CombineTable,
};
use crate::error::{same_error, Error};
use crate::key::ShuffleKey;
use crate::seqs::{
    concat, lemma_concat_add, lemma_concat_first, lemma_concat_flattens, lemma_concat_push,
};
use crate::shuffle::combine;

verus! {

/// A chunk whose encoding is longer is cut in two.
pub const SPLIT_BYTES: usize = 33554432;

/// No chunk is longer.
pub const MAX_CHUNK: usize = 67108864;

/// A result with the contents of its vector.
pub open spec fn contents_of<A>(r: Result<Vec<A>, Error>) -> Result<Seq<A>, Error> {
    match r {
        Ok(v) => Ok(v@),
        Err(e) => Err(e),
    }
}

/// What `f` may make of the items of a vector.
pub open spec fn codes<A, B, F: Fn(&Vec<A>) -> Result<Vec<B>, Error>>(f: F) -> spec_fn(
    Seq<A>,
    Result<Seq<B>, Error>,
) -> bool {
    |s: Seq<A>, r: Result<Seq<B>, Error>|
        exists|v: Vec<A>, x: Result<Vec<B>, Error>|
            v@ == s && #[trigger] call_ensures(f, (&v,), x) && r == contents_of(x)
}

/// The bytes of two pieces, if both could be had.
pub open spec fn joined(a: Result<Seq<u8>, Error>, b: Result<Seq<u8>, Error>) -> Result<
    Seq<u8>,
    Error,
> {
    match a {
        Ok(x) => match b {
            Ok(y) => Ok(x + y),
            Err(e) => Err(e),
        },
        Err(e) => Err(e),
    }
}

/// What a spill file may be given for some records: nothing for none; else their encoding behind
/// its length. Where the encoding is long, the two halves take its place.
pub open spec fn spills<A>(
    enc: spec_fn(Seq<A>, Result<Seq<u8>, Error>) -> bool,
    chunk: Seq<A>,
    r: Result<Seq<u8>, Error>,
) -> bool
    decreases chunk.len(),
{
    if chunk.len() == 0 {
        r == Ok::<Seq<u8>, Error>(Seq::empty())
    } else {
        exists|e: Result<Seq<u8>, Error>| #[trigger]
            enc(chunk, e) && match e {
                Err(x) => r == Err::<Seq<u8>, Error>(x),
                Ok(b) => if b.len() > SPLIT_BYTES && chunk.len() > 1 {
                    let mid = chunk.len() / 2;
                    exists|r1: Result<Seq<u8>, Error>, r2: Result<Seq<u8>, Error>|
                        r == #[trigger] joined(r1, r2) && spills(enc, chunk.take(mid as int), r1)
                            && (r1 is Ok ==> spills(enc, chunk.skip(mid as int), r2))
                } else if b.len() > MAX_CHUNK {
                    r matches Err(Error::Io(t)) && t@ == "spill record too large"@
                } else {
                    r == Ok::<Seq<u8>, Error>(be32(b.len() as u32) + b)
                },
            }
    }
}

/// Records that are spilled take bytes, so that what is written to spill files, and read back from
/// them, counts for more than nothing wherever a record is spilled.
pub proof fn lemma_spilled_bytes<A>(
    enc: spec_fn(Seq<A>, Result<Seq<u8>, Error>) -> bool,
    chunk: Seq<A>,
    bytes: Seq<u8>,
)
    requires
        spills(enc, chunk, Ok(bytes)),
        chunk.len() > 0,
    ensures
        bytes.len() >= 4,
    decreases chunk.len(),
{
    let e = choose|e: Result<Seq<u8>, Error>| #[trigger]
        enc(chunk, e) && match e {
            Err(x) => Ok::<Seq<u8>, Error>(bytes) == Err::<Seq<u8>, Error>(x),
            Ok(b) => if b.len() > SPLIT_BYTES && chunk.len() > 1 {
                let mid = chunk.len() / 2;
                exists|r1: Result<Seq<u8>, Error>, r2: Result<Seq<u8>, Error>|
                    Ok::<Seq<u8>, Error>(bytes) == #[trigger] joined(r1, r2) && spills(
                        enc,
                        chunk.take(mid as int),
                        r1,
                    ) && (r1 is Ok ==> spills(enc, chunk.skip(mid as int), r2))
            } else if b.len() > MAX_CHUNK {
                false
            } else {
                bytes == be32(b.len() as u32) + b
            },
        };
    let b = e->Ok_0;
    if b.len() > SPLIT_BYTES && chunk.len() > 1 {
        let mid = chunk.len() / 2;
        let (r1, r2) = choose|r1: Result<Seq<u8>, Error>, r2: Result<Seq<u8>, Error>|
            Ok::<Seq<u8>, Error>(bytes) == #[trigger] joined(r1, r2) && spills(
                enc,
                chunk.take(mid as int),
                r1,
            ) && (r1 is Ok ==> spills(enc, chunk.skip(mid as int), r2));
        lemma_spilled_bytes(enc, chunk.take(mid as int), r1->Ok_0);
    }
}

/// Writing some records to a spill file fails with `e` after `bytes` were written: where the two
/// halves of records take their place, the first may have gone through.
pub open spec fn spills_part<A>(
    enc: spec_fn(Seq<A>, Result<Seq<u8>, Error>) -> bool,
    chunk: Seq<A>,
    bytes: Seq<u8>,
    e: Error,
) -> bool
    decreases chunk.len(),
{
    chunk.len() > 0 && exists|r: Result<Seq<u8>, Error>| #[trigger]
        enc(chunk, r) && match r {
            Err(x) => bytes.len() == 0 && e == x,
            Ok(b) => if b.len() > SPLIT_BYTES && chunk.len() > 1 {
                let mid = (chunk.len() / 2) as int;
                ||| spills_part(enc, chunk.take(mid), bytes, e)
                ||| exists|first: Seq<u8>, second: Seq<u8>|
                    bytes == #[trigger] (first + second) && spills(
                        enc,
                        chunk.take(mid),
                        Ok(first),
                    ) && spills_part(enc, chunk.skip(mid), second, e)
            } else {
                b.len() > MAX_CHUNK && bytes.len() == 0 && (e matches Error::Io(t) && t@
                    == "spill record too large"@)
            },
        }
}

/// Records are cut into runs, each of which was encoded to no more than 64 MiB, or 32 MiB if it holds
/// more than one record, and `bytes` are the encodings, each behind its length in four bytes.
pub open spec fn framed_runs<A>(
    enc: spec_fn(Seq<A>, Result<Seq<u8>, Error>) -> bool,
    runs: Seq<Seq<A>>,
    encodings: Seq<Seq<u8>>,
    bytes: Seq<u8>,
) -> bool {
    &&& encodings.len() == runs.len()
    &&& forall|i: int|
        0 <= i < runs.len() ==> {
            &&& (#[trigger] runs[i]).len() > 0
            &&& encodings[i].len() <= 67108864
            &&& runs[i].len() > 1 ==> encodings[i].len() <= 33554432
            &&& enc(runs[i], Ok(encodings[i]))
        }
    &&& bytes == Seq::new(
        runs.len(),
        |i: int| be32(encodings[i].len() as u32) + encodings[i],
    ).flatten()
}

proof fn lemma_framed_runs_add<A>(
    enc: spec_fn(Seq<A>, Result<Seq<u8>, Error>) -> bool,
    runs: Seq<Seq<A>>,
    encodings: Seq<Seq<u8>>,
    bytes: Seq<u8>,
    runs2: Seq<Seq<A>>,
    encodings2: Seq<Seq<u8>>,
    bytes2: Seq<u8>,
)
    requires
        framed_runs(enc, runs, encodings, bytes),
        framed_runs(enc, runs2, encodings2, bytes2),
    ensures
        framed_runs(enc, runs + runs2, encodings + encodings2, bytes + bytes2),
        (runs + runs2).flatten() == runs.flatten() + runs2.flatten(),
{
    let (r, e) = (runs + runs2, encodings + encodings2);
    let a = Seq::new(runs.len(), |i: int| be32(encodings[i].len() as u32) + encodings[i]);
    let b = Seq::new(runs2.len(), |i: int| be32(encodings2[i].len() as u32) + encodings2[i]);
    let c = Seq::new(r.len(), |i: int| be32(e[i].len() as u32) + e[i]);
    assert(c =~= a + b);
    lemma_concat_add(a, b);
    lemma_concat_flattens(a);
    lemma_concat_flattens(b);
    lemma_concat_flattens(c);
    lemma_concat_add(runs, runs2);
    lemma_concat_flattens(runs);
    lemma_concat_flattens(runs2);
    lemma_concat_flattens(r);
    assert forall|i: int| 0 <= i < r.len() implies (#[trigger] r[i]).len() > 0 && e[i].len()
        <= 67108864 && (r[i].len() > 1 ==> e[i].len() <= 33554432) && enc(r[i], Ok(e[i])) by {
        if i < runs.len() {
            assert(r[i] == runs[i]);
        } else {
            assert(r[i] == runs2[i - runs.len()]);
        }
    }
}

proof fn lemma_framed_run<A>(
    enc: spec_fn(Seq<A>, Result<Seq<u8>, Error>) -> bool,
    run: Seq<A>,
    b: Seq<u8>,
)
    requires
        run.len() > 0,
        b.len() <= 67108864,
        run.len() > 1 ==> b.len() <= 33554432,
        enc(run, Ok(b)),
    ensures
        framed_runs(enc, seq![run], seq![b], be32(b.len() as u32) + b),
        seq![run].flatten() == run,
{
    let frame = be32(b.len() as u32) + b;
    let frames = Seq::new(1, |i: int| be32(seq![b][i].len() as u32) + seq![b][i]);
    assert(frames =~= seq![frame]);
    let none = Seq::<Seq<u8>>::empty();
    assert(frames =~= none.push(frame));
    lemma_concat_push(none, frame);
    lemma_concat_flattens(frames);
    assert(concat(frames) =~= frame);
    let nothing = Seq::<Seq<A>>::empty();
    assert(seq![run] =~= nothing.push(run));
    lemma_concat_push(nothing, run);
    lemma_concat_flattens(seq![run]);
    assert(concat(seq![run]) =~= run);
}

/// What records add to a spill file are encodings of them: cut into runs that, joined, are the
/// records, each run encoded behind the length of its encoding. No record is lost, none is added,
/// and none changes its place.
pub proof fn lemma_spilled_runs<A>(
    enc: spec_fn(Seq<A>, Result<Seq<u8>, Error>) -> bool,
    chunk: Seq<A>,
    bytes: Seq<u8>,
) -> (r: (Seq<Seq<A>>, Seq<Seq<u8>>))
    requires
        spills(enc, chunk, Ok(bytes)),
    ensures
        framed_runs(enc, r.0, r.1, bytes),
        r.0.flatten() == chunk,
    decreases chunk.len(),
{
    let r = Ok::<Seq<u8>, Error>(bytes);
    if chunk.len() == 0 {
        let runs = Seq::<Seq<A>>::empty();
        let encodings = Seq::<Seq<u8>>::empty();
        lemma_concat_flattens(runs);
        let frames = Seq::new(0, |i: int| be32(encodings[i].len() as u32) + encodings[i]);
        lemma_concat_flattens(frames);
        assert(bytes =~= frames.flatten());
        assert(chunk =~= runs.flatten());
        (runs, encodings)
    } else {
        let e = choose|e: Result<Seq<u8>, Error>| #[trigger]
        enc(chunk, e) && match e {
            Err(x) => r == Err::<Seq<u8>, Error>(x),
            Ok(b) => if b.len() > SPLIT_BYTES && chunk.len() > 1 {
                let mid = chunk.len() / 2;
                exists|r1: Result<Seq<u8>, Error>, r2: Result<Seq<u8>, Error>|
                    r == #[trigger] joined(r1, r2) && spills(enc, chunk.take(mid as int), r1) && (
                    r1 is Ok ==> spills(enc, chunk.skip(mid as int), r2))
            } else if b.len() > MAX_CHUNK {
                r matches Err(Error::Io(t)) && t@ == "spill record too large"@
            } else {
                r == Ok::<Seq<u8>, Error>(be32(b.len() as u32) + b)
            },
        };
        let b = e->Ok_0;
        if b.len() > SPLIT_BYTES && chunk.len() > 1 {
            let mid = (chunk.len() / 2) as int;
            let (r1, r2) = choose|r1: Result<Seq<u8>, Error>, r2: Result<Seq<u8>, Error>|
                r == #[trigger] joined(r1, r2) && spills(enc, chunk.take(mid), r1) && (r1 is Ok
                    ==> spills(enc, chunk.skip(mid), r2));
            let (x, y) = (r1->Ok_0, r2->Ok_0);
            let (runs1, enc1) = lemma_spilled_runs(enc, chunk.take(mid), x);
            let (runs2, enc2) = lemma_spilled_runs(enc, chunk.skip(mid), y);
            lemma_framed_runs_add(enc, runs1, enc1, x, runs2, enc2, y);
            assert(chunk.take(mid) + chunk.skip(mid) =~= chunk);
            (runs1 + runs2, enc1 + enc2)
        } else {
            lemma_framed_run(enc, chunk, b);
            (seq![chunk], seq![b])
        }
    }
}

/// Records whose encoding is no longer than 32 MiB are spilled as they are: their encoding behind
/// its length.
pub proof fn lemma_small_chunk_is_one_frame<A>(
    enc: spec_fn(Seq<A>, Result<Seq<u8>, Error>) -> bool,
    chunk: Seq<A>,
    r: Result<Seq<u8>, Error>,
)
    requires
        chunk.len() > 0,
        spills(enc, chunk, r),
        forall|e: Result<Seq<u8>, Error>| #[trigger]
            enc(chunk, e) ==> e is Ok && e->Ok_0.len() <= 33554432,
    ensures
        r matches Ok(bytes) && exists|b: Seq<u8>| #[trigger]
            enc(chunk, Ok(b)) && bytes == be32(b.len() as u32) + b,
{
    let e = choose|e: Result<Seq<u8>, Error>| #[trigger]
        enc(chunk, e) && match e {
            Err(x) => r == Err::<Seq<u8>, Error>(x),
            Ok(b) => if b.len() > SPLIT_BYTES && chunk.len() > 1 {
                let mid = chunk.len() / 2;
                exists|r1: Result<Seq<u8>, Error>, r2: Result<Seq<u8>, Error>|
                    r == #[trigger] joined(r1, r2) && spills(enc, chunk.take(mid as int), r1) && (
                    r1 is Ok ==> spills(enc, chunk.skip(mid as int), r2))
            } else if b.len() > MAX_CHUNK {
                r matches Err(Error::Io(t)) && t@ == "spill record too large"@
            } else {
                r == Ok::<Seq<u8>, Error>(be32(b.len() as u32) + b)
            },
        };
    assert(enc(chunk, Ok(e->Ok_0)));
}

/// Records whose encoding is longer than 32 MiB are spilled half by half, the first half first; a half
/// that fails is what the whole fails with.
pub proof fn lemma_long_chunk_is_halved<A>(
    enc: spec_fn(Seq<A>, Result<Seq<u8>, Error>) -> bool,
    chunk: Seq<A>,
    r: Result<Seq<u8>, Error>,
) -> (halves: (Result<Seq<u8>, Error>, Result<Seq<u8>, Error>))
    requires
        chunk.len() > 1,
        spills(enc, chunk, r),
        forall|e: Result<Seq<u8>, Error>| #[trigger]
            enc(chunk, e) ==> e is Ok && e->Ok_0.len() > 33554432,
    ensures
        spills(enc, chunk.take((chunk.len() / 2) as int), halves.0),
        halves.0 is Err ==> r == halves.0,
        halves.0 is Ok ==> spills(enc, chunk.skip((chunk.len() / 2) as int), halves.1),
        halves.0 is Ok && halves.1 is Err ==> r == halves.1,
        halves.0 is Ok && halves.1 is Ok ==> r == Ok::<Seq<u8>, Error>(
            halves.0->Ok_0 + halves.1->Ok_0,
        ),
{
    let e = choose|e: Result<Seq<u8>, Error>| #[trigger]
        enc(chunk, e) && match e {
            Err(x) => r == Err::<Seq<u8>, Error>(x),
            Ok(b) => if b.len() > SPLIT_BYTES && chunk.len() > 1 {
                let mid = chunk.len() / 2;
                exists|r1: Result<Seq<u8>, Error>, r2: Result<Seq<u8>, Error>|
                    r == #[trigger] joined(r1, r2) && spills(enc, chunk.take(mid as int), r1) && (
                    r1 is Ok ==> spills(enc, chunk.skip(mid as int), r2))
            } else if b.len() > MAX_CHUNK {
                r matches Err(Error::Io(t)) && t@ == "spill record too large"@
            } else {
                r == Ok::<Seq<u8>, Error>(be32(b.len() as u32) + b)
            },
        };
    let mid = (chunk.len() / 2) as int;
    choose|r1: Result<Seq<u8>, Error>, r2: Result<Seq<u8>, Error>|
        r == #[trigger] joined(r1, r2) && spills(enc, chunk.take(mid), r1) && (r1 is Ok ==> spills(
            enc,
            chunk.skip(mid),
            r2,
        ))
}

/// Spilling fails only where it has to: with the error that encoding some run of the records gave,
/// or because a single record has an encoding of more than 64 MiB.
pub proof fn lemma_spilling_fails<A>(
    enc: spec_fn(Seq<A>, Result<Seq<u8>, Error>) -> bool,
    chunk: Seq<A>,
    error: Error,
) -> (run: (int, int))
    requires
        spills(enc, chunk, Err(error)),
    ensures
        0 <= run.0 < run.1 <= chunk.len(),
        enc(chunk.subrange(run.0, run.1), Err(error)) || run.1 == run.0 + 1 && (
        error matches Error::Io(t) && t@ == "spill record too large"@) && exists|b: Seq<u8>|
            b.len() > 67108864 && #[trigger] enc(chunk.subrange(run.0, run.1), Ok(b)),
    decreases chunk.len(),
{
    let r = Err::<Seq<u8>, Error>(error);
    let e = choose|e: Result<Seq<u8>, Error>| #[trigger]
        enc(chunk, e) && match e {
            Err(x) => r == Err::<Seq<u8>, Error>(x),
            Ok(b) => if b.len() > SPLIT_BYTES && chunk.len() > 1 {
                let mid = chunk.len() / 2;
                exists|r1: Result<Seq<u8>, Error>, r2: Result<Seq<u8>, Error>|
                    r == #[trigger] joined(r1, r2) && spills(enc, chunk.take(mid as int), r1) && (
                    r1 is Ok ==> spills(enc, chunk.skip(mid as int), r2))
            } else if b.len() > MAX_CHUNK {
                r matches Err(Error::Io(t)) && t@ == "spill record too large"@
            } else {
                r == Ok::<Seq<u8>, Error>(be32(b.len() as u32) + b)
            },
        };
    assert(chunk.subrange(0, chunk.len() as int) =~= chunk);
    if e is Ok && e->Ok_0.len() > SPLIT_BYTES && chunk.len() > 1 {
        let mid = (chunk.len() / 2) as int;
        let (r1, r2) = choose|r1: Result<Seq<u8>, Error>, r2: Result<Seq<u8>, Error>|
            r == #[trigger] joined(r1, r2) && spills(enc, chunk.take(mid), r1) && (r1 is Ok
                ==> spills(enc, chunk.skip(mid), r2));
        if r1 is Err {
            let (i, j) = lemma_spilling_fails(enc, chunk.take(mid), error);
            assert(chunk.take(mid).subrange(i, j) =~= chunk.subrange(i, j));
            (i, j)
        } else {
            let (i, j) = lemma_spilling_fails(enc, chunk.skip(mid), error);
            assert(chunk.skip(mid).subrange(i, j) =~= chunk.subrange(mid + i, mid + j));
            (mid + i, mid + j)
        }
    } else {
        if e is Ok {
            assert(enc(chunk, Ok(e->Ok_0)));
        }
        (0, chunk.len() as int)
    }
}

/// Spilling never fails where every run of the records can be encoded and no single record has an
/// encoding of more than 64 MiB, however many records there are.
pub proof fn lemma_spilling_succeeds<A>(
    enc: spec_fn(Seq<A>, Result<Seq<u8>, Error>) -> bool,
    chunk: Seq<A>,
    r: Result<Seq<u8>, Error>,
)
    requires
        spills(enc, chunk, r),
        forall|i: int, j: int, e: Result<Seq<u8>, Error>|
            0 <= i < j <= chunk.len() && #[trigger] enc(chunk.subrange(i, j), e) ==> e is Ok && (j
                == i + 1 ==> e->Ok_0.len() <= 67108864),
    ensures
        r is Ok,
{
    if r is Err {
        let (i, j) = lemma_spilling_fails(enc, chunk, r->Err_0);
        if !enc(chunk.subrange(i, j), Err(r->Err_0)) {
            let b = choose|b: Seq<u8>|
                b.len() > 67108864 && #[trigger] enc(chunk.subrange(i, j), Ok(b));
        }
    }
}

/// Where spilling fails, what was written before are encodings of the first records, in whole runs:
/// those before the run that failed.
pub proof fn lemma_written_before_failure<A>(
    enc: spec_fn(Seq<A>, Result<Seq<u8>, Error>) -> bool,
    chunk: Seq<A>,
    bytes: Seq<u8>,
    error: Error,
) -> (r: (Seq<Seq<A>>, Seq<Seq<u8>>, int))
    requires
        spills_part(enc, chunk, bytes, error),
    ensures
        framed_runs(enc, r.0, r.1, bytes),
        0 <= r.0.flatten().len() < r.2 <= chunk.len(),
        r.0.flatten() == chunk.take(r.0.flatten().len() as int),
        ({
            let run = chunk.subrange(r.0.flatten().len() as int, r.2);
            enc(run, Err(error)) || run.len() == 1 && (error matches Error::Io(t) && t@
                == "spill record too large"@) && exists|b: Seq<u8>|
                b.len() > 67108864 && #[trigger] enc(run, Ok(b))
        }),
    decreases chunk.len(),
{
    let e = choose|r: Result<Seq<u8>, Error>| #[trigger]
        enc(chunk, r) && match r {
            Err(x) => bytes.len() == 0 && error == x,
            Ok(b) => if b.len() > SPLIT_BYTES && chunk.len() > 1 {
                let mid = (chunk.len() / 2) as int;
                ||| spills_part(enc, chunk.take(mid), bytes, error)
                ||| exists|first: Seq<u8>, second: Seq<u8>|
                    bytes == #[trigger] (first + second) && spills(
                        enc,
                        chunk.take(mid),
                        Ok(first),
                    ) && spills_part(enc, chunk.skip(mid), second, error)
            } else {
                b.len() > MAX_CHUNK && bytes.len() == 0 && (error matches Error::Io(t) && t@
                    == "spill record too large"@)
            },
        };
    if e is Ok && e->Ok_0.len() > SPLIT_BYTES && chunk.len() > 1 {
        let mid = (chunk.len() / 2) as int;
        if spills_part(enc, chunk.take(mid), bytes, error) {
            let (runs, encodings, j) = lemma_written_before_failure(
                enc,
                chunk.take(mid),
                bytes,
                error,
            );
            let i = runs.flatten().len() as int;
            assert(chunk.take(mid).take(i) =~= chunk.take(i));
            assert(chunk.take(mid).subrange(i, j) =~= chunk.subrange(i, j));
            (runs, encodings, j)
        } else {
            let (first, second) = choose|first: Seq<u8>, second: Seq<u8>|
                bytes == #[trigger] (first + second) && spills(enc, chunk.take(mid), Ok(first))
                    && spills_part(enc, chunk.skip(mid), second, error);
            let (runs1, enc1) = lemma_spilled_runs(enc, chunk.take(mid), first);
            let (runs2, enc2, j) = lemma_written_before_failure(
                enc,
                chunk.skip(mid),
                second,
                error,
            );
            lemma_framed_runs_add(enc, runs1, enc1, first, runs2, enc2, second);
            let i = runs2.flatten().len() as int;
            assert(chunk.take(mid) + chunk.skip(mid).take(i) =~= chunk.take(mid + i));
            assert(chunk.skip(mid).subrange(i, j) =~= chunk.subrange(mid + i, mid + j));
            (runs1 + runs2, enc1 + enc2, mid + j)
        }
    } else {
        let runs = Seq::<Seq<A>>::empty();
        let encodings = Seq::<Seq<u8>>::empty();
        lemma_concat_flattens(runs);
        let frames = Seq::new(0, |i: int| be32(encodings[i].len() as u32) + encodings[i]);
        lemma_concat_flattens(frames);
        assert(bytes =~= frames.flatten());
        assert(chunk.take(0) =~= runs.flatten());
        assert(chunk.subrange(0, chunk.len() as int) =~= chunk);
        if e is Ok {
            assert(enc(chunk, Ok(e->Ok_0)));
        }
        (runs, encodings, chunk.len() as int)
    }
}

/// Records that could not be spilled to the end.
#[derive(Debug)]
pub struct Unfinished {
    /// What goes to the file before the error.
    pub written: Vec<u8>,
    pub error: Error,
}

/// The bytes that records add to a spill file. The records stay as they are.
pub fn chunk_bytes<A, E: Fn(&Vec<A>) -> Result<Vec<u8>, Error>>(
    chunk: &mut Vec<A>,
    encode: &E,
) -> (r: Result<Vec<u8>, Unfinished>)
    requires
        forall|v: Vec<A>| #[trigger] call_requires(*encode, (&v,)),
    ensures
        match r {
            Ok(bytes) => spills(codes(*encode), old(chunk)@, Ok(bytes@)),
            Err(u) => spills(codes(*encode), old(chunk)@, Err(u.error)) && spills_part(
                codes(*encode),
                old(chunk)@,
                u.written@,
                u.error,
            ),
        },
        final(chunk)@ == old(chunk)@,
    decreases old(chunk)@.len(),
{
    let none: Vec<u8> = Vec::new();
    assert(none@ =~= Seq::<u8>::empty());
    if chunk.len() == 0 {
        return Ok(none);
    }
    let ghost all = chunk@;
    let ghost enc = codes(*encode);
    let encoded = encode(&*chunk);
    assert(enc(all, contents_of(encoded)));
    let bytes = match encoded {
        Ok(b) => b,
        Err(e) => return Err(Unfinished { written: none, error: e }),
    };
    if bytes.len() > SPLIT_BYTES && chunk.len() > 1 {
        let mid = chunk.len() / 2;
        let mut right = chunk.split_off(mid);
        proof {
            assert(chunk@ =~= all.take(mid as int));
            assert(right@ =~= all.skip(mid as int));
            assert(all.take(mid as int) + all.skip(mid as int) =~= all);
        }
        let ghost missing: Result<Seq<u8>, Error> = arbitrary();
        let mut out = match chunk_bytes(chunk, encode) {
            Ok(b) => b,
            Err(u) => {
                chunk.append(&mut right);
                let ghost failed = Err::<Seq<u8>, Error>(u.error);
                assert(failed == joined(failed, missing));
                return Err(u);
            },
        };
        let ghost one = out@;
        let second = chunk_bytes(&mut right, encode);
        chunk.append(&mut right);
        match second {
            Ok(b) => {
                let ghost two = b@;
                let mut more = b;
                out.append(&mut more);
                assert(Ok::<Seq<u8>, Error>(out@) == joined(Ok(one), Ok(two)));
                return Ok(out);
            },
            Err(u) => {
                let ghost two = u.written@;
                let mut more = u.written;
                out.append(&mut more);
                proof {
                    let failed = Err::<Seq<u8>, Error>(u.error);
                    assert(failed == joined(Ok(one), failed));
                    assert(out@ == one + two);
                }
                return Err(Unfinished { written: out, error: u.error });
            },
        }
    }
    if bytes.len() > MAX_CHUNK {
        return Err(
            Unfinished { written: none, error: Error::Io("spill record too large".to_string()) },
        );
    }
    let mut out: Vec<u8> = Vec::new();
    put_be32(&mut out, bytes.len() as u32);
    let ghost b = bytes@;
    let mut body = bytes;
    out.append(&mut body);
    assert(out@ =~= be32(b.len() as u32) + b);
    Ok(out)
}

// ---- reading

/// What stands at the start of (the rest of) a spill file.
pub enum Frame {
    End,
    Bad(Seq<char>),
    Chunk { payload: Seq<u8>, rest: Seq<u8> },
}

pub open spec fn next_frame(bytes: Seq<u8>) -> Frame {
    if bytes.len() == 0 {
        Frame::End
    } else if bytes.len() < 4 {
        Frame::Bad("truncated spill header"@)
    } else {
        let n = be32_value(bytes.take(4)) as int;
        if n > MAX_CHUNK {
            Frame::Bad("spill chunk too large"@)
        } else if bytes.len() < 4 + n {
            Frame::Bad("failed to fill whole buffer"@)
        } else {
            Frame::Chunk { payload: bytes.subrange(4, 4 + n), rest: bytes.skip(4 + n) }
        }
    }
}

/// Reading `bytes` may give `items` and leave `rest`.
pub open spec fn reads<A>(
    dec: spec_fn(Seq<u8>, Result<Seq<A>, Error>) -> bool,
    bytes: Seq<u8>,
    items: Seq<A>,
    rest: Seq<u8>,
) -> bool
    decreases bytes.len(),
{
    ||| items.len() == 0 && rest == bytes
    ||| match next_frame(bytes) {
        Frame::Chunk { payload, rest: more } => exists|head: Seq<A>, tail: Seq<A>|
            items == #[trigger] (head + tail) && dec(payload, Ok(head)) && reads(
                dec,
                more,
                tail,
                rest,
            ),
        _ => false,
    }
}

/// Reading cannot go on at `rest`, for the reason `e`.
pub open spec fn stops<A>(
    dec: spec_fn(Seq<u8>, Result<Seq<A>, Error>) -> bool,
    rest: Seq<u8>,
    e: Error,
) -> bool {
    match next_frame(rest) {
        Frame::End => false,
        Frame::Bad(text) => e matches Error::Io(t) && t@ == text,
        Frame::Chunk { payload, rest: more } => dec(payload, Err(e)),
    }
}

/// What reading a spill file with these contents may come to.
pub open spec fn read_result<A>(
    dec: spec_fn(Seq<u8>, Result<Seq<A>, Error>) -> bool,
    bytes: Seq<u8>,
    r: Result<Seq<A>, Error>,
) -> bool {
    match r {
        Ok(v) => reads(dec, bytes, v, Seq::empty()),
        Err(e) => exists|items: Seq<A>, rest: Seq<u8>| #[trigger]
            reads(dec, bytes, items, rest) && stops(dec, rest, e),
    }
}

/// What reducing a spill file with these contents may come to.
pub open spec fn reduced_result<K: DeepView, V>(
    dec: spec_fn(Seq<u8>, Result<Seq<(K, V)>, Error>) -> bool,
    merge: spec_fn(V, V, V) -> bool,
    bytes: Seq<u8>,
    r: Result<Seq<(K, V)>, Error>,
) -> bool {
    match r {
        Ok(v) => exists|items: Seq<(K, V)>| #[trigger]
            reads(dec, bytes, items, Seq::empty()) && combined(
                keeps(),
                merge,
                by_view(items),
                by_view(v),
            ),
        Err(e) => exists|items: Seq<(K, V)>, rest: Seq<u8>| #[trigger]
            reads(dec, bytes, items, rest) && stops(dec, rest, e),
    }
}

/// Bytes decode to one result only.
pub open spec fn decodes_alike<A>(dec: spec_fn(Seq<u8>, Result<Seq<A>, Error>) -> bool) -> bool {
    forall|b: Seq<u8>, r: Result<Seq<A>, Error>, s: Result<Seq<A>, Error>| #[trigger]
        dec(b, r) && #[trigger] dec(b, s) ==> r == s
}

/// Reading ends at the end of a file, or where it cannot go on.
spec fn reading_ends<A>(
    dec: spec_fn(Seq<u8>, Result<Seq<A>, Error>) -> bool,
    rest: Seq<u8>,
) -> bool {
    rest.len() == 0 || exists|e: Error| stops(dec, rest, e)
}

proof fn lemma_reads_alike<A>(
    dec: spec_fn(Seq<u8>, Result<Seq<A>, Error>) -> bool,
    bytes: Seq<u8>,
    items: Seq<A>,
    rest: Seq<u8>,
    items2: Seq<A>,
    rest2: Seq<u8>,
)
    requires
        decodes_alike(dec),
        reads(dec, bytes, items, rest),
        reading_ends(dec, rest),
        reads(dec, bytes, items2, rest2),
        reading_ends(dec, rest2),
    ensures
        items == items2,
        rest == rest2,
    decreases bytes.len(),
{
    match next_frame(bytes) {
        Frame::Chunk { payload, rest: more } => {
            if items.len() == 0 && rest == bytes {
                let e = choose|e: Error| stops(dec, rest, e);
                assert(dec(payload, Err(e)));
                assert(items2.len() == 0 && rest2 == bytes);
                assert(items =~= items2);
            } else if items2.len() == 0 && rest2 == bytes {
                let e = choose|e: Error| stops(dec, rest2, e);
                assert(dec(payload, Err(e)));
                assert(false);
            } else {
                let (head, tail) = choose|head: Seq<A>, tail: Seq<A>|
                    items == #[trigger] (head + tail) && dec(payload, Ok(head)) && reads(
                        dec,
                        more,
                        tail,
                        rest,
                    );
                let (head2, tail2) = choose|head: Seq<A>, tail: Seq<A>|
                    items2 == #[trigger] (head + tail) && dec(payload, Ok(head)) && reads(
                        dec,
                        more,
                        tail,
                        rest2,
                    );
                assert(Ok::<Seq<A>, Error>(head) == Ok::<Seq<A>, Error>(head2));
                lemma_reads_alike(dec, more, tail, rest, tail2, rest2);
            }
        },
        _ => {
            assert(items =~= items2);
        },
    }
}

/// Reducing a spill file is reducing what it reads as, and it fails as reading does, where bytes
/// decode to one result only: there is never a reduction of some of the records.
pub proof fn lemma_reduces_what_is_read<K: DeepView, V>(
    dec: spec_fn(Seq<u8>, Result<Seq<(K, V)>, Error>) -> bool,
    merge: spec_fn(V, V, V) -> bool,
    bytes: Seq<u8>,
    read: Result<Seq<(K, V)>, Error>,
    reduced: Result<Seq<(K, V)>, Error>,
)
    requires
        decodes_alike(dec),
        read_result(dec, bytes, read),
        reduced_result(dec, merge, bytes, reduced),
    ensures
        match read {
            Ok(v) => reduced matches Ok(w) && combined(keeps(), merge, by_view(v), by_view(w)),
            Err(e) => reduced matches Err(e2) && same_error(e, e2),
        },
{
    let none = Seq::<u8>::empty();
    assert(reading_ends(dec, none));
    let (items, rest) = match read {
        Ok(v) => (v, none),
        Err(e) => choose|items: Seq<(K, V)>, rest: Seq<u8>| #[trigger]
            reads(dec, bytes, items, rest) && stops(dec, rest, e),
    };
    let (items2, rest2) = match reduced {
        Ok(v) => (
            choose|items: Seq<(K, V)>| #[trigger]
                reads(dec, bytes, items, Seq::empty()) && combined(
                    keeps(),
                    merge,
                    by_view(items),
                    by_view(v),
                ),
            none,
        ),
        Err(e) => choose|items: Seq<(K, V)>, rest: Seq<u8>| #[trigger]
            reads(dec, bytes, items, rest) && stops(dec, rest, e),
    };
    if read is Err {
        assert(stops(dec, rest, read->Err_0));
    }
    if reduced is Err {
        assert(stops(dec, rest2, reduced->Err_0));
    }
    lemma_reads_alike(dec, bytes, items, rest, items2, rest2);
    if read is Err && reduced is Err {
        match next_frame(rest) {
            Frame::Chunk { payload, rest: more } => {
                assert(dec(payload, Err(read->Err_0)));
                assert(dec(payload, Err(reduced->Err_0)));
                assert(Err::<Seq<(K, V)>, Error>(read->Err_0) == Err::<Seq<(K, V)>, Error>(
                    reduced->Err_0,
                ));
            },
            _ => {},
        }
    }
}

/// Reading one more chunk adds its items.
pub proof fn lemma_reads_more<A>(
    dec: spec_fn(Seq<u8>, Result<Seq<A>, Error>) -> bool,
    bytes: Seq<u8>,
    items: Seq<A>,
    rest: Seq<u8>,
    payload: Seq<u8>,
    more: Seq<u8>,
    chunk: Seq<A>,
)
    requires
        reads(dec, bytes, items, rest),
        next_frame(rest) == (Frame::Chunk { payload, rest: more }),
        dec(payload, Ok(chunk)),
    ensures
        reads(dec, bytes, items + chunk, more),
    decreases bytes.len(),
{
    let none = Seq::<A>::empty();
    if items.len() == 0 && rest == bytes {
        assert(items + chunk =~= chunk + none);
        assert(reads(dec, more, none, more));
    } else {
        match next_frame(bytes) {
            Frame::Chunk { payload: p, rest: r } => {
                let (head, tail) = choose|head: Seq<A>, tail: Seq<A>|
                    items == #[trigger] (head + tail) && dec(p, Ok(head)) && reads(
                        dec,
                        r,
                        tail,
                        rest,
                    );
                lemma_reads_more(dec, r, tail, rest, payload, more, chunk);
                assert(items + chunk =~= head + (tail + chunk));
            },
            _ => {},
        }
    }
}

/// The chunk at the start of the rest of a spill file, if there is one.
fn take_chunk(bytes: &Vec<u8>, pos: usize) -> (r: Result<Option<(Vec<u8>, usize)>, Error>)
    requires
        pos <= bytes@.len(),
    ensures
        match r {
            Ok(None) => next_frame(bytes@.skip(pos as int)) is End,
            Ok(Some((payload, next))) => {
                &&& pos < next <= bytes@.len()
                &&& next_frame(bytes@.skip(pos as int)) == (Frame::Chunk {
                    payload: payload@,
                    rest: bytes@.skip(next as int),
                })
            },
            Err(e) => {
                &&& next_frame(bytes@.skip(pos as int)) matches Frame::Bad(text)
                &&& e matches Error::Io(t)
                &&& t@ == text
            },
        },
{
    let len = bytes.len();
    let ghost rest = bytes@.skip(pos as int);
    if pos == len {
        return Ok(None);
    }
    if len - pos < 4 {
        return Err(Error::Io("truncated spill header".to_string()));
    }
    let n = get_be32(bytes.as_slice(), pos) as usize;
    assert(rest.take(4) =~= bytes@.subrange(pos as int, pos + 4));
    if n > MAX_CHUNK {
        return Err(Error::Io("spill chunk too large".to_string()));
    }
    if len - pos - 4 < n {
        return Err(Error::Io("failed to fill whole buffer".to_string()));
    }
    let from = pos + 4;
    let next = from + n;
    let mut payload: Vec<u8> = Vec::new();
    let mut i = from;
    assert(bytes@.subrange(from as int, from as int) =~= Seq::<u8>::empty());
    while i < next
        invariant
            from <= i <= next <= bytes@.len(),
            payload@ == bytes@.subrange(from as int, i as int),
        decreases next - i,
    {
        payload.push(bytes[i]);
        assert(bytes@.subrange(from as int, i + 1) =~= bytes@.subrange(from as int, i as int).push(
            bytes@[i as int],
        ));
        i = i + 1;
    }
    proof {
        assert(payload@ =~= rest.subrange(4, 4 + n));
        assert(bytes@.skip(next as int) =~= rest.skip(4 + n));
    }
    Ok(Some((payload, next)))
}

/// Reads the records of a spill file with these contents.
pub fn read_chunks<A, D: Fn(&Vec<u8>) -> Result<Vec<A>, Error>>(
    bytes: &Vec<u8>,
    decode: &D,
) -> (r: Result<Vec<A>, Error>)
    requires
        forall|v: Vec<u8>| #[trigger] call_requires(*decode, (&v,)),
    ensures
        read_result(codes(*decode), bytes@, contents_of(r)),
{
    let mut out: Vec<A> = Vec::new();
    let mut pos: usize = 0;
    assert(bytes@.skip(0) =~= bytes@);
    loop
        invariant
            pos <= bytes@.len(),
            forall|v: Vec<u8>| #[trigger] call_requires(*decode, (&v,)),
            reads(codes(*decode), bytes@, out@, bytes@.skip(pos as int)),
        decreases bytes@.len() - pos,
    {
        let ghost rest = bytes@.skip(pos as int);
        let (payload, next) = match take_chunk(bytes, pos) {
            Ok(Some(c)) => c,
            Ok(None) => {
                assert(rest =~= Seq::<u8>::empty());
                return Ok(out);
            },
            Err(e) => {
                assert(stops(codes(*decode), rest, e));
                return Err(e);
            },
        };
        let chunk = decode(&payload);
        assert(codes(*decode)(payload@, contents_of(chunk)));
        let mut items = match chunk {
            Ok(v) => v,
            Err(e) => {
                assert(stops(codes(*decode), rest, e));
                return Err(e);
            },
        };
        proof {
            lemma_reads_more(
                codes(*decode),
                bytes@,
                out@,
                rest,
                payload@,
                bytes@.skip(next as int),
                items@,
            );
        }
        out.append(&mut items);
        pos = next;
    }
}

/// Reduces the records of a spill file with these contents, chunk by chunk: one record for each
/// key, its values folded with `f`.
pub fn reduce_spilled<K: ShuffleKey, V, D: Fn(&Vec<u8>) -> Result<Vec<(K, V)>, Error>, F: Fn(
    V,
    V,
) -> V>(bytes: &Vec<u8>, decode: &D, f: &F) -> (r: Result<Vec<(K, V)>, Error>)
    requires
        forall|v: Vec<u8>| #[trigger] call_requires(*decode, (&v,)),
        forall|items: Seq<(K, V)>, rest: Seq<u8>| #[trigger]
            reads(codes(*decode), bytes@, items, rest) ==> foldable_by_key(
                keeps_on(),
                keeps(),
                merges_on(*f),
                merges(*f),
                by_view(items),
            ),
    ensures
        reduced_result(codes(*decode), merges(*f), bytes@, contents_of(r)),
{
    let mut map: CombineTable<K, V> = CombineTable::new();
    let ghost mut done: Seq<(K, V)> = Seq::empty();
    let mut pos: usize = 0;
    proof {
        assert(bytes@.skip(0) =~= bytes@);
        assert(by_view(done) =~= Seq::<(K::V, V)>::empty());
    }
    loop
        invariant
            pos <= bytes@.len(),
            forall|v: Vec<u8>| #[trigger] call_requires(*decode, (&v,)),
            forall|items: Seq<(K, V)>, rest: Seq<u8>| #[trigger]
                reads(codes(*decode), bytes@, items, rest) ==> foldable_by_key(
                    keeps_on(),
                    keeps(),
                    merges_on(*f),
                    merges(*f),
                    by_view(items),
                ),
            reads(codes(*decode), bytes@, done, bytes@.skip(pos as int)),
            map.wf(),
            combined(keeps(), merges(*f), by_view(done), map@),
        decreases bytes@.len() - pos,
    {
        let ghost rest = bytes@.skip(pos as int);
        let (payload, next) = match take_chunk(bytes, pos) {
            Ok(Some(c)) => c,
            Ok(None) => {
                assert(rest =~= Seq::<u8>::empty());
                return Ok(map.into_pairs());
            },
            Err(e) => {
                assert(stops(codes(*decode), rest, e));
                return Err(e);
            },
        };
        let chunk = decode(&payload);
        assert(codes(*decode)(payload@, contents_of(chunk)));
        let items = match chunk {
            Ok(v) => v,
            Err(e) => {
                assert(stops(codes(*decode), rest, e));
                return Err(e);
            },
        };
        let ghost more = items@;
        let ghost all = done + more;
        proof {
            lemma_reads_more(
                codes(*decode),
                bytes@,
                done,
                rest,
                payload@,
                bytes@.skip(next as int),
                more,
            );
            assert(by_view(all).take(done.len() as int) =~= by_view(done));
        }
        for (k, v) in it: items
            invariant
                it.seq() == more,
                all == done + more,
                foldable_by_key(keeps_on(), keeps(), merges_on(*f), merges(*f), by_view(all)),
                map.wf(),
                combined(
                    keeps(),
                    merges(*f),
                    by_view(all).take(done.len() + it.index()),
                    map@,
                ),
        {
            let ghost i = done.len() + it.index();
            let ghost before = map@;
            proof {
                assert(all[i] == (k, v));
                lemma_can_upsert(
                    keeps_on(),
                    keeps(),
                    merges_on(*f),
                    merges(*f),
                    by_view(all),
                    i,
                    before,
                );
            }
            combine(&mut map, k, v, f);
            proof {
                lemma_upserted_combined(
                    keeps(),
                    merges(*f),
                    by_view(all).take(i),
                    before,
                    by_view(all)[i].0,
                    v,
                    map@,
                );
                assert(by_view(all).take(i + 1) =~= by_view(all).take(i).push(by_view(all)[i]));
            }
        }
        proof {
            assert(by_view(all).take(all.len() as int) =~= by_view(all));
            done = all;
        }
        pos = next;
    }
}

// ---- reading what was written

/// `dec` undoes `enc`: what is made of an encoding is what was encoded.
pub open spec fn undoes<A>(
    enc: spec_fn(Seq<A>, Result<Seq<u8>, Error>) -> bool,
    dec: spec_fn(Seq<u8>, Result<Seq<A>, Error>) -> bool,
) -> bool {
    forall|s: Seq<A>, b: Seq<u8>, r: Result<Seq<A>, Error>|
        #![trigger enc(s, Ok(b)), dec(b, r)]
        enc(s, Ok(b)) && dec(b, r) ==> r == Ok::<Seq<A>, Error>(s)
}

proof fn lemma_frame_of_chunk(payload: Seq<u8>, tail: Seq<u8>)
    requires
        payload.len() <= MAX_CHUNK,
    ensures
        next_frame(be32(payload.len() as u32) + payload + tail) == (Frame::Chunk {
            payload,
            rest: tail,
        }),
{
    let n = payload.len() as u32;
    lemma_be32_value(n);
    let bytes = be32(n) + payload + tail;
    assert(bytes.take(4) =~= be32(n));
    assert(bytes.subrange(4, 4 + n) =~= payload);
    assert(bytes.skip(4 + n) =~= tail);
}

/// What records added to a spill file reads back as those records, before whatever follows.
pub proof fn lemma_spilled_reads<A>(
    enc: spec_fn(Seq<A>, Result<Seq<u8>, Error>) -> bool,
    dec: spec_fn(Seq<u8>, Result<Seq<A>, Error>) -> bool,
    chunk: Seq<A>,
    bytes: Seq<u8>,
    tail: Seq<u8>,
    items: Seq<A>,
    rest: Seq<u8>,
)
    requires
        undoes(enc, dec),
        spills(enc, chunk, Ok(bytes)),
        reads(dec, bytes + tail, items, rest),
    ensures
        // reading stops at a chunk's boundary within the records,
        (exists|k: int|
            0 <= k <= chunk.len() && items == #[trigger] chunk.take(k) && rest.len() > 0
                && forall|e: Error| !stops(dec, rest, e)) ||
        // or goes on behind them.
        exists|after: Seq<A>|
            items == #[trigger] (chunk + after) && reads(dec, tail, after, rest),
    decreases chunk.len(),
{
    if chunk.len() == 0 {
        assert(bytes + tail =~= tail);
        assert(items =~= chunk + items);
    } else {
        let e = choose|e: Result<Seq<u8>, Error>| #[trigger]
            enc(chunk, e) && match e {
                Err(x) => Ok::<Seq<u8>, Error>(bytes) == Err::<Seq<u8>, Error>(x),
                Ok(b) => if b.len() > SPLIT_BYTES && chunk.len() > 1 {
                    let mid = chunk.len() / 2;
                    exists|r1: Result<Seq<u8>, Error>, r2: Result<Seq<u8>, Error>|
                        Ok::<Seq<u8>, Error>(bytes) == #[trigger] joined(r1, r2) && spills(
                            enc,
                            chunk.take(mid as int),
                            r1,
                        ) && (r1 is Ok ==> spills(enc, chunk.skip(mid as int), r2))
                } else if b.len() > MAX_CHUNK {
                    Ok::<Seq<u8>, Error>(bytes) matches Err(Error::Io(t)) && t@
                        == "spill record too large"@
                } else {
                    Ok::<Seq<u8>, Error>(bytes) == Ok::<Seq<u8>, Error>(be32(b.len() as u32) + b)
                },
            };
        let b = e->Ok_0;
        if b.len() > SPLIT_BYTES && chunk.len() > 1 {
            let mid = (chunk.len() / 2) as int;
            let left = chunk.take(mid);
            let right = chunk.skip(mid);
            let (r1, r2) = choose|r1: Result<Seq<u8>, Error>, r2: Result<Seq<u8>, Error>|
                Ok::<Seq<u8>, Error>(bytes) == #[trigger] joined(r1, r2) && spills(enc, left, r1)
                    && (r1 is Ok ==> spills(enc, right, r2));
            let b1 = r1->Ok_0;
            let b2 = r2->Ok_0;
            assert(bytes + tail =~= b1 + (b2 + tail));
            lemma_spilled_reads(enc, dec, left, b1, b2 + tail, items, rest);
            if exists|after: Seq<A>|
                items == #[trigger] (left + after) && reads(dec, b2 + tail, after, rest) {
                let after = choose|after: Seq<A>|
                    items == #[trigger] (left + after) && reads(dec, b2 + tail, after, rest);
                lemma_spilled_reads(enc, dec, right, b2, tail, after, rest);
                if exists|a2: Seq<A>|
                    after == #[trigger] (right + a2) && reads(dec, tail, a2, rest) {
                    let a2 = choose|a2: Seq<A>|
                        after == #[trigger] (right + a2) && reads(dec, tail, a2, rest);
                    assert(items =~= chunk + a2);
                } else {
                    let k = choose|k: int|
                        0 <= k <= right.len() && after == #[trigger] right.take(k) && rest.len() > 0
                            && forall|e: Error| !stops(dec, rest, e);
                    assert(items =~= chunk.take(mid + k));
                }
            } else {
                let k = choose|k: int|
                    0 <= k <= left.len() && items == #[trigger] left.take(k) && rest.len() > 0
                        && forall|e: Error| !stops(dec, rest, e);
                assert(items =~= chunk.take(k));
            }
        } else {
            assert(bytes + tail =~= be32(b.len() as u32) + b + tail);
            lemma_frame_of_chunk(b, tail);
            lemma_be32_value(b.len() as u32);
            if items.len() == 0 && rest == bytes + tail {
                assert(items =~= chunk.take(0));
                assert forall|e: Error| !stops(dec, rest, e) by {
                    if stops(dec, rest, e) {
                        assert(dec(b, Err(e)));
                        assert(enc(chunk, Ok(b)));
                    }
                }
            } else {
                let (head, after) = choose|head: Seq<A>, after: Seq<A>|
                    items == #[trigger] (head + after) && dec(b, Ok(head)) && reads(
                        dec,
                        tail,
                        after,
                        rest,
                    );
                assert(enc(chunk, Ok(b)));
                assert(head == chunk);
            }
        }
    }
}

/// `bytes` are payloads of no more than 64 MiB, each behind its length in four bytes, and `parts` are
/// what they decode to.
pub open spec fn framed_parts<A>(
    dec: spec_fn(Seq<u8>, Result<Seq<A>, Error>) -> bool,
    payloads: Seq<Seq<u8>>,
    parts: Seq<Seq<A>>,
    bytes: Seq<u8>,
) -> bool {
    &&& parts.len() == payloads.len()
    &&& forall|i: int|
        0 <= i < payloads.len() ==> (#[trigger] payloads[i]).len() <= 67108864 && dec(
            payloads[i],
            Ok(parts[i]),
        )
    &&& bytes == payloads.map_values(|p: Seq<u8>| be32(p.len() as u32) + p).flatten()
}

/// Reading takes whole payloads off the start of a file, and gives what they decode to, in their
/// order.
pub proof fn lemma_read_parts<A>(
    dec: spec_fn(Seq<u8>, Result<Seq<A>, Error>) -> bool,
    bytes: Seq<u8>,
    items: Seq<A>,
    rest: Seq<u8>,
) -> (r: (Seq<Seq<u8>>, Seq<Seq<A>>, Seq<u8>))
    requires
        reads(dec, bytes, items, rest),
    ensures
        bytes == r.2 + rest,
        framed_parts(dec, r.0, r.1, r.2),
        items == r.1.flatten(),
    decreases bytes.len(),
{
    let frame = |p: Seq<u8>| be32(p.len() as u32) + p;
    if items.len() == 0 && rest == bytes {
        let (payloads, parts) = (Seq::<Seq<u8>>::empty(), Seq::<Seq<A>>::empty());
        lemma_concat_flattens(payloads.map_values(frame));
        lemma_concat_flattens(parts);
        assert(payloads.map_values(frame) =~= Seq::<Seq<u8>>::empty());
        let none = Seq::<u8>::empty();
        assert(concat(payloads.map_values(frame)) =~= none);
        assert(items =~= concat(parts));
        assert(bytes =~= none + rest);
        (payloads, parts, none)
    } else {
        let payload = next_frame(bytes)->payload;
        let more = next_frame(bytes)->Chunk_rest;
        let (head, tail) = choose|head: Seq<A>, tail: Seq<A>|
            items == #[trigger] (head + tail) && dec(payload, Ok(head)) && reads(
                dec,
                more,
                tail,
                rest,
            );
        let (payloads, parts, read) = lemma_read_parts(dec, more, tail, rest);
        let (ps, qs) = (seq![payload] + payloads, seq![head] + parts);
        let all = frame(payload) + read;
        assert(be32(payload.len() as u32) == bytes.take(4)) by {
            lemma_be32_of_value(bytes.take(4));
        }
        assert(bytes =~= all + rest) by {
            assert(bytes =~= frame(payload) + more);
            assert(more == read + rest);
        }
        assert(ps.map_values(frame) =~= seq![frame(payload)] + payloads.map_values(frame));
        lemma_concat_first(ps.map_values(frame));
        assert(ps.map_values(frame).skip(1) =~= payloads.map_values(frame));
        lemma_concat_flattens(ps.map_values(frame));
        lemma_concat_flattens(payloads.map_values(frame));
        lemma_concat_first(qs);
        assert(qs.skip(1) =~= parts);
        lemma_concat_flattens(qs);
        lemma_concat_flattens(parts);
        assert forall|i: int| 0 <= i < ps.len() implies (#[trigger] ps[i]).len() <= 67108864 && dec(
            ps[i],
            Ok(qs[i]),
        ) by {
            if i > 0 {
                assert(ps[i] == payloads[i - 1]);
                assert(qs[i] == parts[i - 1]);
            }
        }
        (ps, qs, all)
    }
}

/// Reading fails only where it has to: at a header that is cut off, a length of more than 64 MiB, a
/// payload that is cut off, or a payload that cannot be decoded.
pub proof fn lemma_reading_stops<A>(
    dec: spec_fn(Seq<u8>, Result<Seq<A>, Error>) -> bool,
    rest: Seq<u8>,
    e: Error,
)
    requires
        stops(dec, rest, e),
    ensures
        rest.len() > 0,
        rest.len() < 4 ==> (e matches Error::Io(t) && t@ == "truncated spill header"@),
        rest.len() >= 4 ==> {
            let n = 0x100_0000 * rest[0] + 0x1_0000 * rest[1] + 0x100 * rest[2] + rest[3];
            &&& n > 67108864 ==> (e matches Error::Io(t) && t@ == "spill chunk too large"@)
            &&& n <= 67108864 && rest.len() < 4 + n ==> (e matches Error::Io(t) && t@
                == "failed to fill whole buffer"@)
            &&& n <= 67108864 && rest.len() >= 4 + n ==> dec(rest.subrange(4, 4 + n), Err(e))
        },
{
    if rest.len() >= 4 {
        let head = rest.take(4);
        lemma_be32_of_value(head);
        lemma_big_endian(be32_value(head));
        assert(head[0] == rest[0] && head[1] == rest[1] && head[2] == rest[2] && head[3] == rest[3]);
    }
}

} // verus!
