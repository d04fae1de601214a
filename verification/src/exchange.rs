//! Exchanges between all ranks of a cluster.
use vstd::prelude::*;

use crate::bytes::{le32, lemma_le32_of_bytes, lemma_little_endian};
use crate::chunks::{codes, contents_of, undoes};
use crate::cluster::Cluster;
use crate::error::Error;
use crate::seqs::{concat, lemma_concat_flattens, lemma_concat_push, rows};
use crate::shuffle::empty_buckets;
use crate::text::{decimal, push_decimal};
use crate::wire::{
    begins, contents, decode_ack, decode_strings, encode_strings, lemma_begins,
    lemma_numbers_unique, lemma_strings_unique, numbers_layout, string_layout, strings_layout,
};

verus! {

// ---- all to all

/// `from` holds the chunks of each rank: first the driver's own, then what each frame encodes, one
/// chunk for each rank.
pub open spec fn sent_chunks(
    n: nat,
    own: Seq<Seq<u8>>,
    frames: Seq<Seq<u8>>,
    from: Seq<Seq<Seq<u8>>>,
) -> bool {
    &&& from.len() == frames.len() + 1
    &&& from[0] == own
    &&& forall|i: int|
        #![trigger from[i]]
        0 < i < from.len() ==> from[i].len() == n && begins(
            frames[i - 1],
            strings_layout(from[i]),
        )
}

/// Frame `i` cannot be used: it encodes no chunks, or not one for each rank.
pub open spec fn bad_frame(n: nat, frame: Seq<u8>, e: Error) -> bool {
    &&& e matches Error::Cluster(t)
    &&& {
        ||| forall|v: Seq<Seq<u8>>| !begins(frame, #[trigger] strings_layout(v))
        ||| t@ == "all_to_all rank payload size"@ && exists|v: Seq<Seq<u8>>|
            v.len() != n && begins(frame, #[trigger] strings_layout(v))
    }
}

/// A frame can be used: it encodes a chunk for each rank.
pub open spec fn good_frame(n: nat, frame: Seq<u8>) -> bool {
    exists|v: Seq<Seq<u8>>| v.len() == n && begins(frame, #[trigger] strings_layout(v))
}

/// `e` is what the first frame fails with that cannot be used.
pub open spec fn first_bad(n: nat, frames: Seq<Seq<u8>>, e: Error) -> bool {
    exists|i: int|
        0 <= i < frames.len() && bad_frame(n, #[trigger] frames[i], e) && forall|j: int|
            0 <= j < i ==> good_frame(n, #[trigger] frames[j])
}

fn read_frames(n: usize, own: Vec<Vec<u8>>, frames: &Vec<Vec<u8>>) -> (r: Result<
    Vec<Vec<Vec<u8>>>,
    Error,
>)
    requires
        own@.len() == n,
    ensures
        match r {
            Ok(from) => sent_chunks(n as nat, contents(own@), rows(frames@), lists(from@)),
            Err(e) => first_bad(n as nat, rows(frames@), e),
        },
{
    let mut from: Vec<Vec<Vec<u8>>> = Vec::new();
    from.push(own);
    let ghost mine = contents(own@);
    let mut i: usize = 0;
    assert(lists(from@)[0] =~= mine);
    while i < frames.len()
        invariant
            i <= frames@.len(),
            mine.len() == n,
            from@.len() == i + 1,
            lists(from@)[0] == mine,
            forall|j: int|
                #![trigger lists(from@)[j]]
                0 < j <= i ==> lists(from@)[j].len() == n && begins(
                    rows(frames@)[j - 1],
                    strings_layout(lists(from@)[j]),
                ),
        decreases frames@.len() - i,
    {
        proof {
            assert forall|j: int| 0 <= j < i implies good_frame(
                n as nat,
                #[trigger] rows(frames@)[j],
            ) by {
                let _ = lists(from@)[j + 1];
            }
        }
        let got = match decode_strings(frames[i].as_slice()) {
            Ok(v) => v,
            Err(e) => {
                assert(bad_frame(n as nat, rows(frames@)[i as int], e));
                return Err(e);
            },
        };
        if got.len() != n {
            assert(begins(rows(frames@)[i as int], strings_layout(contents(got@))));
            return Err(Error::Cluster("all_to_all rank payload size".to_string()));
        }
        let ghost before = from@;
        from.push(got);
        proof {
            assert forall|j: int| #![trigger lists(from@)[j]] 0 < j <= i + 1 implies lists(
                from@,
            )[j].len() == n && begins(rows(frames@)[j - 1], strings_layout(lists(from@)[j])) by {
                if j <= i {
                    assert(lists(from@)[j] == lists(before)[j]);
                }
            }
            assert(lists(from@)[0] == lists(before)[0]);
        }
        i = i + 1;
    }
    assert(sent_chunks(n as nat, mine, rows(frames@), lists(from@)));
    Ok(from)
}

/// The contents of each chunk of each rank.
pub open spec fn lists(v: Seq<Vec<Vec<u8>>>) -> Seq<Seq<Seq<u8>>> {
    Seq::new(v.len(), |i: int| contents(v[i]@))
}

/// What goes to rank `d`: a chunk from each rank.
pub open spec fn chunks_for(from: Seq<Seq<Seq<u8>>>, d: int) -> Seq<Seq<u8>> {
    Seq::new(from.len(), |s: int| from[s][d])
}

fn collect_for(from: &Vec<Vec<Vec<u8>>>, d: usize) -> (v: Vec<Vec<u8>>)
    requires
        forall|s: int| 0 <= s < from@.len() ==> d < (#[trigger] from@[s])@.len(),
    ensures
        contents(v@) == chunks_for(lists(from@), d as int),
{
    let mut v: Vec<Vec<u8>> = Vec::new();
    let mut s: usize = 0;
    while s < from.len()
        invariant
            s <= from@.len(),
            forall|t: int| 0 <= t < from@.len() ==> d < (#[trigger] from@[t])@.len(),
            v@.len() == s,
            forall|t: int|
                0 <= t < s ==> (#[trigger] v@[t])@ == from@[t]@[d as int]@,
        decreases from@.len() - s,
    {
        assert(d < from@[s as int]@.len());
        let chunk = from[s][d].clone();
        assert(chunk@ =~= from@[s as int]@[d as int]@);
        v.push(chunk);
        s = s + 1;
    }
    assert(contents(v@) =~= chunks_for(lists(from@), d as int));
    v
}

/// What a rank of an exchange has in the end, and what it has to send to the other ranks.
#[derive(Debug)]
pub struct Exchanged {
    pub received: Vec<Vec<u8>>,
    pub frames: Vec<Vec<u8>>,
}

impl Cluster {
    /// What a worker sends to the driver to exchange a chunk with each rank.
    pub fn all_to_all_frame(&self, chunks: &Vec<Vec<u8>>) -> (r: Result<Vec<u8>, Error>)
        ensures
            if chunks@.len() != self.n {
                r matches Err(Error::Cluster(t)) && t@ == "all_to_all chunk count != n"@
            } else {
                r matches Ok(b) && b@ == strings_layout(contents(chunks@))
            },
    {
        if chunks.len() != self.n {
            return Err(Error::Cluster("all_to_all chunk count != n".to_string()));
        }
        Ok(encode_strings(chunks))
    }

    /// Exchanges a chunk with each rank. The driver is given its own chunks and the frames that
    /// the workers sent; it gets the chunks meant for it and a frame for each worker.
    pub fn all_to_all(&self, chunks: Vec<Vec<u8>>, frames: &Vec<Vec<u8>>) -> (r: Result<
        Exchanged,
        Error,
    >)
        requires
            self.n == frames@.len() + 1,
        ensures
            match r {
                Ok(x) => {
                    &&& chunks@.len() == self.n
                    &&& exists|from: Seq<Seq<Seq<u8>>>|
                        {
                            &&& #[trigger] sent_chunks(
                                self.n as nat,
                                contents(chunks@),
                                rows(frames@),
                                from,
                            )
                            &&& contents(x.received@) == chunks_for(from, 0)
                            &&& x.frames@.len() == frames@.len()
                            &&& forall|i: int|
                                #![trigger x.frames@[i]]
                                0 <= i < x.frames@.len() ==> x.frames@[i]@ == strings_layout(
                                    chunks_for(from, i + 1),
                                )
                        }
                },
                Err(e) => if chunks@.len() != self.n {
                    e matches Error::Cluster(t) && t@ == "all_to_all chunk count != n"@
                } else {
                    first_bad(self.n as nat, rows(frames@), e)
                },
            },
    {
        if chunks.len() != self.n {
            return Err(Error::Cluster("all_to_all chunk count != n".to_string()));
        }
        let from = match read_frames(self.n, chunks, frames) {
            Ok(f) => f,
            Err(e) => return Err(e),
        };
        let ghost all = lists(from@);
        proof {
            assert forall|s: int| 0 <= s < from@.len() implies (#[trigger] from@[s])@.len()
                == self.n by {
                assert(all[s].len() == from@[s]@.len());
            }
        }
        let received = collect_for(&from, 0);
        let mut out: Vec<Vec<u8>> = Vec::new();
        let mut d: usize = 1;
        while d < self.n
            invariant
                1 <= d <= self.n,
                all == lists(from@),
                forall|s: int| 0 <= s < from@.len() ==> (#[trigger] from@[s])@.len() == self.n,
                out@.len() == d - 1,
                forall|i: int|
                    #![trigger out@[i]]
                    0 <= i < d - 1 ==> out@[i]@ == strings_layout(chunks_for(all, i + 1)),
            decreases self.n - d,
        {
            let chunk = collect_for(&from, d);
            out.push(encode_strings(&chunk));
            d = d + 1;
        }
        Ok(Exchanged { received, frames: out })
    }

    /// What a worker makes of the frame that the driver sends it in the end.
    pub fn all_to_all_received(&self, frame: &[u8]) -> (r: Result<Vec<Vec<u8>>, Error>)
        ensures
            match r {
                Ok(v) => v@.len() == self.n && begins(frame@, strings_layout(contents(v@))),
                Err(e) => {
                    &&& e matches Error::Cluster(t)
                    &&& {
                        ||| forall|v: Seq<Seq<u8>>| !begins(frame@, #[trigger] strings_layout(v))
                        ||| t@ == "all_to_all dest payload size"@ && exists|v: Seq<Seq<u8>>|
                            v.len() != self.n && begins(frame@, #[trigger] strings_layout(v))
                    }
                },
            },
    {
        let got = match decode_strings(frame) {
            Ok(v) => v,
            Err(e) => return Err(e),
        };
        if got.len() != self.n {
            assert(begins(frame@, strings_layout(contents(got@))));
            return Err(Error::Cluster("all_to_all dest payload size".to_string()));
        }
        Ok(got)
    }
}

// ---- exchanging buckets

/// The buckets of some partition numbers, in order.
pub open spec fn packed_for<A>(buckets: Seq<Vec<A>>, n: usize, rank: int) -> Seq<(u32, Vec<A>)>
    decreases buckets.len(),
{
    if buckets.len() == 0 {
        Seq::empty()
    } else {
        let init = packed_for(buckets.drop_last(), n, rank);
        let p = (buckets.len() - 1) as usize;
        if p % n == rank {
            init.push((p as u32, buckets.last()))
        } else {
            init
        }
    }
}

/// Sorts buckets by the rank that each goes to: bucket `p` to rank `p` modulo the number of ranks.
pub fn pack_buckets<A>(buckets: Vec<Vec<A>>, n: usize) -> (v: Vec<Vec<(u32, Vec<A>)>>)
    requires
        n > 0,
    ensures
        v@.len() == n,
        forall|rank: int|
            #![trigger v@[rank]]
            0 <= rank < n ==> v@[rank]@ == packed_for(buckets@, n, rank),
{
    let ghost all = buckets@;
    let len = buckets.len();
    let mut v: Vec<Vec<(u32, Vec<A>)>> = empty_buckets(n);
    let mut p: usize = 0;
    assert(all.take(0) =~= Seq::<Vec<A>>::empty());
    for bucket in it: buckets
        invariant
            it.seq() == all,
            len == all.len(),
            p == it.index(),
            n > 0,
            v@.len() == n,
            forall|rank: int|
                #![trigger v@[rank]]
                0 <= rank < n ==> v@[rank]@ == packed_for(all.take(it.index()), n, rank),
    {
        let ghost before = v@;
        let r = p % n;
        v[r].push((#[verifier::truncate] (p as u32), bucket));
        proof {
            let next = all.take(it.index() + 1);
            assert(next.drop_last() =~= all.take(it.index()));
            assert forall|rank: int| #![trigger v@[rank]] 0 <= rank < n implies v@[rank]@
                == packed_for(next, n, rank) by {
                let _ = before[rank];
            }
        }
        p = p + 1;
    }
    assert(all.take(all.len() as int) =~= all);
    v
}

/// What the parts of a payload add to bucket `p`, in order.
pub open spec fn parts_for<A>(parts: Seq<(u32, Vec<A>)>, p: int) -> Seq<A>
    decreases parts.len(),
{
    if parts.len() == 0 {
        Seq::empty()
    } else if parts.last().0 == p {
        parts_for(parts.drop_last(), p) + parts.last().1@
    } else {
        parts_for(parts.drop_last(), p)
    }
}

/// Each bucket after the parts of a payload were added to it.
pub open spec fn with_parts<A>(buckets: Seq<Seq<A>>, parts: Seq<(u32, Vec<A>)>) -> Seq<Seq<A>> {
    Seq::new(buckets.len(), |p: int| buckets[p] + parts_for(parts, p))
}

/// Every part belongs to one of `n` buckets.
pub open spec fn parts_fit<A>(parts: Seq<(u32, Vec<A>)>, n: nat) -> bool {
    forall|i: int| 0 <= i < parts.len() ==> (#[trigger] parts[i]).0 < n
}

/// Adds the parts of a payload to their buckets. Stops at the first part of a bucket that is not
/// there; the parts before it were added.
pub fn unpack_parts<A>(out: &mut Vec<Vec<A>>, parts: Vec<(u32, Vec<A>)>) -> (r: Result<(), Error>)
    ensures
        final(out)@.len() == old(out)@.len(),
        match r {
            Ok(()) => parts_fit(parts@, old(out)@.len()) && rows(final(out)@) == with_parts(
                rows(old(out)@),
                parts@,
            ),
            Err(e) => exists|i: int|
                {
                    &&& 0 <= i < parts@.len()
                    &&& (#[trigger] parts@[i]).0 >= old(out)@.len()
                    &&& parts_fit(parts@.take(i), old(out)@.len())
                    &&& rows(final(out)@) == with_parts(rows(old(out)@), parts@.take(i))
                    &&& e matches Error::Cluster(t)
                    &&& t@ == "shuffle bucket "@ + decimal(parts@[i].0 as nat) + " >= "@ + decimal(
                        old(out)@.len(),
                    )
                },
        },
{
    let n = out.len();
    let ghost start = rows(out@);
    let ghost all = parts@;
    proof {
        assert(with_parts(start, all.take(0)) =~= start) by {
            assert forall|p: int| 0 <= p < start.len() implies #[trigger] with_parts(
                start,
                all.take(0),
            )[p] == start[p] by {
                assert(start[p] + Seq::<A>::empty() =~= start[p]);
            }
        }
    }
    for (p, bucket) in it: parts
        invariant
            it.seq() == all,
            all == parts@,
            start == rows(old(out)@),
            n == start.len(),
            out@.len() == n,
            parts_fit(all.take(it.index()), n as nat),
            rows(out@) == with_parts(start, all.take(it.index())),
    {
        let ghost i = it.index() as int;
        let q = p as usize;
        if q >= n {
            let mut s = "shuffle bucket ".to_string();
            push_decimal(&mut s, p as u64);
            s.append(" >= ");
            push_decimal(&mut s, n as u64);
            assert(all[i].0 >= n);
            return Err(Error::Cluster(s));
        }
        let mut more = bucket;
        let ghost before = out@;
        out[q].append(&mut more);
        proof {
            let next = all.take(i + 1);
            assert(next.drop_last() =~= all.take(i));
            assert forall|b: int| 0 <= b < n implies #[trigger] rows(out@)[b] == with_parts(
                start,
                next,
            )[b] by {
                assert(rows(before)[b] == with_parts(start, all.take(i))[b]);
                if b == q {
                    assert(rows(out@)[b] =~= start[b] + parts_for(next, b));
                }
            }
            assert(rows(out@) =~= with_parts(start, next));
            assert forall|j: int| 0 <= j < next.len() implies (#[trigger] next[j]).0 < n by {
                if j < i {
                    assert(all.take(i)[j] == next[j]);
                }
            }
        }
    }
    assert(all.take(all.len() as int) =~= all);
    Ok(())
}

/// What was packed for a rank holds bucket `p` whole if it goes to that rank, and nothing of it
/// otherwise; and it fits the buckets it came from.
pub proof fn lemma_packed_routes<A>(buckets: Seq<Vec<A>>, n: usize, rank: int, p: int)
    requires
        n > 0,
        0 <= p < buckets.len() <= 0x1_0000_0000,
        buckets.len() <= usize::MAX,
    ensures
        parts_for(packed_for(buckets, n, rank), p) == if p % n as int == rank {
            buckets[p]@
        } else {
            Seq::empty()
        },
        parts_fit(packed_for(buckets, n, rank), buckets.len()),
    decreases buckets.len(),
{
    let init = buckets.drop_last();
    let last = buckets.len() - 1;
    let before = packed_for(init, n, rank);
    let packed = packed_for(buckets, n, rank);
    lemma_packed_below(buckets, n, rank);
    if p < last {
        lemma_packed_routes(init, n, rank, p);
        if packed != before {
            assert(packed.drop_last() =~= before);
        }
    } else {
        lemma_packed_below(init, n, rank);
        lemma_nothing_for(before, last);
        if last % n as int == rank {
            assert(packed.drop_last() =~= before);
            assert(Seq::<A>::empty() + buckets[last]@ =~= buckets[last]@);
        }
    }
}

proof fn lemma_packed_below<A>(buckets: Seq<Vec<A>>, n: usize, rank: int)
    requires
        n > 0,
        buckets.len() <= 0x1_0000_0000,
        buckets.len() <= usize::MAX,
    ensures
        parts_fit(packed_for(buckets, n, rank), buckets.len()),
    decreases buckets.len(),
{
    if buckets.len() > 0 {
        let init = buckets.drop_last();
        lemma_packed_below(init, n, rank);
        let before = packed_for(init, n, rank);
        let packed = packed_for(buckets, n, rank);
        assert forall|i: int| 0 <= i < packed.len() implies (#[trigger] packed[i]).0
            < buckets.len() by {
            if i < before.len() {
                assert(packed[i] == before[i]);
            }
        }
    }
}

proof fn lemma_nothing_for<A>(parts: Seq<(u32, Vec<A>)>, p: int)
    requires
        parts_fit(parts, p as nat),
        p >= 0,
    ensures
        parts_for(parts, p) == Seq::<A>::empty(),
    decreases parts.len(),
{
    if parts.len() > 0 {
        assert(parts[parts.len() - 1].0 < p);
        assert forall|i: int| 0 <= i < parts.len() - 1 implies (
        #[trigger] parts.drop_last()[i]).0 < p by {
            assert(parts[i] == parts.drop_last()[i]);
        }
        lemma_nothing_for(parts.drop_last(), p);
    }
}

/// An exchange carries what was sent: where rank `s` sends `sent[s]`, the driver reads just that
/// out of the frames, and what it hands to rank `d` reads back as the chunk that each rank sent to
/// `d`, by rank.
pub proof fn lemma_exchange_delivers(
    n: nat,
    sent: Seq<Seq<Seq<u8>>>,
    frames: Seq<Seq<u8>>,
    from: Seq<Seq<Seq<u8>>>,
    d: int,
    frame: Seq<u8>,
    got: Seq<Seq<u8>>,
)
    requires
        0 < n <= usize::MAX,
        0 <= d < n,
        sent.len() == n,
        forall|s: int| 0 <= s < n ==> (#[trigger] sent[s]).len() == n,
        frames.len() == n - 1,
        forall|i: int|
            #![trigger frames[i]]
            0 <= i < frames.len() ==> frames[i] == strings_layout(sent[i + 1])
                && frames[i].len() <= usize::MAX,
        sent_chunks(n, sent[0], frames, from),
        frame == strings_layout(chunks_for(from, d)),
        frame.len() <= usize::MAX,
        got.len() == n,
        begins(frame, strings_layout(got)),
    ensures
        from == sent,
        forall|s: int| 0 <= s < n ==> #[trigger] got[s] == sent[s][d],
{
    assert forall|s: int| 0 <= s < n implies from[s] == sent[s] by {
        if s > 0 {
            let f = frames[s - 1];
            assert(f.take(f.len() as int) =~= f);
            assert(sent[s].len() == n);
            lemma_strings_unique(f, from[s], sent[s]);
        }
    }
    assert(from =~= sent);
    assert(frame.take(frame.len() as int) =~= frame);
    lemma_strings_unique(frame, got, chunks_for(from, d));
}

// ---- gathering

/// The items that some payloads may decode to, one payload after the other.
pub open spec fn decoded_all<A>(
    dec: spec_fn(Seq<u8>, Result<Seq<A>, Error>) -> bool,
    payloads: Seq<Seq<u8>>,
    items: Seq<Seq<A>>,
) -> bool {
    &&& items.len() == payloads.len()
    &&& forall|i: int| 0 <= i < items.len() ==> dec(payloads[i], Ok(#[trigger] items[i]))
}

/// What the driver makes of the payloads of all ranks.
pub open spec fn gathered<A>(
    dec: spec_fn(Seq<u8>, Result<Seq<A>, Error>) -> bool,
    payloads: Seq<Seq<u8>>,
    r: Result<Seq<A>, Error>,
) -> bool {
    match r {
        Ok(all) => exists|items: Seq<Seq<A>>| #[trigger]
            decoded_all(dec, payloads, items) && all == concat(items),
        Err(e) => exists|i: int, items: Seq<Seq<A>>|
            0 <= i < payloads.len() && #[trigger] decoded_all(dec, payloads.take(i), items) && dec(
                payloads[i],
                Err(e),
            ),
    }
}

/// What a worker has of a gather once the driver answered: no items, where the answer is one.
pub open spec fn acknowledged<A>(answer: Seq<u8>, r: Result<Seq<A>, Error>) -> bool {
    match r {
        Ok(all) => all.len() == 0 && exists|x: u32| begins(answer, #[trigger] le32(x)),
        Err(e) => e is Cluster && forall|x: u32| !begins(answer, #[trigger] le32(x)),
    }
}

/// What a worker has of a gather: nothing, once the driver answered.
pub fn gather_answered<A>(answer: &[u8]) -> (r: Result<Vec<A>, Error>)
    ensures
        acknowledged(answer@, contents_of(r)),
{
    match decode_ack(answer) {
        Ok(_) => {
            let none: Vec<A> = Vec::new();
            Ok(none)
        },
        Err(e) => Err(e),
    }
}

/// Puts together what all ranks have gathered: the driver's payload first, and then those of the
/// workers by rank.
pub fn gather_payloads<A, D: Fn(&Vec<u8>) -> Result<Vec<A>, Error>>(
    payloads: &Vec<Vec<u8>>,
    decode: &D,
) -> (r: Result<Vec<A>, Error>)
    requires
        forall|v: Vec<u8>| #[trigger] call_requires(*decode, (&v,)),
    ensures
        gathered(codes(*decode), rows(payloads@), contents_of(r)),
{
    let mut all: Vec<A> = Vec::new();
    let ghost mut items: Seq<Seq<A>> = Seq::empty();
    let mut i: usize = 0;
    while i < payloads.len()
        invariant
            i <= payloads@.len(),
            forall|v: Vec<u8>| #[trigger] call_requires(*decode, (&v,)),
            decoded_all(codes(*decode), rows(payloads@).take(i as int), items),
            all@ == concat(items),
        decreases payloads@.len() - i,
    {
        let got = decode(&payloads[i]);
        assert(codes(*decode)(payloads@[i as int]@, contents_of(got)));
        let mut more = match got {
            Ok(v) => v,
            Err(e) => return Err(e),
        };
        proof {
            lemma_concat_push(items, more@);
            let next = items.push(more@);
            assert forall|j: int| 0 <= j < next.len() implies codes(*decode)(
                rows(payloads@).take(i + 1)[j],
                Ok(#[trigger] next[j]),
            ) by {
                if j < i {
                    assert(next[j] == items[j]);
                    assert(rows(payloads@).take(i + 1)[j] == rows(payloads@).take(i as int)[j]);
                }
            }
            items = next;
        }
        all.append(&mut more);
        i = i + 1;
    }
    assert(rows(payloads@).take(payloads@.len() as int) =~= rows(payloads@));
    Ok(all)
}

/// A gather joins what the ranks encoded: where decoding undoes encoding, no payload fails to
/// decode, and the items are those of all ranks, rank after rank.
pub proof fn lemma_gather_joins<A>(
    enc: spec_fn(Seq<A>, Result<Seq<u8>, Error>) -> bool,
    dec: spec_fn(Seq<u8>, Result<Seq<A>, Error>) -> bool,
    values: Seq<Seq<A>>,
    payloads: Seq<Seq<u8>>,
)
    requires
        undoes(enc, dec),
        payloads.len() == values.len(),
        forall|i: int|
            #![trigger payloads[i]]
            0 <= i < values.len() ==> enc(values[i], Ok(payloads[i])),
    ensures
        forall|items: Seq<Seq<A>>| #[trigger] decoded_all(dec, payloads, items) ==> items == values,
        forall|i: int, e: Error|
            0 <= i < payloads.len() ==> !#[trigger] dec(payloads[i], Err::<Seq<A>, Error>(e)),
{
    assert forall|items: Seq<Seq<A>>| #[trigger] decoded_all(dec, payloads, items) implies items
        == values by {
        assert forall|i: int| 0 <= i < items.len() implies items[i] == values[i] by {
            assert(enc(values[i], Ok(payloads[i])));
            assert(dec(payloads[i], Ok(items[i])));
        }
        assert(items =~= values);
    }
    assert forall|i: int, e: Error| 0 <= i < payloads.len() implies !#[trigger] dec(
        payloads[i],
        Err::<Seq<A>, Error>(e),
    ) by {
        assert(enc(values[i], Ok(payloads[i])));
    }
}

/// A gather over all ranks gives the driver the items of all ranks, rank after rank, and every other
/// rank none, and fails on none of them, where decoding undoes encoding.
pub proof fn lemma_gather<A>(
    enc: spec_fn(Seq<A>, Result<Seq<u8>, Error>) -> bool,
    dec: spec_fn(Seq<u8>, Result<Seq<A>, Error>) -> bool,
    values: Seq<Seq<A>>,
    payloads: Seq<Seq<u8>>,
    answer: Seq<u8>,
    results: Seq<Result<Seq<A>, Error>>,
)
    requires
        undoes(enc, dec),
        values.len() > 0,
        payloads.len() == values.len(),
        results.len() == values.len(),
        forall|i: int|
            #![trigger payloads[i]]
            0 <= i < values.len() ==> enc(values[i], Ok(payloads[i])),
        gathered(dec, payloads, results[0]),
        answer == le32(1),
        forall|i: int| 1 <= i < results.len() ==> acknowledged(answer, #[trigger] results[i]),
    ensures
        results[0] == Ok::<Seq<A>, Error>(concat(values)),
        forall|i: int|
            1 <= i < results.len() ==> #[trigger] results[i] == Ok::<Seq<A>, Error>(Seq::empty()),
{
    lemma_gather_joins(enc, dec, values, payloads);
    if results[0] is Err {
        let e = results[0]->Err_0;
        let (i, items) = choose|i: int, items: Seq<Seq<A>>|
            0 <= i < payloads.len() && #[trigger] decoded_all(dec, payloads.take(i), items) && dec(
                payloads[i],
                Err(e),
            );
        assert(!dec(payloads[i], Err::<Seq<A>, Error>(e)));
    }
    assert(answer.take(answer.len() as int) =~= answer);
    assert(begins(answer, le32(1)));
    assert forall|i: int| 1 <= i < results.len() implies #[trigger] results[i] == Ok::<
        Seq<A>,
        Error,
    >(Seq::empty()) by {
        if results[i] is Ok {
            assert(results[i]->Ok_0 =~= Seq::<A>::empty());
        }
    }
}

/// How a rank encodes the numbers that it has gathered.
pub open spec fn number_code() -> spec_fn(Seq<u64>, Result<Seq<u8>, Error>) -> bool {
    |s: Seq<u64>, r: Result<Seq<u8>, Error>|
        r matches Ok(b) && b == numbers_layout(s) && s.len() <= usize::MAX && b.len() <= usize::MAX
}

/// Bytes do not begin with a list of numbers.
pub open spec fn no_numbers(b: Seq<u8>) -> bool {
    forall|s: Seq<u64>| s.len() <= usize::MAX ==> !begins(b, #[trigger] numbers_layout(s))
}

/// What the driver makes of a payload of numbers.
pub open spec fn number_read() -> spec_fn(Seq<u8>, Result<Seq<u64>, Error>) -> bool {
    |b: Seq<u8>, r: Result<Seq<u64>, Error>|
        match r {
            Ok(s) => s.len() <= usize::MAX && begins(b, numbers_layout(s)),
            Err(e) => no_numbers(b),
        }
}

/// Decoding numbers undoes encoding them.
pub proof fn lemma_numbers_undone()
    ensures
        undoes(number_code(), number_read()),
{
    assert forall|s: Seq<u64>, b: Seq<u8>, r: Result<Seq<u64>, Error>|
        #![trigger number_code()(s, Ok(b)), number_read()(b, r)]
        number_code()(s, Ok(b)) && number_read()(b, r) implies r == Ok::<Seq<u64>, Error>(s) by {
        assert(b.take(b.len() as int) =~= b);
        assert(begins(b, numbers_layout(s)));
        if r is Ok {
            lemma_numbers_unique(b, r->Ok_0, s);
        }
    }
}

/// What is packed for a rank are the buckets whose number leaves the rank when divided by the number
/// of ranks: each behind its number, in the order of the numbers.
pub proof fn lemma_packed<A>(buckets: Seq<Vec<A>>, n: usize, rank: int)
    requires
        n > 0,
        buckets.len() <= 0x1_0000_0000,
        buckets.len() <= usize::MAX,
    ensures
        forall|i: int|
            #![trigger packed_for(buckets, n, rank)[i]]
            0 <= i < packed_for(buckets, n, rank).len() ==> {
                let e = packed_for(buckets, n, rank)[i];
                &&& e.0 < buckets.len()
                &&& e.0 as int % n as int == rank
                &&& e.1 == buckets[e.0 as int]
            },
        forall|i: int, j: int|
            0 <= i < j < packed_for(buckets, n, rank).len() ==> (#[trigger] packed_for(
                buckets,
                n,
                rank,
            )[i]).0 < (#[trigger] packed_for(buckets, n, rank)[j]).0,
        forall|p: int|
            0 <= p < buckets.len() && p % n as int == rank ==> packed_for(buckets, n, rank).contains(
                (p as u32, #[trigger] buckets[p]),
            ),
    decreases buckets.len(),
{
    if buckets.len() > 0 {
        let init = buckets.drop_last();
        let last = buckets.len() - 1;
        lemma_packed(init, n, rank);
        let before = packed_for(init, n, rank);
        let packed = packed_for(buckets, n, rank);
        assert forall|i: int|
            #![trigger packed[i]]
            0 <= i < packed.len() implies packed[i].0 < buckets.len() && packed[i].0 as int
            % n as int == rank && packed[i].1 == buckets[packed[i].0 as int] by {
            if i < before.len() {
                assert(packed[i] == before[i]);
            }
        }
        assert forall|i: int, j: int| 0 <= i < j < packed.len() implies (#[trigger] packed[i]).0 < (
        #[trigger] packed[j]).0 by {
            assert(packed[i] == before[i]);
            if j < before.len() {
                assert(packed[j] == before[j]);
            }
        }
        assert forall|p: int| 0 <= p < buckets.len() && p % n as int == rank implies packed.contains(
            (p as u32, #[trigger] buckets[p]),
        ) by {
            if p < last {
                assert(init[p] == buckets[p]);
                let i = choose|i: int|
                    0 <= i < before.len() && before[i] == (p as u32, init[p]);
                assert(packed[i] == before[i]);
            } else {
                assert(packed[before.len() as int] == (p as u32, buckets[p]));
            }
        }
    }
}

/// What parts hold for a bucket are the items of those that name it, one after the other.
pub proof fn lemma_parts_for<A>(parts: Seq<(u32, Vec<A>)>, p: int)
    ensures
        parts_for(parts, p) == parts.filter(|e: (u32, Vec<A>)| e.0 == p).map_values(
            |e: (u32, Vec<A>)| e.1@,
        ).flatten(),
    decreases parts.len(),
{
    reveal(Seq::filter);
    let named = |e: (u32, Vec<A>)| e.0 == p;
    let items = |e: (u32, Vec<A>)| e.1@;
    let all = parts.filter(named).map_values(items);
    lemma_concat_flattens(all);
    if parts.len() > 0 {
        let init = parts.drop_last();
        lemma_parts_for(init, p);
        let some = init.filter(named).map_values(items);
        lemma_concat_flattens(some);
        if parts.last().0 == p {
            assert(all =~= some.push(parts.last().1@));
            assert(all.drop_last() =~= some);
        } else {
            assert(all =~= some);
        }
    } else {
        assert(parts_for(parts, p) =~= concat(all));
    }
}

/// Unpacking adds to each bucket the items of the parts that name it, behind those that it holds.
pub proof fn lemma_with_parts<A>(buckets: Seq<Seq<A>>, parts: Seq<(u32, Vec<A>)>, p: int)
    requires
        0 <= p < buckets.len(),
    ensures
        with_parts(buckets, parts).len() == buckets.len(),
        with_parts(buckets, parts)[p] == buckets[p] + parts.filter(
            |e: (u32, Vec<A>)| e.0 == p,
        ).map_values(|e: (u32, Vec<A>)| e.1@).flatten(),
{
    lemma_parts_for(parts, p);
}

/// A frame is in order if it starts with a list of as many byte strings as there are ranks.
pub proof fn lemma_good_frame(n: nat, frame: Seq<u8>) -> (v: Seq<Seq<u8>>)
    requires
        good_frame(n, frame),
    ensures
        v.len() == n,
        strings_layout(v).is_prefix_of(frame),
{
    let v = choose|v: Seq<Seq<u8>>| v.len() == n && begins(frame, #[trigger] strings_layout(v));
    lemma_begins(frame, strings_layout(v));
    v
}

/// What is wrong with a frame is that it holds no list of byte strings, or one of the wrong length;
/// the frames before it are in order.
pub proof fn lemma_first_bad(n: nat, frames: Seq<Seq<u8>>, e: Error) -> (i: int)
    requires
        first_bad(n, frames, e),
    ensures
        0 <= i < frames.len(),
        e is Cluster,
        e->Cluster_0@ != "all_to_all rank payload size"@ ==> forall|v: Seq<Seq<u8>>|
            !(#[trigger] strings_layout(v)).is_prefix_of(frames[i]),
        forall|j: int| 0 <= j < i ==> good_frame(n, #[trigger] frames[j]),
{
    let i = choose|i: int|
        0 <= i < frames.len() && bad_frame(n, #[trigger] frames[i], e) && forall|j: int|
            0 <= j < i ==> good_frame(n, #[trigger] frames[j]);
    assert forall|v: Seq<Seq<u8>>|
        e->Cluster_0@ != "all_to_all rank payload size"@ implies !(#[trigger] strings_layout(
        v,
    )).is_prefix_of(frames[i]) by {
        lemma_begins(frames[i], strings_layout(v));
    }
    i
}

/// A frame that holds a list of byte strings is bad only if the list has another length than there are
/// ranks, and the error says so.
pub proof fn lemma_bad_frame(n: nat, frame: Seq<u8>, e: Error, v: Seq<Seq<u8>>)
    requires
        frame.len() <= usize::MAX,
        bad_frame(n, frame, e),
        strings_layout(v).is_prefix_of(frame),
    ensures
        v.len() != n,
        e matches Error::Cluster(t) && t@ == "all_to_all rank payload size"@,
{
    lemma_begins(frame, strings_layout(v));
    lemma_strings_len(v);
    let u = choose|u: Seq<Seq<u8>>| u.len() != n && begins(frame, #[trigger] strings_layout(u));
    lemma_strings_len(u);
    lemma_strings_unique(frame, u, v);
}

proof fn lemma_strings_len(v: Seq<Seq<u8>>)
    ensures
        v.len() <= strings_layout(v).len(),
{
    lemma_strings_body_len(v);
}

proof fn lemma_strings_body_len(v: Seq<Seq<u8>>)
    ensures
        v.len() <= concat(v.map_values(|b: Seq<u8>| string_layout(b))).len(),
    decreases v.len(),
{
    let f = |b: Seq<u8>| string_layout(b);
    if v.len() > 0 {
        lemma_strings_body_len(v.drop_last());
        assert(v.map_values(f).drop_last() =~= v.drop_last().map_values(f));
        lemma_little_endian(0, 0, v.last().len() as u64);
        assert(v.map_values(f).last().len() >= 8);
    }
}

/// An answer acknowledges if it has four bytes or more; a shorter one is an error.
pub proof fn lemma_acknowledged<A>(answer: Seq<u8>, r: Result<Seq<A>, Error>)
    requires
        acknowledged(answer, r),
    ensures
        answer.len() >= 4 ==> r == Ok::<Seq<A>, Error>(Seq::empty()),
        answer.len() < 4 ==> r is Err && r->Err_0 is Cluster,
{
    if answer.len() >= 4 {
        let x = lemma_le32_of_bytes(answer.take(4));
        assert(begins(answer, le32(x)));
        assert(r->Ok_0 =~= Seq::<A>::empty());
    } else if r is Ok {
        let x = choose|x: u32| begins(answer, #[trigger] le32(x));
        lemma_little_endian(0, x, 0);
    }
}

/// A rank gets one chunk from each rank: the one that the rank has for it.
pub proof fn lemma_chunks_for(from: Seq<Seq<Seq<u8>>>, d: int)
    ensures
        chunks_for(from, d).len() == from.len(),
        forall|s: int| 0 <= s < from.len() ==> #[trigger] chunks_for(from, d)[s] == from[s][d],
{
}

/// Lists of byte strings are read list by list, and string by string.
pub proof fn lemma_lists(v: Seq<Vec<Vec<u8>>>)
    ensures
        lists(v).len() == v.len(),
        forall|i: int| 0 <= i < v.len() ==> (#[trigger] lists(v)[i]).len() == v[i]@.len(),
        forall|i: int, j: int|
            0 <= i < v.len() && 0 <= j < v[i]@.len() ==> #[trigger] lists(v)[i][j] == v[i]@[j]@,
{
}

} // verus!
