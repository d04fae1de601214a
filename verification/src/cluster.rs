//! The ranks of a cluster and what they exchange.
use std::sync::atomic::AtomicU64;

use vstd::prelude::*;

use crate::bytes::{be32, be32_value, get_be32, lemma_be32_value, put_be32};
use crate::error::Error;
use crate::tally::{advance, grown, held, look, made, make};
use crate::text::{decimal, push_decimal};

verus! {

/// The bytes that a rank has sent and received. Threads add to them at any time.
#[derive(Debug)]
pub struct Traffic {
    sent: AtomicU64,
    recv: AtomicU64,
}

impl Traffic {
    /// Nothing has been sent or received.
    pub closed spec fn is_new(&self) -> bool {
        made(self.sent, 0) && made(self.recv, 0)
    }

    /// `n` is what a read of the bytes sent may give.
    pub closed spec fn sent_bytes(&self, n: u64) -> bool {
        held(&self.sent, n)
    }

    /// `n` is what a read of the bytes received may give.
    pub closed spec fn recv_bytes(&self, n: u64) -> bool {
        held(&self.recv, n)
    }

    pub fn new() -> (t: Self)
        ensures
            t.is_new(),
    {
        Traffic { sent: make(0), recv: make(0) }
    }

    /// `bytes` were added to the bytes sent.
    pub closed spec fn sent_more(&self, bytes: u64) -> bool {
        grown(&self.sent, bytes)
    }

    /// `bytes` were added to the bytes received.
    pub closed spec fn recv_more(&self, bytes: u64) -> bool {
        grown(&self.recv, bytes)
    }

    pub fn count_sent(&self, bytes: u64)
        ensures
            self.sent_more(bytes),
    {
        advance(&self.sent, bytes);
    }

    pub fn count_recv(&self, bytes: u64)
        ensures
            self.recv_more(bytes),
    {
        advance(&self.recv, bytes);
    }
}

/// A rank's place in a cluster. Rank 0 is the driver; the other ranks are workers.
#[derive(Debug)]
pub struct Cluster {
    pub rank: usize,
    pub n: usize,
    pub traffic: Traffic,
}

impl Cluster {
    pub fn new(rank: usize, n: usize) -> (c: Self)
        ensures
            c.rank == rank,
            c.n == n,
            c.traffic.is_new(),
    {
        Cluster { rank, n, traffic: Traffic::new() }
    }

    /// Whether this rank computes a dispatched partition.
    pub fn owns(&self, partition: usize) -> (b: bool)
        requires
            self.n > 0,
        ensures
            b == (partition as int % self.n as int == self.rank),
    {
        partition % self.n == self.rank
    }

    pub fn is_driver(&self) -> (b: bool)
        ensures
            b == (self.rank == 0),
    {
        self.rank == 0
    }

    /// The bytes that this rank has sent.
    pub fn bytes_sent(&self) -> (n: u64)
        ensures
            self.traffic.sent_bytes(n),
    {
        look(&self.traffic.sent)
    }

    /// The bytes that this rank has received.
    pub fn bytes_recv(&self) -> (n: u64)
        ensures
            self.traffic.recv_bytes(n),
    {
        look(&self.traffic.recv)
    }
}

/// An error of a cluster, from what went wrong.
pub fn io_err(message: String) -> (e: Error)
    ensures
        e == Error::Cluster(message),
{
    Error::Cluster(message)
}

// ---- frames

/// No frame is longer.
pub const MAX_FRAME: usize = 268435456;

/// The header of a frame with a payload of `len` bytes.
pub fn frame_header(len: usize) -> (r: Result<Vec<u8>, Error>)
    ensures
        if len > MAX_FRAME {
            r matches Err(Error::Cluster(t)) && t@ == "frame too large to send"@
        } else {
            r matches Ok(v) && v@ == be32(len as u32)
        },
{
    if len > MAX_FRAME {
        return Err(Error::Cluster("frame too large to send".to_string()));
    }
    let mut v: Vec<u8> = Vec::new();
    put_be32(&mut v, len as u32);
    assert(v@ =~= be32(len as u32));
    Ok(v)
}

/// The length of the payload behind a header.
pub fn frame_length(header: &[u8]) -> (r: Result<usize, Error>)
    requires
        header@.len() == 4,
    ensures
        ({
            let n = be32_value(header@);
            if n > MAX_FRAME {
                r matches Err(Error::Cluster(t)) && t@ == "frame too large: "@ + decimal(n as nat)
            } else {
                r matches Ok(len) && len == n
            }
        }),
{
    let n = get_be32(header, 0);
    assert(header@.subrange(0, 4) =~= header@);
    if n as usize > MAX_FRAME {
        let mut s = "frame too large: ".to_string();
        push_decimal(&mut s, n as u64);
        return Err(Error::Cluster(s));
    }
    Ok(n as usize)
}

/// The bytes that a frame takes, with its header.
pub fn frame_cost(len: usize) -> (n: u64)
    requires
        len <= MAX_FRAME,
    ensures
        n == 4 + len,
{
    4 + len as u64
}

/// A frame: the header of a payload and the payload.
pub open spec fn framed(payload: Seq<u8>) -> Seq<u8> {
    be32(payload.len() as u32) + payload
}

/// A frame's header says how long its payload is.
pub proof fn lemma_frame_header(len: usize)
    requires
        len <= MAX_FRAME,
    ensures
        be32(len as u32).len() == 4,
        be32_value(be32(len as u32)) == len,
{
    lemma_be32_value(len as u32);
}

/// A frame reads back as its payload and leaves what is behind it, and it takes four bytes more
/// than its payload.
pub proof fn lemma_frame_reads_back(payload: Seq<u8>, rest: Seq<u8>)
    requires
        payload.len() <= MAX_FRAME,
    ensures
        ({
            let stream = framed(payload) + rest;
            let len = be32_value(stream.take(4)) as int;
            &&& len == payload.len()
            &&& stream.subrange(4, 4 + len) == payload
            &&& stream.skip(4 + len) == rest
            &&& framed(payload).len() == 4 + payload.len()
        }),
{
    let stream = framed(payload) + rest;
    lemma_frame_header(payload.len() as usize);
    assert(stream.take(4) =~= be32(payload.len() as u32));
    assert(stream.subrange(4, 4 + payload.len() as int) =~= payload);
    assert(stream.skip(4 + payload.len() as int) =~= rest);
}

// ---- startup

/// How many of `seats` are taken.
pub open spec fn taken(seats: Seq<Option<usize>>) -> nat
    decreases seats.len(),
{
    if seats.len() == 0 {
        0
    } else {
        taken(seats.drop_last()) + (if seats.last() is Some {
            1nat
        } else {
            0nat
        })
    }
}

proof fn lemma_taken(seats: Seq<Option<usize>>)
    ensures
        taken(seats) <= seats.len(),
        taken(seats) == seats.len() ==> forall|i: int|
            0 <= i < seats.len() ==> (#[trigger] seats[i]) is Some,
        taken(seats) < seats.len() ==> exists|i: int|
            0 <= i < seats.len() && (#[trigger] seats[i]) is None,
    decreases seats.len(),
{
    if seats.len() > 0 {
        let init = seats.drop_last();
        lemma_taken(init);
        if taken(init) < init.len() {
            let i = choose|i: int| 0 <= i < init.len() && (#[trigger] init[i]) is None;
            assert(seats[i] is None);
        } else {
            assert forall|i: int| 0 <= i < init.len() implies (#[trigger] seats[i]) is Some by {
                assert(init[i] is Some);
            }
            if seats.last() is None {
                assert(seats[seats.len() - 1] is None);
            }
        }
    }
}

proof fn lemma_taken_update(seats: Seq<Option<usize>>, i: int, k: usize)
    requires
        0 <= i < seats.len(),
        seats[i] is None,
    ensures
        taken(seats.update(i, Some(k))) == taken(seats) + 1,
    decreases seats.len(),
{
    let next = seats.update(i, Some(k));
    if i == seats.len() - 1 {
        assert(next.drop_last() =~= seats.drop_last());
    } else {
        assert(next.drop_last() =~= seats.drop_last().update(i, Some(k)));
        lemma_taken_update(seats.drop_last(), i, k);
    }
}

/// The workers that have connected to the driver. Each rank has a seat, which holds when its
/// worker came.
#[derive(Debug)]
pub struct Roster {
    seats: Vec<Option<usize>>,
    admitted: usize,
}

impl Roster {
    /// Which seats are taken, and by the how-manieth worker.
    pub closed spec fn seats(&self) -> Seq<Option<usize>> {
        self.seats@
    }

    /// How many workers were taken in.
    pub closed spec fn admitted(&self) -> usize {
        self.admitted
    }

    /// Workers are counted as they come, and none sits on two seats.
    pub open spec fn wf(&self) -> bool {
        &&& self.admitted() == taken(self.seats())
        &&& self.seats().len() < usize::MAX
        &&& forall|i: int|
            #![trigger self.seats()[i]]
            0 <= i < self.seats().len() && self.seats()[i] is Some ==> self.seats()[i]->0
                < self.admitted()
        &&& forall|i: int, j: int|
            #![trigger self.seats()[i], self.seats()[j]]
            0 <= i < j < self.seats().len() && self.seats()[i] is Some && self.seats()[j] is Some
                ==> self.seats()[i]->0 != self.seats()[j]->0
    }

    /// The empty roster of a cluster of `n` ranks, of which there must be two.
    pub fn new(n: usize) -> (r: Result<Self, Error>)
        ensures
            match r {
                Ok(roster) => {
                    &&& n >= 2
                    &&& roster.wf()
                    &&& roster.seats().len() == n - 1
                    &&& forall|i: int|
                        0 <= i < n - 1 ==> (#[trigger] roster.seats()[i]) is None
                },
                Err(e) => n < 2 && (e matches Error::Cluster(t) && t@ == "n must be >= 2"@),
            },
    {
        if n < 2 {
            return Err(Error::Cluster("n must be >= 2".to_string()));
        }
        let mut seats: Vec<Option<usize>> = Vec::new();
        let mut i: usize = 0;
        while i < n - 1
            invariant
                n >= 2,
                i <= n - 1,
                seats@.len() == i,
                taken(seats@) == 0,
                forall|j: int| 0 <= j < i ==> (#[trigger] seats@[j]) is None,
            decreases n - i,
        {
            let ghost before = seats@;
            seats.push(None);
            assert(seats@.drop_last() =~= before);
            i = i + 1;
        }
        Ok(Roster { seats, admitted: 0 })
    }

    /// Takes in a worker with a rank that is in the cluster, is not the driver's and is not taken.
    pub fn welcome(&mut self, rank: u32) -> (r: Result<(), Error>)
        requires
            old(self).wf(),
        ensures
            final(self).wf(),
            ({
                let free = 0 < rank <= old(self).seats().len() && old(self).seats()[rank
                    - 1] is None;
                match r {
                    Ok(()) => {
                        &&& free
                        &&& final(self).seats() == old(self).seats().update(
                            rank - 1,
                            Some(old(self).admitted()),
                        )
                        &&& final(self).admitted() == old(self).admitted() + 1
                    },
                    Err(e) => {
                        &&& !free
                        &&& final(self).seats() == old(self).seats()
                        &&& final(self).admitted() == old(self).admitted()
                        &&& e matches Error::Cluster(t)
                        &&& t@ == "invalid worker rank "@ + decimal(rank as nat)
                    },
                }
            }),
    {
        let n = self.seats.len();
        let r = rank as usize;
        if r == 0 || r > n || self.seats[r - 1].is_some() {
            let mut s = "invalid worker rank ".to_string();
            push_decimal(&mut s, rank as u64);
            return Err(Error::Cluster(s));
        }
        let ghost before = self.seats@;
        proof {
            lemma_taken(before);
            lemma_taken_update(before, r - 1, self.admitted);
            lemma_taken(before.update(r - 1, Some(self.admitted)));
        }
        self.seats.set(r - 1, Some(self.admitted));
        self.admitted = self.admitted + 1;
        Ok(())
    }

    /// Whether every worker has come.
    pub fn complete(&self) -> (b: bool)
        requires
            self.wf(),
        ensures
            b <==> forall|i: int| 0 <= i < self.seats().len() ==> (#[trigger] self.seats()[i]) is Some,
    {
        proof {
            lemma_taken(self.seats@);
        }
        self.admitted == self.seats.len()
    }

    /// For each rank, the how-manieth worker to come it was.
    pub fn order(&self) -> (v: Vec<usize>)
        requires
            self.wf(),
            forall|i: int| 0 <= i < self.seats().len() ==> (#[trigger] self.seats()[i]) is Some,
        ensures
            v@.len() == self.seats().len(),
            forall|i: int|
                #![trigger v@[i]]
                0 <= i < v@.len() ==> self.seats()[i] == Some(v@[i]) && v@[i] < v@.len(),
            v@.no_duplicates(),
    {
        proof {
            lemma_taken(self.seats@);
        }
        let mut v: Vec<usize> = Vec::new();
        let mut i: usize = 0;
        while i < self.seats.len()
            invariant
                self.wf(),
                self.admitted() <= self.seats().len(),
                forall|j: int|
                    0 <= j < self.seats().len() ==> (#[trigger] self.seats()[j]) is Some,
                i <= self.seats@.len(),
                v@.len() == i,
                forall|j: int|
                    #![trigger v@[j]]
                    0 <= j < i ==> self.seats()[j] == Some(v@[j]) && v@[j] < self.seats().len(),
            decreases self.seats@.len() - i,
        {
            assert(self.seats()[i as int] is Some);
            match self.seats[i] {
                Some(k) => v.push(k),
                None => {},
            }
            i = i + 1;
        }
        proof {
            assert forall|a: int, b: int| 0 <= a < v@.len() && 0 <= b < v@.len() && a != b implies v@[a]
                != v@[b] by {
                if a < b {
                    let _ = (self.seats()[a], self.seats()[b]);
                } else {
                    let _ = (self.seats()[b], self.seats()[a]);
                }
            }
        }
        v
    }
}

/// A worker found no driver.
pub fn no_driver(rank: usize, master: &str) -> (e: Error)
    ensures
        e matches Error::Cluster(t) && t@ == "rank "@ + decimal(rank as nat)
            + " could not connect to "@ + master@,
{
    let mut s = "rank ".to_string();
    push_decimal(&mut s, rank as u64);
    s.append(" could not connect to ");
    s.append(master);
    Error::Cluster(s)
}

/// The workers did not come in time.
pub fn startup_timed_out() -> (e: Error)
    ensures
        e matches Error::Cluster(t) && t@ == "startup accept timed out"@,
{
    Error::Cluster("startup accept timed out".to_string())
}

/// The seats that are taken are those that hold a connection.
pub proof fn lemma_seats_taken(seats: Seq<Option<usize>>)
    ensures
        taken(seats) == seats.filter(|o: Option<usize>| o is Some).len(),
    decreases seats.len(),
{
    reveal(Seq::filter);
    if seats.len() > 0 {
        lemma_seats_taken(seats.drop_last());
    }
}

/// A frame carries up to 256 MiB.
pub proof fn lemma_frame_limit()
    ensures
        MAX_FRAME == 256 * 1024 * 1024,
{
}

/// The bytes sent and the bytes received are two shared numbers: what is added to each is added to the
/// one that is read for it, and both start at 0.
pub proof fn lemma_traffic_cells(t: Traffic) -> (cells: (AtomicU64, AtomicU64))
    ensures
        forall|n: u64| #[trigger] t.sent_more(n) <==> grown(&cells.0, n),
        forall|n: u64| #[trigger] t.recv_more(n) <==> grown(&cells.1, n),
        forall|n: u64| #[trigger] t.sent_bytes(n) <==> held(&cells.0, n),
        forall|n: u64| #[trigger] t.recv_bytes(n) <==> held(&cells.1, n),
        t.is_new() <==> made(cells.0, 0) && made(cells.1, 0),
{
    (t.sent, t.recv)
}

} // verus!
