//! Handing the partitions of a job out to the ranks of a cluster.
use vstd::prelude::*;

use crate::error::{error_text, Error};
use crate::seqs::{concat, lemma_concat_first};
use crate::text::{decimal, push_decimal};
use crate::wire::{
    begins, decode_reply, decode_task, encode_reply, encode_task, lemma_reply_unique, reply_bytes,
    task_layout, Reply, Task,
};

verus! {

// ---- windows

/// How many partitions are handed out at a time: two for each rank.
pub open spec fn window_size(ranks: usize) -> nat {
    if ranks * 2 > usize::MAX {
        usize::MAX as nat
    } else if ranks == 0 {
        1
    } else {
        (ranks * 2) as nat
    }
}

/// The windows of `n` partitions from `start` on: first partition and length of each.
pub open spec fn windows_from(start: nat, n: nat, size: nat) -> Seq<(usize, usize)>
    decreases n - start,
{
    if size == 0 || start >= n {
        Seq::empty()
    } else if n - start <= size {
        seq![(start as usize, (n - start) as usize)]
    } else {
        seq![(start as usize, size as usize)] + windows_from(start + size, n, size)
    }
}

/// The windows that a job of `n` partitions is handed out in. A job without partitions has one
/// empty window, in which the ranks meet.
pub fn dispatch_windows(n: usize, ranks: usize) -> (v: Vec<(usize, usize)>)
    ensures
        v@ == if n == 0 {
            seq![(0usize, 0usize)]
        } else {
            windows_from(0, n as nat, window_size(ranks))
        },
{
    let mut v: Vec<(usize, usize)> = Vec::new();
    if n == 0 {
        v.push((0, 0));
        assert(v@ =~= seq![(0usize, 0usize)]);
        return v;
    }
    let size: usize = match ranks.checked_mul(2) {
        Some(0) => 1,
        Some(k) => k,
        None => usize::MAX,
    };
    let mut start: usize = 0;
    let ghost all = windows_from(0, n as nat, size as nat);
    assert(v@ + all =~= all);
    while start < n
        invariant
            start <= n,
            size == window_size(ranks),
            size > 0,
            all == windows_from(0, n as nat, size as nat),
            all == v@ + windows_from(start as nat, n as nat, size as nat),
        decreases n - start,
    {
        let left = n - start;
        let len = if left < size {
            left
        } else {
            size
        };
        let ghost before = v@;
        v.push((start, len));
        proof {
            let rest = windows_from((start + len) as nat, n as nat, size as nat);
            assert(windows_from(start as nat, n as nat, size as nat) =~= seq![(start, len)] + rest);
            assert(before + (seq![(start, len)] + rest) =~= v@ + rest);
        }
        start = start + len;
    }
    assert(v@ + windows_from(n as nat, n as nat, size as nat) =~= v@);
    v
}

/// Every partition is in exactly one window: the windows follow each other from the first
/// partition to the last, and none is longer than two partitions for each rank.
pub proof fn lemma_windows_cover(start: nat, n: nat, size: nat)
    requires
        size > 0,
        start <= n <= usize::MAX,
    ensures
        ({
            let ws = windows_from(start, n, size);
            &&& start < n ==> ws.len() > 0 && ws[0].0 == start && ws.last().0 + ws.last().1 == n
            &&& forall|i: int| 0 <= i < ws.len() ==> 0 < (#[trigger] ws[i]).1 <= size
            &&& forall|i: int|
                #![trigger ws[i]]
                0 < i < ws.len() ==> ws[i].0 == ws[i - 1].0 + ws[i - 1].1
        }),
    decreases n - start,
{
    if n - start > size {
        let rest = windows_from(start + size, n, size);
        let ws = windows_from(start, n, size);
        lemma_windows_cover(start + size, n, size);
        assert(ws =~= seq![(start as usize, size as usize)] + rest);
        assert forall|i: int| 0 <= i < ws.len() implies 0 < (#[trigger] ws[i]).1 <= size by {
            if i > 0 {
                assert(ws[i] == rest[i - 1]);
            }
        }
        assert forall|i: int| #![trigger ws[i]] 0 < i < ws.len() implies ws[i].0 == ws[i - 1].0
            + ws[i - 1].1 by {
            assert(ws[i] == rest[i - 1]);
            if i > 1 {
                assert(ws[i - 1] == rest[i - 2]);
            }
        }
    }
}

// ---- the driver's side of a window

/// What the driver does next to hand out the partitions of a window.
#[derive(Debug)]
pub enum Submit {
    /// Compute this partition here.
    Local { partition: usize },
    /// Send this frame, which asks a worker for a partition.
    Remote { partition: usize, worker: usize, frame: Vec<u8> },
    /// Everything is handed out, or something failed.
    Finished,
}

/// What the driver does with a reply.
#[derive(Debug)]
pub enum OnReply {
    /// Take over the result of this partition.
    Accept { partition: usize, payload: Vec<u8> },
    /// The worker could not compute this partition: compute it here.
    Replay { partition: usize },
    /// The reply is of no use.
    Ignore,
}

/// The driver's side of a window. It hands out partitions, keeps track of those that workers have
/// not answered for, and remembers the first error.
pub struct Window {
    job: u64,
    offset: usize,
    ranks: usize,
    n: usize,
    next: usize,
    in_hand: Option<usize>,
    pending: Vec<(usize, usize)>,
    first_err: Option<Error>,
    handled: Ghost<Seq<usize>>,
    unsent: Ghost<Seq<usize>>,
}

/// What stands of a window.
pub ghost struct WindowState {
    /// Partitions below this were handed out.
    pub next: nat,
    /// The partition that is being computed or sent.
    pub in_hand: Option<usize>,
    /// Partitions that workers were asked for and have not answered for, with the worker.
    pub pending: Seq<(usize, usize)>,
    /// Partitions whose results were taken in, or failed to be, one way or another.
    pub handled: Seq<usize>,
    /// Partitions that no worker could be asked for.
    pub unsent: Seq<usize>,
    pub first_err: Option<Error>,
}

/// `pending` names partition `p`.
pub open spec fn awaits(pending: Seq<(usize, usize)>, p: usize) -> bool {
    exists|i: int| 0 <= i < pending.len() && (#[trigger] pending[i]).0 == p
}

/// The error that is remembered after another one came up.
pub open spec fn first_of(first: Option<Error>, r: Result<(), Error>) -> Option<Error> {
    match first {
        Some(e) => Some(e),
        None => match r {
            Ok(()) => None,
            Err(e) => Some(e),
        },
    }
}

/// How many of the pending partitions worker `w` was asked for.
pub open spec fn asked_of(pending: Seq<(usize, usize)>, w: usize) -> nat
    decreases pending.len(),
{
    if pending.len() == 0 {
        0
    } else {
        asked_of(pending.drop_last(), w) + (if pending.last().1 == w {
            1nat
        } else {
            0nat
        })
    }
}

/// `s` without its element `i`.
pub open spec fn without<A>(s: Seq<A>, i: int) -> Seq<A> {
    s.take(i) + s.skip(i + 1)
}

impl Window {
    pub closed spec fn state(&self) -> WindowState {
        WindowState {
            next: self.next as nat,
            in_hand: self.in_hand,
            pending: self.pending@,
            handled: self.handled@,
            unsent: self.unsent@,
            first_err: self.first_err,
        }
    }

    pub closed spec fn len(&self) -> usize {
        self.n
    }

    pub closed spec fn ranks(&self) -> usize {
        self.ranks
    }

    pub closed spec fn job(&self) -> u64 {
        self.job
    }

    pub closed spec fn offset(&self) -> usize {
        self.offset
    }

    /// Each partition handed out is in one place: in hand, pending, handled or unsent. A pending
    /// partition was asked of the worker that owns it. Where one was not sent, there is an error.
    pub open spec fn wf(&self) -> bool {
        let s = self.state();
        &&& self.ranks() > 0
        &&& s.next <= self.len()
        &&& self.offset() + self.len() <= usize::MAX
        &&& forall|i: int|
            #![trigger s.pending[i]]
            0 <= i < s.pending.len() ==> s.pending[i].0 < s.next && s.pending[i].0
                % self.ranks() == s.pending[i].1 + 1
        &&& forall|i: int, j: int|
            0 <= i < j < s.pending.len() ==> (#[trigger] s.pending[i]).0 != (
            #[trigger] s.pending[j]).0
        &&& s.handled.no_duplicates()
        &&& forall|p: usize| #[trigger]
            s.handled.contains(p) ==> p < s.next && !awaits(s.pending, p) && s.in_hand != Some(p)
                && !s.unsent.contains(p)
        &&& forall|p: usize| #[trigger]
            s.unsent.contains(p) ==> p < s.next && !awaits(s.pending, p) && s.in_hand != Some(p)
        &&& s.in_hand matches Some(p) ==> p < s.next && !awaits(s.pending, p)
        &&& forall|p: usize|
            p < s.next ==> (#[trigger] s.handled.contains(p) || awaits(s.pending, p) || s.in_hand
                == Some(p) || s.unsent.contains(p))
        &&& s.unsent.len() > 0 ==> s.first_err is Some
    }

    /// A window of `n` partitions, of which the first is partition `offset` of job `job`.
    pub fn new(job: u64, offset: usize, n: usize, ranks: usize) -> (w: Self)
        requires
            ranks > 0,
            offset + n <= usize::MAX,
        ensures
            w.wf(),
            w.job() == job,
            w.offset() == offset,
            w.len() == n,
            w.ranks() == ranks,
            w.state() == (WindowState {
                next: 0,
                in_hand: None,
                pending: Seq::empty(),
                handled: Seq::empty(),
                unsent: Seq::empty(),
                first_err: None,
            }),
    {
        let w = Window {
            job,
            offset,
            ranks,
            n,
            next: 0,
            in_hand: None,
            pending: Vec::new(),
            first_err: None,
            handled: Ghost(Seq::empty()),
            unsent: Ghost(Seq::empty()),
        };
        assert(w.state().pending =~= Seq::<(usize, usize)>::empty());
        w
    }

    /// The number of the job's partition that partition `p` of the window is.
    pub fn task_of(&self, p: usize) -> (t: usize)
        requires
            self.wf(),
            p < self.len(),
        ensures
            t == self.offset() + p,
    {
        self.offset + p
    }

    /// Hands out the next partition: the driver computes those that it owns, the others are asked
    /// of the workers that own them. Nothing more is handed out after an error.
    pub fn submit(&mut self) -> (a: Submit)
        requires
            old(self).wf(),
            old(self).state().in_hand is None,
        ensures
            final(self).wf(),
            final(self).job() == old(self).job(),
            final(self).offset() == old(self).offset(),
            final(self).len() == old(self).len(),
            final(self).ranks() == old(self).ranks(),
            ({
                let s = old(self).state();
                let p = s.next as usize;
                let took = WindowState { next: s.next + 1, in_hand: Some(p), ..s };
                if s.first_err is Some || s.next == old(self).len() {
                    a is Finished && final(self).state() == s
                } else if p % old(self).ranks() == 0 {
                    a == (Submit::Local { partition: p }) && final(self).state() == took
                } else {
                    &&& a matches Submit::Remote { partition, worker, frame }
                    &&& partition == p
                    &&& worker == p % old(self).ranks() - 1
                    &&& frame@ == task_layout(
                        Task::Run {
                            partition: p as u32,
                            job: old(self).job(),
                            task: (old(self).offset() + p) as u64,
                        },
                    )
                    &&& final(self).state() == took
                }
            }),
    {
        if self.first_err.is_some() || self.next == self.n {
            return Submit::Finished;
        }
        let p = self.next;
        self.next = p + 1;
        self.in_hand = Some(p);
        proof {
            let s = old(self).state();
            assert(!awaits(s.pending, p));
            assert(!s.handled.contains(p));
            assert(!s.unsent.contains(p));
        }
        let r = p % self.ranks;
        if r == 0 {
            return Submit::Local { partition: p };
        }
        let frame = encode_task(
            Task::Run {
                partition: #[verifier::truncate] (p as u32),
                job: self.job,
                task: (self.offset + p) as u64,
            },
        );
        Submit::Remote { partition: p, worker: r - 1, frame }
    }

    /// The partition in hand was asked of its worker, or could not be.
    pub fn asked(&mut self, ok: bool)
        requires
            old(self).wf(),
            old(self).state().in_hand matches Some(p) && p % old(self).ranks() != 0,
        ensures
            final(self).wf(),
            final(self).job() == old(self).job(),
            final(self).offset() == old(self).offset(),
            final(self).len() == old(self).len(),
            final(self).ranks() == old(self).ranks(),
            ({
                let s = old(self).state();
                let p = s.in_hand->0;
                let w = (p % old(self).ranks() - 1) as usize;
                if ok {
                    final(self).state() == (WindowState {
                        in_hand: None,
                        pending: s.pending.push((p, w)),
                        ..s
                    })
                } else {
                    &&& final(self).state().first_err matches Some(e)
                    &&& s.first_err is Some ==> Some(e) == s.first_err
                    &&& s.first_err is None ==> (e matches Error::Cluster(t) && t@
                        == "task write failed"@)
                    &&& final(self).state() == (WindowState {
                        in_hand: None,
                        unsent: s.unsent.push(p),
                        first_err: Some(e),
                        ..s
                    })
                }
            }),
    {
        let ghost s = self.state();
        let p = match self.in_hand {
            Some(p) => p,
            None => return,
        };
        self.in_hand = None;
        if ok {
            let w = p % self.ranks - 1;
            self.pending.push((p, w));
            proof {
                let t = self.state();
                lemma_awaits_push(s.pending, (p, w));
                assert forall|q: usize|
                    q < t.next implies (#[trigger] t.handled.contains(q) || awaits(t.pending, q)
                    || t.in_hand == Some(q) || t.unsent.contains(q)) by {
                    assert(s.handled.contains(q) || awaits(s.pending, q) || s.in_hand == Some(q)
                        || s.unsent.contains(q));
                }
            }
        } else {
            if self.first_err.is_none() {
                self.first_err = Some(Error::Cluster("task write failed".to_string()));
            }
            proof {
                let u = self.unsent@.push(p);
                self.unsent@ = u;
                let t = self.state();
                assert(u[u.len() - 1] == p);
                assert forall|q: usize| u.contains(q) <==> s.unsent.contains(q) || q == p by {
                    if s.unsent.contains(q) {
                        let i = choose|i: int| 0 <= i < s.unsent.len() && s.unsent[i] == q;
                        assert(u[i] == q);
                    }
                }
                assert forall|q: usize|
                    q < t.next implies (#[trigger] t.handled.contains(q) || awaits(t.pending, q)
                    || t.in_hand == Some(q) || t.unsent.contains(q)) by {
                    assert(s.handled.contains(q) || awaits(s.pending, q) || s.in_hand == Some(q)
                        || s.unsent.contains(q));
                }
            }
        }
    }

    /// The result of the partition in hand was taken in, or there was an error on the way. The
    /// first error is the one that counts.
    pub fn done(&mut self, result: Result<(), Error>)
        requires
            old(self).wf(),
            old(self).state().in_hand is Some,
        ensures
            final(self).wf(),
            final(self).job() == old(self).job(),
            final(self).offset() == old(self).offset(),
            final(self).len() == old(self).len(),
            final(self).ranks() == old(self).ranks(),
            ({
                let s = old(self).state();
                final(self).state() == (WindowState {
                    in_hand: None,
                    handled: s.handled.push(s.in_hand->0),
                    first_err: first_of(s.first_err, result),
                    ..s
                })
            }),
    {
        let ghost s = self.state();
        let p = match self.in_hand {
            Some(p) => p,
            None => return,
        };
        self.in_hand = None;
        if self.first_err.is_none() {
            match result {
                Ok(()) => {},
                Err(e) => {
                    self.first_err = Some(e);
                },
            }
        }
        proof {
            let h = self.handled@.push(p);
            self.handled@ = h;
            let t = self.state();
            lemma_contains_push(s.handled, p);
            assert forall|a: int, b: int| 0 <= a < h.len() && 0 <= b < h.len() && a
                != b implies h[a] != h[b] by {
                if a == s.handled.len() {
                    assert(s.handled.contains(s.handled[b]));
                } else if b == s.handled.len() {
                    assert(s.handled.contains(s.handled[a]));
                }
            }
            assert forall|q: usize|
                q < t.next implies (#[trigger] t.handled.contains(q) || awaits(t.pending, q)
                || t.in_hand == Some(q) || t.unsent.contains(q)) by {
                assert(s.handled.contains(q) || awaits(s.pending, q) || s.in_hand == Some(q)
                    || s.unsent.contains(q));
            }
        }
    }

    /// How many replies to expect from worker `w`.
    pub fn expected(&self, w: usize) -> (k: usize)
        ensures
            k == asked_of(self.state().pending, w),
    {
        let mut k: usize = 0;
        let mut i: usize = 0;
        assert(self.pending@.take(0) =~= Seq::<(usize, usize)>::empty());
        while i < self.pending.len()
            invariant
                i <= self.pending@.len(),
                k <= i,
                k == asked_of(self.pending@.take(i as int), w),
            decreases self.pending@.len() - i,
        {
            assert(self.pending@.take(i + 1).drop_last() =~= self.pending@.take(i as int));
            if self.pending[i].1 == w {
                k = k + 1;
            }
            i = i + 1;
        }
        assert(self.pending@.take(self.pending@.len() as int) =~= self.pending@);
        k
    }

    /// Where partition `p` stands among the pending ones, if it was asked of worker `w`.
    fn find(&self, p: usize, w: usize) -> (r: Option<usize>)
        ensures
            match r {
                Some(i) => i < self.state().pending.len() && self.state().pending[i as int] == (
                    p,
                    w,
                ),
                None => !self.state().pending.contains((p, w)),
            },
    {
        let mut i: usize = 0;
        while i < self.pending.len()
            invariant
                i <= self.pending@.len(),
                forall|j: int| 0 <= j < i ==> self.pending@[j] != (p, w),
            decreases self.pending@.len() - i,
        {
            if self.pending[i].0 == p && self.pending[i].1 == w {
                return Some(i);
            }
            i = i + 1;
        }
        None
    }

    fn take_in_hand(&mut self, i: usize) -> (p: usize)
        requires
            old(self).wf(),
            old(self).state().in_hand is None,
            i < old(self).state().pending.len(),
        ensures
            final(self).wf(),
            final(self).job() == old(self).job(),
            final(self).offset() == old(self).offset(),
            final(self).len() == old(self).len(),
            final(self).ranks() == old(self).ranks(),
            p == old(self).state().pending[i as int].0,
            ({
                let s = old(self).state();
                final(self).state() == (WindowState {
                    in_hand: Some(p),
                    pending: without(s.pending, i as int),
                    ..s
                })
            }),
    {
        let ghost s = self.state();
        let (p, _) = self.pending.remove(i);
        self.in_hand = Some(p);
        proof {
            let t = self.state();
            assert(t.pending =~= without(s.pending, i as int));
            assert(s.pending[i as int].0 == p);
            lemma_awaits_without(s.pending, i as int);
            assert(awaits(s.pending, p));
            assert forall|q: usize|
                q < t.next implies (#[trigger] t.handled.contains(q) || awaits(t.pending, q)
                || t.in_hand == Some(q) || t.unsent.contains(q)) by {
                assert(s.handled.contains(q) || awaits(s.pending, q) || s.in_hand == Some(q)
                    || s.unsent.contains(q));
            }
            assert forall|a: int, b: int| 0 <= a < b < t.pending.len() implies (
            #[trigger] t.pending[a]).0 != (#[trigger] t.pending[b]).0 by {
                let x = if a < i {
                    a
                } else {
                    a + 1
                };
                let y = if b < i {
                    b
                } else {
                    b + 1
                };
                assert(t.pending[a] == s.pending[x]);
                assert(t.pending[b] == s.pending[y]);
            }
            assert forall|a: int| #![trigger t.pending[a]] 0 <= a < t.pending.len() implies t.pending[a].0
                < t.next && t.pending[a].0 % self.ranks() == t.pending[a].1 + 1 by {
                let x = if a < i {
                    a
                } else {
                    a + 1
                };
                assert(t.pending[a] == s.pending[x]);
            }
        }
        p
    }

    fn note(&mut self, e: Error)
        requires
            old(self).wf(),
        ensures
            final(self).wf(),
            final(self).job() == old(self).job(),
            final(self).offset() == old(self).offset(),
            final(self).len() == old(self).len(),
            final(self).ranks() == old(self).ranks(),
            final(self).state() == (WindowState {
                first_err: first_of(old(self).state().first_err, Err(e)),
                ..old(self).state()
            }),
    {
        if self.first_err.is_none() {
            self.first_err = Some(e);
        }
    }

    /// Looks at a frame from worker `w`. A reply counts only for a partition that this worker was
    /// asked for and has not answered for yet; then the partition is in hand, to be taken over or
    /// computed here. Anything else is an error, and no partition is lost by it.
    pub fn on_reply(&mut self, w: usize, frame: &[u8]) -> (a: OnReply)
        requires
            old(self).wf(),
            old(self).state().in_hand is None,
            w < usize::MAX,
        ensures
            final(self).wf(),
            final(self).job() == old(self).job(),
            final(self).offset() == old(self).offset(),
            final(self).len() == old(self).len(),
            final(self).ranks() == old(self).ranks(),
            ({
                let s = old(self).state();
                ||| exists|i: int, reply: Reply|
                    {
                        let p = s.pending[i].0;
                        &&& 0 <= i < s.pending.len()
                        &&& s.pending[i].1 == w
                        &&& #[trigger] begins(frame@, reply_bytes(reply))
                        &&& final(self).state() == (WindowState {
                            in_hand: Some(p),
                            pending: #[trigger] without(s.pending, i),
                            ..s
                        })
                        &&& match reply {
                            Reply::Computed { partition, payload } => partition == p
                                && (a matches OnReply::Accept { partition: q, payload: b }
                                && q == p && b == payload),
                            Reply::Failed { partition, message } => partition == p
                                && a == (OnReply::Replay { partition: p }),
                        }
                    }
                ||| {
                    &&& a is Ignore
                    &&& exists|e: Error|
                        {
                            &&& #[trigger] unusable(s.pending, w, frame@, e)
                            &&& final(self).state() == (WindowState {
                                first_err: first_of(s.first_err, Err(e)),
                                ..s
                            })
                        }
                }
            }),
    {
        let ghost s = self.state();
        let reply = match decode_reply(frame) {
            Ok(r) => r,
            Err(e) => {
                assert(unusable(s.pending, w, frame@, e));
                self.note(e);
                return OnReply::Ignore;
            },
        };
        assert(begins(frame@, reply_bytes(reply)));
        let p = reply.partition() as usize;
        match self.find(p, w) {
            None => {
                let mut text = "unexpected partition ".to_string();
                push_decimal(&mut text, p as u64);
                text.append(" from rank ");
                push_decimal(&mut text, (w + 1) as u64);
                let e = Error::Cluster(text);
                assert(unusable(s.pending, w, frame@, e));
                self.note(e);
                OnReply::Ignore
            },
            Some(i) => {
                let q = self.take_in_hand(i);
                let ghost left = without(s.pending, i as int);
                match reply {
                    Reply::Computed { partition, payload } => OnReply::Accept {
                        partition: q,
                        payload,
                    },
                    Reply::Failed { .. } => OnReply::Replay { partition: q },
                }
            },
        }
    }

    /// Takes the next partition that no worker has answered for in hand, to compute it here.
    pub fn replay(&mut self) -> (r: Option<usize>)
        requires
            old(self).wf(),
            old(self).state().in_hand is None,
        ensures
            final(self).wf(),
            final(self).job() == old(self).job(),
            final(self).offset() == old(self).offset(),
            final(self).len() == old(self).len(),
            final(self).ranks() == old(self).ranks(),
            ({
                let s = old(self).state();
                match r {
                    Some(p) => {
                        &&& s.pending.len() > 0
                        &&& p == s.pending[0].0
                        &&& final(self).state() == (WindowState {
                            in_hand: Some(p),
                            pending: s.pending.skip(1),
                            ..s
                        })
                    },
                    None => s.pending.len() == 0 && final(self).state() == s,
                }
            }),
    {
        if self.pending.len() == 0 {
            return None;
        }
        let ghost s = self.state();
        let p = self.take_in_hand(0);
        assert(without(s.pending, 0) =~= s.pending.skip(1));
        Some(p)
    }

    /// What the window comes to, when nothing is in hand, pending or left to hand out. Without an
    /// error every partition was handled exactly once.
    pub fn finish(self) -> (r: Result<(), Error>)
        requires
            self.wf(),
            self.state().in_hand is None,
            self.state().pending.len() == 0,
            self.state().next == self.len() || self.state().first_err is Some,
        ensures
            match r {
                Ok(()) => self.state().first_err is None && handled_once(
                    self.state().handled,
                    self.len() as nat,
                ),
                Err(e) => self.state().first_err == Some(e),
            },
    {
        match self.first_err {
            Some(e) => Err(e),
            None => {
                proof {
                    lemma_handled_once(self);
                }
                Ok(())
            },
        }
    }
}

/// One if `pending` names partition `p`.
spec fn awaited_once(pending: Seq<(usize, usize)>, p: int) -> nat {
    if 0 <= p <= usize::MAX && awaits(pending, p as usize) {
        1
    } else {
        0
    }
}

proof fn lemma_asked_of(pending: Seq<(usize, usize)>, w: usize, a: int, b: int)
    requires
        a != b,
        forall|i: int|
            #![trigger pending[i]]
            0 <= i < pending.len() && pending[i].1 == w ==> pending[i].0 == a || pending[i].0 == b,
        forall|i: int, j: int|
            0 <= i < j < pending.len() ==> (#[trigger] pending[i]).0 != (#[trigger] pending[j]).0,
    ensures
        asked_of(pending, w) <= awaited_once(pending, a) + awaited_once(pending, b),
    decreases pending.len(),
{
    if pending.len() > 0 {
        let init = pending.drop_last();
        let last = pending.len() - 1;
        assert forall|i: int|
            #![trigger init[i]]
            0 <= i < init.len() && init[i].1 == w implies init[i].0 == a || init[i].0 == b by {
            assert(init[i] == pending[i]);
        }
        lemma_asked_of(init, w, a, b);
        assert forall|p: usize| awaits(init, p) implies #[trigger] awaits(pending, p)
            && pending[last].0 != p by {
            let i = choose|i: int| 0 <= i < init.len() && (#[trigger] init[i]).0 == p;
            assert(pending[i].0 == p);
        }
        assert(awaits(pending, pending[last].0));
    }
}

/// A worker is asked for two partitions at a time at most, in a window that is no longer than
/// those that a job is handed out in.
pub proof fn lemma_two_asked_of_a_worker(w: Window, worker: usize)
    requires
        w.wf(),
        w.len() <= window_size(w.ranks()),
    ensures
        asked_of(w.state().pending, worker) <= 2,
{
    let pending = w.state().pending;
    let ranks = w.ranks() as int;
    let a = worker + 1;
    assert forall|i: int|
        #![trigger pending[i]]
        0 <= i < pending.len() && pending[i].1 == worker implies pending[i].0 == a || pending[i].0
        == a + ranks by {
        let p = pending[i].0 as int;
        assert(p % ranks == a);
        assert(p < 2 * ranks);
        if p < ranks {
            vstd::arithmetic::div_mod::lemma_small_mod(p as nat, ranks as nat);
        } else {
            vstd::arithmetic::div_mod::lemma_mod_add_multiples_vanish(p - ranks, ranks);
            vstd::arithmetic::div_mod::lemma_small_mod((p - ranks) as nat, ranks as nat);
        }
    }
    lemma_asked_of(pending, worker, a, a + ranks);
}

/// Each of the first `n` partitions was handled once, and no other.
pub open spec fn handled_once(handled: Seq<usize>, n: nat) -> bool {
    &&& handled.no_duplicates()
    &&& forall|p: usize| #[trigger] handled.contains(p) <==> p < n
}

/// A frame from worker `w` is no reply to anything that it was asked for.
pub open spec fn unusable(pending: Seq<(usize, usize)>, w: usize, frame: Seq<u8>, e: Error) -> bool {
    &&& e is Cluster
    &&& {
        ||| forall|r: Reply| !begins(frame, #[trigger] reply_bytes(r))
        ||| exists|r: Reply| #[trigger]
            begins(frame, reply_bytes(r)) && ({
                let p = match r {
                    Reply::Computed { partition, payload } => partition,
                    Reply::Failed { partition, message } => partition,
                };
                &&& !pending.contains((p as usize, w))
                &&& e->Cluster_0@ == "unexpected partition "@ + decimal(p as nat)
                    + " from rank "@ + decimal((w + 1) as nat)
            })
    }
}

/// In a window without errors, once nothing is in hand or pending and all is handed out, every
/// partition was handled exactly once. With errors, everything that was handed out and could be
/// sent was still handled exactly once.
pub proof fn lemma_handled_once(w: Window)
    requires
        w.wf(),
        w.state().in_hand is None,
        w.state().pending.len() == 0,
    ensures
        w.state().handled.no_duplicates(),
        forall|p: usize| #[trigger]
            w.state().handled.contains(p) <==> p < w.state().next && !w.state().unsent.contains(p),
        w.state().first_err is None && w.state().next == w.len() ==> handled_once(
            w.state().handled,
            w.len() as nat,
        ),
{
    let s = w.state();
    assert forall|p: usize| #[trigger] s.handled.contains(p) <==> p < s.next && !s.unsent.contains(
        p,
    ) by {
        if p < s.next && !s.unsent.contains(p) {
            assert(s.handled.contains(p) || awaits(s.pending, p) || s.in_hand == Some(p)
                || s.unsent.contains(p));
        }
    }
    if s.first_err is None {
        assert(s.unsent.len() == 0);
        assert forall|p: usize| !s.unsent.contains(p) by {}
    }
}

proof fn lemma_contains_push(s: Seq<usize>, x: usize)
    ensures
        forall|q: usize| #[trigger] s.push(x).contains(q) <==> s.contains(q) || q == x,
{
    assert forall|q: usize| #[trigger] s.push(x).contains(q) <==> s.contains(q) || q == x by {
        assert(s.push(x)[s.len() as int] == x);
        if s.contains(q) {
            let i = choose|i: int| 0 <= i < s.len() && s[i] == q;
            assert(s.push(x)[i] == q);
        }
    }
}

proof fn lemma_awaits_without(pending: Seq<(usize, usize)>, i: int)
    requires
        0 <= i < pending.len(),
        forall|a: int, b: int|
            0 <= a < b < pending.len() ==> (#[trigger] pending[a]).0 != (#[trigger] pending[b]).0,
    ensures
        forall|q: usize| #[trigger]
            awaits(without(pending, i), q) <==> awaits(pending, q) && q != pending[i].0,
{
    let left = without(pending, i);
    assert forall|q: usize| #[trigger] awaits(left, q) <==> awaits(pending, q) && q
        != pending[i].0 by {
        if awaits(left, q) {
            let j = choose|j: int| 0 <= j < left.len() && (#[trigger] left[j]).0 == q;
            if j < i {
                assert(pending[j] == left[j]);
            } else {
                assert(pending[j + 1] == left[j]);
            }
        }
        if awaits(pending, q) && q != pending[i].0 {
            let j = choose|j: int| 0 <= j < pending.len() && (#[trigger] pending[j]).0 == q;
            if j < i {
                assert(left[j] == pending[j]);
            } else {
                assert(left[j - 1] == pending[j]);
            }
        }
    }
}

/// A result that a worker sent cannot be decoded.
pub fn undecodable(e: &Error) -> (r: Error)
    ensures
        r matches Error::Cluster(t) && t@ == "reply decode: "@ + error_text(*e),
{
    let mut s = "reply decode: ".to_string();
    let m = e.message();
    s.append(m.as_str());
    Error::Cluster(s)
}

// ---- the worker's side of a window

/// What a worker does with a frame from the driver: computes a partition, or stops.
pub fn on_task(frame: &[u8]) -> (r: Option<(u32, u64, u64)>)
    ensures
        match r {
            Some((partition, job, task)) => begins(
                frame@,
                task_layout(Task::Run { partition, job, task }),
            ),
            None => begins(frame@, task_layout(Task::Done)) || forall|t: Task|
                !begins(frame@, #[trigger] task_layout(t)),
        },
{
    match decode_task(frame) {
        Ok(Task::Run { partition, job, task }) => Some((partition, job, task)),
        Ok(Task::Done) => None,
        Err(_) => None,
    }
}

/// The frame with which a worker answers: the encoded result, or what went wrong.
pub fn answer(partition: u32, result: Result<Vec<u8>, Error>) -> (frame: Vec<u8>)
    ensures
        match result {
            Ok(payload) => frame@ == reply_bytes(Reply::Computed { partition, payload }),
            Err(e) => exists|message: String|
                message@ == error_text(e) && frame@ == #[trigger] reply_bytes(
                    Reply::Failed { partition, message },
                ),
        },
{
    match result {
        Ok(payload) => {
            let r = Reply::Computed { partition, payload };
            encode_reply(&r)
        },
        Err(e) => {
            let message = e.message();
            let r = Reply::Failed { partition, message };
            encode_reply(&r)
        },
    }
}

/// How many threads a worker computes on: at most two.
pub fn worker_threads(available: usize) -> (n: usize)
    ensures
        n == (if available >= 2 {
            2usize
        } else {
            1usize
        }),
{
    if available >= 2 {
        2
    } else {
        1
    }
}

proof fn lemma_awaits_push(pending: Seq<(usize, usize)>, e: (usize, usize))
    ensures
        forall|q: usize| #[trigger]
            awaits(pending.push(e), q) <==> awaits(pending, q) || q == e.0,
{
    let next = pending.push(e);
    assert forall|q: usize| #[trigger] awaits(next, q) <==> awaits(pending, q) || q == e.0 by {
        assert(next[pending.len() as int] == e);
        if awaits(pending, q) {
            let i = choose|i: int| 0 <= i < pending.len() && (#[trigger] pending[i]).0 == q;
            assert(next[i].0 == q);
        }
        if awaits(next, q) {
            let i = choose|i: int| 0 <= i < next.len() && (#[trigger] next[i]).0 == q;
            if i < pending.len() {
                assert(pending[i].0 == q);
            }
        }
    }
}

/// The partitions of a job that its windows handled, where `handled` holds the partitions that each
/// window handled.
pub open spec fn job_handled(ws: Seq<(usize, usize)>, handled: Seq<Seq<usize>>) -> Seq<int> {
    concat(
        Seq::new(ws.len(), |w: int| handled[w].map_values(|p: usize| ws[w].0 as int + p as int)),
    )
}

/// A dispatch over all windows delivers each partition of the job once, where each window handled
/// each of its partitions once.
pub proof fn lemma_dispatch_delivers(start: nat, n: nat, size: nat, handled: Seq<Seq<usize>>)
    requires
        size > 0,
        start <= n <= usize::MAX,
        handled.len() == windows_from(start, n, size).len(),
        forall|w: int|
            0 <= w < handled.len() ==> handled_once(
                #[trigger] handled[w],
                windows_from(start, n, size)[w].1 as nat,
            ),
    ensures
        ({
            let all = job_handled(windows_from(start, n, size), handled);
            &&& all.no_duplicates()
            &&& forall|p: int| #[trigger] all.contains(p) <==> start <= p < n
        }),
    decreases n - start,
{
    let ws = windows_from(start, n, size);
    let all = job_handled(ws, handled);
    let lists = Seq::new(
        ws.len(),
        |w: int| handled[w].map_values(|p: usize| ws[w].0 as int + p as int),
    );
    if start < n {
        let len = if n - start <= size {
            (n - start) as nat
        } else {
            size
        };
        let rest = handled.skip(1);
        let ws2 = windows_from(start + len, n, size);
        assert(ws =~= seq![(start as usize, len as usize)] + ws2);
        assert forall|w: int| 0 <= w < rest.len() implies handled_once(
            #[trigger] rest[w],
            ws2[w].1 as nat,
        ) by {
            assert(handled_once(handled[w + 1], ws[w + 1].1 as nat));
        }
        lemma_dispatch_delivers(start + len, n, size, rest);
        let tail = job_handled(ws2, rest);
        assert(lists.skip(1) =~= Seq::new(
            ws2.len(),
            |w: int| rest[w].map_values(|p: usize| ws2[w].0 as int + p as int),
        ));
        lemma_concat_first(lists);
        let head = lists[0];
        assert(handled_once(handled[0], len));
        assert(all == head + tail);
        assert forall|p: int| #[trigger] all.contains(p) <==> start <= p < n by {
            if all.contains(p) {
                let i = choose|i: int| 0 <= i < all.len() && all[i] == p;
                if i < head.len() {
                    assert(handled[0].contains(handled[0][i]));
                } else {
                    assert(tail[i - head.len()] == p);
                    assert(tail.contains(p));
                }
            }
            if start <= p < n {
                if p < start + len {
                    let q = (p - start) as usize;
                    assert(handled[0].contains(q));
                    let i = choose|i: int| 0 <= i < handled[0].len() && handled[0][i] == q;
                    assert(all[i] == p);
                } else {
                    assert(tail.contains(p));
                    let i = choose|i: int| 0 <= i < tail.len() && tail[i] == p;
                    assert(all[head.len() + i] == p);
                }
            }
        }
        assert forall|i: int, j: int| 0 <= i < all.len() && 0 <= j < all.len() && i
            != j implies all[i] != all[j] by {
            if i < head.len() && j < head.len() {
                assert(handled[0][i] != handled[0][j]);
            } else if i >= head.len() && j >= head.len() {
                assert(tail[i - head.len()] != tail[j - head.len()]);
            } else {
                let (a, b) = if i < head.len() {
                    (i, j)
                } else {
                    (j, i)
                };
                assert(handled[0].contains(handled[0][a]));
                assert(all[a] < start + len);
                assert(tail.contains(tail[b - head.len()]));
                assert(all[b] >= start + len);
            }
        }
    }
}

// ---- sizes

/// Two partitions are handed out for each rank at a time, and at least one in all.
pub proof fn lemma_window_size(ranks: usize)
    ensures
        window_size(ranks) >= 1,
        0 < ranks * 2 <= usize::MAX ==> window_size(ranks) == ranks * 2,
        ranks * 2 > usize::MAX ==> window_size(ranks) == usize::MAX,
        window_size(0) == 1,
{
}

/// Every window but the last is full.
pub proof fn lemma_windows_full(start: nat, n: nat, size: nat)
    requires
        size > 0,
        start <= n <= usize::MAX,
    ensures
        forall|i: int|
            0 <= i < windows_from(start, n, size).len() - 1 ==> (#[trigger] windows_from(
                start,
                n,
                size,
            )[i]).1 == size,
    decreases n - start,
{
    if n - start > size {
        let rest = windows_from(start + size, n, size);
        let ws = windows_from(start, n, size);
        lemma_windows_full(start + size, n, size);
        assert(ws =~= seq![(start as usize, size as usize)] + rest);
        assert forall|i: int| 0 <= i < ws.len() - 1 implies (#[trigger] ws[i]).1 == size by {
            if i > 0 {
                assert(ws[i] == rest[i - 1]);
            }
        }
    }
}

/// A worker is asked for the pending partitions that name it.
pub proof fn lemma_asked_counts(pending: Seq<(usize, usize)>, w: usize)
    ensures
        asked_of(pending, w) == pending.filter(|e: (usize, usize)| e.1 == w).len(),
    decreases pending.len(),
{
    reveal(Seq::filter);
    if pending.len() > 0 {
        lemma_asked_counts(pending.drop_last(), w);
    }
}

/// The first error is kept; what comes later does not take its place.
pub proof fn lemma_first_of(first: Option<Error>, r: Result<(), Error>)
    ensures
        first is Some ==> first_of(first, r) == first,
        first is None && r is Err ==> first_of(first, r) == Some(r->Err_0),
        first is None && r is Ok ==> first_of(first, r) is None,
{
}

/// A frame is turned down only if it holds no reply, or one for a partition that the worker was not
/// asked for; then the error names the partition and the worker.
pub proof fn lemma_unusable(
    pending: Seq<(usize, usize)>,
    w: usize,
    frame: Seq<u8>,
    e: Error,
    reply: Reply,
    p: u32,
)
    requires
        frame.len() <= usize::MAX,
        unusable(pending, w, frame, e),
        begins(frame, reply_bytes(reply)),
        p == match reply {
            Reply::Computed { partition, payload } => partition,
            Reply::Failed { partition, message } => partition,
        },
    ensures
        !pending.contains((p as usize, w)),
        e matches Error::Cluster(t) && t@ == "unexpected partition "@ + decimal(p as nat)
            + " from rank "@ + decimal((w + 1) as nat),
{
    let r = choose|r: Reply| #[trigger]
        begins(frame, reply_bytes(r)) && ({
            let p = match r {
                Reply::Computed { partition, payload } => partition,
                Reply::Failed { partition, message } => partition,
            };
            &&& !pending.contains((p as usize, w))
            &&& e->Cluster_0@ == "unexpected partition "@ + decimal(p as nat) + " from rank "@
                + decimal((w + 1) as nat)
        });
    lemma_reply_unique(frame, r, reply);
}

/// Partitions that were each handled once are as many as there are, and each is among them.
pub proof fn lemma_each_handled(handled: Seq<usize>, n: nat)
    requires
        n <= usize::MAX,
        handled_once(handled, n),
    ensures
        handled.no_duplicates(),
        forall|p: usize| p < n ==> #[trigger] handled.contains(p),
        forall|i: int| 0 <= i < handled.len() ==> #[trigger] handled[i] < n,
{
    assert forall|i: int| 0 <= i < handled.len() implies #[trigger] handled[i] < n by {
        assert(handled.contains(handled[i]));
    }
}

/// What is answered leaves those that are waited for; the others stay, in their order.
pub proof fn lemma_without<A>(s: Seq<A>, i: int)
    requires
        0 <= i < s.len(),
    ensures
        without(s, i) == s.remove(i),
        without(s, i).len() == s.len() - 1,
{
    assert(without(s, i) =~= s.remove(i));
}

} // verus!
