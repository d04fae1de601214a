//! Contexts: where datasets are made.
use std::sync::atomic::AtomicU64;
use std::sync::Arc;

use vstd::prelude::*;

use crate::cluster::Cluster;
use crate::dataset::{cloned_all, memory, never_fails, whole_first, within};
use crate::error::Error;
use crate::ids::{RddId, ShuffleId};
use crate::metrics::Counters;
use crate::partition::{
    between_brackets, cut_at, lemma_cut_sizes, lemma_cuts, parse_local_threads, split_contiguous,
};
use crate::rdd::Rdd;
use crate::source::{counts_opens, text_data, text_lines};
use crate::tally::{advance, advanced};
use crate::text::{decimal, parsed_within, trimmed};

verus! {

/// What all datasets of a context share.
#[derive(Debug)]
pub struct ContextInner {
    pub(crate) parallelism: usize,
    pub(crate) cluster: Option<Arc<Cluster>>,
    pub(crate) spill_limit: usize,
    pub(crate) counters: Arc<Counters>,
    next_id: AtomicU64,
    next_shuffle: AtomicU64,
}

impl ContextInner {
    /// How many partitions are computed at a time.
    pub closed spec fn threads(&self) -> usize {
        self.parallelism
    }

    /// This rank of the cluster, if there is one.
    pub closed spec fn member(&self) -> Option<Cluster> {
        match self.cluster {
            Some(c) => Some(*c),
            None => None,
        }
    }

    /// The place in the cluster, if there is one.
    pub open spec fn place(&self) -> Option<(usize, usize)> {
        match self.member() {
            Some(c) => Some((c.rank, c.n)),
            None => None,
        }
    }

    /// How many bytes of combined records a map task may hold.
    pub closed spec fn limit(&self) -> usize {
        self.spill_limit
    }

    /// Results are computed here: there is no cluster, or this rank is its driver.
    pub open spec fn computes(&self) -> bool {
        match self.place() {
            Some((rank, n)) => rank == 0,
            None => true,
        }
    }

    /// `id` is what the count of datasets may have stood at when it was moved on by one.
    pub closed spec fn numbers_rdd(&self, id: RddId) -> bool {
        advanced(&self.next_id, 1, id.0)
    }

    /// `id` is what the count of shuffles may have stood at when it was moved on by one.
    pub closed spec fn numbers_shuffle(&self, id: ShuffleId) -> bool {
        advanced(&self.next_shuffle, 1, id.0)
    }

    /// The counters of the context.
    pub closed spec fn tally(&self) -> Counters {
        *self.counters
    }

    /// `n` is what a read of the opened partitions of files may give.
    pub open spec fn opened(&self, n: u64) -> bool {
        self.tally().opened(n)
    }

    /// Reads of the bytes sent to and received from other ranks may give these; without a cluster
    /// there are none.
    pub open spec fn exchanged(&self, sent: u64, recv: u64) -> bool {
        match self.member() {
            Some(c) => c.traffic.sent_bytes(sent) && c.traffic.recv_bytes(recv),
            None => sent == 0 && recv == 0,
        }
    }

    /// An id for the next dataset. Threads that share the context take ids at any time.
    pub(crate) fn alloc_id(&self) -> (id: RddId)
        ensures
            self.numbers_rdd(id),
    {
        RddId(advance(&self.next_id, 1))
    }

    /// An id for the next shuffle.
    pub(crate) fn alloc_shuffle(&self) -> (id: ShuffleId)
        ensures
            self.numbers_shuffle(id),
    {
        ShuffleId(advance(&self.next_shuffle, 1))
    }

    /// Whether results are computed on this rank.
    pub(crate) fn owns(&self) -> (b: bool)
        ensures
            b == self.computes(),
    {
        match &self.cluster {
            Some(c) => c.is_driver(),
            None => true,
        }
    }

    /// Whether there is a cluster.
    pub(crate) fn in_cluster(&self) -> (b: bool)
        ensures
            b == (self.place() is Some),
    {
        self.cluster.is_some()
    }

    pub(crate) fn thread_limit(&self) -> (n: usize)
        ensures
            n == self.threads(),
    {
        self.parallelism
    }

    pub(crate) fn counters(&self) -> (c: Arc<Counters>)
        ensures
            *c == self.tally(),
    {
        self.counters.clone()
    }

    pub(crate) fn spill_limit_bytes(&self) -> (n: usize)
        ensures
            n == self.limit(),
    {
        self.spill_limit
    }
}

/// Where datasets are made.
#[derive(Debug)]
pub struct SpatterContext {
    pub(crate) inner: Arc<ContextInner>,
}

impl Clone for SpatterContext {
    fn clone(&self) -> (sc: Self)
        ensures
            sc.shared() == self.shared(),
    {
        proof {
            use_type_invariant(self);
        }
        SpatterContext { inner: self.inner.clone() }
    }
}

/// A context in the making.
#[derive(Debug)]
pub struct ContextBuilder {
    master: String,
}

/// What a context is built from besides its master.
#[derive(Debug)]
pub struct Setup {
    /// How many threads `local[*]` stands for.
    pub available: usize,
    pub cluster: Option<Arc<Cluster>>,
    pub spill_limit: usize,
    pub counters: Arc<Counters>,
}

/// The limit on combined records in memory where none is set, in bytes.
pub const DEFAULT_SPILL_LIMIT: usize = 67108864;

impl Setup {
    /// No cluster, the usual limit on combined records in memory, and new counters.
    pub fn local(available: usize) -> (s: Self)
        ensures
            s.available == available,
            s.cluster is None,
            s.spill_limit == DEFAULT_SPILL_LIMIT,
            s.counters.is_new(),
    {
        Setup {
            available,
            cluster: None,
            spill_limit: DEFAULT_SPILL_LIMIT,
            counters: Arc::new(Counters::new()),
        }
    }
}

impl ContextBuilder {
    /// The master that was asked for.
    pub closed spec fn asked(&self) -> Seq<char> {
        self.master@
    }

    /// Asks for a master.
    pub fn master(self, master: &str) -> (b: Self)
        ensures
            b.asked() == master@,
    {
        ContextBuilder { master: master.to_string() }
    }

    /// Builds the context; its parallelism is what the master asks for.
    pub fn build(self, setup: Setup) -> (r: Result<SpatterContext, Error>)
        requires
            setup.available > 0,
        ensures
            ({
                let m = trimmed(self.asked());
                let inner = between_brackets(m);
                let asked = if m == "local"@ {
                    Some(1nat)
                } else if m == "local[*]"@ {
                    Some(setup.available as nat)
                } else if inner is Some {
                    parsed_within(inner->0, usize::MAX as nat)
                } else {
                    None
                };
                match asked {
                    Some(n) => if n == 0 {
                        r == Err::<SpatterContext, Error>(Error::InvalidParallelism(0))
                    } else {
                        r matches Ok(sc) && sc.shared().threads() == n && sc.shared().limit()
                            == setup.spill_limit && sc.shared().tally() == *setup.counters
                            && sc.shared().member() == (match setup.cluster {
                            Some(c) => Some(*c),
                            None => None,
                        })
                    },
                    None => r matches Err(Error::InvalidMaster(t)) && t@ == m,
                }
            }),
            forall|n: nat|
                0 < n <= usize::MAX && trimmed(self.asked()) == "local["@ + #[trigger] decimal(n)
                    + "]"@ ==> (r matches Ok(sc) && sc.shared().threads() == n),
            trimmed(self.asked()) == "local"@ ==> (r matches Ok(sc) && sc.shared().threads() == 1),
            trimmed(self.asked()) == "local[*]"@ ==> (r matches Ok(sc) && sc.shared().threads()
                == setup.available),
    {
        proof {
            reveal_strlit("local");
            reveal_strlit("local[*]");
        }
        let parallelism = match parse_local_threads(self.master.as_str(), setup.available) {
            Ok(n) => n,
            Err(e) => return Err(e),
        };
        let inner = Arc::new(
            ContextInner {
                parallelism,
                cluster: setup.cluster,
                spill_limit: setup.spill_limit,
                counters: setup.counters,
                next_id: AtomicU64::new(0),
                next_shuffle: AtomicU64::new(0),
            },
        );
        Ok(SpatterContext { inner })
    }
}

impl SpatterContext {
    /// What the datasets of this context share.
    pub closed spec fn shared(&self) -> ContextInner {
        *self.inner
    }

    #[verifier::type_invariant]
    closed spec fn has_threads(&self) -> bool {
        self.inner.parallelism > 0
    }

    pub fn builder() -> (b: ContextBuilder)
        ensures
            b.asked() == "local[*]"@,
    {
        ContextBuilder { master: "local[*]".to_string() }
    }

    pub fn parallelism(&self) -> (n: usize)
        ensures
            n == self.shared().threads(),
            n > 0,
    {
        proof {
            use_type_invariant(self);
        }
        self.inner.parallelism
    }

    pub fn rank(&self) -> (r: usize)
        ensures
            r == match self.shared().place() {
                Some((rank, n)) => rank,
                None => 0,
            },
    {
        match &self.inner.cluster {
            Some(c) => c.rank,
            None => 0,
        }
    }

    pub fn world_size(&self) -> (n: usize)
        ensures
            n == match self.shared().place() {
                Some((rank, n)) => n,
                None => 1,
            },
    {
        match &self.inner.cluster {
            Some(c) => c.n,
            None => 1,
        }
    }

    pub fn is_driver(&self) -> (b: bool)
        ensures
            b == self.shared().computes(),
    {
        self.rank() == 0
    }

    /// The bytes sent to and received from other ranks.
    pub fn net_bytes(&self) -> (b: (u64, u64))
        ensures
            self.shared().exchanged(b.0, b.1),
            self.shared().place() is None ==> b == (0u64, 0u64),
    {
        match &self.inner.cluster {
            Some(c) => (c.bytes_sent(), c.bytes_recv()),
            None => (0, 0),
        }
    }

    /// How often a partition of a file was opened.
    pub fn file_partition_opens(&self) -> (n: u64)
        ensures
            self.shared().opened(n),
    {
        self.inner.counters.file_opens()
    }

    /// The values of all ranks, on the driver: `gather` exchanges them within a cluster.
    pub fn gather_u64<G: Fn(Vec<u64>) -> Result<Vec<u64>, Error>>(
        &self,
        value: u64,
        gather: &G,
    ) -> (r: Result<Vec<u64>, Error>)
        requires
            forall|v: Vec<u64>| #[trigger] call_requires(*gather, (v,)),
        ensures
            if self.shared().place() is None {
                r matches Ok(v) && v@ == seq![value]
            } else {
                exists|own: Vec<u64>|
                    own@ == seq![value] && #[trigger] call_ensures(*gather, (own,), r)
            },
    {
        let mut own: Vec<u64> = Vec::new();
        own.push(value);
        assert(own@ =~= seq![value]);
        if self.inner.in_cluster() {
            gather(own)
        } else {
            Ok(own)
        }
    }

    /// A dataset of `data` in as many partitions as the context has threads.
    pub fn parallelize<T: Clone + Send + Sync + 'static>(&self, data: Vec<T>) -> (r: Rdd<T>)
        ensures
            r.shared() == self.shared(),
            r.dataset().parts() == self.shared().threads(),
            whole_first(r.dataset()),
            never_fails(r.dataset()),
            self.shared().numbers_rdd(r.node().id),
            r.node().deps@.len() == 0,
            r.node().parents@.len() == 0,
            r.node().partitioner is None,
            forall|out: Map<int, Seq<T>>| #[trigger]
                r.dataset().yields(out) <==> holds_chunks(
                    data@,
                    self.shared().threads() as nat,
                    out,
                ),
    {
        proof {
            use_type_invariant(self);
        }
        match self.parallelize_partitions(data, self.inner.parallelism) {
            Ok(r) => r,
            Err(_) => vstd::pervasive::unreached(),
        }
    }

    /// A dataset of `data` in `n_partitions` runs of consecutive elements.
    pub fn parallelize_partitions<T: Clone + Send + Sync + 'static>(
        &self,
        data: Vec<T>,
        n_partitions: usize,
    ) -> (r: Result<Rdd<T>, Error>)
        ensures
            match r {
                Ok(rdd) => {
                    &&& n_partitions > 0
                    &&& rdd.shared() == self.shared()
                    &&& rdd.dataset().parts() == n_partitions
                    &&& whole_first(rdd.dataset())
                    &&& never_fails(rdd.dataset())
                    &&& self.shared().numbers_rdd(rdd.node().id)
                    &&& rdd.node().deps@.len() == 0
                    &&& rdd.node().parents@.len() == 0
                    &&& rdd.node().partitioner is None
                    &&& forall|out: Map<int, Seq<T>>| #[trigger]
                        rdd.dataset().yields(out) <==> holds_chunks(
                            data@,
                            n_partitions as nat,
                            out,
                        )
                },
                Err(e) => n_partitions == 0 && e == Error::InvalidParallelism(0),
            },
    {
        let parts = match split_contiguous(data, n_partitions) {
            Ok(p) => p,
            Err(e) => return Err(e),
        };
        let ghost cut = parts@;
        let d = memory(parts);
        let rdd = Rdd::new(self.inner.clone(), n_partitions, Vec::new(), Vec::new(), None, d);
        proof {
            assert forall|out: Map<int, Seq<T>>| #[trigger]
                rdd.dataset().yields(out) <==> holds_chunks(data@, n_partitions as nat, out) by {
                if within(out, n_partitions as nat) {
                    assert forall|p: int| #[trigger] out.contains_key(p) implies cut[p]@ == chunk(
                        data@,
                        n_partitions as nat,
                        p,
                    ) by {}
                }
            }
        }
        Ok(rdd)
    }

    /// A dataset with the given partitions, of which there must be at least one.
    pub fn from_partitions<T: Clone + Send + Sync + 'static>(&self, parts: Vec<Vec<T>>) -> (r:
        Result<Rdd<T>, Error>)
        ensures
            match r {
                Ok(rdd) => {
                    &&& parts@.len() > 0
                    &&& rdd.shared() == self.shared()
                    &&& rdd.dataset().parts() == parts@.len()
                    &&& whole_first(rdd.dataset())
                    &&& never_fails(rdd.dataset())
                    &&& self.shared().numbers_rdd(rdd.node().id)
                    &&& rdd.node().deps@.len() == 0
                    &&& rdd.node().parents@.len() == 0
                    &&& rdd.node().partitioner is None
                    &&& forall|out: Map<int, Seq<T>>| #[trigger]
                        rdd.dataset().yields(out) <==> within(out, parts@.len()) && forall|p: int|
                            #[trigger] out.contains_key(p) ==> cloned_all(parts@[p]@, out[p])
                },
                Err(e) => parts@.len() == 0 && e == Error::InvalidParallelism(0),
            },
    {
        let n = parts.len();
        if n == 0 {
            return Err(Error::InvalidParallelism(0));
        }
        let d = memory(parts);
        let rdd = Rdd::new(self.inner.clone(), n, Vec::new(), Vec::new(), None, d);
        Ok(rdd)
    }

    /// A dataset of the lines of a text file with these contents, in as many partitions as the
    /// context has threads.
    pub fn read_text_file(&self, contents: &Vec<u8>) -> (r: Result<Rdd<String>, Error>)
        ensures
            text_dataset(*self, contents@, self.shared().threads(), r),
    {
        self.read_text_file_partitions(contents, self.inner.parallelism)
    }

    /// A dataset of the lines of a text file with these contents. The file is cut into
    /// `n_partitions` byte ranges; each partition holds the lines that start in its range.
    pub fn read_text_file_partitions(&self, contents: &Vec<u8>, n_partitions: usize) -> (r: Result<
        Rdd<String>,
        Error,
    >)
        ensures
            text_dataset(*self, contents@, n_partitions, r),
    {
        let d = match text_lines(contents.clone(), n_partitions, self.inner.counters.clone()) {
            Ok(d) => d,
            Err(e) => return Err(e),
        };
        let rdd = Rdd::new(self.inner.clone(), n_partitions, Vec::new(), Vec::new(), None, d);
        Ok(rdd)
    }
}

/// What reading a text file with these contents in `n_partitions` partitions gives: a dataset, which
/// reads the file whenever it is evaluated.
pub open spec fn text_dataset(
    sc: SpatterContext,
    contents: Seq<u8>,
    n_partitions: usize,
    r: Result<Rdd<String>, Error>,
) -> bool {
    match r {
        Ok(rdd) => {
            &&& n_partitions > 0
            &&& rdd.shared() == sc.shared()
            &&& sc.shared().numbers_rdd(rdd.node().id)
            &&& rdd.node().deps@.len() == 0
            &&& rdd.node().parents@.len() == 0
            &&& rdd.node().partitioner is None
            &&& text_data(rdd.dataset(), contents, n_partitions as nat)
            &&& counts_opens(rdd.dataset(), sc.shared().tally())
        },
        Err(e) => n_partitions == 0 && e == Error::InvalidParallelism(0),
    }
}

/// Part `p` of `data` in `n` parts.
pub open spec fn chunk<T>(data: Seq<T>, n: nat, p: int) -> Seq<T> {
    data.subrange(cut_at(p, data.len(), n), cut_at(p + 1, data.len(), n))
}

/// The partitions of `out` hold clones of the parts of `data`.
pub open spec fn holds_chunks<T: Clone>(data: Seq<T>, n: nat, out: Map<int, Seq<T>>) -> bool {
    &&& within(out, n)
    &&& forall|p: int| #[trigger] out.contains_key(p) ==> cloned_all(chunk(data, n, p), out[p])
}

// ---- laws

/// Partition `p` of `n` holds the items between two cuts, which stand where the shares of the
/// partitions before them end, rounded down; so no two partitions differ by more than one item.
pub proof fn lemma_chunk<T>(data: Seq<T>, n: nat, p: int, q: int)
    requires
        0 <= p < n,
        0 <= q < n,
    ensures
        chunk(data, n, p) == data.subrange(
            p * data.len() / n as int,
            (p + 1) * data.len() / n as int,
        ),
        chunk(data, n, p).len() <= chunk(data, n, q).len() + 1,
        data.len() / n <= chunk(data, n, p).len() <= data.len() / n + 1,
{
    lemma_cut_sizes(p, data.len(), n);
    lemma_cut_sizes(q, data.len(), n);
    lemma_cuts(p, data.len(), n);
    lemma_cuts(q, data.len(), n);
}

/// Without a setting, combined records may take 64 MiB.
pub proof fn lemma_usual_spill_limit()
    ensures
        DEFAULT_SPILL_LIMIT == 64 * 1024 * 1024,
{
}

/// A process computes datasets where it is in no cluster, or is the driver of one: the process of rank
/// 0.
pub proof fn lemma_who_computes(c: ContextInner)
    ensures
        c.member() is None ==> c.computes(),
        c.member() matches Some(m) ==> (c.computes() <==> m.rank == 0),
{
}

/// Datasets and shuffles are numbered one by one, each kind by a shared number of its own.
pub proof fn lemma_numbering(c: ContextInner) -> (cells: (AtomicU64, AtomicU64))
    ensures
        forall|id: RddId| #[trigger] c.numbers_rdd(id) <==> advanced(&cells.0, 1, id.0),
        forall|id: ShuffleId| #[trigger] c.numbers_shuffle(id) <==> advanced(&cells.1, 1, id.0),
{
    (c.next_id, c.next_shuffle)
}

/// Reading a text file in `n_partitions` partitions gives a dataset with as many, of the lines of the
/// file; it fails only where no partition is asked for.
pub proof fn lemma_text_dataset(
    sc: SpatterContext,
    contents: Seq<u8>,
    n_partitions: usize,
    r: Result<Rdd<String>, Error>,
)
    requires
        text_dataset(sc, contents, n_partitions, r),
    ensures
        n_partitions == 0 ==> r == Err::<Rdd<String>, Error>(Error::InvalidParallelism(0)),
        n_partitions > 0 ==> r is Ok,
        r matches Ok(rdd) ==> rdd.dataset().parts() == n_partitions && text_data(
            rdd.dataset(),
            contents,
            n_partitions as nat,
        ),
{
}

} // verus!
