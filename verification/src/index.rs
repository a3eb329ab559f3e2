//! The in-memory IVF index and the integer side of a nearest-neighbour
//! query.
//!
//! A query first orders the centroids by distance and probes the nearest
//! clusters (`NPROBE` of them, or `NPROBE_WIDE` on a second, wider pass);
//! the vectors of the probed clusters are the candidates; the `k` nearest
//! candidates are the neighbours, and the query's fraud ratio is the share of
//! frauds among them. Distances are computed by the caller and come in as
//! keys (see `select`).

use vstd::prelude::*;
use crate::select::{is_k_smallest, k_smallest};

verus! {

/// Clusters probed on the first pass of a query.
pub const NPROBE: usize = 8;

/// Clusters probed on the second pass, when the first is inconclusive.
pub const NPROBE_WIDE: usize = 24;

/// Why parts do not make an index.
#[derive(Debug, Clone, Copy, PartialEq, Eq)]
pub enum LayoutError {
    /// There is not exactly one more offset than centroids.
    OffsetCount,
    /// There is not exactly one label per vector.
    LabelCount,
    /// An offset lies beyond the last vector.
    OffsetOutOfRange,
}

/// An IVF index: centroids (bit patterns of their `f32`), cluster offsets,
/// the vectors quantized to `i16`, and a label byte per vector (non-zero for
/// fraud).
pub struct Index {
    centroids: Vec<[u32; 14]>,
    offsets: Vec<u32>,
    vectors: Vec<[i16; 14]>,
    labels: Vec<u8>,
}

/// Every offset lies within the vectors.
pub open spec fn offsets_within(offsets: Seq<u32>, n: int) -> bool {
    forall|c: int| 0 <= c < offsets.len() ==> #[trigger] offsets[c] <= n
}

/// Positions of the vectors of cluster `c`: from offset `c` up to offset
/// `c + 1` (none when the second is not past the first).
pub open spec fn cluster_span(offsets: Seq<u32>, c: int) -> Seq<usize> {
    let start = offsets[c] as int;
    let end = offsets[c + 1] as int;
    Seq::new(if start < end { (end - start) as nat } else { 0 }, |t: int| (start + t) as usize)
}

/// Positions of the vectors of the given clusters, cluster after cluster.
pub open spec fn probe_span(offsets: Seq<u32>, clusters: Seq<usize>) -> Seq<usize>
    decreases clusters.len(),
{
    if clusters.len() == 0 {
        Seq::empty()
    } else {
        probe_span(offsets, clusters.drop_last()) + cluster_span(offsets, clusters.last() as int)
    }
}

/// Number of the given vector positions whose label marks a fraud.
pub open spec fn fraud_count_of(labels: Seq<u8>, ids: Seq<usize>) -> nat
    decreases ids.len(),
{
    if ids.len() == 0 {
        0
    } else {
        fraud_count_of(labels, ids.drop_last()) + if labels[ids.last() as int] != 0 {
            1nat
        } else {
            0nat
        }
    }
}

/// The candidates that `sel` picks, in the order of `sel`.
pub open spec fn picked(candidates: Seq<usize>, sel: Seq<usize>) -> Seq<usize> {
    sel.map_values(|s: usize| candidates[s as int])
}

/// `keys[t]` is a key that `key_of` may return for `positions[t]`.
pub open spec fn keys_from<F: Fn(usize) -> u32>(key_of: F, positions: Seq<usize>, keys: Seq<u32>) -> bool {
    &&& keys.len() == positions.len()
    &&& forall|t: int| 0 <= t < positions.len() ==> call_ensures(key_of, (#[trigger] positions[t],), keys[t])
}

/// Positions `0..n`.
pub open spec fn positions_upto(n: nat) -> Seq<usize> {
    Seq::new(n, |c: int| c as usize)
}

/// A first pass is inconclusive, and the query is run again over more
/// clusters, when it finds 2 or 3 frauds.
pub open spec fn is_inconclusive(fraud_count: int) -> bool {
    fraud_count == 2 || fraud_count == 3
}

/// Whether a first pass that found `fraud_count` frauds among the
/// neighbours calls for a second, wider pass.
pub fn needs_wide_scan(fraud_count: usize) -> (res: bool)
    ensures
        res == is_inconclusive(fraud_count as int),
        res == (fraud_count == 2 || fraud_count == 3),
{
    fraud_count == 2 || fraud_count == 3
}

/// A pass is inconclusive exactly when it finds 2 or 3 frauds.
pub proof fn lemma_inconclusive(fraud_count: int)
    ensures
        is_inconclusive(fraud_count) <==> (fraud_count == 2 || fraud_count == 3),
{
}

/// The frauds counted among some positions are the positions whose label
/// is non-zero: their number is the length of that filter of the positions.
pub proof fn lemma_fraud_count(labels: Seq<u8>, ids: Seq<usize>)
    ensures
        fraud_count_of(labels, ids) == ids.filter(|i: usize| labels[i as int] != 0).len(),
        fraud_count_of(labels, ids) <= ids.len(),
    decreases ids.len(),
{
    reveal_with_fuel(Seq::<usize>::filter, 1);
    if ids.len() > 0 {
        lemma_fraud_count(labels, ids.drop_last());
    }
}

/// `positions_upto(n)` is `0, 1, ..., n - 1`.
pub proof fn lemma_positions_upto(n: nat)
    requires
        n <= usize::MAX,
    ensures
        positions_upto(n).len() == n,
        forall|c: int| 0 <= c < n ==> #[trigger] positions_upto(n)[c] == c,
{
}

/// The span of cluster `c` is the positions from offset `c` (included) up
/// to offset `c + 1` (excluded), in increasing order.
pub proof fn lemma_cluster_span(offsets: Seq<u32>, c: int)
    requires
        0 <= c,
        c + 1 < offsets.len(),
    ensures
        cluster_span(offsets, c).len() == if offsets[c] < offsets[c + 1] {
            offsets[c + 1] - offsets[c]
        } else {
            0
        },
        forall|t: int| 0 <= t < cluster_span(offsets, c).len() ==> #[trigger] cluster_span(offsets, c)[t] == offsets[c] + t,
{
}

/// The span of several clusters is the spans of each, in the order of the
/// clusters: for one cluster it is that cluster's span, and the span of two
/// lists of clusters one after the other is their spans one after the other.
pub proof fn lemma_probe_span_concat(offsets: Seq<u32>, a: Seq<usize>, b: Seq<usize>)
    ensures
        probe_span(offsets, a + b) == probe_span(offsets, a) + probe_span(offsets, b),
        b.len() == 1 ==> probe_span(offsets, b) == cluster_span(offsets, b[0] as int),
    decreases b.len(),
{
    if b.len() == 0 {
        assert(a + b =~= a);
        assert(probe_span(offsets, a) + probe_span(offsets, b) =~= probe_span(offsets, a));
    } else {
        let init = b.drop_last();
        lemma_probe_span_concat(offsets, a, init);
        assert((a + b).drop_last() =~= a + init);
        assert((a + b).last() == b.last());
        assert(probe_span(offsets, a + b) =~= probe_span(offsets, a) + probe_span(offsets, b));
        if b.len() == 1 {
            assert(init.len() == 0);
            assert(probe_span(offsets, b) =~= cluster_span(offsets, b[0] as int));
        }
    }
}

impl Index {
    #[verifier::type_invariant]
    spec fn inv(self) -> bool {
        &&& self.offsets@.len() == self.centroids@.len() + 1
        &&& self.labels@.len() == self.vectors@.len()
        &&& offsets_within(self.offsets@, self.vectors@.len() as int)
    }

    /// The centroids.
    pub closed spec fn spec_centroids(&self) -> Seq<[u32; 14]> {
        self.centroids@
    }

    /// The cluster offsets.
    pub closed spec fn spec_offsets(&self) -> Seq<u32> {
        self.offsets@
    }

    /// The quantized vectors.
    pub closed spec fn spec_vectors(&self) -> Seq<[i16; 14]> {
        self.vectors@
    }

    /// The labels.
    pub closed spec fn spec_labels(&self) -> Seq<u8> {
        self.labels@
    }

    /// Assembles an index; fails, naming the first condition that fails, unless
    /// there is one more offset than centroids, one label per vector, and no
    /// offset beyond the last vector.
    pub fn new(centroids: Vec<[u32; 14]>, offsets: Vec<u32>, vectors: Vec<[i16; 14]>, labels: Vec<u8>) -> (res:
        Result<Index, LayoutError>)
        ensures
            offsets@.len() != centroids@.len() + 1 ==> res == Err::<Index, LayoutError>(
                LayoutError::OffsetCount,
            ),
            offsets@.len() == centroids@.len() + 1 && labels@.len() != vectors@.len() ==> res
                == Err::<Index, LayoutError>(LayoutError::LabelCount),
            offsets@.len() == centroids@.len() + 1 && labels@.len() == vectors@.len()
                && !offsets_within(offsets@, vectors@.len() as int) ==> res == Err::<Index, LayoutError>(
                LayoutError::OffsetOutOfRange,
            ),
            res is Ok <==> (offsets@.len() == centroids@.len() + 1 && labels@.len() == vectors@.len()
                && offsets_within(offsets@, vectors@.len() as int)),
            res matches Ok(ix) ==> ix.spec_centroids() == centroids@ && ix.spec_offsets() == offsets@
                && ix.spec_vectors() == vectors@ && ix.spec_labels() == labels@,
    {
        if offsets.len() == 0 || offsets.len() - 1 != centroids.len() {
            return Err(LayoutError::OffsetCount);
        }
        if labels.len() != vectors.len() {
            return Err(LayoutError::LabelCount);
        }
        let n: usize = vectors.len();
        let mut c: usize = 0;
        while c < offsets.len()
            invariant
                c <= offsets@.len(),
                n == vectors@.len(),
                offsets@.len() == centroids@.len() + 1,
                labels@.len() == vectors@.len(),
                forall|t: int| 0 <= t < c ==> #[trigger] offsets@[t] <= n,
            decreases offsets@.len() - c,
        {
            if offsets[c] as usize > n {
                return Err(LayoutError::OffsetOutOfRange);
            }
            c = c + 1;
        }
        Ok(Index { centroids, offsets, vectors, labels })
    }

    /// Number of clusters.
    pub fn cluster_count(&self) -> (res: usize)
        ensures
            res == self.spec_centroids().len(),
    {
        self.centroids.len()
    }

    /// Number of vectors.
    pub fn len(&self) -> (res: usize)
        ensures
            res == self.spec_vectors().len(),
    {
        self.vectors.len()
    }

    /// The centroids.
    pub fn centroids(&self) -> (res: &Vec<[u32; 14]>)
        ensures
            res@ == self.spec_centroids(),
    {
        &self.centroids
    }

    /// The quantized vector at position `i`.
    pub fn vector(&self, i: usize) -> (res: &[i16; 14])
        requires
            i < self.spec_vectors().len(),
        ensures
            *res == self.spec_vectors()[i as int],
    {
        &self.vectors[i]
    }

    /// Positions of the vectors of the given clusters, cluster after
    /// cluster, each cluster in stored order.
    pub fn cluster_members(&self, clusters: &Vec<usize>) -> (res: Vec<usize>)
        requires
            forall|i: int| 0 <= i < clusters@.len() ==> #[trigger] clusters@[i] < self.spec_centroids().len(),
        ensures
            res@ == probe_span(self.spec_offsets(), clusters@),
            forall|t: int| 0 <= t < res@.len() ==> #[trigger] res@[t] < self.spec_vectors().len(),
    {
        proof {
            use_type_invariant(self);
        }
        let ghost offs = self.offsets@;
        let ghost n = self.vectors@.len();
        let n_off: usize = self.offsets.len();
        let mut res: Vec<usize> = Vec::new();
        let mut i: usize = 0;
        while i < clusters.len()
            invariant
                i <= clusters@.len(),
                n_off == offs.len(),
                offs == self.offsets@,
                n == self.vectors@.len(),
                offs.len() == self.centroids@.len() + 1,
                offsets_within(offs, n as int),
                forall|t: int| 0 <= t < clusters@.len() ==> #[trigger] clusters@[t] < self.centroids@.len(),
                res@ == probe_span(offs, clusters@.take(i as int)),
                forall|t: int| 0 <= t < res@.len() ==> #[trigger] res@[t] < n,
            decreases clusters@.len() - i,
        {
            let c: usize = clusters[i];
            assert(clusters@[i as int] < self.centroids@.len());
            let start: usize = self.offsets[c] as usize;
            let end: usize = self.offsets[c + 1] as usize;
            assert(offs[c as int] <= n && offs[c + 1] <= n);
            let ghost before = res@;
            let ghost span = cluster_span(offs, c as int);
            if start < end {
                let mut v: usize = start;
                while v < end
                    invariant
                        start <= v <= end,
                        start < end,
                        start as int == offs[c as int] as int,
                        end as int == offs[c + 1] as int,
                        end <= n,
                        span == cluster_span(offs, c as int),
                        res@ == before + span.take(v - start),
                        forall|t: int| 0 <= t < res@.len() ==> #[trigger] res@[t] < n,
                    decreases end - v,
                {
                    res.push(v);
                    proof {
                        assert(span.take(v + 1 - start) =~= span.take(v - start).push(v));
                    }
                    v = v + 1;
                }
                assert(span.take(end - start) =~= span);
            } else {
                assert(span =~= Seq::<usize>::empty());
                assert(res@ =~= before + span);
            }
            proof {
                assert(clusters@.take(i + 1).drop_last() =~= clusters@.take(i as int));
                assert(res@ =~= probe_span(offs, clusters@.take(i + 1)));
            }
            i = i + 1;
        }
        assert(clusters@.take(clusters@.len() as int) =~= clusters@);
        res
    }

    /// Candidates of a query pass: the vectors of the `nprobe` clusters whose
    /// centroids have the smallest keys (`centroid_keys[c]` belongs to
    /// centroid `c`), nearest cluster first.
    pub fn candidates(&self, centroid_keys: &Vec<u32>, nprobe: usize) -> (res: Vec<usize>)
        requires
            centroid_keys@.len() == self.spec_centroids().len(),
        ensures
            exists|probed: Seq<usize>|
                {
                    &&& is_k_smallest(centroid_keys@, nprobe as int, probed)
                    &&& res@ == probe_span(self.spec_offsets(), probed)
                },
            forall|t: int| 0 <= t < res@.len() ==> #[trigger] res@[t] < self.spec_vectors().len(),
    {
        let probed = k_smallest(centroid_keys, nprobe);
        self.cluster_members(&probed)
    }

    /// The course of a query pass: `centroid_keys` are keys that
    /// `centroid_key` gives for the centroids, `probed` the `nprobe` clusters
    /// with the smallest of them, `vector_keys` keys that `vector_key` gives
    /// for the vectors of those clusters, and `sel` the `k` of those with the
    /// smallest keys.
    pub open spec fn pass_trace<C: Fn(usize) -> u32, V: Fn(usize) -> u32>(
        &self,
        centroid_key: C,
        vector_key: V,
        nprobe: int,
        k: int,
        centroid_keys: Seq<u32>,
        probed: Seq<usize>,
        vector_keys: Seq<u32>,
        sel: Seq<usize>,
    ) -> bool {
        &&& keys_from(centroid_key, positions_upto(self.spec_centroids().len()), centroid_keys)
        &&& is_k_smallest(centroid_keys, nprobe, probed)
        &&& keys_from(vector_key, probe_span(self.spec_offsets(), probed), vector_keys)
        &&& is_k_smallest(vector_keys, k, sel)
    }

    /// `res` is what a query pass over `nprobe` clusters may return: the
    /// number of frauds among the `k` neighbours it keeps, and how many it
    /// keeps.
    pub open spec fn pass_result<C: Fn(usize) -> u32, V: Fn(usize) -> u32>(
        &self,
        centroid_key: C,
        vector_key: V,
        nprobe: int,
        k: int,
        res: (usize, usize),
    ) -> bool {
        exists|centroid_keys: Seq<u32>, probed: Seq<usize>, vector_keys: Seq<u32>, sel: Seq<usize>|
            {
                &&& #[trigger] self.pass_trace(
                    centroid_key,
                    vector_key,
                    nprobe,
                    k,
                    centroid_keys,
                    probed,
                    vector_keys,
                    sel,
                )
                &&& res.0 == fraud_count_of(self.spec_labels(), picked(probe_span(self.spec_offsets(), probed), sel))
                &&& res.1 == sel.len()
            }
    }

    /// One query pass over `nprobe` clusters, keeping `k` neighbours.
    /// `centroid_key(c)` gives the key of the distance to centroid `c`,
    /// `vector_key(i)` that to vector `i`; they are called on valid positions
    /// only, each centroid once and each candidate once.
    pub fn pass<C: Fn(usize) -> u32, V: Fn(usize) -> u32>(
        &self,
        centroid_key: &C,
        vector_key: &V,
        k: usize,
        nprobe: usize,
    ) -> (res: (usize, usize))
        requires
            forall|c: usize| c < self.spec_centroids().len() ==> call_requires(*centroid_key, (c,)),
            forall|i: usize| i < self.spec_vectors().len() ==> call_requires(*vector_key, (i,)),
        ensures
            self.pass_result(*centroid_key, *vector_key, nprobe as int, k as int, res),
            res.0 <= res.1,
    {
        let count: usize = self.cluster_count();
        let ghost all = positions_upto(self.spec_centroids().len());
        let mut centroid_keys: Vec<u32> = Vec::new();
        let mut c: usize = 0;
        while c < count
            invariant
                c <= count,
                count == self.spec_centroids().len(),
                all == positions_upto(self.spec_centroids().len()),
                forall|c: usize| c < self.spec_centroids().len() ==> call_requires(*centroid_key, (c,)),
                keys_from(*centroid_key, all.take(c as int), centroid_keys@),
            decreases count - c,
        {
            let key: u32 = centroid_key(c);
            centroid_keys.push(key);
            proof {
                assert(all.take(c + 1) =~= all.take(c as int).push(c));
            }
            c = c + 1;
        }
        assert(all.take(count as int) =~= all);
        let members = self.candidates(&centroid_keys, nprobe);
        let ghost probed = choose|probed: Seq<usize>|
            is_k_smallest(centroid_keys@, nprobe as int, probed) && members@ == probe_span(
                self.spec_offsets(),
                probed,
            );
        let mut vector_keys: Vec<u32> = Vec::new();
        let mut t: usize = 0;
        while t < members.len()
            invariant
                t <= members@.len(),
                forall|u: int| 0 <= u < members@.len() ==> #[trigger] members@[u] < self.spec_vectors().len(),
                forall|i: usize| i < self.spec_vectors().len() ==> call_requires(*vector_key, (i,)),
                keys_from(*vector_key, members@.take(t as int), vector_keys@),
            decreases members@.len() - t,
        {
            let key: u32 = vector_key(members[t]);
            vector_keys.push(key);
            proof {
                assert(members@.take(t + 1) =~= members@.take(t as int).push(members@[t as int]));
            }
            t = t + 1;
        }
        assert(members@.take(members@.len() as int) =~= members@);
        let res = self.vote(&members, &vector_keys, k);
        proof {
            let sel = choose|sel: Seq<usize>|
                {
                    &&& is_k_smallest(vector_keys@, k as int, sel)
                    &&& res.0 == fraud_count_of(self.spec_labels(), picked(members@, sel))
                    &&& res.1 == sel.len()
                };
            assert(self.pass_trace(
                *centroid_key,
                *vector_key,
                nprobe as int,
                k as int,
                centroid_keys@,
                probed,
                vector_keys@,
                sel,
            ));
        }
        res
    }

    /// The counts behind a query's fraud ratio: a first pass over `NPROBE`
    /// clusters, and, when it finds 2 or 3 frauds, a second pass over
    /// `NPROBE_WIDE` clusters whose counts are returned instead. Each count
    /// pair is (frauds among the `k` neighbours kept, neighbours kept).
    pub fn knn_fraud_counts<C: Fn(usize) -> u32, V: Fn(usize) -> u32>(
        &self,
        centroid_key: &C,
        vector_key: &V,
        k: usize,
    ) -> (res: (usize, usize))
        requires
            forall|c: usize| c < self.spec_centroids().len() ==> call_requires(*centroid_key, (c,)),
            forall|i: usize| i < self.spec_vectors().len() ==> call_requires(*vector_key, (i,)),
        ensures
            exists|first: (usize, usize)|
                {
                    &&& #[trigger] self.pass_result(*centroid_key, *vector_key, NPROBE as int, k as int, first)
                    &&& if is_inconclusive(first.0 as int) {
                        self.pass_result(*centroid_key, *vector_key, NPROBE_WIDE as int, k as int, res)
                    } else {
                        res == first
                    }
                },
            res.0 <= res.1,
    {
        let first = self.pass(centroid_key, vector_key, k, NPROBE);
        if needs_wide_scan(first.0) {
            self.pass(centroid_key, vector_key, k, NPROBE_WIDE)
        } else {
            first
        }
    }

    /// Number of frauds among the vectors at the given positions.
    pub fn count_frauds(&self, ids: &Vec<usize>) -> (res: usize)
        requires
            forall|t: int| 0 <= t < ids@.len() ==> #[trigger] ids@[t] < self.spec_vectors().len(),
        ensures
            res == fraud_count_of(self.spec_labels(), ids@),
            res <= ids@.len(),
    {
        proof {
            use_type_invariant(self);
        }
        let mut count: usize = 0;
        let mut t: usize = 0;
        while t < ids.len()
            invariant
                t <= ids@.len(),
                self.labels@.len() == self.vectors@.len(),
                forall|u: int| 0 <= u < ids@.len() ==> #[trigger] ids@[u] < self.vectors@.len(),
                count == fraud_count_of(self.labels@, ids@.take(t as int)),
                count <= t,
            decreases ids@.len() - t,
        {
            proof {
                assert(ids@.take(t + 1).drop_last() =~= ids@.take(t as int));
            }
            if self.labels[ids[t]] != 0 {
                count = count + 1;
            }
            t = t + 1;
        }
        assert(ids@.take(ids@.len() as int) =~= ids@);
        count
    }

    /// Keeps the `k` candidates with the smallest keys (`keys[i]` belongs to
    /// `candidates[i]`) and returns how many of them are frauds and how many
    /// were kept.
    pub fn vote(&self, candidates: &Vec<usize>, keys: &Vec<u32>, k: usize) -> (res: (usize, usize))
        requires
            keys@.len() == candidates@.len(),
            forall|t: int| 0 <= t < candidates@.len() ==> #[trigger] candidates@[t] < self.spec_vectors().len(),
        ensures
            exists|sel: Seq<usize>|
                {
                    &&& is_k_smallest(keys@, k as int, sel)
                    &&& res.0 == fraud_count_of(self.spec_labels(), picked(candidates@, sel))
                    &&& res.1 == sel.len()
                },
            res.0 <= res.1,
    {
        let sel = k_smallest(keys, k);
        let mut neighbors: Vec<usize> = Vec::new();
        let mut t: usize = 0;
        while t < sel.len()
            invariant
                t <= sel@.len(),
                is_k_smallest(keys@, k as int, sel@),
                keys@.len() == candidates@.len(),
                forall|u: int| 0 <= u < candidates@.len() ==> #[trigger] candidates@[u] < self.spec_vectors().len(),
                neighbors@ == picked(candidates@, sel@.take(t as int)),
            decreases sel@.len() - t,
        {
            proof {
                assert(sel@[t as int] < keys@.len());
            }
            neighbors.push(candidates[sel[t]]);
            proof {
                assert(neighbors@ =~= picked(candidates@, sel@.take(t + 1)));
            }
            t = t + 1;
        }
        assert(sel@.take(sel@.len() as int) =~= sel@);
        assert forall|u: int| 0 <= u < neighbors@.len() implies #[trigger] neighbors@[u] < self.spec_vectors().len() by {
            assert(sel@[u] < keys@.len());
        }
        let frauds: usize = self.count_frauds(&neighbors);
        (frauds, sel.len())
    }
}

} // verus!
