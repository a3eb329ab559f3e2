//! Building the index: the starting centroids of k-means, the grouping of
//! the vectors by their nearest centroid, and the index image that stores
//! the vectors cluster by cluster.

use vstd::prelude::*;
use crate::index::cluster_span;
use crate::index_file::IndexImage;
use crate::vectors::VectorsData;

verus! {

/// Number of clusters of the index.
pub const CLUSTER_COUNT: usize = 2048;

/// Picks `amount` distinct positions out of `0..length` at random, with
/// `rand::seq::index::sample` on the thread-local generator `rand::rng()`.
/// Trusted: as its documentation states, exactly `amount` distinct positions
/// below `length` (it panics when `amount > length`, which `requires` rules
/// out). Which positions come out is chance, and left unsaid.
#[verifier::external_body]
fn sample_indices(length: usize, amount: usize) -> (res: Vec<usize>)
    requires
        amount <= length,
    ensures
        res@.len() == amount,
        forall|i: int| 0 <= i < res@.len() ==> #[trigger] res@[i] < length,
        forall|i: int, j: int| 0 <= i < j < res@.len() ==> #[trigger] res@[i] != #[trigger] res@[j],
{
    rand::seq::index::sample(&mut rand::rng(), length, amount).into_vec()
}

/// `rows` are the rows of `pool` at the distinct positions `picks`.
pub open spec fn drawn_from(rows: Seq<[u32; 14]>, pool: Seq<[u32; 14]>, picks: Seq<usize>) -> bool {
    &&& picks.len() == rows.len()
    &&& forall|i: int| 0 <= i < picks.len() ==> #[trigger] picks[i] < pool.len()
    &&& forall|i: int, j: int| 0 <= i < j < picks.len() ==> #[trigger] picks[i] != #[trigger] picks[j]
    &&& forall|i: int| 0 <= i < picks.len() ==> #[trigger] rows[i] == pool[picks[i] as int]
}

/// Starting centroids: `CLUSTER_COUNT` vectors of the data set picked at
/// random without repetition (all of them, in some order, when there are
/// fewer).
pub fn initialize_centroids(data: &VectorsData) -> (res: Vec<[u32; 14]>)
    ensures
        res@.len() == if data.vectors@.len() < CLUSTER_COUNT {
            data.vectors@.len()
        } else {
            CLUSTER_COUNT as nat
        },
        exists|picks: Seq<usize>| #[trigger] drawn_from(res@, data.vectors@, picks),
{
    let n: usize = data.vectors.len();
    let amount: usize = if n < CLUSTER_COUNT {
        n
    } else {
        CLUSTER_COUNT
    };
    let picks = sample_indices(n, amount);
    let mut res: Vec<[u32; 14]> = Vec::new();
    let mut i: usize = 0;
    while i < picks.len()
        invariant
            i <= picks@.len(),
            n == data.vectors@.len(),
            forall|t: int| 0 <= t < picks@.len() ==> #[trigger] picks@[t] < n,
            res@.len() == i,
            forall|t: int| 0 <= t < i ==> #[trigger] res@[t] == data.vectors@[picks@[t] as int],
        decreases picks@.len() - i,
    {
        res.push(data.vectors[picks[i]]);
        i = i + 1;
    }
    assert(drawn_from(res@, data.vectors@, picks@));
    res
}

/// Positions whose assignment is `c`, in increasing order.
pub open spec fn members(assignments: Seq<u16>, c: int) -> Seq<usize>
    decreases assignments.len(),
{
    if assignments.len() == 0 {
        Seq::empty()
    } else {
        let rest = members(assignments.drop_last(), c);
        if assignments.last() as int == c {
            rest.push((assignments.len() - 1) as usize)
        } else {
            rest
        }
    }
}

/// Number of positions assigned to a cluster below `c`.
pub open spec fn assigned_below(assignments: Seq<u16>, c: int) -> nat
    decreases c,
{
    if c <= 0 {
        0
    } else {
        assigned_below(assignments, c - 1) + members(assignments, c - 1).len()
    }
}

/// The members of a cluster are positions of the assignments, increasing.
pub proof fn lemma_members(assignments: Seq<u16>, c: int)
    requires
        assignments.len() <= usize::MAX,
    ensures
        forall|t: int| 0 <= t < members(assignments, c).len() ==> #[trigger] members(assignments, c)[t] < assignments.len()
            && assignments[members(assignments, c)[t] as int] == c,
        forall|s: int, t: int|
            0 <= s < t < members(assignments, c).len() ==> #[trigger] members(assignments, c)[s]
                < #[trigger] members(assignments, c)[t],
        members(assignments, c).len() <= assignments.len(),
        forall|i: int|
            0 <= i < assignments.len() && assignments[i] as int == c ==> #[trigger] members(assignments, c).contains(
                i as usize,
            ),
    decreases assignments.len(),
{
    if assignments.len() > 0 {
        let init = assignments.drop_last();
        lemma_members(init, c);
        let rest = members(init, c);
        let m = members(assignments, c);
        assert forall|t: int| 0 <= t < rest.len() implies #[trigger] rest[t] < assignments.len()
            && assignments[rest[t] as int] == c by {
            assert(init[rest[t] as int] == assignments[rest[t] as int]);
        }
        if assignments.last() as int == c {
            assert(m == rest.push((assignments.len() - 1) as usize));
            assert forall|t: int| 0 <= t < m.len() implies #[trigger] m[t] < assignments.len()
                && assignments[m[t] as int] == c by {
                if t < rest.len() {
                    assert(m[t] == rest[t]);
                } else {
                    assert(m[t] == (assignments.len() - 1) as usize);
                    assert(assignments[assignments.len() - 1] as int == c);
                }
            }
            assert forall|s: int, t: int| 0 <= s < t < m.len() implies #[trigger] m[s] < #[trigger] m[t] by {
                assert(m[s] == rest[s]);
                assert(rest[s] < init.len());
                if t < rest.len() {
                    assert(m[t] == rest[t]);
                } else {
                    assert(m[t] == (assignments.len() - 1) as usize);
                }
            }
        } else {
            assert(m == rest);
        }
        assert forall|i: int| 0 <= i < assignments.len() && assignments[i] as int == c implies #[trigger] m.contains(
            i as usize,
        ) by {
            if i < assignments.len() - 1 {
                assert(init[i] == assignments[i]);
                assert(rest.contains(i as usize));
                let t = choose|t: int| 0 <= t < rest.len() && rest[t] == i as usize;
                assert(m[t] == rest[t]);
            } else {
                assert(m[m.len() - 1] == i as usize);
            }
        }
    }
}

/// The label byte of a fraud is 1, that of a legitimate transaction 0.
pub proof fn lemma_label_byte()
    ensures
        label_byte(true) == 1,
        label_byte(false) == 0,
{
}

/// The number of positions assigned below cluster `c` is the number of
/// assignments smaller than `c`.
pub proof fn lemma_assigned_below_counts(assignments: Seq<u16>, c: int)
    requires
        0 <= c,
    ensures
        assigned_below(assignments, c) == assignments.filter(|x: u16| (x as int) < c).len(),
    decreases assignments.len(),
{
    reveal_with_fuel(Seq::<u16>::filter, 1);
    if assignments.len() == 0 {
        lemma_assigned_below_empty(assignments, c);
    } else {
        let init = assignments.drop_last();
        lemma_assigned_below_counts(init, c);
        lemma_assigned_below_push(init, assignments.last(), c);
        assert(init.push(assignments.last()) =~= assignments);
    }
}

/// Appending a position assigned below `k` adds one to the count below `k`,
/// and counts below `c` never exceed those below `k` for `c <= k`.
proof fn lemma_assigned_below_push(assignments: Seq<u16>, x: u16, c: int)
    requires
        0 <= c,
    ensures
        assigned_below(assignments.push(x), c) == assigned_below(assignments, c) + if x < c {
            1nat
        } else {
            0nat
        },
    decreases c,
{
    let bigger = assignments.push(x);
    assert(bigger.drop_last() =~= assignments);
    if c > 0 {
        lemma_assigned_below_push(assignments, x, c - 1);
    }
}

/// When every assignment is below `k`, the clusters below `k` together hold
/// every position.
pub proof fn lemma_assigned_total(assignments: Seq<u16>, k: int)
    requires
        0 <= k,
        forall|i: int| 0 <= i < assignments.len() ==> #[trigger] assignments[i] < k,
    ensures
        assigned_below(assignments, k) == assignments.len(),
    decreases assignments.len(),
{
    if assignments.len() > 0 {
        let init = assignments.drop_last();
        assert forall|i: int| 0 <= i < init.len() implies #[trigger] init[i] < k by {
            assert(init[i] == assignments[i]);
        }
        lemma_assigned_total(init, k);
        assert(assignments[assignments.len() - 1] < k);
        assert(init.push(assignments.last()) =~= assignments);
        lemma_assigned_below_push(init, assignments.last(), k);
        assert(assigned_below(init.push(assignments.last()), k) == init.len() + 1);
    } else {
        lemma_assigned_below_empty(assignments, k);
    }
}

/// Nothing is assigned when there are no positions.
proof fn lemma_assigned_below_empty(assignments: Seq<u16>, c: int)
    requires
        assignments.len() == 0,
    ensures
        assigned_below(assignments, c) == 0,
    decreases c,
{
    if c > 0 {
        lemma_assigned_below_empty(assignments, c - 1);
    }
}

/// Counts below a cluster grow with the cluster.
pub proof fn lemma_assigned_below_mono(assignments: Seq<u16>, c: int, d: int)
    requires
        0 <= c <= d,
    ensures
        assigned_below(assignments, c) <= assigned_below(assignments, d),
    decreases d - c,
{
    if c < d {
        lemma_assigned_below_mono(assignments, c, d - 1);
    }
}

/// In offsets built from the assignments (as `build_index_image` builds
/// them), the span that a query reads for cluster `c` has one position per
/// vector assigned to `c`, and its `t`-th position is where the `t`-th of
/// them was stored.
pub proof fn lemma_built_cluster_span(assignments: Seq<u16>, offsets: Seq<u32>, c: int)
    requires
        0 <= c,
        c + 1 < offsets.len(),
        offsets[c] == assigned_below(assignments, c),
        offsets[c + 1] == assigned_below(assignments, c + 1),
    ensures
        cluster_span(offsets, c).len() == members(assignments, c).len(),
        forall|t: int| 0 <= t < members(assignments, c).len() ==> #[trigger] cluster_span(offsets, c)[t] == offsets[c] + t,
{
}

/// For each of the `k` clusters, the positions assigned to it, in
/// increasing order.
pub fn group_by_cluster(assignments: &Vec<u16>, k: usize) -> (groups: Vec<Vec<usize>>)
    requires
        forall|i: int| 0 <= i < assignments@.len() ==> #[trigger] assignments@[i] < k,
    ensures
        groups@.len() == k,
        forall|c: int| 0 <= c < k ==> (#[trigger] groups@[c])@ == members(assignments@, c),
{
    let mut groups: Vec<Vec<usize>> = Vec::new();
    let mut c: usize = 0;
    while c < k
        invariant
            c <= k,
            groups@.len() == c,
            forall|t: int| 0 <= t < c ==> (#[trigger] groups@[t])@ == Seq::<usize>::empty(),
        decreases k - c,
    {
        groups.push(Vec::new());
        c = c + 1;
    }
    assert forall|t: int| 0 <= t < k implies (#[trigger] groups@[t])@ == members(assignments@.take(0), t) by {}
    let mut i: usize = 0;
    while i < assignments.len()
        invariant
            i <= assignments@.len(),
            groups@.len() == k,
            forall|t: int| 0 <= t < assignments@.len() ==> #[trigger] assignments@[t] < k,
            forall|t: int| 0 <= t < k ==> (#[trigger] groups@[t])@ == members(assignments@.take(i as int), t),
        decreases assignments@.len() - i,
    {
        let a: usize = assignments[i] as usize;
        proof {
            assert(assignments@.take(i + 1).drop_last() =~= assignments@.take(i as int));
        }
        groups[a].push(i);
        i = i + 1;
    }
    assert(assignments@.take(assignments@.len() as int) =~= assignments@);
    groups
}

/// The label byte stored for a label: 1 for fraud, 0 otherwise.
pub open spec fn label_byte(fraud: bool) -> u8 {
    if fraud {
        1
    } else {
        0
    }
}

/// Appends the vectors and label bytes of the given positions of `data`.
fn append_cluster(vectors: &mut Vec<[u32; 14]>, labels: &mut Vec<u8>, data: &VectorsData, group: &Vec<usize>)
    requires
        data.labels@.len() == data.vectors@.len(),
        forall|s: int| 0 <= s < group@.len() ==> #[trigger] group@[s] < data.vectors@.len(),
    ensures
        final(vectors)@ == old(vectors)@ + group@.map_values(|j: usize| data.vectors@[j as int]),
        final(labels)@ == old(labels)@ + group@.map_values(|j: usize| label_byte(data.labels@[j as int])),
{
    let ghost v0 = vectors@;
    let ghost l0 = labels@;
    let mut t: usize = 0;
    while t < group.len()
        invariant
            t <= group@.len(),
            data.labels@.len() == data.vectors@.len(),
            forall|s: int| 0 <= s < group@.len() ==> #[trigger] group@[s] < data.vectors@.len(),
            vectors@ == v0 + group@.take(t as int).map_values(|j: usize| data.vectors@[j as int]),
            labels@ == l0 + group@.take(t as int).map_values(|j: usize| label_byte(data.labels@[j as int])),
        decreases group@.len() - t,
    {
        let j: usize = group[t];
        vectors.push(data.vectors[j]);
        labels.push(if data.labels[j] { 1u8 } else { 0u8 });
        proof {
            assert(group@.take(t + 1) =~= group@.take(t as int).push(j));
            assert(vectors@ =~= v0 + group@.take(t + 1).map_values(|j: usize| data.vectors@[j as int]));
            assert(labels@ =~= l0 + group@.take(t + 1).map_values(|j: usize| label_byte(data.labels@[j as int])));
        }
        t = t + 1;
    }
    assert(group@.take(group@.len() as int) =~= group@);
}

/// The index image of clustered data, over `CLUSTER_COUNT` clusters: the
/// centroids as given, offsets from the cluster sizes, then the vectors (and
/// their labels, as 0 or 1) cluster by cluster, each cluster in the order of
/// the data.
pub fn build_index_image(data: &VectorsData, centroids: Vec<[u32; 14]>, assignments: &Vec<u16>) -> (img:
    IndexImage)
    requires
        assignments@.len() == data.vectors@.len(),
        data.labels@.len() == data.vectors@.len(),
        data.vectors@.len() <= u32::MAX,
        centroids@.len() == CLUSTER_COUNT,
        forall|i: int| 0 <= i < assignments@.len() ==> #[trigger] assignments@[i] < CLUSTER_COUNT,
    ensures
        img.wf(),
        img.centroids@ == centroids@,
        img.vectors@.len() == data.vectors@.len(),
        img.labels@.len() == data.vectors@.len(),
        img.offsets@[0] == 0,
        img.offsets@[centroids@.len() as int] == data.vectors@.len(),
        forall|c: int|
            0 <= c <= centroids@.len() ==> #[trigger] img.offsets@[c] == assigned_below(assignments@, c),
        forall|c: int, t: int|
            0 <= c < centroids@.len() && 0 <= t < members(assignments@, c).len() ==> {
                &&& #[trigger] img.vectors@[img.offsets@[c] + t] == data.vectors@[members(
                    assignments@,
                    c,
                )[t] as int]
                &&& img.labels@[img.offsets@[c] + t] == label_byte(
                    data.labels@[members(assignments@, c)[t] as int],
                )
            },
{
    let k: usize = centroids.len();
    let n: usize = data.vectors.len();
    let ghost asg = assignments@;
    let groups = group_by_cluster(assignments, k);
    proof {
        lemma_assigned_total(asg, k as int);
    }
    let mut offsets: Vec<u32> = Vec::new();
    offsets.push(0);
    let mut c: usize = 0;
    while c < k
        invariant
            c <= k,
            k == centroids@.len(),
            n == data.vectors@.len(),
            n <= u32::MAX,
            groups@.len() == k,
            assigned_below(asg, k as int) == n,
            forall|t: int| 0 <= t < k ==> (#[trigger] groups@[t])@ == members(asg, t),
            offsets@.len() == c + 1,
            forall|t: int| 0 <= t <= c ==> #[trigger] offsets@[t] == assigned_below(asg, t),
        decreases k - c,
    {
        proof {
            lemma_assigned_below_mono(asg, c + 1, k as int);
        }
        let size: u32 = groups[c].len() as u32;
        offsets.push(offsets[c] + size);
        c = c + 1;
    }
    let mut vectors: Vec<[u32; 14]> = Vec::new();
    let mut labels: Vec<u8> = Vec::new();
    let mut c: usize = 0;
    while c < k
        invariant
            c <= k,
            k == centroids@.len(),
            n == data.vectors@.len(),
            data.labels@.len() == n,
            asg == assignments@,
            asg.len() == n,
            groups@.len() == k,
            forall|t: int| 0 <= t < k ==> (#[trigger] groups@[t])@ == members(asg, t),
            offsets@.len() == k + 1,
            forall|t: int| 0 <= t <= k ==> #[trigger] offsets@[t] == assigned_below(asg, t),
            vectors@.len() == assigned_below(asg, c as int),
            labels@.len() == vectors@.len(),
            forall|d: int, t: int|
                0 <= d < c && 0 <= t < members(asg, d).len() ==> {
                    &&& #[trigger] vectors@[offsets@[d] + t] == data.vectors@[members(asg, d)[t] as int]
                    &&& labels@[offsets@[d] + t] == label_byte(data.labels@[members(asg, d)[t] as int])
                },
        decreases k - c,
    {
        let ghost base = vectors@.len() as int;
        let ghost mem = members(asg, c as int);
        let ghost old_v = vectors@;
        let ghost old_l = labels@;
        proof {
            lemma_members(asg, c as int);
            assert forall|d: int| 0 <= d < c implies offsets@[d] + (#[trigger] members(asg, d)).len() <= base by {
                lemma_assigned_below_mono(asg, d + 1, c as int);
            }
        }
        append_cluster(&mut vectors, &mut labels, data, &groups[c]);
        proof {
            assert forall|d: int, s: int|
                0 <= d < c + 1 && 0 <= s < members(asg, d).len() implies {
                    &&& #[trigger] vectors@[offsets@[d] + s] == data.vectors@[members(asg, d)[s] as int]
                    &&& labels@[offsets@[d] + s] == label_byte(data.labels@[members(asg, d)[s] as int])
                } by {
                if d == c {
                    assert(offsets@[d] == base);
                    assert(vectors@[base + s] == data.vectors@[mem[s] as int]);
                    assert(labels@[base + s] == label_byte(data.labels@[mem[s] as int]));
                } else {
                    assert(offsets@[d] + members(asg, d).len() <= base);
                    assert(old_v[offsets@[d] + s] == data.vectors@[members(asg, d)[s] as int]);
                    assert(vectors@[offsets@[d] + s] == old_v[offsets@[d] + s]);
                    assert(labels@[offsets@[d] + s] == old_l[offsets@[d] + s]);
                }
            }
        }
        c = c + 1;
    }
    IndexImage { centroids, offsets, vectors, labels }
}

} // verus!
