//! Choosing the entries with the smallest keys.
//!
//! A key is an unsigned integer that orders entries as their distances do.
//! For the non-negative, non-NaN `f32` distances of this crate the raw bit
//! pattern (`f32::to_bits`) is such a key.

use vstd::prelude::*;

verus! {

/// `sel` lists positions below `bound`, without repetition and in
/// ascending key order, and holds `min(k, bound)` of them; every position
/// below `bound` that `sel` leaves out has a key no smaller than any key it
/// keeps, and when fewer than `k` are kept every position is kept. Among
/// equal keys the earlier position wins: it comes first in `sel`, and it is
/// kept before a later one is.
pub open spec fn selects_smallest(keys: Seq<u32>, bound: int, k: int, sel: Seq<usize>) -> bool {
    &&& sel.len() == (if k < bound { k } else { bound })
    &&& forall|i: int| 0 <= i < sel.len() ==> #[trigger] sel[i] < bound
    &&& forall|i: int, j: int| 0 <= i < j < sel.len() ==> #[trigger] sel[i] != #[trigger] sel[j]
    &&& forall|i: int, j: int|
        0 <= i < j < sel.len() ==> keys[#[trigger] sel[i] as int] <= keys[#[trigger] sel[j] as int]
    &&& forall|q: int, i: int|
        #![trigger keys[q], sel[i]]
        0 <= q < bound && 0 <= i < sel.len() && !sel.contains(q as usize) ==> keys[sel[i] as int]
            <= keys[q]
    &&& sel.len() < k ==> forall|q: int| 0 <= q < bound ==> sel.contains(#[trigger] (q as usize))
    &&& forall|i: int, j: int|
        0 <= i < j < sel.len() && keys[#[trigger] sel[i] as int] == keys[#[trigger] sel[j] as int] ==> sel[i]
            < sel[j]
    &&& forall|q: int, i: int|
        #![trigger keys[q], sel[i]]
        0 <= q < bound && 0 <= i < sel.len() && !sel.contains(q as usize) && keys[sel[i] as int] == keys[q]
            ==> sel[i] < q
}

/// `sel` is a choice of the `k` smallest keys of all of `keys`, in ascending
/// key order (or of all positions, when there are fewer than `k`).
pub open spec fn is_k_smallest(keys: Seq<u32>, k: int, sel: Seq<usize>) -> bool {
    selects_smallest(keys, keys.len() as int, k, sel)
}

/// Position at which `key` goes into the sorted selection `top`: after every
/// entry whose key is at most `key`, before every entry whose key exceeds it.
fn insertion_point(keys: &Vec<u32>, top: &Vec<usize>, key: u32) -> (pos: usize)
    requires
        forall|i: int| 0 <= i < top@.len() ==> #[trigger] top@[i] < keys@.len(),
        forall|i: int, j: int|
            0 <= i < j < top@.len() ==> keys@[#[trigger] top@[i] as int] <= keys@[#[trigger] top@[j] as int],
    ensures
        pos <= top@.len(),
        forall|i: int| 0 <= i < pos ==> keys@[#[trigger] top@[i] as int] <= key,
        forall|i: int| pos <= i < top@.len() ==> keys@[#[trigger] top@[i] as int] > key,
{
    let mut pos: usize = 0;
    while pos < top.len() && keys[top[pos]] <= key
        invariant
            pos <= top@.len(),
            forall|i: int| 0 <= i < top@.len() ==> #[trigger] top@[i] < keys@.len(),
            forall|i: int| 0 <= i < pos ==> keys@[#[trigger] top@[i] as int] <= key,
        decreases top@.len() - pos,
    {
        pos = pos + 1;
    }
    if pos < top.len() {
        assert forall|i: int| pos <= i < top@.len() implies keys@[#[trigger] top@[i] as int] > key by {
            if i > pos {
                assert(keys@[top@[pos as int] as int] <= keys@[top@[i] as int]);
            }
        }
    }
    pos
}

/// Inserting the next position `m` at its insertion point keeps the
/// selection sorted and free of repetition, and keeps every other entry.
proof fn lemma_insert_sorted(keys: Seq<u32>, m: int, k: int, top: Seq<usize>, pos: int)
    requires
        0 <= m < keys.len(),
        m < usize::MAX,
        selects_smallest(keys, m, k, top),
        0 <= pos <= top.len(),
        forall|i: int| 0 <= i < pos ==> keys[#[trigger] top[i] as int] <= keys[m],
        forall|i: int| pos <= i < top.len() ==> keys[#[trigger] top[i] as int] > keys[m],
    ensures
        ({
            let new = top.insert(pos, m as usize);
            &&& new.len() == top.len() + 1
            &&& new[pos] == m
            &&& forall|i: int| 0 <= i < pos ==> #[trigger] new[i] == top[i]
            &&& forall|i: int| pos < i < new.len() ==> #[trigger] new[i] == top[i - 1]
            &&& forall|i: int| 0 <= i < new.len() ==> #[trigger] new[i] < m + 1
            &&& forall|i: int, j: int| 0 <= i < j < new.len() ==> #[trigger] new[i] != #[trigger] new[j]
            &&& forall|i: int, j: int|
                0 <= i < j < new.len() ==> keys[#[trigger] new[i] as int] <= keys[#[trigger] new[j] as int]
            &&& forall|i: int, j: int|
                0 <= i < j < new.len() && keys[#[trigger] new[i] as int] == keys[#[trigger] new[j] as int]
                    ==> new[i] < new[j]
            &&& forall|q: usize| top.contains(q) ==> new.contains(q)
            &&& new.contains(m as usize)
        }),
{
    let new = top.insert(pos, m as usize);
    top.insert_ensures(pos, m as usize);
    assert forall|i: int| pos < i < new.len() implies #[trigger] new[i] == top[i - 1] by {
        assert(new[(i - 1) + 1] == top[i - 1]);
    }
    assert forall|i: int| 0 <= i < new.len() implies #[trigger] new[i] < m + 1 by {
        if i < pos {
            assert(top[i] < m);
        } else if i > pos {
            assert(top[i - 1] < m);
        }
    }
    assert forall|i: int, j: int| 0 <= i < j < new.len() implies #[trigger] new[i] != #[trigger] new[j] by {
        if i < pos && j < pos {
            assert(new[i] == top[i] && new[j] == top[j]);
            assert(top[i] != top[j]);
        } else if i < pos && j > pos {
            assert(new[i] == top[i] && new[j] == top[j - 1]);
            assert(top[i] != top[j - 1]);
        } else if i > pos && j > pos {
            assert(new[i] == top[i - 1] && new[j] == top[j - 1]);
            assert(top[i - 1] != top[j - 1]);
        } else if i == pos {
            assert(new[j] == top[j - 1]);
            assert(top[j - 1] < m);
        } else {
            assert(new[i] == top[i]);
            assert(top[i] < m);
        }
    }
    assert forall|i: int, j: int| 0 <= i < j < new.len() implies keys[#[trigger] new[i] as int]
        <= keys[#[trigger] new[j] as int] by {
        if i < pos && j < pos {
            assert(new[i] == top[i] && new[j] == top[j]);
            assert(keys[top[i] as int] <= keys[top[j] as int]);
        } else if i < pos && j > pos {
            assert(new[i] == top[i] && new[j] == top[j - 1]);
            assert(keys[top[i] as int] <= keys[top[j - 1] as int]);
        } else if i > pos && j > pos {
            assert(new[i] == top[i - 1] && new[j] == top[j - 1]);
            assert(keys[top[i - 1] as int] <= keys[top[j - 1] as int]);
        } else if i == pos {
            assert(new[j] == top[j - 1]);
            assert(keys[top[j - 1] as int] > keys[m]);
        } else {
            assert(new[i] == top[i]);
            assert(keys[top[i] as int] <= keys[m]);
        }
    }
    assert forall|i: int, j: int|
        0 <= i < j < new.len() && keys[#[trigger] new[i] as int] == keys[#[trigger] new[j] as int] implies new[i]
        < new[j] by {
        if i < pos && j < pos {
            assert(new[i] == top[i] && new[j] == top[j]);
        } else if i < pos && j > pos {
            assert(new[i] == top[i] && new[j] == top[j - 1]);
        } else if i > pos && j > pos {
            assert(new[i] == top[i - 1] && new[j] == top[j - 1]);
        } else if i == pos {
            assert(new[j] == top[j - 1]);
        } else {
            assert(new[i] == top[i]);
            assert(top[i] < m);
        }
    }
    assert forall|q: usize| top.contains(q) implies new.contains(q) by {
        let t = choose|t: int| 0 <= t < top.len() && top[t] == q;
        if t < pos {
            assert(new[t] == q);
        } else {
            assert(new[t + 1] == q);
        }
    }
    assert(new[pos] == m as usize);
}

/// One step of the selection: position `m` joins while fewer than `k` are
/// kept.
proof fn lemma_step_grow(keys: Seq<u32>, m: int, k: int, top: Seq<usize>, pos: int)
    requires
        0 <= m < keys.len(),
        m < usize::MAX,
        selects_smallest(keys, m, k, top),
        top.len() < k,
        0 <= pos <= top.len(),
        forall|i: int| 0 <= i < pos ==> keys[#[trigger] top[i] as int] <= keys[m],
        forall|i: int| pos <= i < top.len() ==> keys[#[trigger] top[i] as int] > keys[m],
    ensures
        selects_smallest(keys, m + 1, k, top.insert(pos, m as usize)),
{
    lemma_insert_sorted(keys, m, k, top, pos);
    let new = top.insert(pos, m as usize);
    assert forall|q: int| 0 <= q < m + 1 implies new.contains(#[trigger] (q as usize)) by {
        if q < m {
            assert(top.contains(q as usize));
        }
    }
    assert forall|q: int, i: int|
        #![trigger keys[q], new[i]]
        0 <= q < m + 1 && 0 <= i < new.len() && !new.contains(q as usize) implies keys[new[i] as int]
        <= keys[q] by {
        assert(new.contains(q as usize));
    }
}

/// One step of the selection: position `m` replaces the largest kept entry,
/// whose key exceeds its own.
#[verifier::rlimit(60)]
proof fn lemma_step_replace(keys: Seq<u32>, m: int, k: int, top: Seq<usize>, pos: int)
    requires
        0 <= m < keys.len(),
        m < usize::MAX,
        selects_smallest(keys, m, k, top),
        top.len() == k,
        k > 0,
        keys[m] < keys[top[k - 1] as int],
        0 <= pos <= top.len(),
        forall|i: int| 0 <= i < pos ==> keys[#[trigger] top[i] as int] <= keys[m],
        forall|i: int| pos <= i < top.len() ==> keys[#[trigger] top[i] as int] > keys[m],
    ensures
        selects_smallest(keys, m + 1, k, top.insert(pos, m as usize).drop_last()),
{
    lemma_insert_sorted(keys, m, k, top, pos);
    let new = top.insert(pos, m as usize);
    let kept = new.drop_last();
    let r = top[k - 1];
    assert(pos <= k - 1) by {
        if pos > k - 1 {
            assert(keys[top[k - 1] as int] <= keys[m]);
        }
    }
    assert(new[k as int] == r);
    assert forall|i: int| 0 <= i < kept.len() implies #[trigger] kept[i] < m + 1 by {
        assert(kept[i] == new[i]);
    }
    assert forall|i: int, j: int| 0 <= i < j < kept.len() implies #[trigger] kept[i] != #[trigger] kept[j] by {
        assert(kept[i] == new[i] && kept[j] == new[j]);
    }
    assert forall|i: int, j: int| 0 <= i < j < kept.len() implies keys[#[trigger] kept[i] as int]
        <= keys[#[trigger] kept[j] as int] by {
        assert(kept[i] == new[i] && kept[j] == new[j]);
    }
    assert forall|q: int, i: int|
        #![trigger keys[q], kept[i]]
        0 <= q < m + 1 && 0 <= i < kept.len() && !kept.contains(q as usize) implies keys[kept[i] as int]
        <= keys[q] by {
        assert(kept[i] == new[i]);
        // every kept key is at most the key of the dropped entry `r`
        assert(keys[kept[i] as int] <= keys[r as int]) by {
            if i < k {
                assert(keys[new[i] as int] <= keys[new[k as int] as int]);
            }
        }
        if q == m {
            assert(kept[pos] == m as usize);
        } else if top.contains(q as usize) {
            let t = choose|t: int| 0 <= t < top.len() && top[t] == q as usize;
            if t < pos {
                assert(kept[t] == q as usize);
            } else if t < k - 1 {
                assert(kept[t + 1] == q as usize);
            }
        } else {
            assert(keys[top[k - 1] as int] <= keys[q]);
        }
    }
    assert forall|i: int, j: int|
        0 <= i < j < kept.len() && keys[#[trigger] kept[i] as int] == keys[#[trigger] kept[j] as int] implies kept[i]
        < kept[j] by {
        assert(kept[i] == new[i] && kept[j] == new[j]);
    }
    assert forall|q: int, i: int|
        #![trigger keys[q], kept[i]]
        0 <= q < m + 1 && 0 <= i < kept.len() && !kept.contains(q as usize) && keys[kept[i] as int] == keys[q]
            implies kept[i] < q by {
        assert(kept[i] == new[i]);
        assert(keys[kept[i] as int] <= keys[r as int]) by {
            if i < k {
                assert(keys[new[i] as int] <= keys[new[k as int] as int]);
            }
        }
        if q == m {
            assert(kept[pos] == m as usize);
        } else if i == pos {
            assert(new[i] == m as usize);
            if top.contains(q as usize) {
                let t = choose|t: int| 0 <= t < top.len() && top[t] == q as usize;
                if t < pos {
                    assert(kept[t] == q as usize);
                } else if t < k - 1 {
                    assert(kept[t + 1] == q as usize);
                } else {
                    assert(keys[m] < keys[r as int]);
                }
            } else {
                assert(keys[top[k - 1] as int] <= keys[q]);
            }
        } else {
            let ti: int = if i < pos { i } else { i - 1 };
            assert(kept[i] == top[ti]);
            if top.contains(q as usize) {
                let t = choose|t: int| 0 <= t < top.len() && top[t] == q as usize;
                if t < pos {
                    assert(kept[t] == q as usize);
                } else if t < k - 1 {
                    assert(kept[t + 1] == q as usize);
                } else {
                    assert(ti < k - 1);
                    assert(keys[top[ti] as int] == keys[top[k - 1] as int]);
                }
            } else {
                assert(keys[top[ti] as int] == keys[q]);
            }
        }
    }
}

/// One step of the selection: position `m` stays out, its key being no
/// smaller than the largest kept one (or nothing is kept, `k` being 0).
proof fn lemma_step_skip(keys: Seq<u32>, m: int, k: int, top: Seq<usize>)
    requires
        0 <= m < keys.len(),
        m < usize::MAX,
        selects_smallest(keys, m, k, top),
        top.len() == k,
        k == 0 || keys[m] >= keys[top[k - 1] as int],
    ensures
        selects_smallest(keys, m + 1, k, top),
{
    assert forall|q: int, i: int|
        #![trigger keys[q], top[i]]
        0 <= q < m + 1 && 0 <= i < top.len() && !top.contains(q as usize) implies keys[top[i] as int]
        <= keys[q] by {
        if q == m && i < k - 1 {
            assert(keys[top[i] as int] <= keys[top[k - 1] as int]);
        }
    }
}

/// Positions of the `k` smallest keys, in ascending key order.
///
/// Keys are scanned in order; an entry joins the kept ones while fewer than
/// `k` are kept, or when its key is strictly smaller than the largest kept
/// key, which then leaves. Among equal keys the earlier position comes first.
pub fn k_smallest(keys: &Vec<u32>, k: usize) -> (sel: Vec<usize>)
    ensures
        is_k_smallest(keys@, k as int, sel@),
{
    let mut top: Vec<usize> = Vec::new();
    let n: usize = keys.len();
    let mut p: usize = 0;
    while p < n
        invariant
            n == keys@.len(),
            p <= n,
            selects_smallest(keys@, p as int, k as int, top@),
        decreases n - p,
    {
        let kp: u32 = keys[p];
        if top.len() < k {
            let pos: usize = insertion_point(keys, &top, kp);
            proof {
                lemma_step_grow(keys@, p as int, k as int, top@, pos as int);
            }
            top.insert(pos, p);
        } else if k > 0 && kp < keys[top[top.len() - 1]] {
            let pos: usize = insertion_point(keys, &top, kp);
            proof {
                lemma_step_replace(keys@, p as int, k as int, top@, pos as int);
            }
            top.insert(pos, p);
            top.pop();
        } else {
            proof {
                lemma_step_skip(keys@, p as int, k as int, top@);
            }
        }
        p = p + 1;
    }
    top
}

/// Position of the first smallest key.
pub fn nearest(keys: &Vec<u32>) -> (best: usize)
    requires
        keys@.len() > 0,
    ensures
        best < keys@.len(),
        forall|i: int| 0 <= i < keys@.len() ==> keys@[best as int] <= #[trigger] keys@[i],
        forall|i: int| 0 <= i < best ==> keys@[best as int] < #[trigger] keys@[i],
{
    let mut best: usize = 0;
    let mut i: usize = 1;
    while i < keys.len()
        invariant
            1 <= i <= keys@.len(),
            best < i,
            forall|j: int| 0 <= j < i ==> keys@[best as int] <= #[trigger] keys@[j],
            forall|j: int| 0 <= j < best ==> keys@[best as int] < #[trigger] keys@[j],
        decreases keys@.len() - i,
    {
        if keys[i] < keys[best] {
            best = i;
        }
        i = i + 1;
    }
    best
}

} // verus!
