use vstd::prelude::*;

verus! {

/// A four-part sort key, compared lexicographically.
pub type Key = (u64, u64, u64, u64);

/// Strict lexicographic order on keys, with the initial position as the final tie-breaker.
pub open spec fn key_lt(a: Key, ia: int, b: Key, ib: int) -> bool {
    ||| a.0 < b.0
    ||| a.0 == b.0 && a.1 < b.1
    ||| a.0 == b.0 && a.1 == b.1 && a.2 < b.2
    ||| a.0 == b.0 && a.1 == b.1 && a.2 == b.2 && a.3 < b.3
    ||| a.0 == b.0 && a.1 == b.1 && a.2 == b.2 && a.3 == b.3 && ia < ib
}

/// `p` lists every position of `keys` exactly once, in increasing order of (key, position):
/// the order a stable sort by key puts the positions in.
pub open spec fn is_sorted_perm(keys: Seq<Key>, p: Seq<int>) -> bool {
    &&& p.len() == keys.len()
    &&& forall|i: int| 0 <= i < p.len() ==> 0 <= #[trigger] p[i] < keys.len()
    &&& forall|k: int| 0 <= k < keys.len() ==> #[trigger] p.contains(k)
    &&& forall|i: int, j: int|
        0 <= i < j < p.len() ==> key_lt(keys[p[i]], p[i], keys[p[j]], p[j])
}

/// The items of `s` in the order `p` lists their positions.
pub open spec fn reorder<A>(s: Seq<A>, p: Seq<int>) -> Seq<A> {
    Seq::new(p.len(), |i: int| s[p[i]])
}

proof fn lemma_key_lt_asym(a: Key, ia: int, b: Key, ib: int)
    requires
        key_lt(a, ia, b, ib),
    ensures
        !key_lt(b, ib, a, ia),
        ia != ib || a != b,
{
}

/// A stable sort order is unique: two sorted permutations of the same keys are equal.
pub proof fn lemma_sorted_perm_unique(keys: Seq<Key>, p: Seq<int>, q: Seq<int>)
    requires
        is_sorted_perm(keys, p),
        is_sorted_perm(keys, q),
    ensures
        p == q,
{
    assert forall|i: int| 0 <= i < p.len() implies p[i] == q[i] by {
        lemma_sorted_perm_prefix(keys, p, q, i);
    }
    assert(p =~= q);
}

proof fn lemma_sorted_perm_prefix(keys: Seq<Key>, p: Seq<int>, q: Seq<int>, i: int)
    requires
        is_sorted_perm(keys, p),
        is_sorted_perm(keys, q),
        0 <= i < p.len(),
    ensures
        p[i] == q[i],
    decreases i,
{
    if i > 0 {
        assert forall|m: int| 0 <= m < i implies p[m] == q[m] by {
            lemma_sorted_perm_prefix(keys, p, q, m);
        }
    }
    if p[i] != q[i] {
        // q[i] occurs in p at some position j, which cannot be before i.
        assert(p.contains(q[i]));
        let j = choose|j: int| 0 <= j < p.len() && p[j] == q[i];
        if j < i {
            assert(p[j] == q[j]);
            // q has the value q[i] at positions j and i, contradicting strict order.
            lemma_key_lt_asym(keys[q[j]], q[j], keys[q[i]], q[i]);
        }
        assert(j > i);
        assert(q.contains(p[i]));
        let j2 = choose|j2: int| 0 <= j2 < q.len() && q[j2] == p[i];
        if j2 < i {
            assert(p[j2] == q[j2]);
            lemma_key_lt_asym(keys[p[j2]], p[j2], keys[p[i]], p[i]);
        }
        assert(j2 > i);
        assert(key_lt(keys[p[i]], p[i], keys[p[j]], p[j]));
        assert(key_lt(keys[q[i]], q[i], keys[q[j2]], q[j2]));
        lemma_key_lt_asym(keys[p[i]], p[i], keys[q[i]], q[i]);
    }
}

fn key_lt_exec(a: Key, ia: usize, b: Key, ib: usize) -> (r: bool)
    ensures
        r == key_lt(a, ia as int, b, ib as int),
{
    a.0 < b.0 || (a.0 == b.0 && a.1 < b.1) || (a.0 == b.0 && a.1 == b.1 && a.2 < b.2) || (a.0
        == b.0 && a.1 == b.1 && a.2 == b.2 && a.3 < b.3) || (a.0 == b.0 && a.1 == b.1 && a.2
        == b.2 && a.3 == b.3 && ia < ib)
}

/// Returns the positions of `keys` in stable sorted order.
pub fn sort_order(keys: &Vec<Key>) -> (p: Vec<usize>)
    ensures
        is_sorted_perm(keys@, p@.map_values(|x: usize| x as int)),
{
    let n = keys.len();
    let mut p: Vec<usize> = Vec::new();
    let mut k: usize = 0;
    // Insertion sort: after step k, p holds positions 0..k in sorted order.
    while k < n
        invariant
            n == keys@.len(),
            k <= n,
            p@.len() == k,
            forall|i: int| 0 <= i < k ==> #[trigger] p@[i] < k,
            forall|m: usize| m < k ==> #[trigger] p@.contains(m),
            forall|i: int, j: int|
                0 <= i < j < k ==> key_lt(
                    keys@[p@[i] as int],
                    p@[i] as int,
                    keys@[p@[j] as int],
                    p@[j] as int,
                ),
        decreases n - k,
    {
        // find insertion point: first position whose key is greater than key k
        let mut pos: usize = 0;
        while pos < p.len() && key_lt_exec(keys[p[pos]], p[pos], keys[k], k)
            invariant
                n == keys@.len(),
                k < n,
                p@.len() == k,
                pos <= k,
                forall|i: int| 0 <= i < k ==> #[trigger] p@[i] < k,
                forall|i: int|
                    0 <= i < pos ==> key_lt(
                        keys@[#[trigger] p@[i] as int],
                        p@[i] as int,
                        keys@[k as int],
                        k as int,
                    ),
            decreases k - pos,
        {
            pos = pos + 1;
        }
        let ghost old_p = p@;
        proof {
            // every later element is greater than key k (keys are totally ordered, positions distinct)
            assert forall|i: int| pos <= i < k implies key_lt(
                keys@[k as int],
                k as int,
                keys@[#[trigger] old_p[i] as int],
                old_p[i] as int,
            ) by {
                if i > pos {
                    assert(key_lt(
                        keys@[old_p[pos as int] as int],
                        old_p[pos as int] as int,
                        keys@[old_p[i] as int],
                        old_p[i] as int,
                    ));
                }
            }
        }
        p.insert(pos, k);
        proof {
            assert forall|m: usize| m < k + 1 implies #[trigger] p@.contains(m) by {
                if m == k {
                    assert(p@[pos as int] == k);
                } else {
                    assert(old_p.contains(m));
                    let w = choose|w: int| 0 <= w < old_p.len() && old_p[w] == m;
                    if w < pos {
                        assert(p@[w] == old_p[w]);
                    } else {
                        assert(p@[w + 1] == old_p[w]);
                    }
                }
            }
            assert forall|i: int| 0 <= i < k + 1 implies #[trigger] p@[i] < k + 1 by {
                if i < pos {
                    assert(p@[i] == old_p[i]);
                } else if i > pos {
                    assert(p@[i] == old_p[i - 1]);
                }
            }
            assert forall|i: int, j: int| 0 <= i < j < k + 1 implies key_lt(
                keys@[p@[i] as int],
                p@[i] as int,
                keys@[p@[j] as int],
                p@[j] as int,
            ) by {
                let oi = if i < pos { i } else { i - 1 };
                let oj = if j < pos { j } else { j - 1 };
                if i < pos {
                    assert(p@[i] == old_p[i]);
                } else if i > pos {
                    assert(p@[i] == old_p[i - 1]);
                }
                if j < pos {
                    assert(p@[j] == old_p[j]);
                } else if j > pos {
                    assert(p@[j] == old_p[j - 1]);
                }
                if i != pos && j != pos {
                    assert(oi < oj);
                }
            }
        }
        k = k + 1;
    }
    proof {
        let q = p@.map_values(|x: usize| x as int);
        assert forall|m: int| 0 <= m < n implies #[trigger] q.contains(m) by {
            assert(p@.contains(m as usize));
            let w = choose|w: int| 0 <= w < p@.len() && p@[w] == m as usize;
            assert(p@[w] as int == m);
            assert(q[w] == m);
        }
    }
    p
}

} // verus!
