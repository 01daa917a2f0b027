//! Stable largest-first ordering, shared by every ranked listing.

use vstd::prelude::*;

verus! {

/// Some position of `p` holds `j`.
pub open spec fn hits(p: Seq<int>, j: int) -> bool {
    exists|k: int| 0 <= k < p.len() && p[k] == j
}

/// `p` lists each index of `0..n` exactly once.
pub open spec fn is_permutation(p: Seq<int>, n: int) -> bool {
    &&& p.len() == n
    &&& forall|k: int| 0 <= k < n ==> 0 <= #[trigger] p[k] < n
    &&& forall|a: int, b: int| 0 <= a < b < n ==> p[a] != p[b]
    &&& forall|j: int| 0 <= j < n ==> #[trigger] hits(p, j)
}

/// `after` holds the elements of `before`, where position `k` of `after`
/// came from position `p[k]` of `before`.
pub open spec fn rearranged<T>(before: Seq<T>, after: Seq<T>, p: Seq<int>) -> bool {
    &&& after.len() == before.len()
    &&& is_permutation(p, before.len() as int)
    &&& forall|k: int| 0 <= k < after.len() ==> after[k] == before[#[trigger] p[k]]
}

/// Where position `k` of `s.remove(i).insert(j, s[i])` comes from in `s`.
pub open spec fn shift_from(i: int, j: int, k: int) -> int {
    if k == j {
        i
    } else if i <= j {
        if i <= k && k < j {
            k + 1
        } else {
            k
        }
    } else {
        if j < k && k <= i {
            k - 1
        } else {
            k
        }
    }
}

/// Taking the element at `i` out and putting it back at `j` rearranges.
pub proof fn lemma_move<T>(s: Seq<T>, i: int, j: int)
    requires
        0 <= i < s.len(),
        0 <= j < s.len(),
    ensures
        rearranged(
            s,
            s.remove(i).insert(j, s[i]),
            Seq::new(s.len(), |k: int| shift_from(i, j, k)),
        ),
{
    let n = s.len() as int;
    let t = s.remove(i).insert(j, s[i]);
    let p = Seq::new(s.len(), |k: int| shift_from(i, j, k));
    assert forall|k: int| 0 <= k < n implies t[k] == s[#[trigger] p[k]] by {}
    assert forall|k: int| 0 <= k < n implies 0 <= #[trigger] p[k] < n by {}
    assert forall|a: int, b: int| 0 <= a < b < n implies p[a] != p[b] by {}
    assert forall|x: int| 0 <= x < n implies #[trigger] hits(p, x) by {
        let back = if x == i {
            j
        } else if i <= j {
            if i < x && x <= j {
                x - 1
            } else {
                x
            }
        } else {
            if j <= x && x < i {
                x + 1
            } else {
                x
            }
        };
        assert(p[back] == x);
    }
}

/// Nothing moved.
pub proof fn lemma_rearranged_identity<T>(s: Seq<T>)
    ensures
        rearranged(s, s, Seq::new(s.len(), |k: int| k)),
{
    let p = Seq::new(s.len(), |k: int| k);
    assert forall|x: int| 0 <= x < s.len() implies #[trigger] hits(p, x) by {
        assert(p[x] == x);
    }
}

/// One rearrangement after another is a rearrangement.
pub proof fn lemma_rearranged_compose<T>(a: Seq<T>, b: Seq<T>, c: Seq<T>, p: Seq<int>, q: Seq<int>)
    requires
        rearranged(a, b, p),
        rearranged(b, c, q),
    ensures
        rearranged(a, c, Seq::new(a.len(), |k: int| p[q[k]])),
{
    let n = a.len() as int;
    let r = Seq::new(a.len(), |k: int| p[q[k]]);
    assert forall|k: int| 0 <= k < n implies c[k] == a[#[trigger] r[k]] by {
        assert(c[k] == b[q[k]]);
    }
    assert forall|k: int| 0 <= k < n implies 0 <= #[trigger] r[k] < n by {
        assert(0 <= q[k] < n);
    }
    assert forall|x: int, y: int| 0 <= x < y < n implies r[x] != r[y] by {
        assert(q[x] != q[y]);
        if q[x] < q[y] {
            assert(p[q[x]] != p[q[y]]);
        } else {
            assert(p[q[y]] != p[q[x]]);
        }
    }
    assert forall|x: int| 0 <= x < n implies #[trigger] hits(r, x) by {
        assert(hits(p, x));
        let m = choose|m: int| 0 <= m < p.len() && p[m] == x;
        assert(hits(q, m));
        let k = choose|k: int| 0 <= k < q.len() && q[k] == m;
        assert(r[k] == x);
    }
}

/// Keys run largest first, and equal keys keep the order of their origins:
/// the order a stable sort by descending key produces.
pub open spec fn stable_descending(keys: Seq<u64>, p: Seq<int>) -> bool {
    forall|a: int, b: int|
        #![trigger keys[a], keys[b]]
        0 <= a < b < keys.len() ==> keys[a] > keys[b] || (keys[a] == keys[b] && p[a] < p[b])
}

/// Keys `0..i` already satisfy the stable descending order.
pub open spec fn sorted_prefix(keys: Seq<u64>, p: Seq<int>, i: int) -> bool {
    forall|a: int, b: int|
        #![trigger keys[a], keys[b]]
        0 <= a < b < i ==> keys[a] > keys[b] || (keys[a] == keys[b] && p[a] < p[b])
}

/// `after` is `before` ranked by `key`, largest first, with equal keys
/// kept in their order in `before`: what a stable sort by descending key
/// gives.
pub open spec fn ranked_by<V>(before: Seq<V>, after: Seq<V>, key: spec_fn(V) -> u64) -> bool {
    exists|p: Seq<int>|
        #[trigger] rearranged(before, after, p) && stable_descending(after.map_values(key), p)
}

/// What [`sort_desc_stable`] gives, stated over views of the items whose
/// keys were read off them before sorting.
pub proof fn lemma_sorted_is_ranked<T, V>(
    before: Seq<T>,
    after: Seq<T>,
    keys0: Seq<u64>,
    keys: Seq<u64>,
    p: Seq<int>,
    view: spec_fn(T) -> V,
    key: spec_fn(V) -> u64,
)
    requires
        rearranged(before, after, p),
        rearranged(keys0, keys, p),
        stable_descending(keys, p),
        forall|j: int| 0 <= j < before.len() ==> #[trigger] keys0[j] == key(view(before[j])),
    ensures
        ranked_by(before.map_values(view), after.map_values(view), key),
{
    let bv = before.map_values(view);
    let av = after.map_values(view);
    assert forall|k: int| 0 <= k < av.len() implies av[k] == bv[#[trigger] p[k]] by {}
    assert(rearranged(bv, av, p));
    assert(av.map_values(key) =~= keys) by {
        assert forall|k: int| 0 <= k < keys.len() implies av.map_values(key)[k] == keys[k] by {
            assert(keys[k] == keys0[p[k]]);
            assert(keys0[p[k]] == key(view(before[p[k]])));
        }
    }
}

/// Where position `k` comes from after moving the element at `i` to `j`.
spec fn moved_from(j: int, i: int, k: int) -> int {
    if k < j {
        k
    } else if k == j {
        i
    } else if k <= i {
        k - 1
    } else {
        k
    }
}

proof fn lemma_move_preserves<T>(before: Seq<T>, now: Seq<T>, p: Seq<int>, j: int, i: int)
    requires
        0 <= j <= i < before.len(),
        rearranged(before, now, p),
    ensures
        ({
            let n = now.len() as int;
            let moved = Seq::new(n as nat, |k: int| now[moved_from(j, i, k)]);
            let q = Seq::new(n as nat, |k: int| p[moved_from(j, i, k)]);
            rearranged(before, moved, q)
        }),
{
    let n = now.len() as int;
    let q = Seq::new(n as nat, |k: int| p[moved_from(j, i, k)]);
    assert forall|a: int, b: int| 0 <= a < b < n implies q[a] != q[b] by {
        assert(moved_from(j, i, a) != moved_from(j, i, b));
    }
    assert forall|k: int| 0 <= k < n implies 0 <= #[trigger] q[k] < n by {
        assert(0 <= moved_from(j, i, k) < n);
    }
    assert forall|t: int| 0 <= t < n implies #[trigger] hits(q, t) by {
        assert(hits(p, t));
        let k = choose|k: int| 0 <= k < p.len() && p[k] == t;
        let back = if k < j {
            k
        } else if k == i {
            j
        } else if k < i {
            k + 1
        } else {
            k
        };
        assert(moved_from(j, i, back) == k);
        assert(q[back] == t);
    }
}

/// Sorts `items` (whose keys are the parallel vector `keys`) largest key
/// first, keeping equal keys in their original relative order. The returned
/// ghost permutation tells where each output element came from.
pub fn sort_desc_stable<T>(items: &mut Vec<T>, keys: &mut Vec<u64>) -> (perm: Ghost<Seq<int>>)
    requires
        old(items).len() == old(keys).len(),
    ensures
        rearranged(old(items)@, final(items)@, perm@),
        rearranged(old(keys)@, final(keys)@, perm@),
        stable_descending(final(keys)@, perm@),
{
    let n = items.len();
    let ghost items0 = items@;
    let ghost keys0 = keys@;
    let ghost mut p: Seq<int> = Seq::new(n as nat, |k: int| k);
    proof {
        assert forall|t: int| 0 <= t < n implies #[trigger] hits(p, t) by {
            assert(p[t] == t);
        }
    }
    let mut i: usize = 0;
    while i < n
        invariant
            i <= n,
            items.len() == n,
            keys.len() == n,
            items0.len() == n,
            keys0.len() == n,
            rearranged(items0, items@, p),
            rearranged(keys0, keys@, p),
            forall|k: int| i <= k < n ==> #[trigger] p[k] == k,
            forall|k: int| 0 <= k < i ==> #[trigger] p[k] < i,
            sorted_prefix(keys@, p, i as int),
        decreases n - i,
    {
        let ghost kb = keys@;
        let ghost ib = items@;
        let ghost pb = p;
        let x = items.remove(i);
        let kx = keys.remove(i);
        let ghost kr = keys@;
        let mut j: usize = 0;
        while j < i && keys[j] >= kx
            invariant
                j <= i,
                i < n,
                keys@ == kr,
                kr.len() == n - 1,
                forall|k: int| 0 <= k < j ==> #[trigger] kr[k] >= kx,
            decreases i - j,
        {
            j += 1;
        }
        items.insert(j, x);
        keys.insert(j, kx);
        proof {
            let ji = j as int;
            let ii = i as int;
            let nn = n as int;
            lemma_move_preserves(items0, ib, pb, ji, ii);
            lemma_move_preserves(keys0, kb, pb, ji, ii);
            assert(items@ =~= Seq::new(n as nat, |k: int| ib[moved_from(ji, ii, k)]));
            assert(keys@ =~= Seq::new(n as nat, |k: int| kb[moved_from(ji, ii, k)]));
            p = Seq::new(n as nat, |k: int| pb[moved_from(ji, ii, k)]);
            assert forall|k: int| ii + 1 <= k < nn implies #[trigger] p[k] == k by {}
            assert forall|k: int| 0 <= k < ii + 1 implies #[trigger] p[k] < ii + 1 by {
                assert(moved_from(ji, ii, k) <= ii);
            }
            assert forall|a: int, b: int| 0 <= a < b < ii + 1 implies #[trigger] keys@[a]
                > #[trigger] keys@[b] || (keys@[a] == keys@[b] && p[a] < p[b]) by {
                if a == ji {
                    // j stopped before i, so keys[j] (now at j + 1) is below kx.
                    assert(ji < ii);
                    assert(kr[ji] < kx);
                    assert(kb[ji] == kr[ji]);
                    assert(keys@[b] == kb[b - 1]);
                    if b - 1 > ji {
                        assert(kb[ji] > kb[b - 1] || kb[ji] == kb[b - 1]);
                    }
                } else if b == ji {
                    assert(keys@[a] == kb[a]);
                    assert(kr[a] >= kx);
                    assert(kb[a] == kr[a]);
                    assert(p[a] == pb[a]);
                    assert(pb[a] < ii);
                } else {
                    let fa = moved_from(ji, ii, a);
                    let fb = moved_from(ji, ii, b);
                    assert(fa < fb < ii);
                    assert(keys@[a] == kb[fa]);
                    assert(keys@[b] == kb[fb]);
                }
            }
        }
        i += 1;
    }
    proof {
        assert forall|a: int, b: int|
            #![trigger keys@[a], keys@[b]]
            0 <= a < b < keys@.len() implies keys@[a] > keys@[b] || (keys@[a] == keys@[b] && p[a]
                < p[b]) by {}
    }
    Ghost(p)
}

/// An element lies in a concatenation exactly when it lies in one part.
pub proof fn lemma_contains_add<T>(a: Seq<T>, b: Seq<T>, x: T)
    ensures
        (a + b).contains(x) <==> (a.contains(x) || b.contains(x)),
{
    if (a + b).contains(x) {
        let i = choose|i: int| 0 <= i < (a + b).len() && (a + b)[i] == x;
        if i < a.len() {
            assert(a[i] == x);
        } else {
            assert(b[i - a.len()] == x);
        }
    }
    if a.contains(x) {
        let i = choose|i: int| 0 <= i < a.len() && a[i] == x;
        assert((a + b)[i] == x);
    }
    if b.contains(x) {
        let i = choose|i: int| 0 <= i < b.len() && b[i] == x;
        assert((a + b)[a.len() + i] == x);
    }
}

/// A ranking holds the same elements as what it ranks.
pub proof fn lemma_ranked_same_elements<V>(before: Seq<V>, after: Seq<V>, key: spec_fn(V) -> u64, x: V)
    requires
        ranked_by(before, after, key),
    ensures
        before.contains(x) <==> after.contains(x),
{
    let p = choose|p: Seq<int>|
        #[trigger] rearranged(before, after, p) && stable_descending(after.map_values(key), p);
    if before.contains(x) {
        let j = choose|j: int| 0 <= j < before.len() && before[j] == x;
        assert(hits(p, j));
        let k = choose|k: int| 0 <= k < p.len() && p[k] == j;
        assert(after[k] == before[p[k]]);
    }
    if after.contains(x) {
        let k = choose|k: int| 0 <= k < after.len() && after[k] == x;
        assert(after[k] == before[p[k]]);
        assert(0 <= p[k] < before.len());
    }
}

} // verus!
