//! Stable sorting by a text key.
use crate::text::{comes_before, lemma_text_order_total, lemma_text_order_transitive, text_before};
use vstd::prelude::*;

verus! {

/// The indices `v` with `x` put in: behind every index whose key does not come
/// behind the key of `x`.
pub open spec fn with_index(keys: Seq<Seq<char>>, v: Seq<int>, x: int) -> Seq<int>
    decreases v.len(),
{
    if v.len() == 0 {
        seq![x]
    } else if text_before(keys[x], keys[v.last()]) {
        with_index(keys, v.drop_last(), x).push(v.last())
    } else {
        v.push(x)
    }
}

/// The first `n` indices in the order of their keys.
pub open spec fn order_upto(keys: Seq<Seq<char>>, n: int) -> Seq<int>
    decreases n,
{
    if n <= 0 {
        Seq::empty()
    } else {
        with_index(keys, order_upto(keys, n - 1), n - 1)
    }
}

/// All indices in the order of their keys; equal keys keep their order.
pub open spec fn stable_order(keys: Seq<Seq<char>>) -> Seq<int> {
    order_upto(keys, keys.len() as int)
}

/// Whether `a` stands before `b` in a stable order.
pub open spec fn stands_before(keys: Seq<Seq<char>>, a: int, b: int) -> bool {
    text_before(keys[a], keys[b]) || (keys[a] == keys[b] && a < b)
}

pub open spec fn in_order(keys: Seq<Seq<char>>, v: Seq<int>) -> bool {
    forall|j: int, k: int|
        0 <= j < k < v.len() ==> stands_before(keys, #[trigger] v[j], #[trigger] v[k])
}

proof fn lemma_with_index(keys: Seq<Seq<char>>, v: Seq<int>, x: int)
    requires
        in_order(keys, v),
        forall|k: int| 0 <= k < v.len() ==> #[trigger] v[k] < x,
    ensures
        in_order(keys, with_index(keys, v, x)),
        with_index(keys, v, x).len() == v.len() + 1,
        forall|y: int| #[trigger] with_index(keys, v, x).contains(y) <==> v.contains(y) || y == x,
    decreases v.len(),
{
    let w = with_index(keys, v, x);
    if v.len() == 0 {
        assert(w[0] == x);
    } else if text_before(keys[x], keys[v.last()]) {
        let f = v.drop_last();
        let g = with_index(keys, f, x);
        assert forall|j: int, k: int| 0 <= j < k < f.len() implies stands_before(
            keys,
            #[trigger] f[j],
            #[trigger] f[k],
        ) by {
            assert(stands_before(keys, v[j], v[k]));
        }
        assert forall|k: int| 0 <= k < f.len() implies #[trigger] f[k] < x by {
            assert(v[k] < x);
        }
        lemma_with_index(keys, f, x);
        assert forall|j: int, k: int| 0 <= j < k < w.len() implies stands_before(
            keys,
            #[trigger] w[j],
            #[trigger] w[k],
        ) by {
            if k < g.len() {
                assert(stands_before(keys, g[j], g[k]));
            } else {
                assert(g.contains(g[j]));
                assert(f.contains(g[j]) || g[j] == x);
                if g[j] != x {
                    let m = choose|m: int| 0 <= m < f.len() && f[m] == g[j];
                    assert(stands_before(keys, v[m], v[v.len() - 1]));
                }
            }
        }
        assert forall|y: int| #[trigger] w.contains(y) <==> v.contains(y) || y == x by {
            if w.contains(y) {
                let m = choose|m: int| 0 <= m < w.len() && w[m] == y;
                if m < g.len() {
                    assert(g[m] == y);
                    assert(g.contains(y));
                    if f.contains(y) {
                        let q = choose|q: int| 0 <= q < f.len() && f[q] == y;
                        assert(v[q] == y);
                    }
                } else {
                    assert(v[v.len() - 1] == y);
                }
            }
            if v.contains(y) || y == x {
                if y == x {
                    assert(g.contains(x));
                    let m = choose|m: int| 0 <= m < g.len() && g[m] == x;
                    assert(w[m] == x);
                } else {
                    let m = choose|m: int| 0 <= m < v.len() && v[m] == y;
                    if m < f.len() {
                        assert(f[m] == y);
                        assert(f.contains(y));
                        assert(g.contains(y));
                        let q = choose|q: int| 0 <= q < g.len() && g[q] == y;
                        assert(w[q] == y);
                    } else {
                        assert(w[g.len() as int] == y);
                    }
                }
            }
        }
    } else {
        let last = v.last();
        assert(v[v.len() - 1] == last);
        lemma_text_order_total(keys[x], keys[last]);
        assert forall|j: int, k: int| 0 <= j < k < w.len() implies stands_before(
            keys,
            #[trigger] w[j],
            #[trigger] w[k],
        ) by {
            if k < v.len() {
                assert(stands_before(keys, v[j], v[k]));
            } else {
                assert(stands_before(keys, last, x));
                if j < v.len() - 1 {
                    assert(stands_before(keys, v[j], v[v.len() - 1]));
                    lemma_stands_before_transitive(keys, v[j], last, x);
                }
            }
        }
        assert forall|y: int| #[trigger] w.contains(y) <==> v.contains(y) || y == x by {
            assert(w[v.len() as int] == x);
            if v.contains(y) {
                let m = choose|m: int| 0 <= m < v.len() && v[m] == y;
                assert(w[m] == y);
            }
            if w.contains(y) && y != x {
                let m = choose|m: int| 0 <= m < w.len() && w[m] == y;
                assert(v[m] == y);
            }
        }
    }
}

proof fn lemma_stands_before_transitive(keys: Seq<Seq<char>>, a: int, b: int, c: int)
    requires
        stands_before(keys, a, b),
        stands_before(keys, b, c),
    ensures
        stands_before(keys, a, c),
{
    if text_before(keys[a], keys[b]) && text_before(keys[b], keys[c]) {
        lemma_text_order_transitive(keys[a], keys[b], keys[c]);
    }
}

proof fn lemma_order_upto(keys: Seq<Seq<char>>, n: int)
    requires
        0 <= n <= keys.len(),
    ensures
        in_order(keys, order_upto(keys, n)),
        order_upto(keys, n).len() == n,
        forall|y: int| #[trigger] order_upto(keys, n).contains(y) <==> 0 <= y < n,
    decreases n,
{
    if n > 0 {
        lemma_order_upto(keys, n - 1);
        let v = order_upto(keys, n - 1);
        assert forall|k: int| 0 <= k < v.len() implies #[trigger] v[k] < n - 1 by {
            assert(v.contains(v[k]));
        }
        lemma_with_index(keys, v, n - 1);
    }
}

/// A stable order holds every index once, sorted by key, equal keys in their order.
pub proof fn stable_order_sorts(keys: Seq<Seq<char>>)
    ensures
        in_order(keys, stable_order(keys)),
        stable_order(keys).len() == keys.len(),
        forall|y: int| #[trigger] stable_order(keys).contains(y) <==> 0 <= y < keys.len(),
        forall|k: int|
            0 <= k < keys.len() ==> 0 <= #[trigger] stable_order(keys)[k] < keys.len(),
{
    lemma_order_upto(keys, keys.len() as int);
    assert forall|k: int| 0 <= k < keys.len() implies 0 <= #[trigger] stable_order(keys)[k]
        < keys.len() by {
        assert(stable_order(keys).contains(stable_order(keys)[k]));
    }
}

pub open spec fn vec_keys(v: Seq<Vec<char>>) -> Seq<Seq<char>> {
    v.map_values(|k: Vec<char>| k@)
}

pub open spec fn int_indices(v: Seq<usize>) -> Seq<int> {
    v.map_values(|k: usize| k as int)
}

/// Where the index with the key of `x` goes in.
proof fn lemma_with_index_at(keys: Seq<Seq<char>>, v: Seq<int>, x: int, p: int)
    requires
        0 <= p <= v.len(),
        forall|k: int| p <= k < v.len() ==> text_before(keys[x], keys[#[trigger] v[k]]),
        p > 0 ==> !text_before(keys[x], keys[v[p - 1]]),
    ensures
        with_index(keys, v, x) == v.insert(p, x),
    decreases v.len(),
{
    if v.len() == 0 {
        assert(v.insert(p, x) =~= seq![x]);
    } else if p == v.len() {
        assert(v.insert(p, x) =~= v.push(x));
    } else {
        assert(text_before(keys[x], keys[v[v.len() - 1]]));
        let f = v.drop_last();
        assert forall|k: int| p <= k < f.len() implies text_before(keys[x], keys[#[trigger] f[k]]) by {
            assert(f[k] == v[k]);
        }
        lemma_with_index_at(keys, f, x, p);
        assert(f.insert(p, x).push(v.last()) =~= v.insert(p, x));
    }
}

/// All indices in the order of their keys; equal keys keep their order.
pub fn sort_order(keys: &Vec<Vec<char>>) -> (r: Vec<usize>)
    ensures
        int_indices(r@) == stable_order(vec_keys(keys@)),
        r@.len() == keys@.len(),
        forall|k: int| 0 <= k < r@.len() ==> #[trigger] r@[k] < keys@.len(),
{
    let ghost ks = vec_keys(keys@);
    let mut out: Vec<usize> = Vec::new();
    let n: usize = keys.len();
    let mut i: usize = 0;
    proof {
        assert(int_indices(out@) =~= order_upto(ks, 0));
    }
    while i < n
        invariant
            0 <= i <= n,
            n == keys@.len(),
            ks == vec_keys(keys@),
            int_indices(out@) == order_upto(ks, i as int),
            out@.len() == i,
            forall|k: int| 0 <= k < out@.len() ==> #[trigger] out@[k] < n,
        decreases n - i,
    {
        let mut p: usize = out.len();
        while p > 0 && comes_before(keys[i].as_slice(), keys[out[p - 1]].as_slice())
            invariant
                0 <= p <= out@.len(),
                i < n,
                n == keys@.len(),
                ks == vec_keys(keys@),
                forall|k: int| 0 <= k < out@.len() ==> #[trigger] out@[k] < n,
                forall|k: int|
                    p <= k < out@.len() ==> text_before(ks[i as int], ks[#[trigger] out@[k] as int]),
            decreases p,
        {
            proof {
                assert(ks[i as int] == keys@[i as int]@);
                assert(ks[out@[p - 1] as int] == keys@[out@[p - 1] as int]@);
            }
            p = p - 1;
        }
        let ghost before = out@;
        proof {
            assert(ks[i as int] == keys@[i as int]@);
            if p > 0 {
                assert(ks[out@[p - 1] as int] == keys@[out@[p - 1] as int]@);
            }
            let v = int_indices(out@);
            assert forall|k: int| p <= k < v.len() implies text_before(
                ks[i as int],
                ks[#[trigger] v[k]],
            ) by {
                assert(v[k] == out@[k] as int);
            }
            lemma_with_index_at(ks, v, i as int, p as int);
        }
        out.insert(p, i);
        proof {
            assert(int_indices(out@) =~= int_indices(before).insert(p as int, i as int));
            assert forall|k: int| 0 <= k < out@.len() implies #[trigger] out@[k] < n by {
                if k < p {
                    assert(out@[k] == before[k]);
                } else if k > p {
                    assert(out@[k] == before[k - 1]);
                }
            }
        }
        i = i + 1;
    }
    out
}

} // verus!
