use vstd::prelude::*;

verus! {

/// Where a stable insertion puts `x` into `r`: after the last element whose key is not
/// above `x`'s, scanning from the end.
pub open spec fn insert_pos<T>(r: Seq<T>, x: T, key: spec_fn(T) -> int) -> nat
    decreases r.len(),
{
    if r.len() == 0 || key(r.last()) <= key(x) {
        r.len()
    } else {
        insert_pos(r.drop_last(), x, key)
    }
}

/// Stable sort of `s` by `key`: each element is inserted after every earlier element
/// whose key is not above its own.
pub open spec fn stable_sort<T>(s: Seq<T>, key: spec_fn(T) -> int) -> Seq<T>
    decreases s.len(),
{
    if s.len() == 0 {
        s
    } else {
        let r = stable_sort(s.drop_last(), key);
        r.insert(insert_pos(r, s.last(), key) as int, s.last())
    }
}

/// The keys of `s` do not decrease.
pub open spec fn sorted_by<T>(s: Seq<T>, key: spec_fn(T) -> int) -> bool {
    forall|i: int, j: int| 0 <= i < j < s.len() ==> key(s[i]) <= key(s[j])
}

pub proof fn lemma_insert_pos<T>(r: Seq<T>, x: T, key: spec_fn(T) -> int)
    ensures
        insert_pos(r, x, key) <= r.len(),
        forall|k: int| insert_pos(r, x, key) <= k < r.len() ==> key(#[trigger] r[k]) > key(x),
        insert_pos(r, x, key) > 0 ==> key(r[insert_pos(r, x, key) - 1]) <= key(x),
    decreases r.len(),
{
    if r.len() > 0 && key(r.last()) > key(x) {
        lemma_insert_pos(r.drop_last(), x, key);
        let p = insert_pos(r, x, key);
        assert forall|k: int| p <= k < r.len() implies key(#[trigger] r[k]) > key(x) by {
            if k < r.len() - 1 {
                assert(r[k] == r.drop_last()[k]);
            }
        }
    }
}

proof fn lemma_insert_pos_map<A, B>(r: Seq<A>, x: A, f: spec_fn(A) -> B, key: spec_fn(B) -> int, key2: spec_fn(A) -> int)
    requires
        forall|y: A| #[trigger] key2(y) == key(f(y)),
    ensures
        insert_pos(r.map_values(f), f(x), key) == insert_pos(r, x, key2),
    decreases r.len(),
{
    if r.len() > 0 {
        assert(r.map_values(f).drop_last() =~= r.drop_last().map_values(f));
        assert(r.map_values(f).last() == f(r.last()));
        assert(key2(r.last()) == key(f(r.last())));
        assert(key2(x) == key(f(x)));
        lemma_insert_pos_map(r.drop_last(), x, f, key, key2);
    }
}

/// Sorting what a sequence points to is sorting the sequence by the key of what each
/// element points to, then looking the elements up.
pub proof fn lemma_stable_sort_map<A, B>(q: Seq<A>, f: spec_fn(A) -> B, key: spec_fn(B) -> int, key2: spec_fn(A) -> int)
    requires
        forall|y: A| #[trigger] key2(y) == key(f(y)),
    ensures
        stable_sort(q.map_values(f), key) == stable_sort(q, key2).map_values(f),
    decreases q.len(),
{
    if q.len() == 0 {
        assert(q.map_values(f) =~= Seq::<B>::empty());
        assert(stable_sort(q, key2).map_values(f) =~= Seq::<B>::empty());
    } else {
        let r = stable_sort(q.drop_last(), key2);
        let x = q.last();
        lemma_stable_sort_map(q.drop_last(), f, key, key2);
        assert(q.map_values(f).drop_last() =~= q.drop_last().map_values(f));
        assert(q.map_values(f).last() == f(x));
        lemma_insert_pos_map(r, x, f, key, key2);
        lemma_insert_pos(r, x, key2);
        let p = insert_pos(r, x, key2) as int;
        assert(r.insert(p, x).map_values(f) =~= r.map_values(f).insert(p, f(x)));
    }
}

/// The stable sort puts the elements in order of their keys.
pub proof fn lemma_stable_sort_sorted<T>(s: Seq<T>, key: spec_fn(T) -> int)
    ensures
        sorted_by(stable_sort(s, key), key),
    decreases s.len(),
{
    if s.len() > 0 {
        let r = stable_sort(s.drop_last(), key);
        let x = s.last();
        lemma_stable_sort_sorted(s.drop_last(), key);
        lemma_insert_pos(r, x, key);
        let p = insert_pos(r, x, key) as int;
        let t = r.insert(p, x);
        r.insert_ensures(p, x);
        assert forall|i: int, j: int| 0 <= i < j < t.len() implies key(t[i]) <= key(t[j]) by {
            if j < p {
            } else if j == p {
                if i < p - 1 {
                    assert(key(r[i]) <= key(r[p - 1]));
                }
            } else if i < p {
                assert(t[j] == r[j - 1]);
                if i < p - 1 {
                    assert(key(r[i]) <= key(r[p - 1]));
                }
            } else if i == p {
                assert(t[j] == r[j - 1]);
            } else {
                assert(t[i] == r[i - 1]);
                assert(t[j] == r[j - 1]);
            }
        }
    }
}

/// The stable sort keeps exactly the elements it was given.
pub proof fn lemma_stable_sort_permutation<T>(s: Seq<T>, key: spec_fn(T) -> int)
    ensures
        stable_sort(s, key).to_multiset() == s.to_multiset(),
        stable_sort(s, key).len() == s.len(),
    decreases s.len(),
{
    broadcast use vstd::seq_lib::group_to_multiset_ensures;
    if s.len() > 0 {
        let r = stable_sort(s.drop_last(), key);
        let x = s.last();
        lemma_stable_sort_permutation(s.drop_last(), key);
        lemma_insert_pos(r, x, key);
        let p = insert_pos(r, x, key) as int;
        let a = r.subrange(0, p);
        let b = r.subrange(p, r.len() as int);
        assert(r =~= a + b);
        vstd::seq_lib::lemma_multiset_commutative(a.push(x), b);
        vstd::seq_lib::lemma_multiset_commutative(a, b);
        assert(s =~= s.drop_last().push(x));
        assert(r.insert(p, x) =~= a.push(x) + b);
    }
}

/// Whether an element's key is `v`.
pub open spec fn key_is<T>(key: spec_fn(T) -> int, v: int) -> spec_fn(T) -> bool {
    |z: T| key(z) == v
}

/// The stable sort keeps elements with equal keys in their given order.
pub proof fn lemma_stable_sort_stable<T>(s: Seq<T>, key: spec_fn(T) -> int, v: int)
    ensures
        stable_sort(s, key).filter(key_is(key, v)) == s.filter(key_is(key, v)),
    decreases s.len(),
{
    let pred = key_is(key, v);
    if s.len() > 0 {
        let r = stable_sort(s.drop_last(), key);
        let x = s.last();
        lemma_stable_sort_stable(s.drop_last(), key, v);
        lemma_insert_pos(r, x, key);
        let p = insert_pos(r, x, key) as int;
        let a = r.subrange(0, p);
        let b = r.subrange(p, r.len() as int);
        assert(r =~= a + b);
        assert(r.insert(p, x) == a.push(x) + b);
        Seq::filter_distributes_over_add(a.push(x), b, pred);
        Seq::filter_distributes_over_add(a, b, pred);
        a.lemma_filter_push(x, pred);
        s.drop_last().lemma_filter_push(x, pred);
        assert(s =~= s.drop_last().push(x));
        if pred(x) {
            assert forall|k: int| 0 <= k < b.len() implies !pred(#[trigger] b[k]) by {
                assert(b[k] == r[p + k]);
            }
            assert(b.all(|z: T| !pred(z)));
            b.lemma_all_neg_filter_empty(pred);
            assert(b.filter(pred) =~= Seq::<T>::empty());
            assert(a.filter(pred) + b.filter(pred) =~= a.filter(pred));
            assert(a.filter(pred).push(x) + b.filter(pred) =~= a.filter(pred).push(x));
        }
    }
}

/// Two sequences in key order that agree on the elements of every key, in order,
/// are equal.
pub proof fn lemma_sorted_same_filters_equal<T>(t: Seq<T>, u: Seq<T>, key: spec_fn(T) -> int)
    requires
        sorted_by(t, key),
        sorted_by(u, key),
        forall|v: int| t.filter(key_is(key, v)) == #[trigger] u.filter(key_is(key, v)),
    ensures
        t == u,
    decreases t.len() + u.len(),
{
    broadcast use vstd::seq_lib::group_filter_ensures;
    if t.len() == 0 && u.len() == 0 {
        assert(t =~= u);
    } else if t.len() == 0 {
        let y = u.last();
        u.lemma_filter_contains(key_is(key, key(y)), u.len() - 1);
        assert(t.filter(key_is(key, key(y))).len() == 0);
        assert(u.filter(key_is(key, key(y))).contains(y));
    } else if u.len() == 0 {
        let x = t.last();
        t.lemma_filter_contains(key_is(key, key(x)), t.len() - 1);
        assert(u.filter(key_is(key, key(x))).len() == 0);
        assert(t.filter(key_is(key, key(x))).contains(x));
    } else {
        let x = t.last();
        let y = u.last();
        // Both end with their greatest key.
        t.lemma_filter_contains(key_is(key, key(x)), t.len() - 1);
        assert(u.filter(key_is(key, key(x))).contains(x));
        u.lemma_filter_contains_rev(key_is(key, key(x)), x);
        let k = choose|k: int| 0 <= k < u.len() && u[k] == x;
        assert(key(u[k]) <= key(y));
        u.lemma_filter_contains(key_is(key, key(y)), u.len() - 1);
        assert(t.filter(key_is(key, key(y))).contains(y));
        t.lemma_filter_contains_rev(key_is(key, key(y)), y);
        let m = choose|m: int| 0 <= m < t.len() && t[m] == y;
        assert(key(t[m]) <= key(x));
        let kx = key(x);
        let td = t.drop_last();
        let ud = u.drop_last();
        assert(t =~= td.push(x));
        assert(u =~= ud.push(y));
        td.lemma_filter_push(x, key_is(key, kx));
        ud.lemma_filter_push(y, key_is(key, kx));
        assert(u.filter(key_is(key, kx)) == ud.filter(key_is(key, kx)).push(y));
        assert(t.filter(key_is(key, kx)) == td.filter(key_is(key, kx)).push(x));
        assert(x == t.filter(key_is(key, kx)).last());
        assert(y == u.filter(key_is(key, kx)).last());
        assert forall|v: int| td.filter(key_is(key, v)) == #[trigger] ud.filter(key_is(key, v)) by {
            td.lemma_filter_push(x, key_is(key, v));
            ud.lemma_filter_push(y, key_is(key, v));
            assert(t.filter(key_is(key, v)) == u.filter(key_is(key, v)));
            if v == kx {
                assert(td.filter(key_is(key, v)) =~= t.filter(key_is(key, v)).drop_last());
                assert(ud.filter(key_is(key, v)) =~= u.filter(key_is(key, v)).drop_last());
            }
        }
        assert(sorted_by(td, key));
        assert(sorted_by(ud, key));
        lemma_sorted_same_filters_equal(td, ud, key);
    }
}

/// A sequence in key order that holds, for every key, the elements of that key in `s`
/// in their order in `s`, is the stable sort of `s`.
pub proof fn lemma_stable_sort_unique<T>(s: Seq<T>, t: Seq<T>, key: spec_fn(T) -> int)
    requires
        sorted_by(t, key),
        forall|v: int| #[trigger] t.filter(key_is(key, v)) == s.filter(key_is(key, v)),
    ensures
        t == stable_sort(s, key),
{
    lemma_stable_sort_sorted(s, key);
    assert forall|v: int| t.filter(key_is(key, v)) == #[trigger] stable_sort(s, key).filter(key_is(key, v)) by {
        lemma_stable_sort_stable(s, key, v);
    }
    lemma_sorted_same_filters_equal(t, stable_sort(s, key), key);
}

/// Merge two sequences in key order; on equal keys the element of `a` comes first.
fn merge_sorted<T: Copy, F: Fn(T, T) -> bool>(a: &Vec<T>, b: &Vec<T>, le: &F, Ghost(key): Ghost<spec_fn(T) -> int>) -> (r: Vec<T>)
    requires
        forall|x: T, y: T| #[trigger] le.requires((x, y)),
        forall|x: T, y: T, c: bool| le.ensures((x, y), c) ==> c == (key(x) <= key(y)),
        sorted_by(a@, key),
        sorted_by(b@, key),
    ensures
        sorted_by(r@, key),
        forall|v: int| #[trigger] r@.filter(key_is(key, v)) == a@.filter(key_is(key, v)) + b@.filter(key_is(key, v)),
{
    broadcast use vstd::seq_lib::group_filter_ensures;
    let mut out: Vec<T> = Vec::new();
    let mut i: usize = 0;
    let mut j: usize = 0;
    proof {
        assert forall|v: int| #[trigger] out@.filter(key_is(key, v))
            == a@.take(0).filter(key_is(key, v)) + b@.take(0).filter(key_is(key, v)) by {
            assert(out@ =~= Seq::<T>::empty());
            assert(a@.take(0) =~= Seq::<T>::empty());
            assert(b@.take(0) =~= Seq::<T>::empty());
            assert(Seq::<T>::empty().filter(key_is(key, v)).len() == 0);
            assert(Seq::<T>::empty().filter(key_is(key, v)) =~= Seq::<T>::empty());
        }
    }
    while i < a.len() || j < b.len()
        invariant
            forall|x: T, y: T| #[trigger] le.requires((x, y)),
            forall|x: T, y: T, c: bool| le.ensures((x, y), c) ==> c == (key(x) <= key(y)),
            sorted_by(a@, key),
            sorted_by(b@, key),
            i <= a@.len(),
            j <= b@.len(),
            out@.len() == i + j,
            sorted_by(out@, key),
            out@.len() > 0 && i < a@.len() ==> key(out@.last()) <= key(a@[i as int]),
            out@.len() > 0 && j < b@.len() ==> key(out@.last()) <= key(b@[j as int]),
            i < a@.len() ==> forall|k: int| 0 <= k < j ==> key(#[trigger] b@[k]) < key(a@[i as int]),
            forall|v: int| #[trigger] out@.filter(key_is(key, v))
                == a@.take(i as int).filter(key_is(key, v)) + b@.take(j as int).filter(key_is(key, v)),
        decreases a@.len() + b@.len() - i - j,
    {
        let ghost o = out@;
        let take_a = if i >= a.len() { false } else if j >= b.len() { true } else { le(a[i], b[j]) };
        if take_a {
            let x = a[i];
            out.push(x);
            proof {
                assert(a@.take(i + 1) =~= a@.take(i as int).push(x));
                assert forall|v: int| #[trigger] out@.filter(key_is(key, v))
                    == a@.take(i + 1).filter(key_is(key, v)) + b@.take(j as int).filter(key_is(key, v)) by {
                    o.lemma_filter_push(x, key_is(key, v));
                    a@.take(i as int).lemma_filter_push(x, key_is(key, v));
                    if key(x) == v {
                        let bt = b@.take(j as int);
                        assert forall|k: int| 0 <= k < bt.len() implies !key_is(key, v)(#[trigger] bt[k]) by {
                            assert(bt[k] == b@[k]);
                        }
                        assert(bt.all(|z: T| !key_is(key, v)(z)));
                        bt.lemma_all_neg_filter_empty(key_is(key, v));
                        assert(bt.filter(key_is(key, v)) =~= Seq::<T>::empty());
                        assert(o.filter(key_is(key, v)) =~= a@.take(i as int).filter(key_is(key, v)));
                        assert(out@.filter(key_is(key, v)) =~= a@.take(i + 1).filter(key_is(key, v)) + bt.filter(key_is(key, v)));
                    }
                }
                assert forall|p: int, q: int| 0 <= p < q < out@.len() implies key(out@[p]) <= key(out@[q]) by {
                    if q == out@.len() - 1 && p < q {
                        assert(out@[q] == x);
                        assert(out@[p] == o[p]);
                        assert(key(o[p]) <= key(o.last()));
                    }
                }
                if i + 1 < a@.len() {
                    assert(key(a@[i as int]) <= key(a@[i + 1]));
                }
            }
            i = i + 1;
        } else {
            let y = b[j];
            out.push(y);
            proof {
                assert(b@.take(j + 1) =~= b@.take(j as int).push(y));
                assert forall|v: int| #[trigger] out@.filter(key_is(key, v))
                    == a@.take(i as int).filter(key_is(key, v)) + b@.take(j + 1).filter(key_is(key, v)) by {
                    o.lemma_filter_push(y, key_is(key, v));
                    b@.take(j as int).lemma_filter_push(y, key_is(key, v));
                    if key(y) == v {
                        assert(out@.filter(key_is(key, v)) =~= a@.take(i as int).filter(key_is(key, v)) + b@.take(j + 1).filter(key_is(key, v)));
                    }
                }
                assert forall|p: int, q: int| 0 <= p < q < out@.len() implies key(out@[p]) <= key(out@[q]) by {
                    if q == out@.len() - 1 && p < q {
                        assert(out@[q] == y);
                        assert(out@[p] == o[p]);
                        assert(key(o[p]) <= key(o.last()));
                    }
                }
                if j + 1 < b@.len() {
                    assert(key(b@[j as int]) <= key(b@[j + 1]));
                }
                if i < a@.len() {
                    assert forall|k: int| 0 <= k < j + 1 implies key(#[trigger] b@[k]) < key(a@[i as int]) by {}
                }
            }
            j = j + 1;
        }
    }
    proof {
        assert(a@.take(i as int) =~= a@);
        assert(b@.take(j as int) =~= b@);
    }
    out
}

/// Stable merge sort of `v[lo..hi]` by `key`, comparing with `le`.
fn merge_sort_range<T: Copy, F: Fn(T, T) -> bool>(v: &Vec<T>, lo: usize, hi: usize, le: &F, Ghost(key): Ghost<spec_fn(T) -> int>) -> (r: Vec<T>)
    requires
        forall|x: T, y: T| #[trigger] le.requires((x, y)),
        forall|x: T, y: T, c: bool| le.ensures((x, y), c) ==> c == (key(x) <= key(y)),
        lo <= hi <= v@.len(),
    ensures
        r@ == stable_sort(v@.subrange(lo as int, hi as int), key),
    decreases hi - lo,
{
    if hi - lo <= 1 {
        let mut r: Vec<T> = Vec::new();
        if hi - lo == 1 {
            r.push(v[lo]);
        }
        proof {
            let s = v@.subrange(lo as int, hi as int);
            assert(s.drop_last().len() == 0 ==> stable_sort(s.drop_last(), key) == s.drop_last());
            if s.len() == 1 {
                assert(s.drop_last() =~= Seq::<T>::empty());
                assert(stable_sort(s, key) =~= s);
            }
            assert(r@ =~= s);
        }
        return r;
    }
    let mid = lo + (hi - lo) / 2;
    let left = merge_sort_range(v, lo, mid, le, Ghost(key));
    let right = merge_sort_range(v, mid, hi, le, Ghost(key));
    let ghost s1 = v@.subrange(lo as int, mid as int);
    let ghost s2 = v@.subrange(mid as int, hi as int);
    proof {
        lemma_stable_sort_sorted(s1, key);
        lemma_stable_sort_sorted(s2, key);
    }
    let r = merge_sorted(&left, &right, le, Ghost(key));
    proof {
        let s = v@.subrange(lo as int, hi as int);
        assert(s =~= s1 + s2);
        assert forall|val: int| #[trigger] r@.filter(key_is(key, val)) == s.filter(key_is(key, val)) by {
            lemma_stable_sort_stable(s1, key, val);
            lemma_stable_sort_stable(s2, key, val);
            Seq::filter_distributes_over_add(s1, s2, key_is(key, val));
        }
        lemma_stable_sort_unique(s, r@, key);
    }
    r
}

/// Stable merge sort of `v` by `key`, comparing with `le`.
pub(crate) fn merge_sort<T: Copy, F: Fn(T, T) -> bool>(v: &Vec<T>, le: &F, Ghost(key): Ghost<spec_fn(T) -> int>) -> (r: Vec<T>)
    requires
        forall|x: T, y: T| #[trigger] le.requires((x, y)),
        forall|x: T, y: T, c: bool| le.ensures((x, y), c) ==> c == (key(x) <= key(y)),
    ensures
        r@ == stable_sort(v@, key),
{
    let r = merge_sort_range(v, 0, v.len(), le, Ghost(key));
    proof {
        assert(v@.subrange(0, v@.len() as int) =~= v@);
    }
    r
}

} // verus!
