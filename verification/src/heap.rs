use vstd::prelude::*;
use vstd::multiset::Multiset;

verus! {

/// Position of the parent of array position `j` in a binary heap.
pub open spec fn parent(j: int) -> int {
    (j - 1) / 2
}

/// A binary min-heap laid out in an array: no key is below its parent's.
pub open spec fn heap_ordered<V>(s: Seq<(u128, V)>) -> bool {
    forall|j: int| 0 < j < s.len() ==> s[#[trigger] parent(j)].0 <= s[j].0
}

/// Heap order except between position `i` and its parent, and `i`'s children are not
/// below `i`'s parent.
pub open spec fn ordered_except_up<V>(s: Seq<(u128, V)>, i: int) -> bool {
    &&& forall|j: int| 0 < j < s.len() && j != i ==> s[#[trigger] parent(j)].0 <= s[j].0
    &&& i > 0 ==> forall|c: int| 0 < c < s.len() && #[trigger] parent(c) == i ==> s[parent(i)].0 <= s[c].0
}

/// Heap order except between position `i` and its children, and `i`'s children are not
/// below `i`'s parent.
pub open spec fn ordered_except_down<V>(s: Seq<(u128, V)>, i: int) -> bool {
    &&& forall|j: int| 0 < j < s.len() && parent(j) != i ==> s[#[trigger] parent(j)].0 <= s[j].0
    &&& i > 0 ==> forall|c: int| 0 < c < s.len() && #[trigger] parent(c) == i ==> s[parent(i)].0 <= s[c].0
}

/// `s` with the entries at `i` and `j` exchanged.
pub open spec fn swapped<V>(s: Seq<(u128, V)>, i: int, j: int) -> Seq<(u128, V)> {
    s.update(i, s[j]).update(j, s[i])
}

/// The entries after moving the entry at `i` up while its key is below its parent's.
pub open spec fn sifted_up<V>(s: Seq<(u128, V)>, i: int) -> Seq<(u128, V)>
    decreases i,
{
    if i <= 0 || s[i].0 >= s[parent(i)].0 {
        s
    } else {
        sifted_up(swapped(s, i, parent(i)), parent(i))
    }
}

/// The child of `i` to move down to: the lesser-keyed child if it is below `i`'s key
/// (the left one on a tie), else `i` itself.
pub open spec fn down_target<V>(s: Seq<(u128, V)>, i: int) -> int {
    let l = 2 * i + 1;
    let r = 2 * i + 2;
    let m = if l < s.len() && s[l].0 < s[i].0 { l } else { i };
    if r < s.len() && s[r].0 < s[m].0 { r } else { m }
}

/// The entries after moving the entry at `i` down while a child's key is below its own.
pub open spec fn sifted_down<V>(s: Seq<(u128, V)>, i: int) -> Seq<(u128, V)>
    decreases s.len() - i,
{
    if i < 0 || i >= s.len() || down_target(s, i) == i {
        s
    } else {
        sifted_down(swapped(s, i, down_target(s, i)), down_target(s, i))
    }
}

/// The root of a heap holds its least key.
pub proof fn lemma_heap_root_least<V>(s: Seq<(u128, V)>, k: int)
    requires
        heap_ordered(s),
        0 <= k < s.len(),
    ensures
        s[0].0 <= s[k].0,
    decreases k,
{
    if k > 0 {
        assert(s[parent(k)].0 <= s[k].0);
        lemma_heap_root_least(s, parent(k));
    }
}

/// Every entry of a heap has a key at least its root's.
pub proof fn lemma_heap_root_least_of_all<V>(s: Seq<(u128, V)>, f: (u128, V))
    requires
        heap_ordered(s),
        s.to_multiset().count(f) > 0,
    ensures
        s[0].0 <= f.0,
{
    broadcast use vstd::seq_lib::group_to_multiset_ensures;
    assert(s.contains(f));
    let j = choose|j: int| 0 <= j < s.len() && s[j] == f;
    lemma_heap_root_least(s, j);
}

/// `kept` holds the highest-ranked entries of `offered` that fit `capacity`: all of
/// them while they fit, else `capacity` of them, and no entry left out ranks higher
/// than an entry kept.
pub open spec fn is_top_k<E>(kept: Multiset<E>, offered: Multiset<E>, capacity: nat, rank: spec_fn(E) -> int) -> bool {
    &&& kept.subset_of(offered)
    &&& kept.len() <= capacity
    &&& kept.len() < capacity ==> kept == offered
    &&& forall|e: E, f: E| offered.count(e) > kept.count(e) && kept.count(f) > 0 ==> rank(e) <= rank(f)
}

/// Adding keeps a top-k: a bounded heap whose entries `o` are a top-k of `offered`, and
/// whose first entry ranks lowest, takes `e` while it has room, else lets `e` replace
/// its first entry if `e` ranks higher, else keeps its entries; its entries `n` are
/// then a top-k of `offered` with `e`.
pub proof fn lemma_add_keeps_top_k<E>(
    o: Seq<E>,
    n: Seq<E>,
    offered: Multiset<E>,
    capacity: nat,
    e: E,
    rank: spec_fn(E) -> int,
)
    requires
        capacity > 0,
        is_top_k(o.to_multiset(), offered, capacity, rank),
        o.len() > 0 ==> forall|f: E| o.to_multiset().count(f) > 0 ==> rank(o[0]) <= rank(f),
        o.len() < capacity ==> n.to_multiset() == o.to_multiset().insert(e),
        o.len() >= capacity && rank(e) > rank(o[0]) ==> n.to_multiset() == o.to_multiset().remove(o[0]).insert(e),
        o.len() >= capacity && rank(e) <= rank(o[0]) ==> n == o,
    ensures
        is_top_k(n.to_multiset(), offered.insert(e), capacity, rank),
{
    broadcast use vstd::seq_lib::group_to_multiset_ensures;
    let c = o.to_multiset();
    let c2 = n.to_multiset();
    let all2 = offered.insert(e);
    assert(c.len() == o.len());
    if o.len() < capacity {
        assert(c == offered);
        assert(c2 =~= all2);
    } else {
        assert(o.len() > 0);
        let r = o[0];
        assert(c.count(r) > 0);
        if rank(e) > rank(r) {
            assert(c2.subset_of(all2));
            assert forall|x: E, f: E| all2.count(x) > c2.count(x) && c2.count(f) > 0 implies rank(x) <= rank(f) by {
                if f != e {
                    assert(c.count(f) > 0);
                }
                if x != r && x != e {
                    assert(offered.count(x) > c.count(x));
                } else if x == e {
                    assert(offered.count(e) > c.count(e));
                }
            }
        } else {
            assert(c2.subset_of(all2));
            assert forall|x: E, f: E| all2.count(x) > c2.count(x) && c2.count(f) > 0 implies rank(x) <= rank(f) by {
                if x != e {
                    assert(offered.count(x) > c.count(x));
                }
            }
        }
    }
}

proof fn lemma_swapped_keeps<V>(s: Seq<(u128, V)>, i: int, j: int)
    requires
        0 <= i < s.len(),
        0 <= j < s.len(),
    ensures
        swapped(s, i, j).len() == s.len(),
        swapped(s, i, j).to_multiset() == s.to_multiset(),
{
    broadcast use vstd::seq_lib::group_to_multiset_ensures;
    let t = s.update(i, s[j]);
    assert(t.to_multiset() == s.to_multiset().insert(s[j]).remove(s[i]));
    assert(swapped(s, i, j).to_multiset() == t.to_multiset().insert(s[i]).remove(t[j]));
    assert(swapped(s, i, j).to_multiset() =~= s.to_multiset());
}

/// Moving an entry up keeps the entries: the same multiset, the same length.
pub proof fn lemma_sifted_up_keeps<V>(s: Seq<(u128, V)>, i: int)
    requires
        0 <= i < s.len(),
    ensures
        sifted_up(s, i).len() == s.len(),
        sifted_up(s, i).to_multiset() == s.to_multiset(),
    decreases i,
{
    if i > 0 && s[i].0 < s[parent(i)].0 {
        lemma_swapped_keeps(s, i, parent(i));
        lemma_sifted_up_keeps(swapped(s, i, parent(i)), parent(i));
    }
}

fn swap_entries<V: Copy>(v: &mut Vec<(u128, V)>, i: usize, j: usize)
    requires
        i < old(v)@.len(),
        j < old(v)@.len(),
    ensures
        final(v)@ == old(v)@.update(i as int, old(v)@[j as int]).update(j as int, old(v)@[i as int]),
        final(v)@.to_multiset() == old(v)@.to_multiset(),
{
    let a = v[i];
    let b = v[j];
    v.set(i, b);
    v.set(j, a);
    proof {
        broadcast use vstd::seq_lib::group_to_multiset_ensures;
        let s = old(v)@;
        let t = s.update(i as int, s[j as int]);
        assert(t.to_multiset() == s.to_multiset().insert(s[j as int]).remove(s[i as int]));
        assert(v@.to_multiset() == t.to_multiset().insert(s[i as int]).remove(t[j as int]));
        assert(v@.to_multiset() =~= s.to_multiset());
    }
}

/// Move the entry at `i` up until its parent's key is not above its own.
fn sift_up<V: Copy>(v: &mut Vec<(u128, V)>, i: usize)
    requires
        i < old(v)@.len(),
        ordered_except_up(old(v)@, i as int),
    ensures
        final(v)@ == sifted_up(old(v)@, i as int),
        final(v)@.len() == old(v)@.len(),
        final(v)@.to_multiset() == old(v)@.to_multiset(),
        heap_ordered(final(v)@),
{
    let ghost i0 = i as int;
    let mut i = i;
    let mut done = false;
    while i > 0 && !done
        invariant
            i < v@.len(),
            sifted_up(old(v)@, i0) == (if done { v@ } else { sifted_up(v@, i as int) }),
            v@.len() == old(v)@.len(),
            v@.to_multiset() == old(v)@.to_multiset(),
            done ==> heap_ordered(v@),
            !done ==> ordered_except_up(v@, i as int),
        decreases i, (if done { 0int } else { 1int }),
    {
        let p = (i - 1) / 2;
        proof {
            assert(p == parent(i as int));
        }
        if v[i].0 >= v[p].0 {
            done = true;
        } else {
            let ghost s = v@;
            swap_entries(v, i, p);
            proof {
                assert(v@ == swapped(s, i as int, p as int));
            }
            proof {
                let t = v@;
                assert forall|j: int| 0 < j < t.len() && j != p implies t[#[trigger] parent(j)].0 <= t[j].0 by {
                    if j == i {
                    } else if parent(j) == i {
                        assert(s[parent(i as int)].0 <= s[j].0);
                    } else if parent(j) == p {
                        assert(s[parent(j)].0 <= s[j].0);
                    } else {
                        assert(s[parent(j)].0 <= s[j].0);
                    }
                }
                if p > 0 {
                    assert(s[parent(p as int)].0 <= s[p as int].0);
                    assert forall|c: int| 0 < c < t.len() && #[trigger] parent(c) == p implies t[parent(p as int)].0 <= t[c].0 by {
                        if c != i {
                            assert(s[parent(c)].0 <= s[c].0);
                        }
                    }
                }
            }
            i = p;
        }
    }
}

/// Move the entry at `i` down until no child's key is below its own.
fn sift_down<V: Copy>(v: &mut Vec<(u128, V)>, i: usize)
    requires
        i < old(v)@.len(),
        ordered_except_down(old(v)@, i as int),
    ensures
        final(v)@ == sifted_down(old(v)@, i as int),
        final(v)@.len() == old(v)@.len(),
        final(v)@.to_multiset() == old(v)@.to_multiset(),
        heap_ordered(final(v)@),
{
    let ghost i0 = i as int;
    let len = v.len();
    let mut i = i;
    let mut done = false;
    while !done
        invariant
            len == v@.len(),
            i < len,
            sifted_down(old(v)@, i0) == (if done { v@ } else { sifted_down(v@, i as int) }),
            v@.len() == old(v)@.len(),
            v@.to_multiset() == old(v)@.to_multiset(),
            done ==> heap_ordered(v@),
            !done ==> ordered_except_down(v@, i as int),
        decreases len - i, (if done { 0int } else { 1int }),
    {
        if i >= len / 2 {
            proof {
                assert(down_target(v@, i as int) == i);
                assert forall|j: int| 0 < j < v@.len() implies v@[#[trigger] parent(j)].0 <= v@[j].0 by {
                    assert(parent(j) != i);
                }
            }
            done = true;
        } else {
            let left = 2 * i + 1;
            let right = 2 * i + 2;
            let mut smallest = i;
            if left < len && v[left].0 < v[smallest].0 {
                smallest = left;
            }
            if right < len && v[right].0 < v[smallest].0 {
                smallest = right;
            }
            proof {
                assert(parent(left as int) == i);
                assert(parent(right as int) == i);
                assert forall|c: int| 0 < c < len && parent(c) == i implies c == left || c == right by {}
            }
            proof {
                assert(smallest == down_target(v@, i as int));
            }
            if smallest == i {
                proof {
                    assert forall|j: int| 0 < j < v@.len() implies v@[#[trigger] parent(j)].0 <= v@[j].0 by {
                        if parent(j) == i {
                            assert(j == left || j == right);
                        }
                    }
                }
                done = true;
            } else {
                let ghost s = v@;
                let m = smallest;
                swap_entries(v, i, m);
                proof {
                    assert(v@ == swapped(s, i as int, m as int));
                    let t = v@;
                    assert(parent(m as int) == i);
                    assert forall|j: int| 0 < j < t.len() && parent(j) != m implies t[#[trigger] parent(j)].0 <= t[j].0 by {
                        if j == m {
                        } else if parent(j) == i {
                            assert(j == left || j == right);
                        } else if j == i {
                            assert(s[parent(i as int)].0 <= s[m as int].0);
                        } else {
                            assert(s[parent(j)].0 <= s[j].0);
                        }
                    }
                    assert forall|c: int| 0 < c < t.len() && #[trigger] parent(c) == m implies t[parent(m as int)].0 <= t[c].0 by {
                        assert(s[parent(c)].0 <= s[c].0);
                    }
                }
                i = m;
            }
        }
    }
}

/// Add an entry to a heap.
pub fn heap_push<V: Copy>(v: &mut Vec<(u128, V)>, e: (u128, V))
    requires
        heap_ordered(old(v)@),
    ensures
        final(v)@ == sifted_up(old(v)@.push(e), old(v)@.len() as int),
        heap_ordered(final(v)@),
        final(v)@.to_multiset() == old(v)@.to_multiset().insert(e),
        final(v)@.len() == old(v)@.len() + 1,
{
    broadcast use vstd::seq_lib::group_to_multiset_ensures;
    v.push(e);
    let n = v.len() - 1;
    proof {
        let s = v@;
        assert forall|j: int| 0 < j < s.len() && j != n implies s[#[trigger] parent(j)].0 <= s[j].0 by {
            assert(s[j] == old(v)@[j]);
            assert(s[parent(j)] == old(v)@[parent(j)]);
        }
        assert forall|c: int| 0 < c < s.len() && #[trigger] parent(c) == n implies s[parent(n as int)].0 <= s[c].0 by {}
    }
    sift_up(v, n);
}

/// Replace the root of a non-empty heap with an entry.
pub fn heap_replace_root<V: Copy>(v: &mut Vec<(u128, V)>, e: (u128, V))
    requires
        heap_ordered(old(v)@),
        old(v)@.len() > 0,
    ensures
        final(v)@ == sifted_down(old(v)@.update(0, e), 0),
        heap_ordered(final(v)@),
        final(v)@.to_multiset() == old(v)@.to_multiset().remove(old(v)@[0]).insert(e),
        final(v)@.len() == old(v)@.len(),
{
    broadcast use vstd::seq_lib::group_to_multiset_ensures;
    v.set(0, e);
    proof {
        let s = v@;
        assert forall|j: int| 0 < j < s.len() && parent(j) != 0 implies s[#[trigger] parent(j)].0 <= s[j].0 by {
            assert(s[j] == old(v)@[j]);
            assert(s[parent(j)] == old(v)@[parent(j)]);
        }
        assert(v@.to_multiset() =~= old(v)@.to_multiset().remove(old(v)@[0]).insert(e));
    }
    sift_down(v, 0);
}

} // verus!
