use vstd::prelude::*;
use crate::bmw::BlockPosting;
use crate::sorting::{stable_sort, sorted_by, merge_sort, lemma_stable_sort_map,
    lemma_stable_sort_permutation};

verus! {

/// Per-term iteration state for multi-term WAND traversal: where a query term stands in
/// its posting list.
///
/// Terms are sorted by current doc_id during traversal. The term's scores (its IDF,
/// its global and per-block maxima) travel beside this state.
pub struct TermState {
    /// Query term frequency (for multi-word queries).
    pub query_freq: i32,
    /// Whether the term was found in the current segment.
    pub found: bool,
    /// Whether iteration is exhausted.
    pub finished: bool,
    /// Cached last_doc_id per block (for binary search seeking).
    pub block_last_doc_ids: Vec<u32>,
    /// Current block index (0-based).
    pub current_block: u16,
    /// Position within current block.
    pub current_in_block: u16,
    /// Total block count for this term.
    pub block_count: u16,
    /// Current block's decoded postings.
    pub current_postings: Vec<BlockPosting>,
}

/// The last doc ids of the blocks do not decrease.
pub open spec fn last_ids_sorted(ids: Seq<u32>) -> bool {
    forall|i: int, j: int| 0 <= i <= j < ids.len() ==> ids[i] <= ids[j]
}

/// The doc id a term stands at: `u32::MAX` once it is exhausted or past its block.
pub open spec fn term_doc(t: TermState) -> u32 {
    if t.finished || t.current_postings@.len() == 0 {
        u32::MAX
    } else if (t.current_in_block as int) < t.current_postings@.len() {
        t.current_postings@[t.current_in_block as int].doc_id
    } else {
        u32::MAX
    }
}

/// Terms are ordered by the doc id they stand at.
pub open spec fn doc_key() -> spec_fn(TermState) -> int {
    |t: TermState| term_doc(t) as int
}

/// The first position from `from` on whose term stands at `doc` or later (the length if
/// there is none).
pub open spec fn first_not_below(s: Seq<TermState>, from: int, doc: u32) -> int
    decreases s.len() - from,
{
    if from >= s.len() || term_doc(s[from]) >= doc {
        from
    } else {
        first_not_below(s, from + 1, doc)
    }
}

/// Where `restore_ordering` moves the term at `ord`: just before the first later term
/// that stands at its doc id or later.
pub open spec fn restored(s: Seq<TermState>, ord: int) -> Seq<TermState> {
    let t = first_not_below(s, ord + 1, term_doc(s[ord]));
    s.take(ord) + s.subrange(ord + 1, t) + seq![s[ord]] + s.skip(t)
}

proof fn lemma_first_not_below(s: Seq<TermState>, from: int, doc: u32)
    requires
        0 <= from,
    ensures
        from <= first_not_below(s, from, doc),
        from <= s.len() ==> first_not_below(s, from, doc) <= s.len(),
        forall|m: int| from <= m < first_not_below(s, from, doc) ==> term_doc(#[trigger] s[m]) < doc,
        first_not_below(s, from, doc) < s.len() ==> term_doc(s[first_not_below(s, from, doc)]) >= doc,
    decreases s.len() - from,
{
    if from < s.len() && term_doc(s[from]) < doc {
        lemma_first_not_below(s, from + 1, doc);
    }
}

/// Moving an advanced term restores the order: if the other terms are in order and
/// none before position `ord` stands later than the term at `ord`, the terms are in
/// order after `restore_ordering`, and they are the same terms.
pub proof fn lemma_restore_ordering_sorted(s: Seq<TermState>, ord: int)
    requires
        0 <= ord < s.len(),
        sorted_by(s.take(ord) + s.skip(ord + 1), doc_key()),
        forall|i: int| 0 <= i < ord ==> term_doc(#[trigger] s[i]) <= term_doc(s[ord]),
    ensures
        sorted_by(restored(s, ord), doc_key()),
        restored(s, ord).to_multiset() == s.to_multiset(),
{
    broadcast use vstd::seq_lib::group_to_multiset_ensures;
    let d = term_doc(s[ord]);
    let t = first_not_below(s, ord + 1, d);
    lemma_first_not_below(s, ord + 1, d);
    let others = s.take(ord) + s.skip(ord + 1);
    let r = restored(s, ord);
    let key = doc_key();
    // Position `k` of the result, as a position of `s`.
    assert forall|k: int| 0 <= k < r.len() implies #[trigger] r[k] == (if k < ord {
        s[k]
    } else if k < t - 1 {
        s[k + 1]
    } else if k == t - 1 {
        s[ord]
    } else {
        s[k]
    }) by {}
    // Positions other than `ord`, as positions of `others`.
    assert forall|m: int| 0 <= m < s.len() && m != ord
        implies #[trigger] s[m] == others[if m < ord { m } else { m - 1 }] by {}
    assert forall|i: int, j: int| 0 <= i < j < r.len() implies key(r[i]) <= key(r[j]) by {
        let pi = if i < ord { i } else if i < t - 1 { i + 1 } else if i == t - 1 { ord } else { i };
        let pj = if j < ord { j } else if j < t - 1 { j + 1 } else if j == t - 1 { ord } else { j };
        if pi != ord && pj != ord {
            let oi = if pi < ord { pi } else { pi - 1 };
            let oj = if pj < ord { pj } else { pj - 1 };
            assert(key(others[oi]) <= key(others[oj]));
        } else if pi == ord {
            // `j` lies after the moved term: from `t` on.
            assert(term_doc(s[t]) >= d);
            if pj > t {
                assert(key(others[t - 1]) <= key(others[pj - 1]));
            }
        } else {
            // `i` lies before it: before `ord`, or between `ord` and `t`.
            if pi > ord {
                assert(term_doc(s[pi]) < d);
            }
        }
    }
    let a = s.take(ord);
    let b = s.subrange(ord + 1, t);
    let c = s.skip(t);
    assert(s =~= a + seq![s[ord]] + b + c);
    assert(r =~= a + b + seq![s[ord]] + c);
    vstd::seq_lib::lemma_multiset_commutative(a + seq![s[ord]] + b, c);
    vstd::seq_lib::lemma_multiset_commutative(a + b + seq![s[ord]], c);
    vstd::seq_lib::lemma_multiset_commutative(a + seq![s[ord]], b);
    vstd::seq_lib::lemma_multiset_commutative(a + b, seq![s[ord]]);
    vstd::seq_lib::lemma_multiset_commutative(a, seq![s[ord]]);
    vstd::seq_lib::lemma_multiset_commutative(a, b);
}

/// Exchange two elements of a slice.
///
/// Calls `<[T]>::swap`, which std documents as swapping the two elements; the contract
/// states exactly that.
#[verifier::external_body]
fn slice_swap<T>(s: &mut [T], i: usize, j: usize)
    requires
        i < old(s)@.len(),
        j < old(s)@.len(),
    ensures
        final(s)@ == old(s)@.update(i as int, old(s)@[j as int]).update(j as int, old(s)@[i as int]),
{
    s.swap(i, j);
}

impl TermState {
    /// Get the current doc_id. Returns u32::MAX if exhausted.
    pub fn current_doc_id(&self) -> (d: u32)
        ensures
            d == term_doc(*self),
    {
        if self.finished || self.current_postings.len() == 0 {
            return u32::MAX;
        }
        let idx = self.current_in_block as usize;
        if idx < self.current_postings.len() {
            self.current_postings[idx].doc_id
        } else {
            u32::MAX
        }
    }

    /// Get the current posting entry, if any.
    pub fn current_posting(&self) -> (p: Option<&BlockPosting>)
        ensures
            p == (if !self.finished && (self.current_in_block as int) < self.current_postings@.len() {
                Some(&self.current_postings@[self.current_in_block as int])
            } else {
                None
            }),
    {
        if self.finished {
            return None;
        }
        let idx = self.current_in_block as usize;
        if idx < self.current_postings.len() {
            Some(&self.current_postings[idx])
        } else {
            None
        }
    }

    /// Advance to the next posting in the current block.
    /// Returns true if there's another posting, false if block
    /// is exhausted (caller should load next block).
    pub fn advance_in_block(&mut self) -> (more: bool)
        requires
            old(self).current_in_block < u16::MAX,
        ensures
            *final(self) == (TermState { current_in_block: (old(self).current_in_block + 1) as u16, ..*old(self) }),
            more == ((final(self).current_in_block as int) < final(self).current_postings@.len()),
    {
        self.current_in_block = self.current_in_block + 1;
        (self.current_in_block as usize) < self.current_postings.len()
    }

    /// Find the block containing target_doc_id using binary search
    /// on the cached block_last_doc_ids array: the first block from the current one on
    /// whose last doc id is at least the target, when the array is sorted (as the
    /// blocks of a posting list are).
    ///
    /// Returns the block index, or None if target is past all blocks.
    pub fn find_block_for_doc(&self, target_doc_id: u32) -> (r: Option<u16>)
        ensures
            match r {
                Some(b) => exists|k: int| self.current_block <= k < self.block_last_doc_ids@.len()
                    && b == k as u16
                    && self.block_last_doc_ids@[k] >= target_doc_id
                    && (last_ids_sorted(self.block_last_doc_ids@)
                        ==> forall|m: int| self.current_block <= m < k ==> self.block_last_doc_ids@[m] < target_doc_id),
                None => last_ids_sorted(self.block_last_doc_ids@)
                    ==> forall|k: int| self.current_block <= k < self.block_last_doc_ids@.len()
                        ==> self.block_last_doc_ids@[k] < target_doc_id,
            },
    {
        let ids = &self.block_last_doc_ids;
        if ids.len() == 0 {
            return None;
        }
        let mut left = self.current_block as usize;
        let mut right = ids.len();
        if left >= right {
            return None;
        }
        while left < right
            invariant
                self.current_block <= left <= right <= ids@.len(),
                last_ids_sorted(ids@) ==> forall|m: int| self.current_block <= m < left ==> ids@[m] < target_doc_id,
                right < ids@.len() ==> ids@[right as int] >= target_doc_id,
            decreases right - left,
        {
            let mid = left + (right - left) / 2;
            if ids[mid] < target_doc_id {
                left = mid + 1;
            } else {
                right = mid;
            }
        }
        if left < ids.len() {
            Some(left as u16)
        } else {
            None
        }
    }
}

/// The term at position `i` of `s`; past the end, the first term.
spec fn term_at(s: Seq<TermState>) -> spec_fn(usize) -> TermState {
    |i: usize| if (i as int) < s.len() { s[i as int] } else { s[0] }
}

/// Positions into `s` ordered by the doc id of the term at each.
spec fn position_key(s: Seq<TermState>) -> spec_fn(usize) -> int {
    |i: usize| term_doc(term_at(s)(i)) as int
}

/// The positions `0..n` in order.
fn positions(n: usize) -> (v: Vec<usize>)
    ensures
        v@.len() == n,
        forall|k: int| 0 <= k < n ==> v@[k] == k,
{
    let mut v: Vec<usize> = Vec::new();
    for k in 0..n
        invariant
            v@.len() == k,
            forall|q: int| 0 <= q < k ==> v@[q] == q,
    {
        v.push(k);
    }
    v
}

/// Puts the terms in the order `order` gives: position `k` receives the term that stood
/// at `order[k]`. Each position is settled with one swap.
fn arrange(terms: &mut [TermState], order: &Vec<usize>)
    requires
        order@.len() == old(terms)@.len(),
        order@.no_duplicates(),
        forall|k: int| 0 <= k < order@.len() ==> order@[k] < old(terms)@.len(),
    ensures
        final(terms)@ == order@.map_values(term_at(old(terms)@)),
{
    let ghost s = terms@;
    let n = terms.len();
    // `at[q]`: where the term now at `q` stood at first; `pos` is its inverse.
    let mut at = positions(n);
    let mut pos = positions(n);
    let mut k: usize = 0;
    while k < n
        invariant
            n == s.len(),
            order@.len() == n,
            order@.no_duplicates(),
            forall|q: int| 0 <= q < n ==> order@[q] < n,
            terms@.len() == n,
            at@.len() == n,
            pos@.len() == n,
            k <= n,
            forall|q: int| 0 <= q < n ==> (#[trigger] at@[q]) < n && terms@[q] == s[at@[q] as int],
            forall|e: int| 0 <= e < n ==> (#[trigger] pos@[e]) < n && at@[pos@[e] as int] == e,
            forall|q: int| 0 <= q < n ==> #[trigger] pos@[at@[q] as int] == q,
            forall|q: int| 0 <= q < k ==> #[trigger] at@[q] == order@[q],
        decreases n - k,
    {
        let e = order[k];
        let j = pos[e];
        proof {
            if (j as int) < (k as int) {
                assert(at@[j as int] == order@[j as int]);
                assert(order@[j as int] == order@[k as int]);
            }
        }
        let a = at[k];
        let ghost old_at = at@;
        let ghost old_pos = pos@;
        slice_swap(terms, k, j);
        at.set(j, a);
        at.set(k, e);
        pos.set(a, j);
        pos.set(e, k);
        proof {
            assert forall|q: int| 0 <= q < n implies (#[trigger] at@[q]) < n && terms@[q] == s[at@[q] as int] by {
                if q != k && q != j {
                }
            }
            assert forall|x: int| 0 <= x < n implies (#[trigger] pos@[x]) < n && at@[pos@[x] as int] == x by {
                if x != e && x != a {
                    assert(pos@[x] != k) by {
                        if pos@[x] == k {
                        }
                    }
                }
            }
            assert forall|q: int| 0 <= q < n implies #[trigger] pos@[at@[q] as int] == q by {
                if q != k && q != j {
                    assert(old_pos[old_at[q] as int] == q);
                    assert(old_at[q] != a);
                    assert(old_at[q] != e);
                }
            }
        }
        k = k + 1;
    }
    proof {
        assert forall|q: int| 0 <= q < n implies terms@[q] == #[trigger] order@.map_values(term_at(s))[q] by {
            assert(at@[q] == order@[q]);
        }
        assert(terms@ =~= order@.map_values(term_at(s)));
    }
}

/// Sort term states by current doc_id (a stable sort).
/// Used once after initialization for WAND traversal.
pub fn sort_terms_by_doc_id(terms: &mut [TermState])
    ensures
        final(terms)@ == stable_sort(old(terms)@, doc_key()),
{
    let ghost s = terms@;
    let n = terms.len();
    if n == 0 {
        proof {
            assert(s =~= Seq::<TermState>::empty());
        }
        return;
    }
    let idx = positions(n);
    let order = {
        let ro: &[TermState] = terms;
        let le = |a: usize, b: usize| -> (c: bool)
            ensures
                c == (position_key(ro@)(a) <= position_key(ro@)(b)),
        {
            let ta = if a < ro.len() { &ro[a] } else { &ro[0] };
            let tb = if b < ro.len() { &ro[b] } else { &ro[0] };
            ta.current_doc_id() <= tb.current_doc_id()
        };
        merge_sort(&idx, &le, Ghost(position_key(s)))
    };
    proof {
        broadcast use vstd::seq_lib::group_to_multiset_ensures;
        let key2 = position_key(s);
        lemma_stable_sort_permutation(idx@, key2);
        assert(idx@.no_duplicates());
        idx@.lemma_multiset_has_no_duplicates();
        assert forall|x: usize| order@.to_multiset().contains(x) implies order@.to_multiset().count(x) == 1 by {
            assert(idx@.to_multiset().contains(x));
        }
        order@.lemma_multiset_has_no_duplicates_conv();
        assert forall|k: int| 0 <= k < order@.len() implies order@[k] < n by {
            assert(order@.contains(order@[k]));
            assert(order@.to_multiset().count(order@[k]) > 0);
            assert(idx@.to_multiset().count(order@[k]) > 0);
            assert(idx@.contains(order@[k]));
            let i = choose|i: int| 0 <= i < idx@.len() && idx@[i] == order@[k];
            assert(idx@[i] == i);
        }
        assert(idx@.map_values(term_at(s)) =~= s);
        assert forall|y: usize| #[trigger] key2(y) == doc_key()(term_at(s)(y)) by {}
        lemma_stable_sort_map(idx@, term_at(s), doc_key(), key2);
    }
    arrange(terms, &order);
}

/// Restore sorted order after term at position `ord` advanced.
/// The term's doc_id increased, so it may need to move right: it moves just before the
/// first later term that stands at its doc id or later.
/// Uses linear insertion — O(1) typical, O(T) worst case.
pub fn restore_ordering(terms: &mut [TermState], ord: usize)
    requires
        ord < old(terms)@.len(),
    ensures
        final(terms)@ == restored(old(terms)@, ord as int),
{
    let ghost s = terms@;
    let doc_id = terms[ord].current_doc_id();
    let term_count = terms.len();
    let mut target = ord + 1;
    while target < term_count && terms[target].current_doc_id() < doc_id
        invariant
            terms@ == s,
            term_count == s.len(),
            ord < target <= term_count,
            doc_id == term_doc(s[ord as int]),
            first_not_below(s, ord + 1, doc_id) == first_not_below(s, target as int, doc_id),
        decreases term_count - target,
    {
        target = target + 1;
    }
    proof {
        assert(first_not_below(s, ord + 1, doc_id) == target);
    }
    let mut k = ord;
    while k + 1 < target
        invariant
            ord <= k < target <= term_count,
            term_count == s.len(),
            terms@ == s.take(ord as int) + s.subrange(ord + 1, k + 1) + seq![s[ord as int]] + s.skip(k + 1),
        decreases target - k,
    {
        slice_swap(terms, k, k + 1);
        proof {
            assert(terms@ =~= s.take(ord as int) + s.subrange(ord + 1, k + 2) + seq![s[ord as int]] + s.skip(k + 2));
        }
        k = k + 1;
    }
    proof {
        assert(s =~= s.take(ord as int) + s.subrange(ord + 1, ord + 1) + seq![s[ord as int]] + s.skip(ord + 1)) by {
            assert(s.skip(ord as int) =~= seq![s[ord as int]] + s.skip(ord + 1));
        }
    }
}

} // verus!
