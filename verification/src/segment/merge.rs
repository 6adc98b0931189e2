use vstd::prelude::*;
use std::collections::BTreeMap;
use vstd::utf8::{encode_utf8, encode_utf8_decode_utf8};
use crate::lex::{lex_lt, LexOrder, compare_bytes, lemma_lex_transitive};
use crate::segment::format::{PostingEntry, TpTenantDocFreq, TpTenantStats};
use crate::sorting::{stable_sort, merge_sort, lemma_stable_sort_sorted, lemma_stable_sort_permutation,
    lemma_stable_sort_stable, key_is};

verus! {

/// Order used to sort merged postings: by doc id, or by (tenant id, doc id).
pub open spec fn key_le(a: PostingEntry, b: PostingEntry, by_tenant: bool) -> bool {
    if by_tenant {
        a.tenant_id < b.tenant_id || (a.tenant_id == b.tenant_id && a.doc_id <= b.doc_id)
    } else {
        a.doc_id <= b.doc_id
    }
}

/// The order above as a number: the doc id, or the tenant id and doc id side by side.
pub open spec fn posting_key(by_tenant: bool) -> spec_fn(PostingEntry) -> int {
    |p: PostingEntry| if by_tenant { p.tenant_id as int * 0x1_0000_0000 + p.doc_id as int } else { p.doc_id as int }
}

/// Stable sort of the postings by the order above.
pub open spec fn sort_spec(s: Seq<PostingEntry>, by_tenant: bool) -> Seq<PostingEntry> {
    stable_sort(s, posting_key(by_tenant))
}

proof fn lemma_posting_key(a: PostingEntry, b: PostingEntry, by_tenant: bool)
    ensures
        key_le(a, b, by_tenant) <==> posting_key(by_tenant)(a) <= posting_key(by_tenant)(b),
{
}

/// A posting of source `src`, its doc id remapped when maps are given.
pub open spec fn remap_one(p: PostingEntry, maps: Option<Seq<Seq<u32>>>, src: int) -> PostingEntry {
    match maps {
        Some(m) => PostingEntry { doc_id: m[src][p.doc_id as int], ..p },
        None => p,
    }
}

/// All postings of the first `k` sources, in source order, remapped.
pub open spec fn collected(sources: Seq<Seq<PostingEntry>>, maps: Option<Seq<Seq<u32>>>, k: nat) -> Seq<PostingEntry>
    decreases k,
{
    if k == 0 {
        Seq::empty()
    } else {
        collected(sources, maps, (k - 1) as nat)
            + sources[k - 1].map(|j: int, p: PostingEntry| remap_one(p, maps, k - 1))
    }
}

/// Every posting's doc id has an entry in its source's map.
pub open spec fn maps_cover(sources: Seq<Seq<PostingEntry>>, maps: Option<Seq<Seq<u32>>>) -> bool {
    match maps {
        Some(m) => forall|i: int, j: int| 0 <= i < sources.len() && 0 <= j < sources[i].len()
            ==> i < m.len() && (#[trigger] sources[i][j]).doc_id < m[i].len(),
        None => true,
    }
}

pub open spec fn sources_view(sources: Seq<&[PostingEntry]>) -> Seq<Seq<PostingEntry>> {
    sources.map_values(|s: &[PostingEntry]| s@)
}

pub open spec fn maps_view(maps: Option<&[&[u32]]>) -> Option<Seq<Seq<u32>>> {
    match maps {
        Some(m) => Some(m@.map_values(|s: &[u32]| s@)),
        None => None,
    }
}

fn key_le_exec(a: &PostingEntry, b: &PostingEntry, by_tenant: bool) -> (r: bool)
    ensures
        r == (posting_key(by_tenant)(*a) <= posting_key(by_tenant)(*b)),
{
    proof {
        lemma_posting_key(*a, *b, by_tenant);
    }
    if by_tenant {
        a.tenant_id < b.tenant_id || (a.tenant_id == b.tenant_id && a.doc_id <= b.doc_id)
    } else {
        a.doc_id <= b.doc_id
    }
}

/// Stable merge sort of the postings.
fn sort_postings(v: &Vec<PostingEntry>, by_tenant: bool) -> (r: Vec<PostingEntry>)
    ensures
        r@ == sort_spec(v@, by_tenant),
{
    let le = |a: PostingEntry, b: PostingEntry| -> (r: bool)
        ensures
            r == (posting_key(by_tenant)(a) <= posting_key(by_tenant)(b)),
        { key_le_exec(&a, &b, by_tenant) };
    merge_sort(v, &le, Ghost(posting_key(by_tenant)))
}

/// Gather the postings of all sources in source order, remapping doc ids when maps
/// are given.
fn collect_postings(sources: &[&[PostingEntry]], doc_id_maps: Option<&[&[u32]]>) -> (r: Vec<PostingEntry>)
    requires
        maps_cover(sources_view(sources@), maps_view(doc_id_maps)),
    ensures
        r@ == collected(sources_view(sources@), maps_view(doc_id_maps), sources@.len()),
{
    let ghost srcs = sources_view(sources@);
    let ghost maps = maps_view(doc_id_maps);
    let mut merged: Vec<PostingEntry> = Vec::new();
    let mut src_idx: usize = 0;
    while src_idx < sources.len()
        invariant
            srcs == sources_view(sources@),
            maps == maps_view(doc_id_maps),
            maps_cover(srcs, maps),
            src_idx <= sources@.len(),
            merged@ == collected(srcs, maps, src_idx as nat),
        decreases sources@.len() - src_idx,
    {
        let source = sources[src_idx];
        let ghost before = merged@;
        let ghost mapped = srcs[src_idx as int].map(|j: int, p: PostingEntry| remap_one(p, maps, src_idx as int));
        let mut k: usize = 0;
        while k < source.len()
            invariant
                srcs == sources_view(sources@),
                maps == maps_view(doc_id_maps),
                maps_cover(srcs, maps),
                src_idx < sources@.len(),
                source@ == srcs[src_idx as int],
                mapped == srcs[src_idx as int].map(|j: int, p: PostingEntry| remap_one(p, maps, src_idx as int)),
                k <= source@.len(),
                merged@ == before + mapped.take(k as int),
            decreases source@.len() - k,
        {
            let posting = source[k];
            let new_doc_id = match doc_id_maps {
                Some(m) => {
                    proof {
                        assert(srcs[src_idx as int][k as int] == posting);
                    }
                    m[src_idx][posting.doc_id as usize]
                },
                None => posting.doc_id,
            };
            merged.push(PostingEntry {
                doc_id: new_doc_id,
                frequency: posting.frequency,
                fieldnorm: posting.fieldnorm,
                tenant_id: posting.tenant_id,
            });
            k = k + 1;
            proof {
                assert(merged@ =~= before + mapped.take(k as int));
            }
        }
        proof {
            assert(mapped.take(k as int) =~= mapped);
        }
        src_idx = src_idx + 1;
    }
    merged
}

/// Merge posting lists from multiple sources for a single term.
///
/// Each source provides a sorted (by doc_id) posting list.
/// The merge produces a single list sorted by doc_id; postings with equal doc ids
/// keep their source order.
///
/// `doc_id_maps[i]` maps old doc_ids from source i to new doc_ids
/// in the merged segment. Pass None if doc_ids don't need remapping.
pub fn merge_postings(sources: &[&[PostingEntry]], doc_id_maps: Option<&[&[u32]]>) -> (merged: Vec<PostingEntry>)
    requires
        maps_cover(sources_view(sources@), maps_view(doc_id_maps)),
    ensures
        merged@ == sort_spec(collected(sources_view(sources@), maps_view(doc_id_maps), sources@.len()), false),
        forall|m: int| 0 <= m < merged@.len() ==> #[trigger] from_sources(merged@[m], sources_view(sources@), maps_view(doc_id_maps)),
        forall|i: int, j: int| 0 <= i < sources@.len() && 0 <= j < sources@[i]@.len()
            ==> #[trigger] moved_into(merged@, sources_view(sources@), maps_view(doc_id_maps), i, j),
{
    let all = collect_postings(sources, doc_id_maps);
    proof {
        lemma_merge_moves_postings(sources_view(sources@), maps_view(doc_id_maps), false);
        assert(sources_view(sources@).len() == sources@.len());
        assert forall|i: int, j: int| 0 <= i < sources@.len() && 0 <= j < sources@[i]@.len()
            implies #[trigger] moved_into(sort_spec(all@, false), sources_view(sources@), maps_view(doc_id_maps), i, j) by {
            assert(sources_view(sources@)[i] == sources@[i]@);
        }
    }
    sort_postings(&all, false)
}

/// Merge posting lists with tenant-aware sorting.
///
/// Like `merge_postings` but sorts by (tenant_id, doc_id) instead
/// of just doc_id. This naturally groups postings by tenant,
/// creating single-tenant blocks that enable O(1) skip in BMW.
pub fn merge_postings_tenant(sources: &[&[PostingEntry]], doc_id_maps: Option<&[&[u32]]>) -> (merged: Vec<PostingEntry>)
    requires
        maps_cover(sources_view(sources@), maps_view(doc_id_maps)),
    ensures
        merged@ == sort_spec(collected(sources_view(sources@), maps_view(doc_id_maps), sources@.len()), true),
        forall|m: int| 0 <= m < merged@.len() ==> #[trigger] from_sources(merged@[m], sources_view(sources@), maps_view(doc_id_maps)),
        forall|i: int, j: int| 0 <= i < sources@.len() && 0 <= j < sources@[i]@.len()
            ==> #[trigger] moved_into(merged@, sources_view(sources@), maps_view(doc_id_maps), i, j),
{
    let all = collect_postings(sources, doc_id_maps);
    proof {
        lemma_merge_moves_postings(sources_view(sources@), maps_view(doc_id_maps), true);
        assert(sources_view(sources@).len() == sources@.len());
        assert forall|i: int, j: int| 0 <= i < sources@.len() && 0 <= j < sources@[i]@.len()
            implies #[trigger] moved_into(sort_spec(all@, true), sources_view(sources@), maps_view(doc_id_maps), i, j) by {
            assert(sources_view(sources@)[i] == sources@[i]@);
        }
    }
    sort_postings(&all, true)
}


/// `s` is in non-decreasing order.
pub open spec fn sorted_by_key(s: Seq<PostingEntry>, by_tenant: bool) -> bool {
    forall|i: int, j: int| 0 <= i < j < s.len() ==> key_le(s[i], s[j], by_tenant)
}

/// Same place in the order: equal doc id (and tenant, when sorting by tenant).
pub open spec fn same_key(a: PostingEntry, b: PostingEntry, by_tenant: bool) -> bool {
    key_le(a, b, by_tenant) && key_le(b, a, by_tenant)
}

/// The stable sort puts the postings in order.
pub proof fn lemma_sort_sorted(s: Seq<PostingEntry>, by_tenant: bool)
    ensures
        sorted_by_key(sort_spec(s, by_tenant), by_tenant),
{
    let t = sort_spec(s, by_tenant);
    lemma_stable_sort_sorted(s, posting_key(by_tenant));
    assert forall|i: int, j: int| 0 <= i < j < t.len() implies key_le(t[i], t[j], by_tenant) by {
        lemma_posting_key(t[i], t[j], by_tenant);
    }
}

/// The stable sort keeps exactly the postings it was given.
pub proof fn lemma_sort_permutation(s: Seq<PostingEntry>, by_tenant: bool)
    ensures
        sort_spec(s, by_tenant).to_multiset() == s.to_multiset(),
{
    lemma_stable_sort_permutation(s, posting_key(by_tenant));
}

/// The stable sort keeps postings that share a place in the order in their given order.
pub proof fn lemma_sort_stable(s: Seq<PostingEntry>, by_tenant: bool, y: PostingEntry)
    ensures
        sort_spec(s, by_tenant).filter(|z: PostingEntry| same_key(z, y, by_tenant))
            == s.filter(|z: PostingEntry| same_key(z, y, by_tenant)),
{
    let key = posting_key(by_tenant);
    lemma_stable_sort_stable(s, key, key(y));
    let p1 = |z: PostingEntry| same_key(z, y, by_tenant);
    let p2 = key_is(key, key(y));
    assert forall|z: PostingEntry| #[trigger] p1(z) == p2(z) by {
        lemma_posting_key(z, y, by_tenant);
        lemma_posting_key(y, z, by_tenant);
    }
    assert(p1 =~= p2);
    assert((|z: PostingEntry| same_key(z, y, by_tenant)) =~= p2);
}


/// The doc id a posting of source `i` carries after the merge: its map's entry for its
/// doc id, or its own doc id when there are no maps.
pub open spec fn merged_doc_id(maps: Option<Seq<Seq<u32>>>, i: int, doc_id: u32) -> u32 {
    match maps {
        Some(m) => m[i][doc_id as int],
        None => doc_id,
    }
}

/// `q` is posting `j` of source `i` with only its doc id replaced by the merge's.
pub open spec fn is_moved_posting(
    q: PostingEntry,
    sources: Seq<Seq<PostingEntry>>,
    maps: Option<Seq<Seq<u32>>>,
    i: int,
    j: int,
) -> bool {
    &&& 0 <= i < sources.len()
    &&& 0 <= j < sources[i].len()
    &&& q.doc_id == merged_doc_id(maps, i, sources[i][j].doc_id)
    &&& q.frequency == sources[i][j].frequency
    &&& q.fieldnorm == sources[i][j].fieldnorm
    &&& q.tenant_id == sources[i][j].tenant_id
}

proof fn lemma_collected_split(sources: Seq<Seq<PostingEntry>>, maps: Option<Seq<Seq<u32>>>, k: nat)
    requires
        0 < k <= sources.len(),
    ensures
        collected(sources, maps, k).len() == collected(sources, maps, (k - 1) as nat).len() + sources[k - 1].len(),
        forall|m: int| 0 <= m < collected(sources, maps, (k - 1) as nat).len() ==>
            #[trigger] collected(sources, maps, k)[m] == collected(sources, maps, (k - 1) as nat)[m],
        forall|j: int| 0 <= j < sources[k - 1].len() ==>
            #[trigger] collected(sources, maps, k)[collected(sources, maps, (k - 1) as nat).len() + j]
                == remap_one(sources[k - 1][j], maps, k - 1),
{
}

/// Posting `m` of the collected postings is a moved source posting.
proof fn lemma_collected_at(sources: Seq<Seq<PostingEntry>>, maps: Option<Seq<Seq<u32>>>, k: nat, m: int) -> (ij: (int, int))
    requires
        k <= sources.len(),
        0 <= m < collected(sources, maps, k).len(),
    ensures
        ij.0 < k,
        is_moved_posting(collected(sources, maps, k)[m], sources, maps, ij.0, ij.1),
    decreases k,
{
    lemma_collected_split(sources, maps, k);
    let prev = collected(sources, maps, (k - 1) as nat);
    if m < prev.len() {
        lemma_collected_at(sources, maps, (k - 1) as nat, m)
    } else {
        let j = m - prev.len();
        assert(collected(sources, maps, k)[prev.len() + j] == remap_one(sources[k - 1][j], maps, k - 1));
        (k - 1, j)
    }
}

/// Where posting `j` of source `i` stands among the collected postings.
proof fn lemma_collected_has(sources: Seq<Seq<PostingEntry>>, maps: Option<Seq<Seq<u32>>>, k: nat, i: int, j: int) -> (m: int)
    requires
        k <= sources.len(),
        0 <= i < k,
        0 <= j < sources[i].len(),
    ensures
        0 <= m < collected(sources, maps, k).len(),
        is_moved_posting(collected(sources, maps, k)[m], sources, maps, i, j),
    decreases k,
{
    lemma_collected_split(sources, maps, k);
    let prev = collected(sources, maps, (k - 1) as nat);
    if i < k - 1 {
        let m = lemma_collected_has(sources, maps, (k - 1) as nat, i, j);
        assert(collected(sources, maps, k)[m] == prev[m]);
        m
    } else {
        assert(collected(sources, maps, k)[prev.len() + j] == remap_one(sources[k - 1][j], maps, k - 1));
        prev.len() + j
    }
}

/// `q` is some source posting with only its doc id replaced by the merge's.
pub open spec fn from_sources(q: PostingEntry, sources: Seq<Seq<PostingEntry>>, maps: Option<Seq<Seq<u32>>>) -> bool {
    exists|i: int, j: int| #[trigger] is_moved_posting(q, sources, maps, i, j)
}

/// Posting `j` of source `i`, moved, stands somewhere in `out`.
pub open spec fn moved_into(out: Seq<PostingEntry>, sources: Seq<Seq<PostingEntry>>, maps: Option<Seq<Seq<u32>>>, i: int, j: int) -> bool {
    exists|m: int| 0 <= m < out.len() && #[trigger] is_moved_posting(out[m], sources, maps, i, j)
}

/// The merge only moves postings: every merged posting is a posting of some source
/// with its doc id replaced by the merge's (its map's entry, or its own without maps)
/// and its frequency, fieldnorm and tenant id kept, and every posting of every source
/// comes out so. This holds for both orders of the merge.
pub proof fn lemma_merge_moves_postings(sources: Seq<Seq<PostingEntry>>, maps: Option<Seq<Seq<u32>>>, by_tenant: bool)
    ensures
        forall|m: int| 0 <= m < sort_spec(collected(sources, maps, sources.len()), by_tenant).len()
            ==> #[trigger] from_sources(sort_spec(collected(sources, maps, sources.len()), by_tenant)[m], sources, maps),
        forall|i: int, j: int| 0 <= i < sources.len() && 0 <= j < sources[i].len()
            ==> #[trigger] moved_into(sort_spec(collected(sources, maps, sources.len()), by_tenant), sources, maps, i, j),
{
    broadcast use vstd::seq_lib::group_to_multiset_ensures;
    let all = collected(sources, maps, sources.len());
    let merged = sort_spec(all, by_tenant);
    lemma_sort_permutation(all, by_tenant);
    assert forall|m: int| 0 <= m < merged.len() implies #[trigger] from_sources(merged[m], sources, maps) by {
        assert(merged.contains(merged[m]));
        assert(merged.to_multiset().count(merged[m]) > 0);
        assert(all.contains(merged[m]));
        let a = choose|a: int| 0 <= a < all.len() && all[a] == merged[m];
        let ij = lemma_collected_at(sources, maps, sources.len(), a);
        assert(is_moved_posting(merged[m], sources, maps, ij.0, ij.1));
    }
    assert forall|i: int, j: int| 0 <= i < sources.len() && 0 <= j < sources[i].len()
        implies #[trigger] moved_into(merged, sources, maps, i, j) by {
        let a = lemma_collected_has(sources, maps, sources.len(), i, j);
        assert(all.contains(all[a]));
        assert(merged.to_multiset().count(all[a]) > 0);
        assert(merged.contains(all[a]));
        let m = choose|m: int| 0 <= m < merged.len() && merged[m] == all[a];
        assert(is_moved_posting(merged[m], sources, maps, i, j));
    }
}

/// The stats of the first `k` sources, one after another.
pub open spec fn flat_stats(sources: Seq<Seq<TpTenantStats>>, k: nat) -> Seq<TpTenantStats>
    decreases k,
{
    if k == 0 {
        Seq::empty()
    } else {
        flat_stats(sources, (k - 1) as nat) + sources[k - 1]
    }
}

pub open spec fn stats_sources_view(sources: Seq<&[TpTenantStats]>) -> Seq<Seq<TpTenantStats>> {
    sources.map_values(|s: &[TpTenantStats]| s@)
}

/// Sum of `num_docs` over the stats of tenant `t`.
pub open spec fn tenant_docs(s: Seq<TpTenantStats>, t: u32) -> nat
    decreases s.len(),
{
    if s.len() == 0 {
        0
    } else {
        tenant_docs(s.drop_last(), t) + if s.last().tenant_id == t { s.last().num_docs as nat } else { 0 }
    }
}

/// Sum of `total_tokens` over the stats of tenant `t`.
pub open spec fn tenant_tokens(s: Seq<TpTenantStats>, t: u32) -> nat
    decreases s.len(),
{
    if s.len() == 0 {
        0
    } else {
        tenant_tokens(s.drop_last(), t) + if s.last().tenant_id == t { s.last().total_tokens as nat } else { 0 }
    }
}

pub open spec fn stats_have_tenant(s: Seq<TpTenantStats>, t: u32) -> bool {
    exists|j: int| 0 <= j < s.len() && (#[trigger] s[j]).tenant_id == t
}

/// `r` is the per-tenant aggregate of `all`: one entry per tenant that occurs, in
/// increasing tenant order, with the tenant's summed doc count and token count.
pub open spec fn stats_aggregate_of(r: Seq<TpTenantStats>, all: Seq<TpTenantStats>) -> bool {
    &&& forall|i: int, j: int| 0 <= i < j < r.len() ==> r[i].tenant_id < r[j].tenant_id
    &&& forall|t: u32| stats_have_tenant(all, t) <==> stats_have_tenant(r, t)
    &&& forall|k: int| 0 <= k < r.len() ==> (#[trigger] r[k]).num_docs == tenant_docs(all, r[k].tenant_id)
        && r[k].total_tokens == tenant_tokens(all, r[k].tenant_id)
}

proof fn lemma_tenant_sums_push(s: Seq<TpTenantStats>, x: TpTenantStats, t: u32)
    ensures
        tenant_docs(s.push(x), t) == tenant_docs(s, t) + if x.tenant_id == t { x.num_docs as nat } else { 0 },
        tenant_tokens(s.push(x), t) == tenant_tokens(s, t) + if x.tenant_id == t { x.total_tokens as nat } else { 0 },
        stats_have_tenant(s.push(x), t) == (stats_have_tenant(s, t) || x.tenant_id == t),
{
    assert(s.push(x).drop_last() =~= s);
    if stats_have_tenant(s, t) {
        let j = choose|j: int| 0 <= j < s.len() && (#[trigger] s[j]).tenant_id == t;
        assert(s.push(x)[j] == s[j]);
    }
    if x.tenant_id == t {
        assert(s.push(x)[s.len() as int] == x);
    }
    if stats_have_tenant(s.push(x), t) && x.tenant_id != t {
        let j = choose|j: int| 0 <= j < s.push(x).len() && (#[trigger] s.push(x)[j]).tenant_id == t;
        assert(s[j] == s.push(x)[j]);
    }
}

proof fn lemma_tenant_sums_absent(s: Seq<TpTenantStats>, t: u32)
    requires
        !stats_have_tenant(s, t),
    ensures
        tenant_docs(s, t) == 0,
        tenant_tokens(s, t) == 0,
    decreases s.len(),
{
    if s.len() > 0 {
        assert(s.drop_last().push(s.last()) =~= s);
        lemma_tenant_sums_push(s.drop_last(), s.last(), t);
        lemma_tenant_sums_absent(s.drop_last(), t);
    }
}

proof fn lemma_tenant_sums_prefix(s: Seq<TpTenantStats>, k: nat, t: u32)
    requires
        k <= s.len(),
    ensures
        tenant_docs(s.take(k as int), t) <= tenant_docs(s, t),
        tenant_tokens(s.take(k as int), t) <= tenant_tokens(s, t),
    decreases s.len(),
{
    if k < s.len() {
        assert(s.drop_last().take(k as int) =~= s.take(k as int));
        lemma_tenant_sums_prefix(s.drop_last(), k, t);
    } else {
        assert(s.take(k as int) =~= s);
    }
}

/// Per-tenant sums in a map: tenant id to its summed doc count and token count.
spec fn sums_of(m: Map<u32, (u32, u64)>, s: Seq<TpTenantStats>) -> bool {
    &&& forall|t: u32| m.contains_key(t) <==> stats_have_tenant(s, t)
    &&& forall|t: u32| m.contains_key(t) ==> m[t].0 == tenant_docs(s, t) && m[t].1 == tenant_tokens(s, t)
}

/// Fold one more stat into the per-tenant sums.
fn add_tenant_stat(by_tenant: &mut BTreeMap<u32, (u32, u64)>, x: TpTenantStats, Ghost(seen): Ghost<Seq<TpTenantStats>>)
    requires
        u32_keys_ordered(),
        sums_of(old(by_tenant)@, seen),
        tenant_docs(seen.push(x), x.tenant_id) <= u32::MAX,
        tenant_tokens(seen.push(x), x.tenant_id) <= u64::MAX,
    ensures
        sums_of(final(by_tenant)@, seen.push(x)),
{
    broadcast use vstd::std_specs::btree::group_btree_axioms;
    let t = x.tenant_id;
    let (docs, tokens): (u32, u64) = match by_tenant.get(&t) {
        Some(e) => *e,
        None => (0, 0),
    };
    proof {
        lemma_tenant_sums_push(seen, x, t);
        if !by_tenant@.contains_key(t) {
            lemma_tenant_sums_absent(seen, t);
        }
    }
    assert(docs == tenant_docs(seen, t) && tokens == tenant_tokens(seen, t));
    let ghost before = by_tenant@;
    by_tenant.insert(t, (docs + x.num_docs, tokens + x.total_tokens));
    proof {
        assert(by_tenant@ == before.insert(t, ((docs + x.num_docs) as u32, (tokens + x.total_tokens) as u64)));
        assert forall|u: u32| #[trigger] by_tenant@.contains_key(u) <==> stats_have_tenant(seen.push(x), u) by {
            lemma_tenant_sums_push(seen, x, u);
        }
        assert forall|u: u32| #[trigger] by_tenant@.contains_key(u) implies by_tenant@[u].0 == tenant_docs(seen.push(x), u)
            && by_tenant@[u].1 == tenant_tokens(seen.push(x), u) by {
            lemma_tenant_sums_push(seen, x, u);
        }
    }
}

/// Aggregate per-tenant statistics from multiple source segments.
///
/// Combines TpTenantStats from each source, summing num_docs and
/// total_tokens per tenant; the result is ordered by tenant id.
pub fn merge_tenant_stats(sources: &[&[TpTenantStats]]) -> (merged: Vec<TpTenantStats>)
    requires
        forall|t: u32| tenant_docs(flat_stats(stats_sources_view(sources@), sources@.len()), t) <= u32::MAX
            && tenant_tokens(flat_stats(stats_sources_view(sources@), sources@.len()), t) <= u64::MAX,
    ensures
        stats_aggregate_of(merged@, flat_stats(stats_sources_view(sources@), sources@.len())),
{
    broadcast use vstd::std_specs::btree::group_btree_axioms;
    proof {
        lemma_u32_keys_ordered();
    }
    let ghost srcs = stats_sources_view(sources@);
    let ghost all = flat_stats(srcs, sources@.len());
    let mut by_tenant: BTreeMap<u32, (u32, u64)> = BTreeMap::new();
    let mut i: usize = 0;
    proof {
        assert forall|t: u32| !stats_have_tenant(flat_stats(srcs, 0), t) by {}
    }
    while i < sources.len()
        invariant
            srcs == stats_sources_view(sources@),
            all == flat_stats(srcs, sources@.len()),
            forall|t: u32| tenant_docs(all, t) <= u32::MAX && tenant_tokens(all, t) <= u64::MAX,
            i <= sources@.len(),
            u32_keys_ordered(),
            sums_of(by_tenant@, flat_stats(srcs, i as nat)),
        decreases sources@.len() - i,
    {
        let source = sources[i];
        let ghost before = flat_stats(srcs, i as nat);
        proof {
            crate::segment::merge::lemma_flat_stats_prefix(srcs, (i + 1) as nat, sources@.len() as nat);
        }
        let mut k: usize = 0;
        proof {
            assert(before + source@.take(0) =~= before);
        }
        while k < source.len()
            invariant
                srcs == stats_sources_view(sources@),
                all == flat_stats(srcs, sources@.len()),
                forall|t: u32| tenant_docs(all, t) <= u32::MAX && tenant_tokens(all, t) <= u64::MAX,
                i < sources@.len(),
                before == flat_stats(srcs, i as nat),
                source@ == srcs[i as int],
                (before + source@).is_prefix_of(all),
                k <= source@.len(),
                u32_keys_ordered(),
                sums_of(by_tenant@, before + source@.take(k as int)),
            decreases source@.len() - k,
        {
            let stat = source[k];
            let ghost seen = before + source@.take(k as int);
            proof {
                assert(seen.push(stat) =~= before + source@.take(k + 1));
                assert(seen.push(stat) =~= all.take(seen.len() as int + 1));
                lemma_tenant_sums_prefix(all, seen.len() + 1, stat.tenant_id);
            }
            add_tenant_stat(&mut by_tenant, stat, Ghost(seen));
            k = k + 1;
            proof {
                assert(seen.push(stat) =~= before + source@.take(k as int));
            }
        }
        proof {
            assert(source@.take(k as int) =~= source@);
            assert(flat_stats(srcs, (i + 1) as nat) == before + source@);
        }
        i = i + 1;
    }
    let mut out: Vec<TpTenantStats> = Vec::new();
    let ghost m = by_tenant@;
    let ghost rem = vstd::std_specs::iter::IteratorSpec::remaining(&vstd::std_specs::btree::spec_btree_map_iter(&by_tenant));
    for kv in it: by_tenant.iter()
        invariant
            m == by_tenant@,
            u32_keys_ordered(),
            sums_of(m, all),
            it.seq() == rem,
            out@.len() == it.index(),
            forall|k: int| 0 <= k < out@.len() ==> (#[trigger] out@[k]).tenant_id == *rem[k].0
                && out@[k].num_docs == (*rem[k].1).0 && out@[k].total_tokens == (*rem[k].1).1,
    {
        let (num_docs, total_tokens) = *kv.1;
        out.push(TpTenantStats { tenant_id: *kv.0, num_docs, total_tokens });
    }
    proof {
        let keys = rem.map_values(|kv: (&u32, &(u32, u64))| *kv.0);
        assert(vstd::std_specs::btree::increasing_seq(keys));
        assert forall|i: int, j: int| 0 <= i < j < out@.len() implies out@[i].tenant_id < out@[j].tenant_id by {
            assert(keys[i] == *rem[i].0);
            assert(keys[j] == *rem[j].0);
        }
        assert forall|t: u32| stats_have_tenant(all, t) <==> stats_have_tenant(out@, t) by {
            if stats_have_tenant(all, t) {
                assert(m.contains_key(t));
                assert(rem.contains((&t, &m[t])));
                let k = choose|k: int| 0 <= k < rem.len() && rem[k] == (&t, &m[t]);
                assert(out@[k].tenant_id == t);
            }
            if stats_have_tenant(out@, t) {
                let k = choose|k: int| 0 <= k < out@.len() && (#[trigger] out@[k]).tenant_id == t;
                assert(m.contains_key(*rem[k].0));
            }
        }
        assert forall|k: int| 0 <= k < out@.len() implies (#[trigger] out@[k]).num_docs == tenant_docs(all, out@[k].tenant_id)
            && out@[k].total_tokens == tenant_tokens(all, out@[k].tenant_id) by {
            assert(m.contains_key(*rem[k].0) && m[*rem[k].0] == *rem[k].1);
        }
    }
    out
}

proof fn lemma_flat_stats_prefix(srcs: Seq<Seq<TpTenantStats>>, k: nat, n: nat)
    requires
        k <= n,
    ensures
        flat_stats(srcs, k).is_prefix_of(flat_stats(srcs, n)),
    decreases n,
{
    if k < n {
        lemma_flat_stats_prefix(srcs, k, (n - 1) as nat);
    }
}


/// Number of postings of tenant `t`.
pub open spec fn tenant_count(s: Seq<PostingEntry>, t: u32) -> nat
    decreases s.len(),
{
    if s.len() == 0 {
        0
    } else {
        tenant_count(s.drop_last(), t) + if s.last().tenant_id == t { 1nat } else { 0nat }
    }
}

pub open spec fn postings_have_tenant(s: Seq<PostingEntry>, t: u32) -> bool {
    exists|j: int| 0 <= j < s.len() && (#[trigger] s[j]).tenant_id == t
}

pub open spec fn docfreqs_have_tenant(r: Seq<TpTenantDocFreq>, t: u32) -> bool {
    exists|j: int| 0 <= j < r.len() && (#[trigger] r[j]).tenant_id == t
}

/// `r` counts the postings of each tenant of `p`: one entry per tenant that occurs, in
/// increasing tenant order.
pub open spec fn docfreqs_of(r: Seq<TpTenantDocFreq>, p: Seq<PostingEntry>) -> bool {
    &&& forall|i: int, j: int| 0 <= i < j < r.len() ==> r[i].tenant_id < r[j].tenant_id
    &&& forall|t: u32| postings_have_tenant(p, t) <==> docfreqs_have_tenant(r, t)
    &&& forall|k: int| 0 <= k < r.len() ==> (#[trigger] r[k]).doc_freq == tenant_count(p, r[k].tenant_id)
}

proof fn lemma_tenant_count_push(s: Seq<PostingEntry>, x: PostingEntry, t: u32)
    ensures
        tenant_count(s.push(x), t) == tenant_count(s, t) + if x.tenant_id == t { 1nat } else { 0nat },
        postings_have_tenant(s.push(x), t) == (postings_have_tenant(s, t) || x.tenant_id == t),
{
    assert(s.push(x).drop_last() =~= s);
    if postings_have_tenant(s, t) {
        let j = choose|j: int| 0 <= j < s.len() && (#[trigger] s[j]).tenant_id == t;
        assert(s.push(x)[j] == s[j]);
    }
    if x.tenant_id == t {
        assert(s.push(x)[s.len() as int] == x);
    }
    if postings_have_tenant(s.push(x), t) && x.tenant_id != t {
        let j = choose|j: int| 0 <= j < s.push(x).len() && (#[trigger] s.push(x)[j]).tenant_id == t;
        assert(s[j] == s.push(x)[j]);
    }
}

proof fn lemma_tenant_count_absent(s: Seq<PostingEntry>, t: u32)
    requires
        !postings_have_tenant(s, t),
    ensures
        tenant_count(s, t) == 0,
    decreases s.len(),
{
    if s.len() > 0 {
        assert(s.drop_last().push(s.last()) =~= s);
        lemma_tenant_count_push(s.drop_last(), s.last(), t);
        lemma_tenant_count_absent(s.drop_last(), t);
    }
}

proof fn lemma_tenant_count_prefix(s: Seq<PostingEntry>, k: nat, t: u32)
    requires
        k <= s.len(),
    ensures
        tenant_count(s.take(k as int), t) <= tenant_count(s, t),
    decreases s.len(),
{
    if k < s.len() {
        assert(s.drop_last().take(k as int) =~= s.take(k as int));
        lemma_tenant_count_prefix(s.drop_last(), k, t);
    } else {
        assert(s.take(k as int) =~= s);
    }
}

/// Compute per-tenant doc_freq for a merged posting list.
///
/// Counts the number of documents per tenant; the result is ordered by tenant id.
pub fn compute_tenant_docfreqs(postings: &[PostingEntry]) -> (freqs: Vec<TpTenantDocFreq>)
    requires
        forall|t: u32| tenant_count(postings@, t) <= u32::MAX,
    ensures
        docfreqs_of(freqs@, postings@),
{
    broadcast use vstd::std_specs::btree::group_btree_axioms;
    proof {
        lemma_u32_keys_ordered();
    }
    let ghost p = postings@;
    let mut by_tenant: BTreeMap<u32, u32> = BTreeMap::new();
    let mut i: usize = 0;
    proof {
        assert(p.take(0) =~= Seq::<PostingEntry>::empty());
        assert forall|t: u32| !postings_have_tenant(p.take(0), t) by {}
    }
    while i < postings.len()
        invariant
            p == postings@,
            forall|t: u32| tenant_count(p, t) <= u32::MAX,
            i <= p.len(),
            u32_keys_ordered(),
            counts_of(by_tenant@, p.take(i as int)),
        decreases p.len() - i,
    {
        let x = postings[i];
        let t = x.tenant_id;
        let ghost seen = p.take(i as int);
        proof {
            assert(seen.push(x) =~= p.take(i + 1));
            lemma_tenant_count_prefix(p, (i + 1) as nat, t);
            lemma_tenant_count_push(seen, x, t);
        }
        let c: u32 = match by_tenant.get(&t) {
            Some(c) => *c,
            None => 0,
        };
        proof {
            if !by_tenant@.contains_key(t) {
                lemma_tenant_count_absent(seen, t);
            }
        }
        assert(c == tenant_count(seen, t));
        let ghost before = by_tenant@;
        by_tenant.insert(t, c + 1);
        proof {
            assert(by_tenant@ == before.insert(t, (c + 1) as u32));
            assert forall|u: u32| #[trigger] by_tenant@.contains_key(u) <==> postings_have_tenant(seen.push(x), u) by {
                lemma_tenant_count_push(seen, x, u);
            }
            assert forall|u: u32| #[trigger] by_tenant@.contains_key(u) implies by_tenant@[u] == tenant_count(seen.push(x), u) by {
                lemma_tenant_count_push(seen, x, u);
            }
        }
        i = i + 1;
    }
    proof {
        assert(p.take(i as int) =~= p);
    }
    let mut out: Vec<TpTenantDocFreq> = Vec::new();
    let ghost m = by_tenant@;
    let ghost rem = vstd::std_specs::iter::IteratorSpec::remaining(&vstd::std_specs::btree::spec_btree_map_iter(&by_tenant));
    for kv in it: by_tenant.iter()
        invariant
            m == by_tenant@,
            u32_keys_ordered(),
            counts_of(m, p),
            it.seq() == rem,
            out@.len() == it.index(),
            forall|k: int| 0 <= k < out@.len() ==> (#[trigger] out@[k]).tenant_id == *rem[k].0
                && out@[k].doc_freq == *rem[k].1,
    {
        out.push(TpTenantDocFreq { tenant_id: *kv.0, doc_freq: *kv.1 });
    }
    proof {
        let keys = rem.map_values(|kv: (&u32, &u32)| *kv.0);
        assert(vstd::std_specs::btree::increasing_seq(keys));
        assert forall|i: int, j: int| 0 <= i < j < out@.len() implies out@[i].tenant_id < out@[j].tenant_id by {
            assert(keys[i] == *rem[i].0);
            assert(keys[j] == *rem[j].0);
        }
        assert forall|t: u32| postings_have_tenant(p, t) <==> docfreqs_have_tenant(out@, t) by {
            if postings_have_tenant(p, t) {
                assert(m.contains_key(t));
                assert(rem.contains((&t, &m[t])));
                let k = choose|k: int| 0 <= k < rem.len() && rem[k] == (&t, &m[t]);
                assert(out@[k].tenant_id == t);
            }
            if docfreqs_have_tenant(out@, t) {
                let k = choose|k: int| 0 <= k < out@.len() && (#[trigger] out@[k]).tenant_id == t;
                assert(m.contains_key(*rem[k].0));
            }
        }
        assert forall|k: int| 0 <= k < out@.len() implies (#[trigger] out@[k]).doc_freq == tenant_count(p, out@[k].tenant_id) by {
            assert(m.contains_key(*rem[k].0) && m[*rem[k].0] == *rem[k].1);
        }
    }
    out
}


proof fn lemma_tenant_sums_concat(a: Seq<TpTenantStats>, b: Seq<TpTenantStats>, t: u32)
    ensures
        tenant_docs(a + b, t) == tenant_docs(a, t) + tenant_docs(b, t),
        tenant_tokens(a + b, t) == tenant_tokens(a, t) + tenant_tokens(b, t),
        stats_have_tenant(a + b, t) == (stats_have_tenant(a, t) || stats_have_tenant(b, t)),
    decreases b.len(),
{
    if b.len() == 0 {
        assert(a + b =~= a);
        if stats_have_tenant(b, t) {
            let j = choose|j: int| 0 <= j < b.len() && (#[trigger] b[j]).tenant_id == t;
        }
    } else {
        let x = b.last();
        lemma_tenant_sums_concat(a, b.drop_last(), t);
        assert(a + b =~= (a + b.drop_last()).push(x));
        assert(b =~= b.drop_last().push(x));
        lemma_tenant_sums_push(a + b.drop_last(), x, t);
        lemma_tenant_sums_push(b.drop_last(), x, t);
    }
}

/// Per-tenant sums do not depend on the order of the stats.
proof fn lemma_tenant_sums_permutation(s1: Seq<TpTenantStats>, s2: Seq<TpTenantStats>, t: u32)
    requires
        s1.to_multiset() == s2.to_multiset(),
    ensures
        tenant_docs(s1, t) == tenant_docs(s2, t),
        tenant_tokens(s1, t) == tenant_tokens(s2, t),
        stats_have_tenant(s1, t) == stats_have_tenant(s2, t),
    decreases s1.len(),
{
    broadcast use vstd::seq_lib::group_to_multiset_ensures;
    if s1.len() == 0 {
        assert(s2.to_multiset().len() == 0);
        assert(s2.len() == 0);
        if stats_have_tenant(s2, t) {
            let j = choose|j: int| 0 <= j < s2.len() && (#[trigger] s2[j]).tenant_id == t;
        }
        if stats_have_tenant(s1, t) {
            let j = choose|j: int| 0 <= j < s1.len() && (#[trigger] s1[j]).tenant_id == t;
        }
    } else {
        let x = s1.last();
        let d1 = s1.drop_last();
        assert(s1 =~= d1.push(x));
        assert(s1.to_multiset().count(x) > 0);
        assert(s2.contains(x));
        let j = choose|j: int| 0 <= j < s2.len() && s2[j] == x;
        let a = s2.take(j);
        let b = s2.skip(j + 1);
        assert(s2 =~= a + seq![x] + b);
        let r2 = a + b;
        vstd::seq_lib::lemma_multiset_commutative(a + seq![x], b);
        vstd::seq_lib::lemma_multiset_commutative(a, seq![x]);
        vstd::seq_lib::lemma_multiset_commutative(a, b);
        assert(r2.to_multiset() =~= s2.to_multiset().remove(x));
        assert(d1.to_multiset() =~= s1.to_multiset().remove(x));
        lemma_tenant_sums_permutation(d1, r2, t);
        lemma_tenant_sums_push(d1, x, t);
        lemma_tenant_sums_concat(a, seq![x], t);
        lemma_tenant_sums_concat(a + seq![x], b, t);
        lemma_tenant_sums_concat(a, b, t);
        lemma_tenant_sums_push(Seq::empty(), x, t);
        assert(Seq::<TpTenantStats>::empty().push(x) =~= seq![x]);
    }
}

/// Two sequences of strictly ascending ids that hold the same ids are equal.
proof fn lemma_ascending_ids_equal(a: Seq<u32>, b: Seq<u32>)
    requires
        forall|i: int, j: int| 0 <= i < j < a.len() ==> a[i] < a[j],
        forall|i: int, j: int| 0 <= i < j < b.len() ==> b[i] < b[j],
        forall|t: u32| a.contains(t) <==> b.contains(t),
    ensures
        a == b,
    decreases a.len(),
{
    if a.len() == 0 {
        if b.len() > 0 {
            assert(b.contains(b[0]));
        }
        assert(a =~= b);
    } else {
        assert(a.contains(a[0]));
        assert(b.len() > 0);
        assert(b.contains(b[0]));
        let j = choose|j: int| 0 <= j < b.len() && b[j] == a[0];
        let i = choose|i: int| 0 <= i < a.len() && a[i] == b[0];
        if j > 0 {
            assert(b[0] < b[j]);
            if i > 0 {
                assert(a[0] < a[i]);
            }
        }
        assert(a[0] == b[0]);
        let a1 = a.drop_first();
        let b1 = b.drop_first();
        assert forall|t: u32| a1.contains(t) <==> b1.contains(t) by {
            if a1.contains(t) {
                let k = choose|k: int| 0 <= k < a1.len() && a1[k] == t;
                assert(a[k + 1] == t);
                assert(a[0] < a[k + 1]);
                assert(b.contains(t));
                let m = choose|m: int| 0 <= m < b.len() && b[m] == t;
                assert(m != 0);
                assert(b1[m - 1] == t);
            }
            if b1.contains(t) {
                let k = choose|k: int| 0 <= k < b1.len() && b1[k] == t;
                assert(b[k + 1] == t);
                assert(b[0] < b[k + 1]);
                assert(a.contains(t));
                let m = choose|m: int| 0 <= m < a.len() && a[m] == t;
                assert(m != 0);
                assert(a1[m - 1] == t);
            }
        }
        lemma_ascending_ids_equal(a1, b1);
        assert(a =~= seq![a[0]] + a1);
        assert(b =~= seq![b[0]] + b1);
    }
}

/// Merging tenant stats does not depend on the order of the sources or of their
/// entries: two aggregates of the same stats, in whatever order, are equal.
pub proof fn lemma_merge_tenant_stats_order_independent(
    r1: Seq<TpTenantStats>,
    all1: Seq<TpTenantStats>,
    r2: Seq<TpTenantStats>,
    all2: Seq<TpTenantStats>,
)
    requires
        stats_aggregate_of(r1, all1),
        stats_aggregate_of(r2, all2),
        all1.to_multiset() == all2.to_multiset(),
    ensures
        r1 == r2,
{
    let ids1 = r1.map_values(|e: TpTenantStats| e.tenant_id);
    let ids2 = r2.map_values(|e: TpTenantStats| e.tenant_id);
    assert forall|t: u32| ids1.contains(t) <==> ids2.contains(t) by {
        lemma_tenant_sums_permutation(all1, all2, t);
        if ids1.contains(t) {
            let k = choose|k: int| 0 <= k < ids1.len() && ids1[k] == t;
            assert(r1[k].tenant_id == t);
            assert(stats_have_tenant(r1, t));
            assert(stats_have_tenant(r2, t));
            let m = choose|m: int| 0 <= m < r2.len() && (#[trigger] r2[m]).tenant_id == t;
            assert(ids2[m] == t);
        }
        if ids2.contains(t) {
            let k = choose|k: int| 0 <= k < ids2.len() && ids2[k] == t;
            assert(r2[k].tenant_id == t);
            assert(stats_have_tenant(r2, t));
            assert(stats_have_tenant(r1, t));
            let m = choose|m: int| 0 <= m < r1.len() && (#[trigger] r1[m]).tenant_id == t;
            assert(ids1[m] == t);
        }
    }
    lemma_ascending_ids_equal(ids1, ids2);
    assert forall|k: int| 0 <= k < r1.len() implies #[trigger] r1[k] == r2[k] by {
        assert(ids1[k] == ids2[k]);
        lemma_tenant_sums_permutation(all1, all2, r1[k].tenant_id);
    }
    assert(r1 =~= r2);
}

proof fn lemma_tenant_count_concat(a: Seq<PostingEntry>, b: Seq<PostingEntry>, t: u32)
    ensures
        tenant_count(a + b, t) == tenant_count(a, t) + tenant_count(b, t),
        postings_have_tenant(a + b, t) == (postings_have_tenant(a, t) || postings_have_tenant(b, t)),
    decreases b.len(),
{
    if b.len() == 0 {
        assert(a + b =~= a);
        if postings_have_tenant(b, t) {
            let j = choose|j: int| 0 <= j < b.len() && (#[trigger] b[j]).tenant_id == t;
        }
    } else {
        let x = b.last();
        lemma_tenant_count_concat(a, b.drop_last(), t);
        assert(a + b =~= (a + b.drop_last()).push(x));
        assert(b =~= b.drop_last().push(x));
        lemma_tenant_count_push(a + b.drop_last(), x, t);
        lemma_tenant_count_push(b.drop_last(), x, t);
    }
}

/// Per-tenant counts do not depend on the order of the postings.
proof fn lemma_tenant_count_permutation(s1: Seq<PostingEntry>, s2: Seq<PostingEntry>, t: u32)
    requires
        s1.to_multiset() == s2.to_multiset(),
    ensures
        tenant_count(s1, t) == tenant_count(s2, t),
        postings_have_tenant(s1, t) == postings_have_tenant(s2, t),
    decreases s1.len(),
{
    broadcast use vstd::seq_lib::group_to_multiset_ensures;
    if s1.len() == 0 {
        assert(s2.to_multiset().len() == 0);
        assert(s2.len() == 0);
        if postings_have_tenant(s2, t) {
            let j = choose|j: int| 0 <= j < s2.len() && (#[trigger] s2[j]).tenant_id == t;
        }
        if postings_have_tenant(s1, t) {
            let j = choose|j: int| 0 <= j < s1.len() && (#[trigger] s1[j]).tenant_id == t;
        }
    } else {
        let x = s1.last();
        let d1 = s1.drop_last();
        assert(s1 =~= d1.push(x));
        assert(s1.to_multiset().count(x) > 0);
        assert(s2.contains(x));
        let j = choose|j: int| 0 <= j < s2.len() && s2[j] == x;
        let a = s2.take(j);
        let b = s2.skip(j + 1);
        assert(s2 =~= a + seq![x] + b);
        let r2 = a + b;
        vstd::seq_lib::lemma_multiset_commutative(a + seq![x], b);
        vstd::seq_lib::lemma_multiset_commutative(a, seq![x]);
        vstd::seq_lib::lemma_multiset_commutative(a, b);
        assert(r2.to_multiset() =~= s2.to_multiset().remove(x));
        assert(d1.to_multiset() =~= s1.to_multiset().remove(x));
        lemma_tenant_count_permutation(d1, r2, t);
        lemma_tenant_count_push(d1, x, t);
        lemma_tenant_count_concat(a, seq![x], t);
        lemma_tenant_count_concat(a + seq![x], b, t);
        lemma_tenant_count_concat(a, b, t);
        lemma_tenant_count_push(Seq::empty(), x, t);
        assert(Seq::<PostingEntry>::empty().push(x) =~= seq![x]);
    }
}

/// Per-tenant doc frequencies do not depend on the order of the postings: two results
/// for the same postings, in whatever order, are equal.
pub proof fn lemma_tenant_docfreqs_order_independent(
    r1: Seq<TpTenantDocFreq>,
    p1: Seq<PostingEntry>,
    r2: Seq<TpTenantDocFreq>,
    p2: Seq<PostingEntry>,
)
    requires
        docfreqs_of(r1, p1),
        docfreqs_of(r2, p2),
        p1.to_multiset() == p2.to_multiset(),
    ensures
        r1 == r2,
{
    let ids1 = r1.map_values(|e: TpTenantDocFreq| e.tenant_id);
    let ids2 = r2.map_values(|e: TpTenantDocFreq| e.tenant_id);
    assert forall|t: u32| ids1.contains(t) <==> ids2.contains(t) by {
        lemma_tenant_count_permutation(p1, p2, t);
        if ids1.contains(t) {
            let k = choose|k: int| 0 <= k < ids1.len() && ids1[k] == t;
            assert(r1[k].tenant_id == t);
            assert(docfreqs_have_tenant(r1, t));
            assert(docfreqs_have_tenant(r2, t));
            let m = choose|m: int| 0 <= m < r2.len() && (#[trigger] r2[m]).tenant_id == t;
            assert(ids2[m] == t);
        }
        if ids2.contains(t) {
            let k = choose|k: int| 0 <= k < ids2.len() && ids2[k] == t;
            assert(r2[k].tenant_id == t);
            assert(docfreqs_have_tenant(r2, t));
            assert(docfreqs_have_tenant(r1, t));
            let m = choose|m: int| 0 <= m < r1.len() && (#[trigger] r1[m]).tenant_id == t;
            assert(ids1[m] == t);
        }
    }
    lemma_ascending_ids_equal(ids1, ids2);
    assert forall|k: int| 0 <= k < r1.len() implies #[trigger] r1[k] == r2[k] by {
        assert(ids1[k] == ids2[k]);
        lemma_tenant_count_permutation(p1, p2, r1[k].tenant_id);
    }
    assert(r1 =~= r2);
}

/// Sum of the doc counts of a list of per-tenant doc frequencies.
pub open spec fn total_doc_freq(r: Seq<TpTenantDocFreq>) -> nat
    decreases r.len(),
{
    if r.len() == 0 {
        0
    } else {
        total_doc_freq(r.drop_last()) + r.last().doc_freq as nat
    }
}

/// Sum over the tenants `ids` of their numbers of postings in `p`.
spec fn count_sum(p: Seq<PostingEntry>, ids: Seq<u32>) -> nat
    decreases ids.len(),
{
    if ids.len() == 0 {
        0
    } else {
        count_sum(p, ids.drop_last()) + tenant_count(p, ids.last())
    }
}

/// How often `v` occurs in `ids`.
spec fn occurrences(ids: Seq<u32>, v: u32) -> nat
    decreases ids.len(),
{
    if ids.len() == 0 {
        0
    } else {
        occurrences(ids.drop_last(), v) + if ids.last() == v { 1nat } else { 0nat }
    }
}

proof fn lemma_count_sum_push_posting(q: Seq<PostingEntry>, x: PostingEntry, ids: Seq<u32>)
    ensures
        count_sum(q.push(x), ids) == count_sum(q, ids) + occurrences(ids, x.tenant_id),
    decreases ids.len(),
{
    if ids.len() > 0 {
        lemma_count_sum_push_posting(q, x, ids.drop_last());
        lemma_tenant_count_push(q, x, ids.last());
    }
}

proof fn lemma_occurrences_distinct(ids: Seq<u32>, v: u32)
    requires
        forall|i: int, j: int| 0 <= i < j < ids.len() ==> ids[i] != ids[j],
    ensures
        occurrences(ids, v) == if ids.contains(v) { 1nat } else { 0nat },
    decreases ids.len(),
{
    if ids.len() > 0 {
        let rest = ids.drop_last();
        lemma_occurrences_distinct(rest, v);
        if ids.last() == v {
            assert(ids[ids.len() - 1] == v);
            if rest.contains(v) {
                let k = choose|k: int| 0 <= k < rest.len() && rest[k] == v;
                assert(ids[k] == v);
            }
        } else {
            if ids.contains(v) {
                let k = choose|k: int| 0 <= k < ids.len() && ids[k] == v;
                assert(rest[k] == v);
            }
            if rest.contains(v) {
                let k = choose|k: int| 0 <= k < rest.len() && rest[k] == v;
                assert(ids[k] == v);
            }
        }
    }
}

/// Distinct tenant ids that cover every tenant of `p` count each posting of `p` once.
proof fn lemma_count_sum_covers(p: Seq<PostingEntry>, ids: Seq<u32>)
    requires
        forall|i: int, j: int| 0 <= i < j < ids.len() ==> ids[i] != ids[j],
        forall|t: u32| postings_have_tenant(p, t) ==> ids.contains(t),
    ensures
        count_sum(p, ids) == p.len(),
    decreases p.len(),
{
    if p.len() == 0 {
        assert forall|k: nat| k <= ids.len() implies count_sum(p, ids.take(k as int)) == 0 by {
            lemma_count_sum_zero(p, ids, k);
        }
        assert(ids.take(ids.len() as int) =~= ids);
    } else {
        let q = p.drop_last();
        let x = p.last();
        assert(q.push(x) =~= p);
        assert forall|t: u32| postings_have_tenant(q, t) implies ids.contains(t) by {
            lemma_tenant_count_push(q, x, t);
        }
        lemma_count_sum_covers(q, ids);
        lemma_count_sum_push_posting(q, x, ids);
        lemma_tenant_count_push(q, x, x.tenant_id);
        lemma_occurrences_distinct(ids, x.tenant_id);
    }
}

proof fn lemma_count_sum_zero(p: Seq<PostingEntry>, ids: Seq<u32>, k: nat)
    requires
        p.len() == 0,
        k <= ids.len(),
    ensures
        count_sum(p, ids.take(k as int)) == 0,
    decreases k,
{
    if k > 0 {
        assert(ids.take(k as int).drop_last() =~= ids.take(k - 1));
        lemma_count_sum_zero(p, ids, (k - 1) as nat);
    }
}

proof fn lemma_total_doc_freq_is_count_sum(r: Seq<TpTenantDocFreq>, p: Seq<PostingEntry>)
    requires
        forall|k: int| 0 <= k < r.len() ==> (#[trigger] r[k]).doc_freq == tenant_count(p, r[k].tenant_id),
    ensures
        total_doc_freq(r) == count_sum(p, r.map_values(|e: TpTenantDocFreq| e.tenant_id)),
    decreases r.len(),
{
    if r.len() > 0 {
        let rest = r.drop_last();
        assert forall|k: int| 0 <= k < rest.len() implies (#[trigger] rest[k]).doc_freq == tenant_count(p, rest[k].tenant_id) by {
            assert(rest[k] == r[k]);
        }
        lemma_total_doc_freq_is_count_sum(rest, p);
        assert(r.map_values(|e: TpTenantDocFreq| e.tenant_id).drop_last()
            =~= rest.map_values(|e: TpTenantDocFreq| e.tenant_id));
        assert(r[r.len() - 1].doc_freq == tenant_count(p, r[r.len() - 1].tenant_id));
    }
}

/// Every posting is counted once: the doc counts of the per-tenant doc
/// frequencies of a posting list add up to its length.
pub proof fn lemma_tenant_docfreqs_total(r: Seq<TpTenantDocFreq>, p: Seq<PostingEntry>)
    requires
        docfreqs_of(r, p),
    ensures
        total_doc_freq(r) == p.len(),
{
    let ids = r.map_values(|e: TpTenantDocFreq| e.tenant_id);
    assert forall|i: int, j: int| 0 <= i < j < ids.len() implies ids[i] != ids[j] by {
        assert(r[i].tenant_id < r[j].tenant_id);
    }
    assert forall|t: u32| postings_have_tenant(p, t) implies ids.contains(t) by {
        assert(docfreqs_have_tenant(r, t));
        let k = choose|k: int| 0 <= k < r.len() && (#[trigger] r[k]).tenant_id == t;
        assert(ids[k] == t);
    }
    lemma_count_sum_covers(p, ids);
    lemma_total_doc_freq_is_count_sum(r, p);
}

/// Counts per tenant in a map: tenant id to its number of postings.
spec fn counts_of(m: Map<u32, u32>, p: Seq<PostingEntry>) -> bool {
    &&& forall|t: u32| m.contains_key(t) <==> postings_have_tenant(p, t)
    &&& forall|t: u32| m.contains_key(t) ==> m[t] == tenant_count(p, t)
}

/// `u32` keys are ordered as a map of them expects.
spec fn u32_keys_ordered() -> bool {
    &&& vstd::laws_cmp::obeys_cmp::<u32>()
    &&& vstd::std_specs::btree::key_obeys_cmp_spec::<u32>()
    &&& forall|s: Seq<u32>| vstd::std_specs::btree::increasing_seq(s)
        ==> (forall|i: int, j: int| 0 <= i < j < s.len() ==> s[i] < s[j])
}

proof fn lemma_u32_keys_ordered()
    ensures
        u32_keys_ordered(),
{
    broadcast use vstd::std_specs::btree::group_btree_axioms;
    broadcast use vstd::laws_cmp::group_laws_cmp;
    assert(vstd::laws_cmp::obeys_cmp::<u32>());
    assert forall|s: Seq<u32>| vstd::std_specs::btree::increasing_seq(s) implies
        (forall|i: int, j: int| 0 <= i < j < s.len() ==> s[i] < s[j]) by {
        assert forall|i: int, j: int| 0 <= i < j < s.len() implies s[i] < s[j] by {
            assert(vstd::std_specs::cmp::OrdSpec::cmp_spec(&s[i], &s[j]) is Less);
        }
    }
}


/// The bytes of a term, by which terms are ordered.
pub open spec fn term_key(s: Seq<char>) -> Seq<u8> {
    encode_utf8(s)
}

pub proof fn lemma_term_key_injective(a: Seq<char>, b: Seq<char>)
    requires
        term_key(a) == term_key(b),
    ensures
        a == b,
{
    encode_utf8_decode_utf8(a);
    encode_utf8_decode_utf8(b);
}

pub open spec fn term_lists_view(sources: Seq<Vec<(String, Vec<PostingEntry>)>>) -> Seq<Seq<(String, Vec<PostingEntry>)>> {
    sources.map_values(|v: Vec<(String, Vec<PostingEntry>)>| v@)
}

/// Some source holds the term `t`.
pub open spec fn has_term(srcs: Seq<Seq<(String, Vec<PostingEntry>)>>, t: Seq<char>) -> bool {
    exists|i: int, j: int| 0 <= i < srcs.len() && 0 <= j < srcs[i].len() && (#[trigger] srcs[i][j]).0@ == t
}

/// Index of the first entry of a source with term `t`.
pub open spec fn first_match(source: Seq<(String, Vec<PostingEntry>)>, t: Seq<char>) -> Option<int>
    decreases source.len(),
{
    if source.len() == 0 {
        None
    } else {
        match first_match(source.drop_last(), t) {
            Some(j) => Some(j),
            None => if source.last().0@ == t { Some(source.len() - 1) } else { None },
        }
    }
}

/// The posting lists of term `t` in the first `k` sources (first match in each source
/// that has it), in source order.
pub open spec fn term_sources(srcs: Seq<Seq<(String, Vec<PostingEntry>)>>, t: Seq<char>, k: nat) -> Seq<Seq<PostingEntry>>
    decreases k,
{
    if k == 0 {
        Seq::empty()
    } else {
        let prev = term_sources(srcs, t, (k - 1) as nat);
        match first_match(srcs[k - 1], t) {
            Some(j) => prev.push(srcs[k - 1][j].1@),
            None => prev,
        }
    }
}

/// The indices of those sources.
pub open spec fn term_source_indices(srcs: Seq<Seq<(String, Vec<PostingEntry>)>>, t: Seq<char>, k: nat) -> Seq<int>
    decreases k,
{
    if k == 0 {
        Seq::empty()
    } else {
        let prev = term_source_indices(srcs, t, (k - 1) as nat);
        match first_match(srcs[k - 1], t) {
            Some(j) => prev.push(k - 1),
            None => prev,
        }
    }
}

/// The maps of the given sources.
pub open spec fn pick_maps(maps: Option<Seq<Seq<u32>>>, idx: Seq<int>) -> Option<Seq<Seq<u32>>> {
    match maps {
        Some(m) => Some(idx.map_values(|i: int| m[i])),
        None => None,
    }
}

/// The merged postings of term `t`.
pub open spec fn merged_term_postings(srcs: Seq<Seq<(String, Vec<PostingEntry>)>>, maps: Option<Seq<Seq<u32>>>, t: Seq<char>) -> Seq<PostingEntry> {
    let ts = term_sources(srcs, t, srcs.len());
    sort_spec(collected(ts, pick_maps(maps, term_source_indices(srcs, t, srcs.len())), ts.len()), false)
}

/// Every posting list that the merge reads has its source's map, covering its doc ids.
pub open spec fn term_maps_cover(srcs: Seq<Seq<(String, Vec<PostingEntry>)>>, maps: Option<Seq<Seq<u32>>>) -> bool {
    match maps {
        Some(m) => forall|i: int, j: int| 0 <= i < srcs.len() && 0 <= j < srcs[i].len()
            && first_match(srcs[i], (#[trigger] srcs[i][j]).0@) == Some(j)
            ==> i < m.len() && forall|k: int| 0 <= k < srcs[i][j].1@.len() ==> (#[trigger] srcs[i][j].1@[k]).doc_id < m[i].len(),
        None => true,
    }
}

proof fn lemma_first_match(source: Seq<(String, Vec<PostingEntry>)>, t: Seq<char>)
    ensures
        match first_match(source, t) {
            Some(j) => 0 <= j < source.len() && source[j].0@ == t
                && forall|k: int| 0 <= k < j ==> (#[trigger] source[k]).0@ != t,
            None => forall|k: int| 0 <= k < source.len() ==> (#[trigger] source[k]).0@ != t,
        },
    decreases source.len(),
{
    if source.len() > 0 {
        let d = source.drop_last();
        lemma_first_match(d, t);
        assert forall|k: int| 0 <= k < source.len() - 1 implies source[k] == #[trigger] d[k] by {}
        match first_match(d, t) {
            Some(j) => {
                assert(first_match(source, t) == Some(j));
                assert forall|k: int| 0 <= k < j implies (#[trigger] source[k]).0@ != t by {
                    assert(source[k] == d[k]);
                }
            },
            None => {
                assert forall|k: int| 0 <= k < source.len() - 1 implies (#[trigger] source[k]).0@ != t by {
                    assert(source[k] == d[k]);
                }
            },
        }
    }
}

proof fn lemma_term_sources_parallel(srcs: Seq<Seq<(String, Vec<PostingEntry>)>>, t: Seq<char>, k: nat)
    requires
        k <= srcs.len(),
    ensures
        term_sources(srcs, t, k).len() == term_source_indices(srcs, t, k).len(),
        forall|a: int| 0 <= a < term_source_indices(srcs, t, k).len() ==> {
            let i = #[trigger] term_source_indices(srcs, t, k)[a];
            &&& 0 <= i < k
            &&& first_match(srcs[i], t) is Some
            &&& term_sources(srcs, t, k)[a] == srcs[i][first_match(srcs[i], t)->0].1@
        },
        (exists|i: int| 0 <= i < k && first_match(srcs[i], t) is Some) ==> term_sources(srcs, t, k).len() > 0,
    decreases k,
{
    if k > 0 {
        lemma_term_sources_parallel(srcs, t, (k - 1) as nat);
        if exists|i: int| 0 <= i < k && first_match(srcs[i], t) is Some {
            let i = choose|i: int| 0 <= i < k && first_match(srcs[i], t) is Some;
            if i < k - 1 {
                assert(exists|i: int| 0 <= i < k - 1 && first_match(srcs[i], t) is Some);
            }
        }
    }
}

/// The maps picked for a term cover its posting lists.
proof fn lemma_term_maps_cover(srcs: Seq<Seq<(String, Vec<PostingEntry>)>>, maps: Option<Seq<Seq<u32>>>, t: Seq<char>)
    requires
        term_maps_cover(srcs, maps),
    ensures
        maps_cover(term_sources(srcs, t, srcs.len()), pick_maps(maps, term_source_indices(srcs, t, srcs.len()))),
        maps is Some ==> forall|a: int| 0 <= a < term_source_indices(srcs, t, srcs.len()).len()
            ==> #[trigger] term_source_indices(srcs, t, srcs.len())[a] < maps->0.len(),
{
    lemma_term_sources_parallel(srcs, t, srcs.len());
    let ts = term_sources(srcs, t, srcs.len());
    let idx = term_source_indices(srcs, t, srcs.len());
    if maps is Some {
        let m = maps->0;
        assert forall|a: int| 0 <= a < idx.len() implies #[trigger] idx[a] < m.len() by {
            let i = idx[a];
            lemma_first_match(srcs[i], t);
            let j = first_match(srcs[i], t)->0;
            assert(first_match(srcs[i], srcs[i][j].0@) == Some(j));
        }
        let pm = pick_maps(maps, idx)->0;
        assert forall|a: int, b: int| 0 <= a < ts.len() && 0 <= b < ts[a].len()
            implies a < pm.len() && (#[trigger] ts[a][b]).doc_id < pm[a].len() by {
            let i = idx[a];
            lemma_first_match(srcs[i], t);
            let j = first_match(srcs[i], t)->0;
            assert(first_match(srcs[i], srcs[i][j].0@) == Some(j));
            assert(ts[a][b] == srcs[i][j].1@[b]);
        }
    }
}

/// `acc` is the sorted, duplicate-free list of the terms seen so far.
pub open spec fn terms_sorted_unique(acc: Seq<String>) -> bool {
    forall|a: int, b: int| 0 <= a < b < acc.len() ==> lex_lt(term_key(acc[a]@), term_key(acc[b]@))
}

/// Term `t` occurs in the sources before position (`i`, `j`).
pub open spec fn seen_term(srcs: Seq<Seq<(String, Vec<PostingEntry>)>>, i: int, j: int, t: Seq<char>) -> bool {
    exists|a: int, b: int| 0 <= a <= i && a < srcs.len() && 0 <= b < srcs[a].len() && (a < i || b < j)
        && (#[trigger] srcs[a][b]).0@ == t
}

pub open spec fn in_terms(acc: Seq<String>, t: Seq<char>) -> bool {
    exists|k: int| 0 <= k < acc.len() && (#[trigger] acc[k])@ == t
}

/// Pushing a term keeps the list sorted and unique when the term sorts after its last.
proof fn lemma_push_term(acc: Seq<String>, x: String)
    requires
        terms_sorted_unique(acc),
        acc.len() > 0 ==> lex_lt(term_key(acc.last()@), term_key(x@)),
    ensures
        terms_sorted_unique(acc.push(x)),
        forall|t: Seq<char>| in_terms(acc.push(x), t) <==> (in_terms(acc, t) || t == x@),
{
    let r = acc.push(x);
    assert forall|p: int, q: int| 0 <= p < q < r.len() implies lex_lt(term_key(r[p]@), term_key(r[q]@)) by {
        if q == r.len() - 1 {
            assert(r[q] == x);
            if p < q - 1 {
                lemma_lex_transitive(term_key(acc[p]@), term_key(acc.last()@), term_key(x@));
            }
        } else {
            assert(r[p] == acc[p]);
            assert(r[q] == acc[q]);
        }
    }
    assert forall|t: Seq<char>| in_terms(r, t) <==> (in_terms(acc, t) || t == x@) by {
        if in_terms(acc, t) {
            let k = choose|k: int| 0 <= k < acc.len() && (#[trigger] acc[k])@ == t;
            assert(r[k]@ == t);
        }
        if t == x@ {
            assert(r[r.len() - 1]@ == t);
        }
        if in_terms(r, t) && t != x@ {
            let k = choose|k: int| 0 <= k < r.len() && (#[trigger] r[k])@ == t;
            assert(acc[k]@ == t);
        }
    }
}

proof fn lemma_in_terms_take_step(s: Seq<String>, i: int, t: Seq<char>)
    requires
        0 <= i < s.len(),
    ensures
        in_terms(s.take(i + 1), t) <==> (in_terms(s.take(i), t) || t == s[i]@),
{
    if in_terms(s.take(i + 1), t) && t != s[i]@ {
        let k = choose|k: int| 0 <= k < i + 1 && (#[trigger] s.take(i + 1)[k])@ == t;
        assert(s.take(i)[k] == s[k]);
    }
    if in_terms(s.take(i), t) {
        let k = choose|k: int| 0 <= k < i && (#[trigger] s.take(i)[k])@ == t;
        assert(s.take(i + 1)[k] == s[k]);
    }
    if t == s[i]@ {
        assert(s.take(i + 1)[i] == s[i]);
    }
}

/// The union of two sorted, duplicate-free term lists, sorted and duplicate-free.
fn union_terms(a: &Vec<String>, b: &Vec<String>) -> (r: Vec<String>)
    requires
        terms_sorted_unique(a@),
        terms_sorted_unique(b@),
    ensures
        terms_sorted_unique(r@),
        forall|t: Seq<char>| in_terms(r@, t) <==> (in_terms(a@, t) || in_terms(b@, t)),
{
    let mut out: Vec<String> = Vec::new();
    let mut i: usize = 0;
    let mut j: usize = 0;
    proof {
        assert forall|t: Seq<char>| in_terms(out@, t) <==> (in_terms(a@.take(0), t) || in_terms(b@.take(0), t)) by {}
    }
    while i < a.len() || j < b.len()
        invariant
            terms_sorted_unique(a@),
            terms_sorted_unique(b@),
            i <= a@.len(),
            j <= b@.len(),
            terms_sorted_unique(out@),
            out@.len() > 0 && i < a@.len() ==> lex_lt(term_key(out@.last()@), term_key(a@[i as int]@)),
            out@.len() > 0 && j < b@.len() ==> lex_lt(term_key(out@.last()@), term_key(b@[j as int]@)),
            forall|t: Seq<char>| in_terms(out@, t) <==> (in_terms(a@.take(i as int), t) || in_terms(b@.take(j as int), t)),
        decreases a@.len() + b@.len() - i - j,
    {
        let ghost o = out@;
        let c = if i >= a.len() {
            LexOrder::Greater
        } else if j >= b.len() {
            LexOrder::Less
        } else {
            compare_bytes(a[i].as_str().as_bytes(), b[j].as_str().as_bytes())
        };
        match c {
            LexOrder::Less => {
                let x = a[i].clone();
                proof {
                    assert(i < a@.len());
                    assert(x == a@[i as int]);
                    lemma_push_term(o, x);
                    assert forall|t: Seq<char>| in_terms(o.push(x), t) <==> (in_terms(a@.take(i + 1), t) || in_terms(b@.take(j as int), t)) by {
                        lemma_in_terms_take_step(a@, i as int, t);
                        assert(in_terms(o, t) <==> (in_terms(a@.take(i as int), t) || in_terms(b@.take(j as int), t)));
                    }
                    if i + 1 < a@.len() {
                        assert(lex_lt(term_key(a@[i as int]@), term_key(a@[i + 1]@)));
                    }
                }
                out.push(x);
                i = i + 1;
            },
            LexOrder::Greater => {
                let y = b[j].clone();
                proof {
                    assert(j < b@.len());
                    assert(y == b@[j as int]);
                    lemma_push_term(o, y);
                    assert forall|t: Seq<char>| in_terms(o.push(y), t) <==> (in_terms(a@.take(i as int), t) || in_terms(b@.take(j + 1), t)) by {
                        lemma_in_terms_take_step(b@, j as int, t);
                        assert(in_terms(o, t) <==> (in_terms(a@.take(i as int), t) || in_terms(b@.take(j as int), t)));
                    }
                    if j + 1 < b@.len() {
                        assert(lex_lt(term_key(b@[j as int]@), term_key(b@[j + 1]@)));
                    }
                }
                out.push(y);
                j = j + 1;
            },
            LexOrder::Equal => {
                let x = a[i].clone();
                proof {
                    assert(i < a@.len() && j < b@.len());
                    assert(x == a@[i as int]);
                    lemma_term_key_injective(a@[i as int]@, b@[j as int]@);
                    assert(a@[i as int]@ == b@[j as int]@);
                    lemma_push_term(o, x);
                    assert forall|t: Seq<char>| in_terms(o.push(x), t) <==> (in_terms(a@.take(i + 1), t) || in_terms(b@.take(j + 1), t)) by {
                        lemma_in_terms_take_step(a@, i as int, t);
                        lemma_in_terms_take_step(b@, j as int, t);
                        assert(in_terms(o, t) <==> (in_terms(a@.take(i as int), t) || in_terms(b@.take(j as int), t)));
                    }
                    if i + 1 < a@.len() {
                        assert(lex_lt(term_key(a@[i as int]@), term_key(a@[i + 1]@)));
                    }
                    if j + 1 < b@.len() {
                        assert(lex_lt(term_key(b@[j as int]@), term_key(b@[j + 1]@)));
                    }
                }
                out.push(x);
                i = i + 1;
                j = j + 1;
            },
        }
    }
    proof {
        assert(a@.take(i as int) =~= a@);
        assert(b@.take(j as int) =~= b@);
    }
    out
}

/// Term `t` occurs among `all[lo..hi]`.
pub open spec fn in_terms_range(all: Seq<String>, lo: int, hi: int, t: Seq<char>) -> bool {
    exists|k: int| lo <= k < hi && (#[trigger] all[k])@ == t
}

/// The terms of `all[lo..hi]`, sorted by their bytes, each once (a merge sort).
fn sort_unique_terms(all: &Vec<String>, lo: usize, hi: usize) -> (r: Vec<String>)
    requires
        lo <= hi <= all@.len(),
    ensures
        terms_sorted_unique(r@),
        forall|t: Seq<char>| in_terms(r@, t) <==> in_terms_range(all@, lo as int, hi as int, t),
    decreases hi - lo,
{
    if hi - lo <= 1 {
        let mut r: Vec<String> = Vec::new();
        if hi - lo == 1 {
            r.push(all[lo].clone());
        }
        proof {
            assert forall|t: Seq<char>| in_terms(r@, t) <==> in_terms_range(all@, lo as int, hi as int, t) by {
                if in_terms(r@, t) {
                    let k = choose|k: int| 0 <= k < r@.len() && (#[trigger] r@[k])@ == t;
                    assert(all@[lo as int]@ == t);
                }
                if in_terms_range(all@, lo as int, hi as int, t) {
                    let k = choose|k: int| lo <= k < hi && (#[trigger] all@[k])@ == t;
                    assert(r@[0]@ == t);
                }
            }
        }
        return r;
    }
    let mid = lo + (hi - lo) / 2;
    let left = sort_unique_terms(all, lo, mid);
    let right = sort_unique_terms(all, mid, hi);
    let r = union_terms(&left, &right);
    proof {
        assert forall|t: Seq<char>| in_terms(r@, t) <==> in_terms_range(all@, lo as int, hi as int, t) by {
            if in_terms_range(all@, lo as int, hi as int, t) {
                let k = choose|k: int| lo <= k < hi && (#[trigger] all@[k])@ == t;
                if k < mid {
                    assert(in_terms_range(all@, lo as int, mid as int, t));
                } else {
                    assert(in_terms_range(all@, mid as int, hi as int, t));
                }
            }
            if in_terms_range(all@, lo as int, mid as int, t) {
                let k = choose|k: int| lo <= k < mid && (#[trigger] all@[k])@ == t;
            }
            if in_terms_range(all@, mid as int, hi as int, t) {
                let k = choose|k: int| mid <= k < hi && (#[trigger] all@[k])@ == t;
            }
        }
    }
    r
}

/// All terms of the sources, sorted by their bytes, each once.
fn collect_terms(sources: &[Vec<(String, Vec<PostingEntry>)>]) -> (terms: Vec<String>)
    ensures
        terms_sorted_unique(terms@),
        forall|t: Seq<char>| in_terms(terms@, t) <==> has_term(term_lists_view(sources@), t),
{
    let ghost srcs = term_lists_view(sources@);
    let mut all_terms: Vec<String> = Vec::new();
    proof {
        assert forall|t: Seq<char>| in_terms(all_terms@, t) <==> seen_term(srcs, 0, 0, t) by {
            if seen_term(srcs, 0, 0, t) {
                let (a, b) = choose|a: int, b: int| 0 <= a <= 0 && a < srcs.len() && 0 <= b < srcs[a].len()
                    && (a < 0 || b < 0) && (#[trigger] srcs[a][b]).0@ == t;
            }
        }
    }
    let mut i: usize = 0;
    while i < sources.len()
        invariant
            srcs == term_lists_view(sources@),
            i <= srcs.len(),
            forall|t: Seq<char>| in_terms(all_terms@, t) <==> seen_term(srcs, i as int, 0, t),
        decreases srcs.len() - i,
    {
        let src = &sources[i];
        let mut j: usize = 0;
        while j < src.len()
            invariant
                srcs == term_lists_view(sources@),
                i < srcs.len(),
                src@ == srcs[i as int],
                j <= src@.len(),
                forall|t: Seq<char>| in_terms(all_terms@, t) <==> seen_term(srcs, i as int, j as int, t),
            decreases src@.len() - j,
        {
            let ghost before = all_terms@;
            all_terms.push(src[j].0.clone());
            proof {
                assert forall|t: Seq<char>| in_terms(all_terms@, t) <==> (in_terms(before, t) || t == src@[j as int].0@) by {
                    if in_terms(all_terms@, t) && t != src@[j as int].0@ {
                        let k = choose|k: int| 0 <= k < all_terms@.len() && (#[trigger] all_terms@[k])@ == t;
                        assert(before[k]@ == t);
                    }
                    if in_terms(before, t) {
                        let k = choose|k: int| 0 <= k < before.len() && (#[trigger] before[k])@ == t;
                        assert(all_terms@[k]@ == t);
                    }
                    if t == src@[j as int].0@ {
                        assert(all_terms@[all_terms@.len() - 1]@ == t);
                    }
                }
                assert forall|t: Seq<char>| in_terms(all_terms@, t) <==> seen_term(srcs, i as int, j + 1, t) by {
                    assert(in_terms(before, t) <==> seen_term(srcs, i as int, j as int, t));
                    assert(in_terms(all_terms@, t) <==> (in_terms(before, t) || t == src@[j as int].0@));
                    if seen_term(srcs, i as int, j + 1, t) && t != src@[j as int].0@ {
                        let (a, b) = choose|a: int, b: int| 0 <= a <= i && a < srcs.len() && 0 <= b < srcs[a].len()
                            && (a < i || b < j + 1) && (#[trigger] srcs[a][b]).0@ == t;
                        assert(seen_term(srcs, i as int, j as int, t));
                    }
                    if t == src@[j as int].0@ {
                        assert(srcs[i as int][j as int].0@ == t);
                    }
                    if seen_term(srcs, i as int, j as int, t) {
                        let (a, b) = choose|a: int, b: int| 0 <= a <= i && a < srcs.len() && 0 <= b < srcs[a].len()
                            && (a < i || b < j) && (#[trigger] srcs[a][b]).0@ == t;
                        assert(seen_term(srcs, i as int, j + 1, t));
                    }
                }
            }
            j = j + 1;
        }
        proof {
            assert forall|t: Seq<char>| seen_term(srcs, i as int, j as int, t) <==> seen_term(srcs, i + 1, 0, t) by {
                if seen_term(srcs, i as int, j as int, t) {
                    let (a, b) = choose|a: int, b: int| 0 <= a <= i && a < srcs.len() && 0 <= b < srcs[a].len()
                        && (a < i || b < j) && (#[trigger] srcs[a][b]).0@ == t;
                }
                if seen_term(srcs, i + 1, 0, t) {
                    let (a, b) = choose|a: int, b: int| 0 <= a <= i + 1 && a < srcs.len() && 0 <= b < srcs[a].len()
                        && (a < i + 1 || b < 0) && (#[trigger] srcs[a][b]).0@ == t;
                }
            }
        }
        i = i + 1;
    }
    proof {
        assert forall|t: Seq<char>| seen_term(srcs, i as int, 0, t) <==> has_term(srcs, t) by {
            if has_term(srcs, t) {
                let (a, b) = choose|a: int, b: int| 0 <= a < srcs.len() && 0 <= b < srcs[a].len() && (#[trigger] srcs[a][b]).0@ == t;
            }
            if seen_term(srcs, i as int, 0, t) {
                let (a, b) = choose|a: int, b: int| 0 <= a <= i && a < srcs.len() && 0 <= b < srcs[a].len()
                    && (a < i || b < 0) && (#[trigger] srcs[a][b]).0@ == t;
            }
        }
    }
    let sorted = sort_unique_terms(&all_terms, 0, all_terms.len());
    proof {
        assert forall|t: Seq<char>| in_terms(sorted@, t) <==> has_term(srcs, t) by {
            if in_terms_range(all_terms@, 0, all_terms@.len() as int, t) {
                let k = choose|k: int| 0 <= k < all_terms@.len() && (#[trigger] all_terms@[k])@ == t;
                assert(in_terms(all_terms@, t));
            }
            if in_terms(all_terms@, t) {
                let k = choose|k: int| 0 <= k < all_terms@.len() && (#[trigger] all_terms@[k])@ == t;
                assert(in_terms_range(all_terms@, 0, all_terms@.len() as int, t));
            }
        }
    }
    sorted
}

/// Index of the first entry of `source` whose term is `term`.
fn find_term(source: &Vec<(String, Vec<PostingEntry>)>, term: &String) -> (r: Option<usize>)
    ensures
        match r {
            Some(j) => first_match(source@, term@) == Some(j as int),
            None => first_match(source@, term@) is None,
        },
{
    proof {
        lemma_first_match(source@, term@);
    }
    let mut j: usize = 0;
    while j < source.len()
        invariant
            j <= source@.len(),
            forall|k: int| 0 <= k < j ==> (#[trigger] source@[k]).0@ != term@,
        decreases source@.len() - j,
    {
        if source[j].0 == *term {
            proof {
                lemma_first_match(source@, term@);
                assert(source@[j as int].0@ == term@);
            }
            return Some(j);
        }
        j = j + 1;
    }
    proof {
        lemma_first_match(source@, term@);
    }
    None
}

/// N-way merge of sorted term lists from multiple segments.
///
/// Returns a merged sorted list of unique terms with their
/// combined posting lists: every term of any source once, in byte order, with the
/// merge of the posting lists that the sources hold for it (the first entry of each
/// source that has the term).
pub fn merge_term_lists(
    sources: &[Vec<(String, Vec<PostingEntry>)>],
    doc_id_maps: Option<&[&[u32]]>,
) -> (result: Vec<(String, Vec<PostingEntry>)>)
    requires
        term_maps_cover(term_lists_view(sources@), maps_view(doc_id_maps)),
    ensures
        forall|a: int, b: int| 0 <= a < b < result@.len()
            ==> lex_lt(term_key(result@[a].0@), term_key(result@[b].0@)),
        forall|t: Seq<char>| (exists|k: int| 0 <= k < result@.len() && (#[trigger] result@[k]).0@ == t)
            <==> has_term(term_lists_view(sources@), t),
        forall|k: int| 0 <= k < result@.len() ==> (#[trigger] result@[k]).1@
            == merged_term_postings(term_lists_view(sources@), maps_view(doc_id_maps), result@[k].0@),
{
    let ghost srcs = term_lists_view(sources@);
    let ghost maps = maps_view(doc_id_maps);
    let all_terms = collect_terms(sources);
    let mut result: Vec<(String, Vec<PostingEntry>)> = Vec::with_capacity(all_terms.len());
    let mut ti: usize = 0;
    while ti < all_terms.len()
        invariant
            srcs == term_lists_view(sources@),
            maps == maps_view(doc_id_maps),
            term_maps_cover(srcs, maps),
            terms_sorted_unique(all_terms@),
            forall|t: Seq<char>| in_terms(all_terms@, t) <==> has_term(srcs, t),
            ti <= all_terms@.len(),
            result@.len() == ti,
            forall|k: int| 0 <= k < ti ==> (#[trigger] result@[k]).0@ == all_terms@[k]@
                && result@[k].1@ == merged_term_postings(srcs, maps, all_terms@[k]@),
        decreases all_terms@.len() - ti,
    {
        let term = &all_terms[ti];
        let mut term_srcs: Vec<&[PostingEntry]> = Vec::new();
        let mut source_indices: Vec<usize> = Vec::new();
        let mut src_idx: usize = 0;
        while src_idx < sources.len()
            invariant
                srcs == term_lists_view(sources@),
                src_idx <= srcs.len(),
                sources_view(term_srcs@) == term_sources(srcs, term@, src_idx as nat),
                source_indices@.map_values(|i: usize| i as int) == term_source_indices(srcs, term@, src_idx as nat),
            decreases srcs.len() - src_idx,
        {
            let found = find_term(&sources[src_idx], term);
            match found {
                Some(j) => {
                    proof {
                        lemma_first_match(srcs[src_idx as int], term@);
                    }
                    term_srcs.push(sources[src_idx][j].1.as_slice());
                    source_indices.push(src_idx);
                    proof {
                        assert(sources_view(term_srcs@) =~= term_sources(srcs, term@, (src_idx + 1) as nat));
                        assert(source_indices@.map_values(|i: usize| i as int)
                            =~= term_source_indices(srcs, term@, (src_idx + 1) as nat));
                    }
                },
                None => {},
            }
            src_idx = src_idx + 1;
        }
        proof {
            lemma_term_maps_cover(srcs, maps, term@);
            lemma_term_sources_parallel(srcs, term@, srcs.len());
        }
        let ghost idx = term_source_indices(srcs, term@, srcs.len());
        let merged = match doc_id_maps {
            Some(m) => {
                let mut src_maps: Vec<&[u32]> = Vec::with_capacity(source_indices.len());
                let mut a: usize = 0;
                while a < source_indices.len()
                    invariant
                        maps == maps_view(doc_id_maps),
                        doc_id_maps == Some(m),
                        source_indices@.map_values(|i: usize| i as int) == idx,
                        forall|b: int| 0 <= b < idx.len() ==> #[trigger] idx[b] < maps->0.len(),
                        a <= source_indices@.len(),
                        src_maps@.len() == a,
                        src_maps@.map_values(|s: &[u32]| s@) == idx.take(a as int).map_values(|i: int| maps->0[i]),
                    decreases source_indices@.len() - a,
                {
                    let k = source_indices[a];
                    proof {
                        assert(idx[a as int] == k as int);
                    }
                    let s_map = m[k];
                    proof {
                        assert(s_map@ == maps->0[k as int]);
                    }
                    let ghost before = src_maps@;
                    src_maps.push(s_map);
                    a = a + 1;
                    proof {
                        assert forall|b: int| 0 <= b < a implies #[trigger] src_maps@[b]@ == maps->0[idx[b]] by {
                            if b < a - 1 {
                                assert(before.map_values(|s: &[u32]| s@)[b]
                                    == idx.take(a - 1).map_values(|i: int| maps->0[i])[b]);
                            }
                        }
                        assert(src_maps@.map_values(|s: &[u32]| s@)
                            =~= idx.take(a as int).map_values(|i: int| maps->0[i]));
                    }
                }
                proof {
                    assert(idx.take(a as int) =~= idx);
                    assert(Some(src_maps@.map_values(|s: &[u32]| s@)) == pick_maps(maps, idx));
                }
                merge_postings(term_srcs.as_slice(), Some(src_maps.as_slice()))
            },
            None => merge_postings(term_srcs.as_slice(), None),
        };
        result.push((term.clone(), merged));
        proof {
            assert(result@[ti as int].0@ == all_terms@[ti as int]@);
        }
        ti = ti + 1;
    }
    proof {
        assert forall|t: Seq<char>| (exists|k: int| 0 <= k < result@.len() && (#[trigger] result@[k]).0@ == t)
            <==> has_term(srcs, t) by {
            if has_term(srcs, t) {
                let k = choose|k: int| 0 <= k < all_terms@.len() && (#[trigger] all_terms@[k])@ == t;
                assert(result@[k].0@ == t);
            }
            if exists|k: int| 0 <= k < result@.len() && (#[trigger] result@[k]).0@ == t {
                let k = choose|k: int| 0 <= k < result@.len() && (#[trigger] result@[k]).0@ == t;
                assert(all_terms@[k]@ == t);
                assert(in_terms(all_terms@, t));
            }
        }
    }
    result
}

} // verus!
