use vstd::prelude::*;
use vstd::string::StringSliceAdditionalSpecFns;
use crate::bytes::{push_u32, u32_le_bytes, u32_at, read_u32, lemma_u32_at_window};
use crate::lex::{lex_lt, LexOrder, compare_bytes, lemma_lex_irreflexive, lemma_lex_transitive};
use crate::segment::format::{TpDictEntry, TP_DICT_ENTRY_SIZE, words_le_bytes, lemma_words_push, parse_dict_entry};
use crate::segment::reader::read_dict_entry;

verus! {

/// Bytes of one entry of the string pool: `[length:u32][text][dict_entry_offset:u32]`.
pub open spec fn string_entry_bytes(term: Seq<u8>, i: nat) -> Seq<u8> {
    u32_le_bytes(term.len() as u32) + term + u32_le_bytes((i * TP_DICT_ENTRY_SIZE) as u32)
}

/// Offset, within the string pool, of the entry of term `i`.
pub open spec fn string_offset(terms: Seq<Seq<u8>>, i: nat) -> nat
    decreases i,
{
    if i == 0 {
        0
    } else {
        string_offset(terms, (i - 1) as nat) + 8 + terms[i - 1].len()
    }
}

/// The string pool of the first `k` terms.
pub open spec fn strings_section(terms: Seq<Seq<u8>>, k: nat) -> Seq<u8>
    decreases k,
{
    if k == 0 {
        Seq::empty()
    } else {
        strings_section(terms, (k - 1) as nat) + string_entry_bytes(terms[k - 1], (k - 1) as nat)
    }
}

/// The dictionary header of `terms`: the term count, then each term's offset in the
/// string pool.
pub open spec fn dictionary_section(terms: Seq<Seq<u8>>) -> Seq<u8> {
    u32_le_bytes(terms.len() as u32)
        + words_le_bytes(Seq::new(terms.len(), |i: int| string_offset(terms, i as nat) as u32))
}

/// The bytes of each term.
pub open spec fn term_bytes(terms: Seq<&str>) -> Seq<Seq<u8>> {
    terms.map_values(|t: &str| t.spec_bytes())
}

pub proof fn lemma_strings_section_len(terms: Seq<Seq<u8>>, k: nat)
    ensures
        strings_section(terms, k).len() == string_offset(terms, k),
    decreases k,
{
    if k > 0 {
        lemma_strings_section_len(terms, (k - 1) as nat);
    }
}

/// Encode a sorted list of terms into dictionary format.
///
/// Returns (dictionary_bytes, strings_bytes, entries_bytes):
/// - dictionary_bytes: num_terms (u32) + string_offsets (u32[])
/// - strings_bytes: length-prefixed strings with dict entry offsets
/// - entries_bytes: placeholder TpDictEntry[] (filled later by caller)
pub fn encode_dictionary(terms: &[&str]) -> (r: (Vec<u8>, Vec<u8>, Vec<u8>))
    requires
        terms@.len() * TP_DICT_ENTRY_SIZE <= usize::MAX,
    ensures
        r.0@ == dictionary_section(term_bytes(terms@)),
        r.1@ == strings_section(term_bytes(terms@), terms@.len()),
        r.2@ == Seq::new(terms@.len() * TP_DICT_ENTRY_SIZE as nat, |i: int| 0u8),
{
    let ghost tb = term_bytes(terms@);
    let num_terms = terms.len() as u32;
    let mut strings_bytes: Vec<u8> = Vec::new();
    let mut string_offsets: Vec<u32> = Vec::with_capacity(terms.len());
    let entries_size = terms.len() * TP_DICT_ENTRY_SIZE;
    let mut i: usize = 0;
    while i < terms.len()
        invariant
            tb == term_bytes(terms@),
            terms@.len() * TP_DICT_ENTRY_SIZE <= usize::MAX,
            i <= terms@.len(),
            strings_bytes@ == strings_section(tb, i as nat),
            string_offsets@ == Seq::new(i as nat, |j: int| string_offset(tb, j as nat) as u32),
        decreases terms@.len() - i,
    {
        proof {
            lemma_strings_section_len(tb, i as nat);
        }
        string_offsets.push(strings_bytes.len() as u32);
        let term = terms[i];
        let len = term.len() as u32;
        push_u32(&mut strings_bytes, len);
        let bytes = term.as_bytes();
        let mut k: usize = 0;
        let ghost before = strings_bytes@;
        while k < bytes.len()
            invariant
                k <= bytes@.len(),
                strings_bytes@ == before + bytes@.take(k as int),
            decreases bytes@.len() - k,
        {
            strings_bytes.push(bytes[k]);
            k = k + 1;
            proof {
                assert(strings_bytes@ =~= before + bytes@.take(k as int));
            }
        }
        let entry_offset = (i * TP_DICT_ENTRY_SIZE) as u32;
        push_u32(&mut strings_bytes, entry_offset);
        proof {
            assert(bytes@.take(k as int) =~= bytes@);
            assert(tb[i as int] == bytes@);
            assert(strings_bytes@ =~= strings_section(tb, (i + 1) as nat));
        }
        i = i + 1;
        proof {
            assert(string_offsets@ =~= Seq::new(i as nat, |j: int| string_offset(tb, j as nat) as u32));
        }
    }
    let mut dict_bytes: Vec<u8> = Vec::with_capacity(4 + terms.len() * 4);
    push_u32(&mut dict_bytes, num_terms);
    let ghost offs = string_offsets@;
    let mut j: usize = 0;
    while j < string_offsets.len()
        invariant
            offs == string_offsets@,
            j <= offs.len(),
            dict_bytes@ == u32_le_bytes(num_terms) + words_le_bytes(offs.take(j as int)),
        decreases offs.len() - j,
    {
        push_u32(&mut dict_bytes, string_offsets[j]);
        proof {
            assert(offs.take(j + 1) =~= offs.take(j as int).push(offs[j as int]));
            lemma_words_push(offs.take(j as int), offs[j as int]);
            assert(dict_bytes@ =~= u32_le_bytes(num_terms) + words_le_bytes(offs.take(j + 1)));
        }
        j = j + 1;
    }
    let mut entries_bytes: Vec<u8> = Vec::new();
    let mut e: usize = 0;
    while e < entries_size
        invariant
            e <= entries_size,
            entries_bytes@ == Seq::new(e as nat, |i: int| 0u8),
        decreases entries_size - e,
    {
        entries_bytes.push(0);
        e = e + 1;
        proof {
            assert(entries_bytes@ =~= Seq::new(e as nat, |i: int| 0u8));
        }
    }
    proof {
        assert(offs.take(j as int) =~= offs);
        assert(tb.len() == terms@.len());
    }
    (dict_bytes, strings_bytes, entries_bytes)
}

/// Number of terms of the dictionary at `d`.
pub open spec fn dict_count(data: Seq<u8>, d: int) -> int {
    u32_at(data, d) as int
}

/// Position in `data` of the string entry of term `i`: the strings section starts at `s`,
/// and the dictionary at `d` gives each term's offset within it.
pub open spec fn dict_string_pos(data: Seq<u8>, d: int, s: int, i: int) -> int {
    s + u32_at(data, d + 4 + 4 * i)
}

/// Length of the text of term `i`.
pub open spec fn dict_key_len(data: Seq<u8>, d: int, s: int, i: int) -> int {
    u32_at(data, dict_string_pos(data, d, s, i)) as int
}

/// The text of term `i`.
pub open spec fn dict_key(data: Seq<u8>, d: int, s: int, i: int) -> Seq<u8> {
    let p = dict_string_pos(data, d, s, i);
    data.subrange(p + 4, p + 4 + dict_key_len(data, d, s, i))
}

/// Position of the dict entry of term `i`: the entries section starts at `e`, and the
/// string entry gives the offset within it.
pub open spec fn dict_entry_pos(data: Seq<u8>, d: int, s: int, e: int, i: int) -> int {
    e + u32_at(data, dict_string_pos(data, d, s, i) + 4 + dict_key_len(data, d, s, i))
}

/// The offset, the length, the text and the entry offset of term `i` lie inside `data`.
pub open spec fn dict_term_readable(data: Seq<u8>, d: int, s: int, i: int) -> bool {
    let p = dict_string_pos(data, d, s, i);
    &&& d + 4 + 4 * i + 4 <= data.len()
    &&& p + 4 <= data.len()
    &&& p + 4 + dict_key_len(data, d, s, i) + 4 <= data.len()
}

/// A dictionary at `d` whose strings start at `s` can be read whole: its count and all
/// its terms lie inside `data`.
pub open spec fn dict_readable(data: Seq<u8>, d: int, s: int) -> bool {
    &&& 0 <= d
    &&& 0 <= s
    &&& d + 4 <= data.len()
    &&& forall|i: int| 0 <= i < dict_count(data, d) ==> #[trigger] dict_term_readable(data, d, s, i)
}

/// The terms of the dictionary ascend strictly in byte order.
pub open spec fn dict_sorted(data: Seq<u8>, d: int, s: int) -> bool {
    forall|i: int, j: int| 0 <= i < j < dict_count(data, d)
        ==> lex_lt(#[trigger] dict_key(data, d, s, i), #[trigger] dict_key(data, d, s, j))
}

/// A readable dictionary whose terms ascend strictly.
pub open spec fn dict_well_formed(data: Seq<u8>, d: int, s: int) -> bool {
    dict_readable(data, d, s) && dict_sorted(data, d, s)
}

/// Look up a term in the dictionary using binary search.
///
/// `data` contains the full segment data starting from the segment header.
/// `dict_offset` is the offset to the dictionary section.
/// `strings_offset` is the offset to the strings section.
/// `entries_offset` is the offset to the dict entries section.
///
/// Returns the dict entry of the term if the dictionary holds it and the entry lies
/// inside `data`, None otherwise (also when the dictionary's count, or a slot that the
/// search reads, runs past `data`).
pub fn lookup_term(
    data: &[u8],
    dict_offset: u32,
    strings_offset: u32,
    entries_offset: u32,
    term: &str,
) -> (r: Option<TpDictEntry>)
    ensures
        match r {
            Some(e) => exists|i: int| 0 <= i < dict_count(data@, dict_offset as int)
                && #[trigger] dict_key(data@, dict_offset as int, strings_offset as int, i) == term.spec_bytes()
                && dict_entry_pos(data@, dict_offset as int, strings_offset as int, entries_offset as int, i)
                    + TP_DICT_ENTRY_SIZE <= data@.len()
                && e == parse_dict_entry(data@,
                    dict_entry_pos(data@, dict_offset as int, strings_offset as int, entries_offset as int, i)),
            None => dict_offset + 4 > data@.len()
                || (dict_well_formed(data@, dict_offset as int, strings_offset as int)
                    ==> forall|i: int| 0 <= i < dict_count(data@, dict_offset as int)
                    && #[trigger] dict_key(data@, dict_offset as int, strings_offset as int, i) == term.spec_bytes()
                    ==> dict_entry_pos(data@, dict_offset as int, strings_offset as int, entries_offset as int, i)
                        + TP_DICT_ENTRY_SIZE > data@.len()),
        },
{
    let ghost dd = dict_offset as int;
    let ghost ss = strings_offset as int;
    let ghost ee = entries_offset as int;
    let key = term.as_bytes();
    let ghost want = term.spec_bytes();
    let dict_off = dict_offset as usize;
    if dict_off > data.len() || data.len() - dict_off < 4 {
        return None;
    }
    let num_terms = read_u32(data, dict_off);
    if num_terms == 0 {
        return None;
    }
    proof {
        lemma_lex_irreflexive(want);
    }
    let len64 = data.len() as u64;
    proof {
        assert(data@.len() == data.len());
    }
    let offsets_start: u64 = dict_off as u64 + 4;
    let mut lo: u64 = 0;
    let mut hi: u64 = num_terms as u64 - 1;
    while lo <= hi
        invariant
            key@ == want,
            want == term.spec_bytes(),
            dd == dict_offset as int,
            ss == strings_offset as int,
            ee == entries_offset as int,
            len64 == data@.len(),
            data@.len() <= usize::MAX,
            offsets_start == dd + 4,
            0 <= dd,
            dd + 4 <= data@.len(),
            num_terms == dict_count(data@, dd),
            hi < num_terms,
            lo <= hi + 1,
            !lex_lt(want, want),
            dict_well_formed(data@, dd, ss) ==> forall|i: int| 0 <= i < lo ==> lex_lt(#[trigger] dict_key(data@, dd, ss, i), want),
            dict_well_formed(data@, dd, ss) ==> forall|i: int| hi < i < num_terms ==> lex_lt(want, #[trigger] dict_key(data@, dd, ss, i)),
        decreases hi + 1 - lo,
    {
        let mid = lo + (hi - lo) / 2;
        if offsets_start + mid * 4 + 4 > len64 {
            proof {
                assert(!dict_term_readable(data@, dd, ss, mid as int));
            }
            return None;
        }
        let off_pos = (offsets_start + mid * 4) as usize;
        let str_rel_off = read_u32(data, off_pos);
        proof {
            assert(off_pos == dd + 4 + 4 * mid);
            assert(strings_offset + str_rel_off == dict_string_pos(data@, dd, ss, mid as int));
        }
        let str_pos64: u64 = strings_offset as u64 + str_rel_off as u64;
        if str_pos64 + 4 > len64 {
            proof {
                assert(!dict_term_readable(data@, dd, ss, mid as int));
            }
            return None;
        }
        let str_pos = str_pos64 as usize;
        let str_len = read_u32(data, str_pos);
        proof {
            assert(str_len == dict_key_len(data@, dd, ss, mid as int));
        }
        if str_pos64 + 4 + str_len as u64 > len64 {
            proof {
                assert(!dict_term_readable(data@, dd, ss, mid as int));
            }
            return None;
        }
        let key_end = str_pos + 4 + str_len as usize;
        let str_data = vstd::slice::slice_subrange(data, str_pos + 4, key_end);
        proof {
            assert(str_data@ == dict_key(data@, dd, ss, mid as int));
        }
        let c = compare_bytes(str_data, key);
        match c {
            LexOrder::Equal => {
                if key_end as u64 + 4 > len64 {
                    proof {
                        assert(!dict_term_readable(data@, dd, ss, mid as int));
                    }
                    return None;
                }
                let entry_rel_off = read_u32(data, key_end);
                let entry_pos: u64 = entries_offset as u64 + entry_rel_off as u64;
                proof {
                    assert(entry_pos == dict_entry_pos(data@, dd, ss, ee, mid as int));
                    assert forall|i: int| dict_well_formed(data@, dd, ss) && 0 <= i < dict_count(data@, dd)
                        && #[trigger] dict_key(data@, dd, ss, i) == want implies i == mid by {
                        if i < mid {
                            assert(lex_lt(dict_key(data@, dd, ss, i), dict_key(data@, dd, ss, mid as int)));
                        } else if i > mid {
                            assert(lex_lt(dict_key(data@, dd, ss, mid as int), dict_key(data@, dd, ss, i)));
                        }
                    }
                }
                proof {
                    assert(dict_key(data@, dd, ss, mid as int) == want);
                }
                if entry_pos + 12 > len64 {
                    return None;
                }
                let r = read_dict_entry(data, entry_pos as usize);
                proof {
                    assert(r == Some(parse_dict_entry(data@, dict_entry_pos(data@, dd, ss, ee, mid as int))));
                }
                return r;
            },
            LexOrder::Less => {
                proof {
                    assert forall|i: int| dict_well_formed(data@, dd, ss) && 0 <= i < mid + 1 implies lex_lt(#[trigger] dict_key(data@, dd, ss, i), want) by {
                        if lo <= i < mid {
                            lemma_lex_transitive(dict_key(data@, dd, ss, i), dict_key(data@, dd, ss, mid as int), want);
                        }
                    }
                }
                lo = mid + 1;
            },
            LexOrder::Greater => {
                proof {
                    assert forall|i: int| dict_well_formed(data@, dd, ss) && mid - 1 < i < num_terms implies lex_lt(want, #[trigger] dict_key(data@, dd, ss, i)) by {
                        if mid < i <= hi {
                            lemma_lex_transitive(want, dict_key(data@, dd, ss, mid as int), dict_key(data@, dd, ss, i));
                        }
                    }
                }
                if mid == 0 {
                    return None;
                }
                hi = mid - 1;
            },
        }
    }
    None
}

pub proof fn lemma_string_offset_monotonic(terms: Seq<Seq<u8>>, k: nat, n: nat)
    requires
        k <= n,
    ensures
        string_offset(terms, k) <= string_offset(terms, n),
    decreases n,
{
    if k < n {
        lemma_string_offset_monotonic(terms, k, (n - 1) as nat);
    }
}

/// The string pool of `n` terms begins with the string pool of its first `k`.
proof fn lemma_strings_section_prefix(terms: Seq<Seq<u8>>, k: nat, n: nat)
    requires
        k <= n,
    ensures
        strings_section(terms, n).len() >= string_offset(terms, k),
        strings_section(terms, n).take(string_offset(terms, k) as int) == strings_section(terms, k),
    decreases n,
{
    lemma_strings_section_len(terms, n);
    lemma_strings_section_len(terms, k);
    lemma_string_offset_monotonic(terms, k, n);
    if k < n {
        lemma_strings_section_prefix(terms, k, (n - 1) as nat);
        lemma_strings_section_len(terms, (n - 1) as nat);
        let prev = strings_section(terms, (n - 1) as nat);
        assert(strings_section(terms, n).take(string_offset(terms, k) as int)
            =~= prev.take(string_offset(terms, k) as int));
    } else {
        assert(strings_section(terms, n).take(string_offset(terms, k) as int) =~= strings_section(terms, n));
    }
}

/// Term `i`'s entry stands at its offset in the string pool.
proof fn lemma_strings_section_entry(terms: Seq<Seq<u8>>, i: nat, n: nat)
    requires
        i < n,
    ensures
        string_offset(terms, i + 1) <= strings_section(terms, n).len(),
        strings_section(terms, n).subrange(string_offset(terms, i) as int, string_offset(terms, i + 1) as int)
            == string_entry_bytes(terms[i as int], i),
{
    lemma_strings_section_prefix(terms, i + 1, n);
    lemma_strings_section_len(terms, i);
    let whole = strings_section(terms, n);
    let upto = strings_section(terms, i + 1);
    assert(upto == strings_section(terms, i) + string_entry_bytes(terms[i as int], i));
    assert(whole.subrange(string_offset(terms, i) as int, string_offset(terms, i + 1) as int)
        =~= upto.subrange(string_offset(terms, i) as int, upto.len() as int));
    assert(upto.subrange(string_offset(terms, i) as int, upto.len() as int)
        =~= string_entry_bytes(terms[i as int], i));
}

/// The offset word of term `i` in the dictionary header.
proof fn lemma_dictionary_offset(terms: Seq<Seq<u8>>, data: Seq<u8>, d: int, i: int)
    requires
        0 <= d,
        0 <= i < terms.len(),
        d + dictionary_section(terms).len() <= data.len(),
        data.subrange(d, d + dictionary_section(terms).len()) == dictionary_section(terms),
    ensures
        d + 4 + 4 * i + 4 <= data.len(),
        u32_at(data, d + 4 + 4 * i) == string_offset(terms, i as nat) as u32,
{
    let n = terms.len();
    let offs = Seq::new(n, |j: int| string_offset(terms, j as nat) as u32);
    let ds = dictionary_section(terms);
    let wb = u32_le_bytes(offs[i]);
    let a = d + 4 + 4 * i;
    assert(ds.len() == 4 + 4 * n);
    assert forall|k: int| 0 <= k < 4 implies #[trigger] data.subrange(a, a + 4)[k] == wb[k] by {
        assert(data.subrange(a, a + 4)[k] == data[a + k]);
        assert(data[a + k] == data.subrange(d, d + ds.len())[4 + 4 * i + k]);
        assert(data[a + k] == ds[4 + 4 * i + k]);
        assert(words_le_bytes(offs)[4 * i + k] == wb[k]) by {
            assert((4 * i + k) / 4 == i);
            assert((4 * i + k) % 4 == k);
        }
    }
    assert(data.subrange(a, a + 4) =~= wb);
    lemma_u32_at_window(data, a, offs[i]);
}

/// Term `i` of an encoded dictionary: its text, its entry offset, and that it can be read.
proof fn lemma_encoded_dictionary_term(terms: Seq<Seq<u8>>, data: Seq<u8>, d: int, s: int, e: int, i: int)
    requires
        0 <= d,
        0 <= s,
        0 <= i < terms.len(),
        terms.len() * TP_DICT_ENTRY_SIZE <= u32::MAX,
        string_offset(terms, terms.len()) <= u32::MAX,
        d + dictionary_section(terms).len() <= data.len(),
        data.subrange(d, d + dictionary_section(terms).len()) == dictionary_section(terms),
        s + string_offset(terms, terms.len()) <= data.len(),
        data.subrange(s, s + string_offset(terms, terms.len())) == strings_section(terms, terms.len()),
    ensures
        dict_term_readable(data, d, s, i),
        dict_key(data, d, s, i) == terms[i],
        dict_entry_pos(data, d, s, e, i) == e + i * TP_DICT_ENTRY_SIZE,
{
    let n = terms.len();
    lemma_strings_section_len(terms, n);
    lemma_dictionary_offset(terms, data, d, i);
    lemma_string_offset_monotonic(terms, i as nat, n);
    lemma_string_offset_monotonic(terms, (i + 1) as nat, n);
    let o = string_offset(terms, i as nat) as int;
    let o2 = string_offset(terms, (i + 1) as nat) as int;
    assert(dict_string_pos(data, d, s, i) == s + o);
    lemma_strings_section_entry(terms, i as nat, n);
    let pool = strings_section(terms, n);
    let ent = string_entry_bytes(terms[i], i as nat);
    assert(data.subrange(s + o, s + o2) =~= pool.subrange(o, o2));
    let len = terms[i].len() as int;
    assert(ent.len() == 8 + len);
    assert(data.subrange(s + o, s + o + 4) =~= u32_le_bytes(len as u32)) by {
        assert(data.subrange(s + o, s + o + 4) =~= ent.subrange(0, 4));
    }
    lemma_u32_at_window(data, s + o, len as u32);
    assert(dict_key_len(data, d, s, i) == len);
    assert(dict_key(data, d, s, i) =~= terms[i]) by {
        assert(dict_key(data, d, s, i) =~= ent.subrange(4, 4 + len));
    }
    assert(data.subrange(s + o + 4 + len, s + o + 8 + len) =~= u32_le_bytes((i * TP_DICT_ENTRY_SIZE) as u32)) by {
        assert(data.subrange(s + o + 4 + len, s + o + 8 + len) =~= ent.subrange(4 + len, 8 + len));
    }
    lemma_u32_at_window(data, s + o + 4 + len, (i * TP_DICT_ENTRY_SIZE) as u32);
}

/// The dictionary that `encode_dictionary` writes reads back: placed in `data` with its
/// header at `d` and its string pool at `s`, it is well formed when the terms ascend
/// strictly, it counts the terms, term `i` has the text of the `i`-th term, and its dict
/// entry is the `i`-th of the entries section at `e`. So `lookup_term` finds each term,
/// and finds nothing else.
pub proof fn lemma_encoded_dictionary(terms: Seq<Seq<u8>>, data: Seq<u8>, d: int, s: int, e: int)
    requires
        0 <= d,
        0 <= s,
        terms.len() * TP_DICT_ENTRY_SIZE <= u32::MAX,
        string_offset(terms, terms.len()) <= u32::MAX,
        d + dictionary_section(terms).len() <= data.len(),
        data.subrange(d, d + dictionary_section(terms).len()) == dictionary_section(terms),
        s + string_offset(terms, terms.len()) <= data.len(),
        data.subrange(s, s + string_offset(terms, terms.len())) == strings_section(terms, terms.len()),
        forall|i: int, j: int| 0 <= i < j < terms.len() ==> lex_lt(terms[i], terms[j]),
    ensures
        dict_well_formed(data, d, s),
        dict_count(data, d) == terms.len(),
        forall|i: int| 0 <= i < terms.len() ==> #[trigger] dict_key(data, d, s, i) == terms[i]
            && dict_entry_pos(data, d, s, e, i) == e + i * TP_DICT_ENTRY_SIZE,
{
    let n = terms.len();
    let ds = dictionary_section(terms);
    assert(data.subrange(d, d + 4) =~= u32_le_bytes(n as u32)) by {
        assert(data.subrange(d, d + 4) =~= ds.subrange(0, 4));
    }
    lemma_u32_at_window(data, d, n as u32);
    assert forall|i: int| 0 <= i < n implies #[trigger] dict_key(data, d, s, i) == terms[i]
        && dict_entry_pos(data, d, s, e, i) == e + i * TP_DICT_ENTRY_SIZE
        && dict_term_readable(data, d, s, i) by {
        lemma_encoded_dictionary_term(terms, data, d, s, e, i);
    }
    assert forall|i: int| 0 <= i < dict_count(data, d) implies #[trigger] dict_term_readable(data, d, s, i) by {
        lemma_encoded_dictionary_term(terms, data, d, s, e, i);
    }
}

} // verus!
