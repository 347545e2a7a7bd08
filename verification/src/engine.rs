//! The scan engine: split the input buffer into newline-delimited records,
//! evaluate the fixed predicate on each under the selected representation,
//! and count the matches.
//!
//! A record that fails to parse is skipped: it contributes nothing to the
//! count and does not stop the scan. The count depends only on the records'
//! contents — not on the representation chosen and not on the order in
//! which records are processed.

use crate::model::spec_pred;
use crate::parse::parse_record;
use crate::parse::spec_parse_record;
use crate::queryable::pred;
use crate::value_intern::cache_extends;
use crate::value_intern::Interner;
use crate::value_intern::ValueIntern;
use crate::value_owned::ValueOwned;
use vstd::prelude::*;
use vstd::slice::slice_index_get;
use vstd::slice::slice_subrange;

verus! {

/// The representation family used for a run.
#[derive(Clone, Copy, Debug)]
pub enum Mode {
    Owned,
    Borrowed,
    Interned,
}

/// The position of the first line feed at or after `i`, or the end.
pub open spec fn spec_find_nl(s: Seq<u8>, i: int) -> int
    decreases s.len() - i,
{
    if !(0 <= i && i < s.len()) {
        s.len() as int
    } else if s[i] == 0x0A {
        i
    } else {
        spec_find_nl(s, i + 1)
    }
}

pub proof fn lemma_find_nl(s: Seq<u8>, i: int)
    requires
        0 <= i <= s.len(),
    ensures
        i <= spec_find_nl(s, i) <= s.len(),
    decreases s.len() - i,
{
    if i < s.len() && s[i] != 0x0A {
        lemma_find_nl(s, i + 1);
    }
}

/// The records of the suffix starting at `i`: the line-feed-separated
/// chunks, in order. The chunk after the last line feed is included even
/// when empty; an empty chunk never parses, so it never affects a count.
pub open spec fn spec_split_from(s: Seq<u8>, i: int) -> Seq<Seq<u8>>
    decreases s.len() - i,
{
    if !(0 <= i <= s.len()) {
        Seq::empty()
    } else {
        let j = spec_find_nl(s, i);
        proof {
            lemma_find_nl(s, i);
        }
        if j < s.len() {
            seq![s.subrange(i, j)] + spec_split_from(s, j + 1)
        } else {
            seq![s.subrange(i, s.len() as int)]
        }
    }
}

/// The newline-delimited records of the whole buffer.
pub open spec fn spec_split_lines(s: Seq<u8>) -> Seq<Seq<u8>> {
    spec_split_from(s, 0)
}

/// Does one record match: it parses, and the fixed predicate holds of its
/// value. A malformed record does not match.
pub open spec fn spec_record_matches(line: Seq<u8>) -> bool {
    match spec_parse_record(line) {
        Some(m) => spec_pred(m),
        None => false,
    }
}

/// How many of the records match.
pub open spec fn spec_count_matches(lines: Seq<Seq<u8>>) -> int
    decreases lines.len(),
{
    if lines.len() == 0 {
        0
    } else {
        (if spec_record_matches(lines[0]) {
            1int
        } else {
            0int
        }) + spec_count_matches(lines.drop_first())
    }
}

/// Appending one record adds its own contribution to the count.
pub proof fn lemma_count_push(lines: Seq<Seq<u8>>, x: Seq<u8>)
    ensures
        spec_count_matches(lines.push(x)) == spec_count_matches(lines) + (
        if spec_record_matches(x) {
            1int
        } else {
            0int
        }),
    decreases lines.len(),
{
    if lines.len() == 0 {
        assert(lines.push(x).drop_first() =~= Seq::<Seq<u8>>::empty());
        assert(lines.push(x)[0] == x);
        assert(spec_count_matches(Seq::<Seq<u8>>::empty()) == 0);
    } else {
        lemma_count_push(lines.drop_first(), x);
        assert(lines.push(x).drop_first() =~= lines.drop_first().push(x));
        assert(lines.push(x)[0] == lines[0]);
    }
}

/// Removing one record takes away exactly its own contribution.
pub proof fn lemma_count_remove(lines: Seq<Seq<u8>>, j: int)
    requires
        0 <= j < lines.len(),
    ensures
        spec_count_matches(lines) == spec_count_matches(lines.remove(j)) + (
        if spec_record_matches(lines[j]) {
            1int
        } else {
            0int
        }),
    decreases j,
{
    if j == 0 {
        assert(lines.remove(0) =~= lines.drop_first());
    } else {
        lemma_count_remove(lines.drop_first(), j - 1);
        assert(lines.remove(j).drop_first() =~= lines.drop_first().remove(j - 1));
        assert(lines.remove(j)[0] == lines[0]);
        assert(lines.drop_first()[j - 1] == lines[j]);
    }
}

/// Law: representation choice cannot change what matches. The fixed
/// predicate depends only on a record's abstract value, so owned, borrowed
/// and interned trees carrying the same value agree on it; with the
/// contracts of `record_matches_owned`, `record_matches_borrowed` and
/// `record_matches_interned` — each returns `spec_record_matches` of its
/// input — the three representations produce identical match counts on any
/// record set.
pub proof fn lemma_representations_agree(
    vo: crate::value_owned::ValueOwned,
    vb: crate::value_borrow::ValueBorrow,
    vi: ValueIntern,
    src: Seq<u8>,
)
    requires
        vo.interp() == vb.interp(src),
        vi.interp() == vb.interp(src),
    ensures
        spec_pred(vo.interp()) == spec_pred(vb.interp(src)),
        spec_pred(vi.interp()) == spec_pred(vb.interp(src)),
{
}

/// Law: a malformed record — one the grammar rejects, such as a record
/// holding a boolean token at the top level — is skipped: dropping it from
/// the record set leaves the count of the surrounding records unchanged.
pub proof fn lemma_malformed_record_is_inert(lines: Seq<Seq<u8>>, j: int)
    requires
        0 <= j < lines.len(),
        spec_parse_record(lines[j]) is None,
    ensures
        spec_count_matches(lines) == spec_count_matches(lines.remove(j)),
{
    lemma_count_remove(lines, j);
}

/// Law: the match count does not depend on the order of the records. Two
/// record sequences holding the same records — the same multiset — have the
/// same count.
pub proof fn lemma_count_permutation(l1: Seq<Seq<u8>>, l2: Seq<Seq<u8>>)
    requires
        l1.to_multiset() == l2.to_multiset(),
    ensures
        spec_count_matches(l1) == spec_count_matches(l2),
    decreases l1.len(),
{
    l1.to_multiset_ensures();
    l2.to_multiset_ensures();
    if l1.len() == 0 {
        assert(l2.to_multiset().len() == 0);
        assert(l2.len() == 0);
    } else {
        let x = l1[0];
        assert(l1.contains(x));
        assert(l1.to_multiset().count(x) > 0);
        assert(l2.to_multiset().count(x) > 0);
        assert(l2.contains(x));
        let j = choose|j: int| 0 <= j < l2.len() && l2[j] == x;
        assert(l1.remove(0).to_multiset() =~= l1.to_multiset().remove(x));
        assert(l2.remove(j).to_multiset() =~= l2.to_multiset().remove(l2[j]));
        lemma_count_permutation(l1.remove(0), l2.remove(j));
        lemma_count_remove(l1, 0);
        lemma_count_remove(l2, j);
    }
}

/// Split the buffer into its newline-delimited records, each as a byte
/// range of the buffer: the chunks between line feeds, in order.
pub fn split_lines(s: &[u8]) -> (r: Vec<(usize, usize)>)
    ensures
        r@.len() == spec_split_lines(s@).len(),
        forall|k: int|
            0 <= k < r@.len() ==> ((#[trigger] r@[k]).0 <= r@[k].1 <= s@.len() && s@.subrange(
                r@[k].0 as int,
                r@[k].1 as int,
            ) == spec_split_lines(s@)[k]),
{
    split_from(s, 0)
}

/// The ranges of the records of the suffix starting at `i`.
fn split_from(s: &[u8], i: usize) -> (r: Vec<(usize, usize)>)
    requires
        i <= s@.len(),
    ensures
        r@.len() == spec_split_from(s@, i as int).len(),
        forall|k: int|
            0 <= k < r@.len() ==> ((#[trigger] r@[k]).0 <= r@[k].1 <= s@.len() && s@.subrange(
                r@[k].0 as int,
                r@[k].1 as int,
            ) == spec_split_from(s@, i as int)[k]),
    decreases s@.len() - i,
{
    let j = find_nl(s, i);
    if j < s.len() {
        let rest = split_from(s, j + 1);
        let ghost rest0 = rest@;
        let mut r = rest;
        r.insert(0, (i, j));
        proof {
            assert(r@ =~= seq![(i, j)] + rest0);
            assert(r@[0] == (i, j));
            assert(forall|k: int| 0 < k < r@.len() ==> r@[k] == rest0[k - 1]);
            assert(spec_split_from(s@, i as int) == seq![s@.subrange(i as int, j as int)]
                + spec_split_from(s@, j + 1));
        }
        r
    } else {
        let mut r: Vec<(usize, usize)> = Vec::new();
        r.push((i, s.len()));
        proof {
            assert(r@[0] == (i, s.len() as usize));
        }
        r
    }
}

/// The position of the first line feed at or after `i`, or the end.
fn find_nl(s: &[u8], i: usize) -> (r: usize)
    requires
        i <= s@.len(),
    ensures
        r as int == spec_find_nl(s@, i as int),
        i <= r <= s@.len(),
    decreases s@.len() - i,
{
    if i < s.len() {
        let b: u8 = *slice_index_get(s, i);
        if b != 0x0A {
            return find_nl(s, i + 1);
        }
        return i;
    }
    i
}

/// One record under the borrowed representation: parse, then evaluate the
/// fixed predicate against the record's own bytes.
pub fn record_matches_borrowed(line: &[u8]) -> (r: bool)
    ensures
        r == spec_record_matches(line@),
{
    match parse_record(line) {
        Some(v) => pred(&v, line),
        None => false,
    }
}

/// One record under the owned representation: parse, copy into an owned
/// tree, then evaluate the fixed predicate.
pub fn record_matches_owned(line: &[u8]) -> (r: bool)
    ensures
        r == spec_record_matches(line@),
{
    match parse_record(line) {
        Some(v) => {
            let o = ValueOwned::from_borrow(&v, line);
            pred(&o, line)
        },
        None => false,
    }
}

/// One record under the interned representation: parse, intern its strings
/// into the worker's cache, then evaluate the fixed predicate. The cache
/// only grows, its invariant is preserved, and the result does not depend
/// on what the cache already holds.
pub fn record_matches_interned(line: &[u8], cache: &mut Interner) -> (r: bool)
    requires
        old(cache).inv(),
    ensures
        final(cache).inv(),
        cache_extends(*old(cache), *final(cache)),
        r == spec_record_matches(line@),
{
    match parse_record(line) {
        Some(v) => {
            let t = ValueIntern::from_borrow(&v, line, cache);
            pred(&t, line)
        },
        None => false,
    }
}

/// Scan the whole buffer: split it into records and count the ones that
/// match. The ensures does not mention `mode`: the three representations
/// produce the same count on every input.
pub fn count_matches(bytes: &[u8], mode: Mode) -> (n: usize)
    ensures
        n as int == spec_count_matches(spec_split_lines(bytes@)),
{
    let ghost lines = spec_split_lines(bytes@);
    let ranges = split_lines(bytes);
    let mut cache = Interner::new();
    let mut n: usize = 0;
    let mut i: usize = 0;
    proof {
        assert(lines.subrange(0, 0) =~= Seq::<Seq<u8>>::empty());
    }
    while i < ranges.len()
        invariant
            lines == spec_split_lines(bytes@),
            ranges@.len() == lines.len(),
            forall|k: int|
                0 <= k < ranges@.len() ==> ((#[trigger] ranges@[k]).0 <= ranges@[k].1 <= bytes@.len()
                    && bytes@.subrange(ranges@[k].0 as int, ranges@[k].1 as int) == lines[k]),
            i <= ranges@.len(),
            n <= i,
            cache.inv(),
            n as int == spec_count_matches(lines.subrange(0, i as int)),
        decreases ranges@.len() - i,
    {
        let pr: (usize, usize) = *slice_index_get(ranges.as_slice(), i);
        let line = slice_subrange(bytes, pr.0, pr.1);
        let m: bool = match mode {
            Mode::Owned => record_matches_owned(line),
            Mode::Borrowed => record_matches_borrowed(line),
            Mode::Interned => record_matches_interned(line, &mut cache),
        };
        proof {
            lemma_count_push(lines.subrange(0, i as int), lines[i as int]);
            assert(lines.subrange(0, i + 1) =~= lines.subrange(0, i as int).push(lines[i as int]));
        }
        if m {
            n += 1;
        }
        i += 1;
    }
    proof {
        assert(lines.subrange(0, lines.len() as int) =~= lines);
    }
    n
}

} // verus!
