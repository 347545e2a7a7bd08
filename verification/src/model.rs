//! The mathematical model shared by every representation of a parsed record.
//!
//! A record is a JSON-like value with exactly four cases: a signed 64-bit
//! number, a byte string, an ordered array, and an ordered, non-deduplicated
//! list of key/value pairs. String content is modelled as its raw bytes; for
//! UTF-8 input, byte-level equality and containment coincide with
//! character-level equality and containment.

use vstd::prelude::*;

verus! {

/// The abstract shape of one parsed record.
pub enum ValModel {
    Number(int),
    Text(Seq<u8>),
    Array(Seq<ValModel>),
    Object(Seq<(ValModel, ValModel)>),
}

/// Does this map key equal the queried key? Only a string key whose content
/// equals `key` matches; a number, array or map key never does.
pub open spec fn key_matches(k: ValModel, key: Seq<u8>) -> bool {
    k matches ValModel::Text(s) && s == key
}

/// The values of every pair of `pairs` whose key is the string `key`,
/// in original order.
pub open spec fn spec_get_all_map(pairs: Seq<(ValModel, ValModel)>, key: Seq<u8>) -> Seq<ValModel>
    decreases pairs.len(),
{
    if pairs.len() == 0 {
        Seq::empty()
    } else {
        let head: Seq<ValModel> = if key_matches(pairs[0].0, key) {
            seq![pairs[0].1]
        } else {
            Seq::empty()
        };
        head + spec_get_all_map(pairs.drop_first(), key)
    }
}

/// Field lookup: on a map, the values of the pairs keyed by `key`; on an
/// array, the concatenation of the lookup applied to every element (arrays
/// are transparent to field lookup); on a number or string, empty.
pub open spec fn spec_get_all(m: ValModel, key: Seq<u8>) -> Seq<ValModel>
    decreases m, 1int,
{
    match m {
        ValModel::Object(pairs) => spec_get_all_map(pairs, key),
        ValModel::Array(elems) => spec_get_all_elems(elems, key),
        _ => Seq::empty(),
    }
}

/// `spec_get_all` applied to every element of `elems`, concatenated in order.
pub open spec fn spec_get_all_elems(elems: Seq<ValModel>, key: Seq<u8>) -> Seq<ValModel>
    decreases elems, 0int,
{
    if elems.len() == 0 {
        Seq::empty()
    } else {
        spec_get_all(elems[0], key) + spec_get_all_elems(elems.drop_first(), key)
    }
}

/// `needle` occurs in `s` as a contiguous run starting at index `i`.
pub open spec fn is_substring_at(s: Seq<u8>, needle: Seq<u8>, i: int) -> bool {
    &&& 0 <= i
    &&& i + needle.len() <= s.len()
    &&& s.subrange(i, i + needle.len() as int) == needle
}

/// `needle` occurs somewhere in `s` as a contiguous run.
pub open spec fn spec_contains_bytes(s: Seq<u8>, needle: Seq<u8>) -> bool {
    exists|i: int| is_substring_at(s, needle, i)
}

/// Substring test: true only for a string value whose content contains
/// `needle`; false for a number, array or map.
pub open spec fn spec_contains(m: ValModel, needle: Seq<u8>) -> bool {
    m matches ValModel::Text(s) && spec_contains_bytes(s, needle)
}

/// The first key of the fixed query path: "subArts".
pub open spec fn key_sub_arts() -> Seq<u8> {
    seq!['s' as u8, 'u' as u8, 'b' as u8, 'A' as u8, 'r' as u8, 't' as u8, 's' as u8]
}

/// The second key of the fixed query path: "subSubArts".
pub open spec fn key_sub_sub_arts() -> Seq<u8> {
    seq![
        's' as u8,
        'u' as u8,
        'b' as u8,
        'S' as u8,
        'u' as u8,
        'b' as u8,
        'A' as u8,
        'r' as u8,
        't' as u8,
        's' as u8,
    ]
}

/// The third key of the fixed query path: "size".
pub open spec fn key_size() -> Seq<u8> {
    seq!['s' as u8, 'i' as u8, 'z' as u8, 'e' as u8]
}

/// The substring the fixed predicate looks for: "snug".
pub open spec fn needle_snug() -> Seq<u8> {
    seq!['s' as u8, 'n' as u8, 'u' as u8, 'g' as u8]
}

/// The fixed predicate: follow the field path "subArts" / "subSubArts" /
/// "size" (flattening through arrays at every step) and succeed iff any
/// value reached is a string containing "snug". An absent field yields an
/// empty level, hence `false`, never an error.
pub open spec fn spec_pred(m: ValModel) -> bool {
    let level1 = spec_get_all(m, key_sub_arts());
    let level2 = spec_get_all_elems(level1, key_sub_sub_arts());
    let level3 = spec_get_all_elems(level2, key_size());
    exists|i: int| 0 <= i < level3.len() && spec_contains(level3[i], needle_snug())
}

/// Law: field lookup on a number or string value yields the empty sequence,
/// for every key.
pub proof fn lemma_get_all_leaf(m: ValModel, key: Seq<u8>)
    requires
        m matches ValModel::Number(_) || m matches ValModel::Text(_),
    ensures
        spec_get_all(m, key) == Seq::<ValModel>::empty(),
{
}

/// Law: element-wise field lookup distributes over concatenation of
/// element sequences.
pub proof fn lemma_get_all_elems_concat(xs: Seq<ValModel>, ys: Seq<ValModel>, key: Seq<u8>)
    ensures
        spec_get_all_elems(xs + ys, key) == spec_get_all_elems(xs, key) + spec_get_all_elems(
            ys,
            key,
        ),
    decreases xs.len(),
{
    if xs.len() == 0 {
        assert(xs + ys =~= ys);
        assert(spec_get_all_elems(xs, key) + spec_get_all_elems(ys, key) =~= spec_get_all_elems(
            ys,
            key,
        ));
    } else {
        lemma_get_all_elems_concat(xs.drop_first(), ys, key);
        assert((xs + ys).drop_first() =~= xs.drop_first() + ys);
        assert((xs + ys)[0] == xs[0]);
        assert(spec_get_all(xs[0], key) + (spec_get_all_elems(xs.drop_first(), key)
            + spec_get_all_elems(ys, key)) =~= (spec_get_all(xs[0], key) + spec_get_all_elems(
            xs.drop_first(),
            key,
        )) + spec_get_all_elems(ys, key));
    }
}

/// The lookup over a single element is the lookup of that element.
pub proof fn lemma_get_all_elems_singleton(x: ValModel, key: Seq<u8>)
    ensures
        spec_get_all_elems(seq![x], key) == spec_get_all(x, key),
{
    assert(seq![x].drop_first() =~= Seq::<ValModel>::empty());
    assert(spec_get_all_elems(Seq::<ValModel>::empty(), key) == Seq::<ValModel>::empty());
    assert(seq![x][0] == x);
    assert(spec_get_all(x, key) + Seq::<ValModel>::empty() =~= spec_get_all(x, key));
}

/// Law: field lookup on an array distributes over its elements: on the
/// two-element array [a, b] it is the lookup on a concatenated with the
/// lookup on b.
pub proof fn lemma_get_all_array_pair(a: ValModel, b: ValModel, key: Seq<u8>)
    ensures
        spec_get_all(ValModel::Array(seq![a, b]), key) == spec_get_all(a, key) + spec_get_all(
            b,
            key,
        ),
{
    assert(seq![a, b] =~= seq![a] + seq![b]);
    lemma_get_all_elems_concat(seq![a], seq![b], key);
    lemma_get_all_elems_singleton(a, key);
    lemma_get_all_elems_singleton(b, key);
}

/// Appending one element to a sequence of values appends that element's
/// lookup to the element-wise lookup.
pub proof fn lemma_get_all_elems_push(s: Seq<ValModel>, x: ValModel, key: Seq<u8>)
    ensures
        spec_get_all_elems(s.push(x), key) == spec_get_all_elems(s, key) + spec_get_all(x, key),
{
    assert(s.push(x) =~= s + seq![x]);
    lemma_get_all_elems_concat(s, seq![x], key);
    lemma_get_all_elems_singleton(x, key);
}

/// Appending one pair to a pair list extends its lookup by the pair's value
/// exactly when the pair's key matches.
pub proof fn lemma_get_all_map_push(
    pairs: Seq<(ValModel, ValModel)>,
    p: (ValModel, ValModel),
    key: Seq<u8>,
)
    ensures
        spec_get_all_map(pairs.push(p), key) == spec_get_all_map(pairs, key) + (
        if key_matches(p.0, key) {
            seq![p.1]
        } else {
            Seq::<ValModel>::empty()
        }),
    decreases pairs.len(),
{
    let tail: Seq<ValModel> = if key_matches(p.0, key) {
        seq![p.1]
    } else {
        Seq::<ValModel>::empty()
    };
    if pairs.len() == 0 {
        assert(pairs.push(p).drop_first() =~= Seq::<(ValModel, ValModel)>::empty());
        assert(spec_get_all_map(Seq::<(ValModel, ValModel)>::empty(), key) == Seq::<
            ValModel,
        >::empty());
        assert(pairs.push(p)[0] == p);
        assert(spec_get_all_map(pairs.push(p), key) =~= tail + Seq::<ValModel>::empty());
        assert(tail + Seq::<ValModel>::empty() =~= Seq::<ValModel>::empty() + tail);
        assert(spec_get_all_map(pairs, key) =~= Seq::<ValModel>::empty());
    } else {
        lemma_get_all_map_push(pairs.drop_first(), p, key);
        assert(pairs.push(p).drop_first() =~= pairs.drop_first().push(p));
        assert(pairs.push(p)[0] == pairs[0]);
        let head: Seq<ValModel> = if key_matches(pairs[0].0, key) {
            seq![pairs[0].1]
        } else {
            Seq::<ValModel>::empty()
        };
        assert(head + (spec_get_all_map(pairs.drop_first(), key) + tail) =~= (head
            + spec_get_all_map(pairs.drop_first(), key)) + tail);
    }
}

} // verus!
