//! The uniform query capability shared by every value representation, and
//! the fixed predicate expressed purely in terms of it.

use crate::model::is_substring_at;
use crate::model::key_matches;
use crate::model::key_size;
use crate::model::key_sub_arts;
use crate::model::key_sub_sub_arts;
use crate::model::lemma_get_all_elems_push;
use crate::model::lemma_get_all_elems_singleton;
use crate::model::needle_snug;
use crate::model::spec_contains;
use crate::model::spec_contains_bytes;
use crate::model::spec_get_all;
use crate::model::spec_get_all_elems;
use crate::model::spec_pred;
use crate::model::ValModel;
use vstd::prelude::*;
use vstd::slice::slice_index_get;
use vstd::slice::slice_subrange;

verus! {

/// Content-wise equality of two byte slices.
pub fn bytes_eq(a: &[u8], b: &[u8]) -> (r: bool)
    ensures
        r == (a@ == b@),
{
    if a.len() != b.len() {
        return false;
    }
    let mut i: usize = 0;
    while i < a.len()
        invariant
            i <= a@.len(),
            a@.len() == b@.len(),
            forall|j: int| 0 <= j < i ==> a@[j] == b@[j],
        decreases a@.len() - i,
    {
        if *slice_index_get(a, i) != *slice_index_get(b, i) {
            return false;
        }
        i += 1;
    }
    assert(a@ =~= b@);
    true
}

/// True iff `needle` occurs in `s` as a contiguous run of bytes.
pub fn contains_bytes(s: &[u8], needle: &[u8]) -> (r: bool)
    ensures
        r == spec_contains_bytes(s@, needle@),
{
    let n = needle.len();
    if n == 0 {
        assert(s@.subrange(0, 0) =~= needle@);
        assert(is_substring_at(s@, needle@, 0));
        return true;
    }
    if n > s.len() {
        assert(forall|j: int| !is_substring_at(s@, needle@, j));
        return false;
    }
    let mut i: usize = 0;
    while i <= s.len() - n
        invariant
            n == needle@.len(),
            1 <= n <= s@.len(),
            i <= s@.len() - n + 1,
            forall|j: int| 0 <= j < i ==> !is_substring_at(s@, needle@, j),
        decreases s@.len() - n - i + 1,
    {
        let sub = slice_subrange(s, i, i + n);
        if bytes_eq(sub, needle) {
            assert(is_substring_at(s@, needle@, i as int));
            return true;
        }
        assert(!is_substring_at(s@, needle@, i as int));
        i += 1;
    }
    assert(forall|j: int| is_substring_at(s@, needle@, j) ==> 0 <= j < i as int);
    false
}

/// The uniform query capability. Each representation says with `wf` when it
/// is internally consistent with the source buffer `src` (representations
/// that own or intern their text ignore `src`), with `model` which abstract
/// value it stands for, and implements field lookup and the substring test
/// against that model.
pub trait Queryable: Sized {
    /// The representation is internally consistent with the source buffer.
    spec fn wf(&self, src: Seq<u8>) -> bool;

    /// The abstract value this representation stands for.
    spec fn model(&self, src: Seq<u8>) -> ValModel;

    /// On a map, references to the values of every pair whose key equals
    /// `key`, in original order; on an array, the concatenation of the
    /// lookup applied to every element; on a number or string, empty.
    fn get_all<'a>(&'a self, src: &[u8], key: &[u8]) -> (r: Vec<&'a Self>)
        requires
            self.wf(src@),
        ensures
            r@.len() == spec_get_all(self.model(src@), key@).len(),
            forall|i: int|
                0 <= i < r@.len() ==> (#[trigger] r@[i]).wf(src@) && r@[i].model(src@)
                    == spec_get_all(self.model(src@), key@)[i],
    ;

    /// True iff this value is a string whose content contains `needle`.
    fn contains(&self, src: &[u8], needle: &[u8]) -> (r: bool)
        requires
            self.wf(src@),
        ensures
            r == spec_contains(self.model(src@), needle@),
    ;
}

/// The abstract values of a sequence of representation references.
pub open spec fn models_of<Q: Queryable>(vs: Seq<&Q>, src: Seq<u8>) -> Seq<ValModel> {
    Seq::new(vs.len(), |i: int| vs[i].model(src))
}

/// Every reference in the sequence is well formed for `src`.
pub open spec fn all_wf<Q: Queryable>(vs: Seq<&Q>, src: Seq<u8>) -> bool {
    forall|i: int| 0 <= i < vs.len() ==> (#[trigger] vs[i]).wf(src)
}

/// Field lookup applied to every value of `vs` in order, flattened: one
/// level of the fixed predicate's path.
pub fn get_all_flat<'a, Q: Queryable>(vs: &Vec<&'a Q>, src: &[u8], key: &[u8]) -> (r: Vec<&'a Q>)
    requires
        all_wf(vs@, src@),
    ensures
        all_wf(r@, src@),
        models_of(r@, src@) == spec_get_all_elems(models_of(vs@, src@), key@),
{
    let mut out: Vec<&'a Q> = Vec::new();
    let mut i: usize = 0;
    proof {
        assert(models_of(out@, src@) =~= Seq::<ValModel>::empty());
        assert(models_of(vs@.subrange(0, 0), src@) =~= Seq::<ValModel>::empty());
        assert(spec_get_all_elems(Seq::<ValModel>::empty(), key@) == Seq::<ValModel>::empty());
    }
    while i < vs.len()
        invariant
            all_wf(vs@, src@),
            i <= vs@.len(),
            all_wf(out@, src@),
            models_of(out@, src@) == spec_get_all_elems(
                models_of(vs@.subrange(0, i as int), src@),
                key@,
            ),
        decreases vs@.len() - i,
    {
        let v: &Q = vs[i];
        let sub: Vec<&Q> = v.get_all(src, key);
        let ghost out0 = out@;
        let mut j: usize = 0;
        while j < sub.len()
            invariant
                j <= sub@.len(),
                out@ == out0 + sub@.subrange(0, j as int),
            decreases sub@.len() - j,
        {
            proof {
                assert(out0 + sub@.subrange(0, j + 1) =~= (out0 + sub@.subrange(0, j as int)).push(
                    sub@[j as int],
                ));
            }
            out.push(sub[j]);
            j += 1;
        }
        proof {
            assert(out@ == out0 + sub@.subrange(0, sub@.len() as int));
            assert(sub@.subrange(0, sub@.len() as int) =~= sub@);
            let m = v.model(src@);
            let prefix = models_of(vs@.subrange(0, i as int), src@);
            assert(models_of(sub@, src@) =~= spec_get_all(m, key@));
            assert(models_of(out@, src@) =~= models_of(out0, src@) + models_of(sub@, src@));
            lemma_get_all_elems_push(prefix, m, key@);
            assert(models_of(vs@.subrange(0, i + 1), src@) =~= prefix.push(m));
            assert(models_of(out@, src@) == spec_get_all_elems(
                models_of(vs@.subrange(0, i + 1), src@),
                key@,
            ));
        }
        i += 1;
    }
    proof {
        assert(vs@.subrange(0, vs@.len() as int) =~= vs@);
    }
    out
}

/// True iff any value of `vs` is a string containing `needle`.
pub fn any_contains<Q: Queryable>(vs: &Vec<&Q>, src: &[u8], needle: &[u8]) -> (r: bool)
    requires
        all_wf(vs@, src@),
    ensures
        r == exists|i: int|
            0 <= i < vs@.len() && spec_contains(models_of(vs@, src@)[i], needle@),
{
    let mut i: usize = 0;
    while i < vs.len()
        invariant
            all_wf(vs@, src@),
            i <= vs@.len(),
            forall|j: int|
                0 <= j < i ==> !spec_contains(#[trigger] models_of(vs@, src@)[j], needle@),
        decreases vs@.len() - i,
    {
        let v: &Q = vs[i];
        if v.contains(src, needle) {
            assert(spec_contains(models_of(vs@, src@)[i as int], needle@));
            return true;
        }
        i += 1;
    }
    false
}

/// The bytes of the key "subArts".
pub fn sub_arts_key() -> (r: Vec<u8>)
    ensures
        r@ == key_sub_arts(),
{
    let mut v: Vec<u8> = Vec::new();
    v.push('s' as u8);
    v.push('u' as u8);
    v.push('b' as u8);
    v.push('A' as u8);
    v.push('r' as u8);
    v.push('t' as u8);
    v.push('s' as u8);
    proof {
        assert(v@ =~= key_sub_arts());
    }
    v
}

/// The bytes of the key "subSubArts".
pub fn sub_sub_arts_key() -> (r: Vec<u8>)
    ensures
        r@ == key_sub_sub_arts(),
{
    let mut v: Vec<u8> = Vec::new();
    v.push('s' as u8);
    v.push('u' as u8);
    v.push('b' as u8);
    v.push('S' as u8);
    v.push('u' as u8);
    v.push('b' as u8);
    v.push('A' as u8);
    v.push('r' as u8);
    v.push('t' as u8);
    v.push('s' as u8);
    proof {
        assert(v@ =~= key_sub_sub_arts());
    }
    v
}

/// The bytes of the key "size".
pub fn size_key() -> (r: Vec<u8>)
    ensures
        r@ == key_size(),
{
    let mut v: Vec<u8> = Vec::new();
    v.push('s' as u8);
    v.push('i' as u8);
    v.push('z' as u8);
    v.push('e' as u8);
    proof {
        assert(v@ =~= key_size());
    }
    v
}

/// The bytes of the substring "snug".
pub fn snug_needle() -> (r: Vec<u8>)
    ensures
        r@ == needle_snug(),
{
    let mut v: Vec<u8> = Vec::new();
    v.push('s' as u8);
    v.push('n' as u8);
    v.push('u' as u8);
    v.push('g' as u8);
    proof {
        assert(v@ =~= needle_snug());
    }
    v
}

/// The fixed predicate, computed through the query capability alone: follow
/// "subArts" / "subSubArts" / "size" and test whether any value reached is a
/// string containing "snug". It holds for a record exactly when `spec_pred`
/// holds of the record's model, whichever representation carries it.
pub fn pred<Q: Queryable>(v: &Q, src: &[u8]) -> (r: bool)
    requires
        v.wf(src@),
    ensures
        r == spec_pred(v.model(src@)),
{
    let k1 = sub_arts_key();
    let k2 = sub_sub_arts_key();
    let k3 = size_key();
    let nd = snug_needle();
    let mut roots: Vec<&Q> = Vec::new();
    roots.push(v);
    proof {
        assert(models_of(roots@, src@) =~= seq![v.model(src@)]);
    }
    let l1 = get_all_flat(&roots, src, k1.as_slice());
    proof {
        lemma_get_all_elems_singleton(v.model(src@), key_sub_arts());
    }
    let l2 = get_all_flat(&l1, src, k2.as_slice());
    let l3 = get_all_flat(&l2, src, k3.as_slice());
    let r = any_contains(&l3, src, nd.as_slice());
    proof {
        let m = v.model(src@);
        let level1 = spec_get_all(m, key_sub_arts());
        let level2 = spec_get_all_elems(level1, key_sub_sub_arts());
        let level3 = spec_get_all_elems(level2, key_size());
        assert(models_of(l1@, src@) == level1);
        assert(models_of(l2@, src@) == level2);
        assert(models_of(l3@, src@) == level3);
    }
    r
}

} // verus!
