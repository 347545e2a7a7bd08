//! The interned representation: strings are deduplicated through a
//! per-worker cache.
//!
//! The cache is an arena of immutable, reference-counted byte strings. An
//! entry, once inserted, is never removed, moved or mutated, so a handle —
//! the entry's index together with a shared pointer to its storage — stays
//! valid for the cache's whole lifetime. The cache is passed explicitly;
//! two workers each hold their own and do not share entries.

use crate::model::key_matches;
use crate::model::lemma_get_all_elems_push;
use crate::model::lemma_get_all_map_push;
use crate::model::spec_get_all;
use crate::model::spec_get_all_elems;
use crate::model::spec_get_all_map;
use crate::model::ValModel;
use crate::queryable::bytes_eq;
use crate::queryable::contains_bytes;
use crate::queryable::Queryable;
use crate::value_borrow::lemma_inv_elems_index;
use crate::value_borrow::lemma_inv_pairs_index;
use crate::value_borrow::lemma_interp_elems_index;
use crate::value_borrow::lemma_interp_pairs_index;
use crate::value_borrow::ValueBorrow;
use std::rc::Rc;
use vstd::prelude::*;
use vstd::slice::slice_index_get;
use vstd::slice::slice_subrange;
use vstd::slice::slice_to_vec;

verus! {

/// Relies on Rc's deref: a shared pointer hands out the value it points to.
#[verifier::external_body]
fn rc_bytes(p: &Rc<Vec<u8>>) -> (r: &Vec<u8>)
    ensures
        r@ == p@,
{
    &**p
}

/// Relies on Rc::clone: the clone points at the same allocation, hence
/// carries the same value.
#[verifier::external_body]
fn rc_dup(p: &Rc<Vec<u8>>) -> (r: Rc<Vec<u8>>)
    ensures
        r == *p,
{
    Rc::clone(p)
}

/// No two entries hold equal content.
pub open spec fn distinct_contents(cs: Seq<Seq<u8>>) -> bool {
    forall|i: int, j: int| 0 <= i < j < cs.len() ==> cs[i] != cs[j]
}

/// The abstract effect of interning content `s` into cache contents `cs`:
/// the contents afterwards, and the index of the entry the returned handle
/// refers to.
pub open spec fn spec_intern(cs: Seq<Seq<u8>>, s: Seq<u8>) -> (Seq<Seq<u8>>, int) {
    if exists|i: int| 0 <= i < cs.len() && cs[i] == s {
        (cs, choose|i: int| 0 <= i < cs.len() && cs[i] == s)
    } else {
        (cs.push(s), cs.len() as int)
    }
}

/// The per-worker string cache: an arena of immutable byte strings, each
/// stored at most once, never removed or mutated.
pub struct Interner {
    pub entries: Vec<Rc<Vec<u8>>>,
}

impl Interner {
    /// The stored byte strings, in insertion order.
    pub open spec fn contents(self) -> Seq<Seq<u8>> {
        Seq::new(self.entries@.len(), |i: int| self.entries@[i]@)
    }

    /// Storage for a given content is allocated at most once.
    pub open spec fn inv(self) -> bool {
        distinct_contents(self.contents())
    }

    /// An empty cache.
    pub fn new() -> (r: Interner)
        ensures
            r.inv(),
            r.contents() == Seq::<Seq<u8>>::empty(),
    {
        let r = Interner { entries: Vec::new() };
        proof {
            assert(r.contents() =~= Seq::<Seq<u8>>::empty());
        }
        r
    }
}

/// The cache has only grown: every entry of `c1` is still present, at the
/// same index with the same content, in `c2`.
pub open spec fn cache_extends(c1: Interner, c2: Interner) -> bool {
    &&& c1.contents().len() <= c2.contents().len()
    &&& forall|i: int|
        0 <= i < c1.contents().len() ==> #[trigger] c2.contents()[i] == c1.contents()[i]
}

/// A handle to interned text: the index of its cache entry, together with a
/// shared pointer to that entry's storage.
pub struct InternedString {
    pub id: usize,
    pub text: Rc<Vec<u8>>,
}

impl InternedString {
    /// The handle points at a live cache entry carrying the handle's own
    /// content.
    pub open spec fn wf(self, cache: Interner) -> bool {
        &&& (self.id as int) < cache.contents().len()
        &&& cache.contents()[self.id as int] == self.text@
    }

    /// Intern `s` into `cache`: if an entry with equal content exists, hand
    /// out that entry — same index, same storage — and leave the cache
    /// unchanged; otherwise append one new entry. Either way the handle's
    /// content equals `s` and points at a live entry.
    pub fn new(cache: &mut Interner, s: &[u8]) -> (r: InternedString)
        requires
            old(cache).inv(),
        ensures
            final(cache).inv(),
            final(cache).contents() == spec_intern(old(cache).contents(), s@).0,
            r.id as int == spec_intern(old(cache).contents(), s@).1,
            r.wf(*final(cache)),
            r.text@ == s@,
            cache_extends(*old(cache), *final(cache)),
    {
        let ghost cs = cache.contents();
        let n = cache.entries.len();
        let mut i: usize = 0;
        while i < n
            invariant
                *cache == *old(cache),
                old(cache).inv(),
                cs == cache.contents(),
                n == cache.entries@.len(),
                i <= n,
                forall|j: int| 0 <= j < i ==> #[trigger] cs[j] != s@,
            decreases n - i,
        {
            let e: &Rc<Vec<u8>> = slice_index_get(cache.entries.as_slice(), i);
            if bytes_eq(rc_bytes(e).as_slice(), s) {
                let r = InternedString { id: i, text: rc_dup(e) };
                proof {
                    assert(cs[i as int] == s@);
                    assert(exists|k: int| 0 <= k < cs.len() && cs[k] == s@);
                    let k0 = choose|k: int| 0 <= k < cs.len() && cs[k] == s@;
                    if k0 != i as int {
                        assert(cs[k0] == cs[i as int]);
                        assert(false);
                    }
                }
                return r;
            }
            i += 1;
        }
        proof {
            assert(forall|k: int| 0 <= k < cs.len() ==> #[trigger] cs[k] != s@);
            assert(!(exists|k: int| 0 <= k < cs.len() && cs[k] == s@));
        }
        let stored: Rc<Vec<u8>> = Rc::new(slice_to_vec(s));
        let handle: Rc<Vec<u8>> = rc_dup(&stored);
        cache.entries.push(stored);
        let r = InternedString { id: n, text: handle };
        proof {
            assert(cache.contents() =~= cs.push(s@));
            assert forall|a: int, b: int|
                0 <= a < b < cache.contents().len() implies cache.contents()[a]
                != cache.contents()[b] by {
                if b < cs.len() {
                    assert(cs[a] != cs[b]);
                } else {
                    assert(cache.contents()[b] == s@);
                    assert(cache.contents()[a] == cs[a]);
                }
            }
        }
        r
    }
}

/// Law: a handle, once handed out, stays valid however much the cache grows
/// afterwards: its entry is still there, at the same index, with the same
/// content.
pub proof fn lemma_handle_stable(h: InternedString, c1: Interner, c2: Interner)
    requires
        h.wf(c1),
        cache_extends(c1, c2),
    ensures
        h.wf(c2),
{
}

/// Cache growth composes.
pub proof fn lemma_extends_trans(a: Interner, b: Interner, c: Interner)
    requires
        cache_extends(a, b),
        cache_extends(b, c),
    ensures
        cache_extends(a, c),
{
}

/// Law: interning is idempotent. Interning content `s` and then interning
/// equal content again yields the same index into unchanged contents — the
/// same single allocation backs both handles — and that entry holds `s`.
pub proof fn lemma_intern_idempotent(cs: Seq<Seq<u8>>, s: Seq<u8>)
    ensures
        ({
            let (cs1, i1) = spec_intern(cs, s);
            let (cs2, i2) = spec_intern(cs1, s);
            &&& cs2 == cs1
            &&& i2 == i1
            &&& 0 <= i1 < cs1.len()
            &&& cs1[i1] == s
        }),
{
    let (cs1, i1) = spec_intern(cs, s);
    if exists|i: int| 0 <= i < cs.len() && cs[i] == s {
        let k0 = choose|i: int| 0 <= i < cs.len() && cs[i] == s;
        assert(cs[k0] == s);
    } else {
        assert(cs1 == cs.push(s));
        assert(cs1[cs.len() as int] == s);
        assert(exists|i: int| 0 <= i < cs1.len() && cs1[i] == s);
        let (cs2, i2) = spec_intern(cs1, s);
        let k0 = choose|i: int| 0 <= i < cs1.len() && cs1[i] == s;
        if k0 != cs.len() as int {
            assert(cs1[k0] == cs[k0]);
            assert(false);
        }
    }
}

/// One parsed record whose strings are handles into a cache.
pub enum ValueIntern {
    Number(i64),
    Text(InternedString),
    Array(Vec<ValueIntern>),
    Object(Vec<(ValueIntern, ValueIntern)>),
}

impl ValueIntern {
    /// The abstract value this tree stands for.
    pub open spec fn interp(self) -> ValModel
        decreases self, 1int,
    {
        match self {
            ValueIntern::Number(n) => ValModel::Number(n as int),
            ValueIntern::Text(h) => ValModel::Text(h.text@),
            ValueIntern::Array(elems) => {
                proof {
                    assert(decreases_to!(self => elems));
                    assert(decreases_to!(elems => elems@));
                }
                ValModel::Array(ValueIntern::interp_elems(elems@))
            },
            ValueIntern::Object(pairs) => {
                proof {
                    assert(decreases_to!(self => pairs));
                    assert(decreases_to!(pairs => pairs@));
                }
                ValModel::Object(ValueIntern::interp_pairs(pairs@))
            },
        }
    }

    /// Element-wise interpretation of an array's elements.
    pub open spec fn interp_elems(elems: Seq<ValueIntern>) -> Seq<ValModel>
        decreases elems, 0int,
    {
        if elems.len() == 0 {
            Seq::empty()
        } else {
            seq![elems[0].interp()] + ValueIntern::interp_elems(elems.drop_first())
        }
    }

    /// Pair-wise interpretation of a map's pairs.
    pub open spec fn interp_pairs(pairs: Seq<(ValueIntern, ValueIntern)>) -> Seq<
        (ValModel, ValModel),
    >
        decreases pairs, 0int,
    {
        if pairs.len() == 0 {
            Seq::empty()
        } else {
            proof {
                assert(decreases_to!(pairs => pairs[0]));
            }
            seq![(pairs[0].0.interp(), pairs[0].1.interp())] + ValueIntern::interp_pairs(
                pairs.drop_first(),
            )
        }
    }

    /// Build an interned tree from a borrowed one, interning each string's
    /// content into `cache`. The abstract value is unchanged, the cache only
    /// grows, and its invariant is preserved.
    pub fn from_borrow(b: &ValueBorrow, src: &[u8], cache: &mut Interner) -> (r: ValueIntern)
        requires
            b.inv(src@),
            old(cache).inv(),
        ensures
            final(cache).inv(),
            cache_extends(*old(cache), *final(cache)),
            r.interp() == b.interp(src@),
        decreases *b,
    {
        match b {
            ValueBorrow::Number(n) => ValueIntern::Number(*n),
            ValueBorrow::Text { start, end } => {
                let s = slice_subrange(src, *start, *end);
                let h = InternedString::new(cache, s);
                ValueIntern::Text(h)
            },
            ValueBorrow::Array(elems) => {
                let ghost em = ValueBorrow::interp_elems(elems@, src@);
                proof {
                    lemma_interp_elems_index(elems@, src@);
                }
                let ghost cache0 = *cache;
                let mut out: Vec<ValueIntern> = Vec::new();
                let mut i: usize = 0;
                while i < elems.len()
                    invariant
                        *b == ValueBorrow::Array(*elems),
                        b.inv(src@),
                        em == ValueBorrow::interp_elems(elems@, src@),
                        em.len() == elems@.len(),
                        forall|k: int|
                            0 <= k < elems@.len() ==> em[k] == (#[trigger] elems@[k]).interp(src@),
                        i <= elems@.len(),
                        out@.len() == i,
                        forall|k: int| 0 <= k < i ==> (#[trigger] out@[k]).interp() == em[k],
                        cache.inv(),
                        cache_extends(cache0, *cache),
                    decreases elems@.len() - i,
                {
                    let e: &ValueBorrow = slice_index_get(elems.as_slice(), i);
                    proof {
                        lemma_inv_elems_index(elems@, src@, i as int);
                        assert(decreases_to!(*b => b->Array_0));
                        assert(b->Array_0 == *elems);
                        assert(decreases_to!(*elems => elems@));
                        assert(decreases_to!(elems@ => elems@[i as int]));
                    }
                    let ghost cache_before = *cache;
                    let c = ValueIntern::from_borrow(e, src, cache);
                    proof {
                        lemma_extends_trans(cache0, cache_before, *cache);
                    }
                    out.push(c);
                    i += 1;
                }
                proof {
                    lemma_intern_interp_elems_index(out@);
                    assert forall|k: int|
                        0 <= k < out@.len() implies ValueIntern::interp_elems(out@)[k] == em[k] by {
                        assert(out@[k].interp() == em[k]);
                    }
                    assert(ValueIntern::interp_elems(out@) =~= em);
                }
                let r = ValueIntern::Array(out);
                r
            },
            ValueBorrow::Object(pairs) => {
                let ghost pm = ValueBorrow::interp_pairs(pairs@, src@);
                proof {
                    lemma_interp_pairs_index(pairs@, src@);
                }
                let ghost cache0 = *cache;
                let mut out: Vec<(ValueIntern, ValueIntern)> = Vec::new();
                let mut i: usize = 0;
                while i < pairs.len()
                    invariant
                        *b == ValueBorrow::Object(*pairs),
                        b.inv(src@),
                        pm == ValueBorrow::interp_pairs(pairs@, src@),
                        pm.len() == pairs@.len(),
                        forall|k: int|
                            0 <= k < pairs@.len() ==> pm[k] == ((#[trigger] pairs@[k]).0.interp(
                                src@,
                            ), pairs@[k].1.interp(src@)),
                        i <= pairs@.len(),
                        out@.len() == i,
                        forall|k: int|
                            0 <= k < i ==> ((#[trigger] out@[k]).0.interp(), out@[k].1.interp())
                                == pm[k],
                        cache.inv(),
                        cache_extends(cache0, *cache),
                    decreases pairs@.len() - i,
                {
                    let p: &(ValueBorrow, ValueBorrow) = slice_index_get(pairs.as_slice(), i);
                    proof {
                        lemma_inv_pairs_index(pairs@, src@, i as int);
                        assert(decreases_to!(*b => b->Object_0));
                        assert(b->Object_0 == *pairs);
                        assert(decreases_to!(*pairs => pairs@));
                        assert(decreases_to!(pairs@ => pairs@[i as int]));
                        assert(decreases_to!(pairs@[i as int] => pairs@[i as int].0));
                        assert(decreases_to!(pairs@[i as int] => pairs@[i as int].1));
                    }
                    let ghost cache_a = *cache;
                    let ck = ValueIntern::from_borrow(&p.0, src, cache);
                    let ghost cache_b = *cache;
                    let cv = ValueIntern::from_borrow(&p.1, src, cache);
                    proof {
                        lemma_extends_trans(cache_a, cache_b, *cache);
                        lemma_extends_trans(cache0, cache_a, *cache);
                    }
                    out.push((ck, cv));
                    i += 1;
                }
                proof {
                    lemma_intern_interp_pairs_index(out@);
                    assert forall|k: int|
                        0 <= k < out@.len() implies ValueIntern::interp_pairs(out@)[k] == pm[k] by {
                        assert((out@[k].0.interp(), out@[k].1.interp()) == pm[k]);
                    }
                    assert(ValueIntern::interp_pairs(out@) =~= pm);
                }
                let r = ValueIntern::Object(out);
                r
            },
        }
    }
}

/// `interp_elems` interprets index-wise.
pub proof fn lemma_intern_interp_elems_index(elems: Seq<ValueIntern>)
    ensures
        ValueIntern::interp_elems(elems).len() == elems.len(),
        forall|i: int|
            0 <= i < elems.len() ==> ValueIntern::interp_elems(elems)[i] == (
            #[trigger] elems[i]).interp(),
    decreases elems.len(),
{
    if elems.len() > 0 {
        lemma_intern_interp_elems_index(elems.drop_first());
        assert forall|i: int| 0 <= i < elems.len() implies ValueIntern::interp_elems(elems)[i] == (
        #[trigger] elems[i]).interp() by {
            if i > 0 {
                assert(elems.drop_first()[i - 1] == elems[i]);
            }
        }
    }
}

/// `interp_pairs` interprets index-wise.
pub proof fn lemma_intern_interp_pairs_index(pairs: Seq<(ValueIntern, ValueIntern)>)
    ensures
        ValueIntern::interp_pairs(pairs).len() == pairs.len(),
        forall|i: int|
            0 <= i < pairs.len() ==> ValueIntern::interp_pairs(pairs)[i] == ((
            #[trigger] pairs[i]).0.interp(), pairs[i].1.interp()),
    decreases pairs.len(),
{
    if pairs.len() > 0 {
        lemma_intern_interp_pairs_index(pairs.drop_first());
        assert forall|i: int| 0 <= i < pairs.len() implies ValueIntern::interp_pairs(pairs)[i] == ((
        #[trigger] pairs[i]).0.interp(), pairs[i].1.interp()) by {
            if i > 0 {
                assert(pairs.drop_first()[i - 1] == pairs[i]);
            }
        }
    }
}

impl Queryable for ValueIntern {
    open spec fn wf(&self, src: Seq<u8>) -> bool {
        true
    }

    open spec fn model(&self, src: Seq<u8>) -> ValModel {
        self.interp()
    }

    fn get_all<'a>(&'a self, src: &[u8], key: &[u8]) -> (r: Vec<&'a Self>)
        decreases *self,
    {
        match self {
            ValueIntern::Number(_) => {
                let r: Vec<&ValueIntern> = Vec::new();
                r
            },
            ValueIntern::Text(_) => {
                let r: Vec<&ValueIntern> = Vec::new();
                r
            },
            ValueIntern::Object(pairs) => {
                let ghost pm = ValueIntern::interp_pairs(pairs@);
                proof {
                    lemma_intern_interp_pairs_index(pairs@);
                    assert(pm.subrange(0, 0) =~= Seq::<(ValModel, ValModel)>::empty());
                }
                let mut out: Vec<&ValueIntern> = Vec::new();
                let mut i: usize = 0;
                while i < pairs.len()
                    invariant
                        *self == ValueIntern::Object(*pairs),
                        pm == ValueIntern::interp_pairs(pairs@),
                        pm.len() == pairs@.len(),
                        forall|k: int|
                            0 <= k < pairs@.len() ==> pm[k] == ((#[trigger] pairs@[k]).0.interp(),
                            pairs@[k].1.interp()),
                        i <= pairs@.len(),
                        out@.len() == spec_get_all_map(pm.subrange(0, i as int), key@).len(),
                        forall|k: int|
                            0 <= k < out@.len() ==> (#[trigger] out@[k]).interp()
                                == spec_get_all_map(pm.subrange(0, i as int), key@)[k],
                    decreases pairs@.len() - i,
                {
                    let p: &(ValueIntern, ValueIntern) = slice_index_get(pairs.as_slice(), i);
                    let is_m: bool = match &p.0 {
                        ValueIntern::Text(h) => bytes_eq(rc_bytes(&h.text).as_slice(), key),
                        _ => false,
                    };
                    proof {
                        assert(is_m == key_matches(p.0.interp(), key@));
                        lemma_get_all_map_push(pm.subrange(0, i as int), pm[i as int], key@);
                        assert(pm.subrange(0, i + 1) =~= pm.subrange(0, i as int).push(
                            pm[i as int],
                        ));
                    }
                    if is_m {
                        out.push(&p.1);
                    }
                    i += 1;
                }
                proof {
                    assert(pm.subrange(0, pm.len() as int) =~= pm);
                    assert(self.interp() == ValModel::Object(pm));
                }
                out
            },
            ValueIntern::Array(elems) => {
                let ghost em = ValueIntern::interp_elems(elems@);
                proof {
                    lemma_intern_interp_elems_index(elems@);
                    assert(em.subrange(0, 0) =~= Seq::<ValModel>::empty());
                }
                let mut out: Vec<&ValueIntern> = Vec::new();
                let mut i: usize = 0;
                while i < elems.len()
                    invariant
                        *self == ValueIntern::Array(*elems),
                        em == ValueIntern::interp_elems(elems@),
                        em.len() == elems@.len(),
                        forall|k: int|
                            0 <= k < elems@.len() ==> em[k] == (#[trigger] elems@[k]).interp(),
                        i <= elems@.len(),
                        out@.len() == spec_get_all_elems(em.subrange(0, i as int), key@).len(),
                        forall|k: int|
                            0 <= k < out@.len() ==> (#[trigger] out@[k]).interp()
                                == spec_get_all_elems(em.subrange(0, i as int), key@)[k],
                    decreases elems@.len() - i,
                {
                    let e: &ValueIntern = slice_index_get(elems.as_slice(), i);
                    proof {
                        assert(decreases_to!(*self => self->Array_0));
                        assert(self->Array_0 == *elems);
                        assert(decreases_to!(*elems => elems@));
                        assert(decreases_to!(elems@ => elems@[i as int]));
                    }
                    let sub: Vec<&ValueIntern> = e.get_all(src, key);
                    let ghost out0 = out@;
                    let mut j: usize = 0;
                    while j < sub.len()
                        invariant
                            j <= sub@.len(),
                            out@ == out0 + sub@.subrange(0, j as int),
                        decreases sub@.len() - j,
                    {
                        proof {
                            assert(out0 + sub@.subrange(0, j + 1) =~= (out0 + sub@.subrange(
                                0,
                                j as int,
                            )).push(sub@[j as int]));
                        }
                        out.push(sub[j]);
                        j += 1;
                    }
                    proof {
                        assert(sub@.subrange(0, sub@.len() as int) =~= sub@);
                        lemma_get_all_elems_push(em.subrange(0, i as int), em[i as int], key@);
                        assert(em.subrange(0, i + 1) =~= em.subrange(0, i as int).push(
                            em[i as int],
                        ));
                        assert(forall|k: int|
                            0 <= k < out@.len() ==> (#[trigger] out@[k]).interp()
                                == spec_get_all_elems(em.subrange(0, i + 1), key@)[k]);
                    }
                    i += 1;
                }
                proof {
                    assert(em.subrange(0, em.len() as int) =~= em);
                    assert(self.interp() == ValModel::Array(em));
                }
                out
            },
        }
    }

    fn contains(&self, src: &[u8], needle: &[u8]) -> (r: bool) {
        match self {
            ValueIntern::Text(h) => contains_bytes(rc_bytes(&h.text).as_slice(), needle),
            _ => false,
        }
    }
}

} // verus!
