//! The borrowed representation: a record whose string content is not copied.
//!
//! A string is carried as a start/end byte range into the source buffer, so
//! the tree is meaningful only together with that buffer; every operation
//! takes the buffer explicitly, and `inv` says when the ranges lie inside
//! it. Carrying ranges rather than references keeps the dependence on the
//! buffer explicit and checkable.

use crate::model::key_matches;
use crate::model::lemma_get_all_elems_push;
use crate::model::lemma_get_all_map_push;
use crate::model::spec_get_all;
use crate::model::spec_get_all_elems;
use crate::model::spec_get_all_map;
use crate::model::ValModel;
use crate::queryable::bytes_eq;
use crate::queryable::contains_bytes;
use crate::queryable::Queryable;
use vstd::prelude::*;
use vstd::slice::slice_index_get;
use vstd::slice::slice_subrange;

verus! {

/// One parsed record whose strings are byte ranges into the source buffer.
pub enum ValueBorrow {
    Number(i64),
    Text { start: usize, end: usize },
    Array(Vec<ValueBorrow>),
    Object(Vec<(ValueBorrow, ValueBorrow)>),
}

impl ValueBorrow {
    /// Every string range lies inside the source buffer.
    pub open spec fn inv(self, src: Seq<u8>) -> bool
        decreases self, 1int,
    {
        match self {
            ValueBorrow::Number(_) => true,
            ValueBorrow::Text { start, end } => start <= end && end <= src.len(),
            ValueBorrow::Array(elems) => {
                proof {
                    assert(decreases_to!(self => elems));
                    assert(decreases_to!(elems => elems@));
                }
                ValueBorrow::inv_elems(elems@, src)
            },
            ValueBorrow::Object(pairs) => {
                proof {
                    assert(decreases_to!(self => pairs));
                    assert(decreases_to!(pairs => pairs@));
                }
                ValueBorrow::inv_pairs(pairs@, src)
            },
        }
    }

    /// `inv` holds of every element.
    pub open spec fn inv_elems(elems: Seq<ValueBorrow>, src: Seq<u8>) -> bool
        decreases elems, 0int,
    {
        if elems.len() == 0 {
            true
        } else {
            elems[0].inv(src) && ValueBorrow::inv_elems(elems.drop_first(), src)
        }
    }

    /// `inv` holds of both sides of every pair.
    pub open spec fn inv_pairs(pairs: Seq<(ValueBorrow, ValueBorrow)>, src: Seq<u8>) -> bool
        decreases pairs, 0int,
    {
        if pairs.len() == 0 {
            true
        } else {
            proof {
                assert(decreases_to!(pairs => pairs[0]));
            }
            pairs[0].0.inv(src) && pairs[0].1.inv(src) && ValueBorrow::inv_pairs(
                pairs.drop_first(),
                src,
            )
        }
    }

    /// The abstract value, resolving each string range against the buffer.
    pub open spec fn interp(self, src: Seq<u8>) -> ValModel
        decreases self, 1int,
    {
        match self {
            ValueBorrow::Number(n) => ValModel::Number(n as int),
            ValueBorrow::Text { start, end } => ValModel::Text(
                src.subrange(start as int, end as int),
            ),
            ValueBorrow::Array(elems) => {
                proof {
                    assert(decreases_to!(self => elems));
                    assert(decreases_to!(elems => elems@));
                }
                ValModel::Array(ValueBorrow::interp_elems(elems@, src))
            },
            ValueBorrow::Object(pairs) => {
                proof {
                    assert(decreases_to!(self => pairs));
                    assert(decreases_to!(pairs => pairs@));
                }
                ValModel::Object(ValueBorrow::interp_pairs(pairs@, src))
            },
        }
    }

    /// Element-wise interpretation of an array's elements.
    pub open spec fn interp_elems(elems: Seq<ValueBorrow>, src: Seq<u8>) -> Seq<ValModel>
        decreases elems, 0int,
    {
        if elems.len() == 0 {
            Seq::empty()
        } else {
            seq![elems[0].interp(src)] + ValueBorrow::interp_elems(elems.drop_first(), src)
        }
    }

    /// Pair-wise interpretation of a map's pairs.
    pub open spec fn interp_pairs(pairs: Seq<(ValueBorrow, ValueBorrow)>, src: Seq<u8>) -> Seq<
        (ValModel, ValModel),
    >
        decreases pairs, 0int,
    {
        if pairs.len() == 0 {
            Seq::empty()
        } else {
            proof {
                assert(decreases_to!(pairs => pairs[0]));
            }
            seq![(pairs[0].0.interp(src), pairs[0].1.interp(src))] + ValueBorrow::interp_pairs(
                pairs.drop_first(),
                src,
            )
        }
    }
}

/// `inv_elems` gives `inv` at every index.
pub proof fn lemma_inv_elems_index(elems: Seq<ValueBorrow>, src: Seq<u8>, i: int)
    requires
        ValueBorrow::inv_elems(elems, src),
        0 <= i < elems.len(),
    ensures
        elems[i].inv(src),
    decreases i,
{
    if i > 0 {
        lemma_inv_elems_index(elems.drop_first(), src, i - 1);
        assert(elems.drop_first()[i - 1] == elems[i]);
    }
}

/// `inv_pairs` gives `inv` on both sides at every index.
pub proof fn lemma_inv_pairs_index(pairs: Seq<(ValueBorrow, ValueBorrow)>, src: Seq<u8>, i: int)
    requires
        ValueBorrow::inv_pairs(pairs, src),
        0 <= i < pairs.len(),
    ensures
        pairs[i].0.inv(src),
        pairs[i].1.inv(src),
    decreases i,
{
    if i > 0 {
        lemma_inv_pairs_index(pairs.drop_first(), src, i - 1);
        assert(pairs.drop_first()[i - 1] == pairs[i]);
    }
}

/// `interp_elems` interprets index-wise.
pub proof fn lemma_interp_elems_index(elems: Seq<ValueBorrow>, src: Seq<u8>)
    ensures
        ValueBorrow::interp_elems(elems, src).len() == elems.len(),
        forall|i: int|
            0 <= i < elems.len() ==> ValueBorrow::interp_elems(elems, src)[i] == (
            #[trigger] elems[i]).interp(src),
    decreases elems.len(),
{
    if elems.len() > 0 {
        lemma_interp_elems_index(elems.drop_first(), src);
        assert forall|i: int| 0 <= i < elems.len() implies ValueBorrow::interp_elems(elems, src)[i]
            == (#[trigger] elems[i]).interp(src) by {
            if i > 0 {
                assert(elems.drop_first()[i - 1] == elems[i]);
            }
        }
    }
}

/// `interp_pairs` interprets index-wise.
pub proof fn lemma_interp_pairs_index(pairs: Seq<(ValueBorrow, ValueBorrow)>, src: Seq<u8>)
    ensures
        ValueBorrow::interp_pairs(pairs, src).len() == pairs.len(),
        forall|i: int|
            0 <= i < pairs.len() ==> ValueBorrow::interp_pairs(pairs, src)[i] == ((
            #[trigger] pairs[i]).0.interp(src), pairs[i].1.interp(src)),
    decreases pairs.len(),
{
    if pairs.len() > 0 {
        lemma_interp_pairs_index(pairs.drop_first(), src);
        assert forall|i: int| 0 <= i < pairs.len() implies ValueBorrow::interp_pairs(pairs, src)[i]
            == ((#[trigger] pairs[i]).0.interp(src), pairs[i].1.interp(src)) by {
            if i > 0 {
                assert(pairs.drop_first()[i - 1] == pairs[i]);
            }
        }
    }
}

impl Queryable for ValueBorrow {
    open spec fn wf(&self, src: Seq<u8>) -> bool {
        self.inv(src)
    }

    open spec fn model(&self, src: Seq<u8>) -> ValModel {
        self.interp(src)
    }

    fn get_all<'a>(&'a self, src: &[u8], key: &[u8]) -> (r: Vec<&'a Self>)
        decreases *self,
    {
        match self {
            ValueBorrow::Number(_) => {
                let r: Vec<&ValueBorrow> = Vec::new();
                r
            },
            ValueBorrow::Text { .. } => {
                let r: Vec<&ValueBorrow> = Vec::new();
                r
            },
            ValueBorrow::Object(pairs) => {
                let ghost pm = ValueBorrow::interp_pairs(pairs@, src@);
                proof {
                    lemma_interp_pairs_index(pairs@, src@);
                    assert(pm.subrange(0, 0) =~= Seq::<(ValModel, ValModel)>::empty());
                }
                let mut out: Vec<&ValueBorrow> = Vec::new();
                let mut i: usize = 0;
                while i < pairs.len()
                    invariant
                        *self == ValueBorrow::Object(*pairs),
                        self.inv(src@),
                        pm == ValueBorrow::interp_pairs(pairs@, src@),
                        i <= pairs@.len(),
                        out@.len() == spec_get_all_map(pm.subrange(0, i as int), key@).len(),
                        forall|k: int|
                            0 <= k < out@.len() ==> (#[trigger] out@[k]).inv(src@) && out@[
                                k
                            ].interp(src@) == spec_get_all_map(pm.subrange(0, i as int), key@)[k],
                    decreases pairs@.len() - i,
                {
                    let p: &(ValueBorrow, ValueBorrow) = slice_index_get(pairs.as_slice(), i);
                    proof {
                        lemma_inv_pairs_index(pairs@, src@, i as int);
                        lemma_interp_pairs_index(pairs@, src@);
                    }
                    let is_m: bool = match &p.0 {
                        ValueBorrow::Text { start, end } => {
                            bytes_eq(slice_subrange(src, *start, *end), key)
                        },
                        _ => false,
                    };
                    proof {
                        assert(is_m == key_matches(p.0.interp(src@), key@));
                        lemma_get_all_map_push(pm.subrange(0, i as int), pm[i as int], key@);
                        assert(pm.subrange(0, i + 1) =~= pm.subrange(0, i as int).push(
                            pm[i as int],
                        ));
                    }
                    if is_m {
                        out.push(&p.1);
                    }
                    i += 1;
                }
                proof {
                    assert(pm.subrange(0, pm.len() as int) =~= pm);
                    assert(self.interp(src@) == ValModel::Object(pm));
                }
                out
            },
            ValueBorrow::Array(elems) => {
                let ghost em = ValueBorrow::interp_elems(elems@, src@);
                proof {
                    lemma_interp_elems_index(elems@, src@);
                    assert(em.subrange(0, 0) =~= Seq::<ValModel>::empty());
                }
                let mut out: Vec<&ValueBorrow> = Vec::new();
                let mut i: usize = 0;
                while i < elems.len()
                    invariant
                        *self == ValueBorrow::Array(*elems),
                        self.inv(src@),
                        em == ValueBorrow::interp_elems(elems@, src@),
                        i <= elems@.len(),
                        out@.len() == spec_get_all_elems(em.subrange(0, i as int), key@).len(),
                        forall|k: int|
                            0 <= k < out@.len() ==> (#[trigger] out@[k]).inv(src@) && out@[
                                k
                            ].interp(src@) == spec_get_all_elems(em.subrange(0, i as int), key@)[k],
                    decreases elems@.len() - i,
                {
                    let e: &ValueBorrow = slice_index_get(elems.as_slice(), i);
                    proof {
                        lemma_inv_elems_index(elems@, src@, i as int);
                        lemma_interp_elems_index(elems@, src@);
                        assert(decreases_to!(*self => *elems));
                        assert(decreases_to!(*elems => elems@));
                        assert(decreases_to!(elems@ => elems@[i as int]));
                    }
                    let sub: Vec<&ValueBorrow> = e.get_all(src, key);
                    let ghost out0 = out@;
                    let mut j: usize = 0;
                    while j < sub.len()
                        invariant
                            j <= sub@.len(),
                            out@ == out0 + sub@.subrange(0, j as int),
                        decreases sub@.len() - j,
                    {
                        proof {
                            assert(out0 + sub@.subrange(0, j + 1) =~= (out0 + sub@.subrange(
                                0,
                                j as int,
                            )).push(sub@[j as int]));
                        }
                        out.push(sub[j]);
                        j += 1;
                    }
                    proof {
                        assert(sub@.subrange(0, sub@.len() as int) =~= sub@);
                        lemma_get_all_elems_push(em.subrange(0, i as int), em[i as int], key@);
                        assert(em.subrange(0, i + 1) =~= em.subrange(0, i as int).push(
                            em[i as int],
                        ));
                        assert(forall|k: int|
                            0 <= k < out@.len() ==> (#[trigger] out@[k]).interp(src@)
                                == spec_get_all_elems(em.subrange(0, i + 1), key@)[k]);
                    }
                    i += 1;
                }
                proof {
                    assert(em.subrange(0, em.len() as int) =~= em);
                    assert(self.interp(src@) == ValModel::Array(em));
                }
                out
            },
        }
    }

    fn contains(&self, src: &[u8], needle: &[u8]) -> (r: bool) {
        match self {
            ValueBorrow::Text { start, end } => {
                contains_bytes(slice_subrange(src, *start, *end), needle)
            },
            _ => false,
        }
    }
}

} // verus!
