//! The owned representation: the baseline tree, whose every string holds an
//! independently allocated copy of its content, with no dependence on the
//! input buffer.

use crate::model::key_matches;
use crate::model::lemma_get_all_elems_push;
use crate::model::lemma_get_all_map_push;
use crate::model::spec_get_all;
use crate::model::spec_get_all_elems;
use crate::model::spec_get_all_map;
use crate::model::ValModel;
use crate::queryable::bytes_eq;
use crate::queryable::contains_bytes;
use crate::queryable::Queryable;
use crate::value_borrow::lemma_interp_elems_index;
use crate::value_borrow::lemma_interp_pairs_index;
use crate::value_borrow::lemma_inv_elems_index;
use crate::value_borrow::lemma_inv_pairs_index;
use crate::value_borrow::ValueBorrow;
use vstd::prelude::*;
use vstd::slice::slice_index_get;
use vstd::slice::slice_subrange;
use vstd::slice::slice_to_vec;

verus! {

/// One parsed record that owns all of its string content.
pub enum ValueOwned {
    Number(i64),
    Text(Vec<u8>),
    Array(Vec<ValueOwned>),
    Object(Vec<(ValueOwned, ValueOwned)>),
}

impl ValueOwned {
    /// The abstract value this tree stands for.
    pub open spec fn interp(self) -> ValModel
        decreases self, 1int,
    {
        match self {
            ValueOwned::Number(n) => ValModel::Number(n as int),
            ValueOwned::Text(s) => ValModel::Text(s@),
            ValueOwned::Array(elems) => {
                proof {
                    assert(decreases_to!(self => elems));
                    assert(decreases_to!(elems => elems@));
                }
                ValModel::Array(ValueOwned::interp_elems(elems@))
            },
            ValueOwned::Object(pairs) => {
                proof {
                    assert(decreases_to!(self => pairs));
                    assert(decreases_to!(pairs => pairs@));
                }
                ValModel::Object(ValueOwned::interp_pairs(pairs@))
            },
        }
    }

    /// Element-wise interpretation of an array's elements.
    pub open spec fn interp_elems(elems: Seq<ValueOwned>) -> Seq<ValModel>
        decreases elems, 0int,
    {
        if elems.len() == 0 {
            Seq::empty()
        } else {
            seq![elems[0].interp()] + ValueOwned::interp_elems(elems.drop_first())
        }
    }

    /// Pair-wise interpretation of a map's pairs.
    pub open spec fn interp_pairs(pairs: Seq<(ValueOwned, ValueOwned)>) -> Seq<
        (ValModel, ValModel),
    >
        decreases pairs, 0int,
    {
        if pairs.len() == 0 {
            Seq::empty()
        } else {
            proof {
                assert(decreases_to!(pairs => pairs[0]));
            }
            seq![(pairs[0].0.interp(), pairs[0].1.interp())] + ValueOwned::interp_pairs(
                pairs.drop_first(),
            )
        }
    }

    /// Build an owned tree from a borrowed one, copying each string's bytes
    /// out of the source buffer. The abstract value is unchanged.
    pub fn from_borrow(b: &ValueBorrow, src: &[u8]) -> (r: ValueOwned)
        requires
            b.inv(src@),
        ensures
            r.interp() == b.interp(src@),
        decreases *b,
    {
        match b {
            ValueBorrow::Number(n) => ValueOwned::Number(*n),
            ValueBorrow::Text { start, end } => {
                let s = slice_subrange(src, *start, *end);
                ValueOwned::Text(slice_to_vec(s))
            },
            ValueBorrow::Array(elems) => {
                let ghost em = ValueBorrow::interp_elems(elems@, src@);
                proof {
                    lemma_interp_elems_index(elems@, src@);
                }
                let mut out: Vec<ValueOwned> = Vec::new();
                let mut i: usize = 0;
                while i < elems.len()
                    invariant
                        *b == ValueBorrow::Array(*elems),
                        b.inv(src@),
                        em == ValueBorrow::interp_elems(elems@, src@),
                        em.len() == elems@.len(),
                        forall|k: int|
                            0 <= k < elems@.len() ==> em[k] == (#[trigger] elems@[k]).interp(src@),
                        i <= elems@.len(),
                        out@.len() == i,
                        forall|k: int| 0 <= k < i ==> (#[trigger] out@[k]).interp() == em[k],
                    decreases elems@.len() - i,
                {
                    let e: &ValueBorrow = slice_index_get(elems.as_slice(), i);
                    proof {
                        lemma_inv_elems_index(elems@, src@, i as int);
                        assert(decreases_to!(*b => *elems));
                        assert(decreases_to!(*elems => elems@));
                        assert(decreases_to!(elems@ => elems@[i as int]));
                    }
                    let c = ValueOwned::from_borrow(e, src);
                    out.push(c);
                    i += 1;
                }
                proof {
                    lemma_owned_interp_elems_index(out@);
                    assert forall|k: int|
                        0 <= k < out@.len() implies ValueOwned::interp_elems(out@)[k] == em[k] by {
                        assert(out@[k].interp() == em[k]);
                    }
                    assert(ValueOwned::interp_elems(out@) =~= em);
                }
                let r = ValueOwned::Array(out);
                r
            },
            ValueBorrow::Object(pairs) => {
                let ghost pm = ValueBorrow::interp_pairs(pairs@, src@);
                proof {
                    lemma_interp_pairs_index(pairs@, src@);
                }
                let mut out: Vec<(ValueOwned, ValueOwned)> = Vec::new();
                let mut i: usize = 0;
                while i < pairs.len()
                    invariant
                        *b == ValueBorrow::Object(*pairs),
                        b.inv(src@),
                        pm == ValueBorrow::interp_pairs(pairs@, src@),
                        pm.len() == pairs@.len(),
                        forall|k: int|
                            0 <= k < pairs@.len() ==> pm[k] == ((#[trigger] pairs@[k]).0.interp(
                                src@,
                            ), pairs@[k].1.interp(src@)),
                        i <= pairs@.len(),
                        out@.len() == i,
                        forall|k: int|
                            0 <= k < i ==> ((#[trigger] out@[k]).0.interp(), out@[k].1.interp())
                                == pm[k],
                    decreases pairs@.len() - i,
                {
                    let p: &(ValueBorrow, ValueBorrow) = slice_index_get(pairs.as_slice(), i);
                    proof {
                        lemma_inv_pairs_index(pairs@, src@, i as int);
                        assert(decreases_to!(*b => *pairs));
                        assert(decreases_to!(*pairs => pairs@));
                        assert(decreases_to!(pairs@ => pairs@[i as int]));
                        assert(decreases_to!(pairs@[i as int] => pairs@[i as int].0));
                        assert(decreases_to!(pairs@[i as int] => pairs@[i as int].1));
                    }
                    let ck = ValueOwned::from_borrow(&p.0, src);
                    let cv = ValueOwned::from_borrow(&p.1, src);
                    out.push((ck, cv));
                    i += 1;
                }
                proof {
                    lemma_owned_interp_pairs_index(out@);
                    assert forall|k: int|
                        0 <= k < out@.len() implies ValueOwned::interp_pairs(out@)[k] == pm[k] by {
                        assert((out@[k].0.interp(), out@[k].1.interp()) == pm[k]);
                    }
                    assert(ValueOwned::interp_pairs(out@) =~= pm);
                }
                let r = ValueOwned::Object(out);
                r
            },
        }
    }
}

/// `interp_elems` interprets index-wise.
pub proof fn lemma_owned_interp_elems_index(elems: Seq<ValueOwned>)
    ensures
        ValueOwned::interp_elems(elems).len() == elems.len(),
        forall|i: int|
            0 <= i < elems.len() ==> ValueOwned::interp_elems(elems)[i] == (
            #[trigger] elems[i]).interp(),
    decreases elems.len(),
{
    if elems.len() > 0 {
        lemma_owned_interp_elems_index(elems.drop_first());
        assert forall|i: int| 0 <= i < elems.len() implies ValueOwned::interp_elems(elems)[i] == (
        #[trigger] elems[i]).interp() by {
            if i > 0 {
                assert(elems.drop_first()[i - 1] == elems[i]);
            }
        }
    }
}

/// `interp_pairs` interprets index-wise.
pub proof fn lemma_owned_interp_pairs_index(pairs: Seq<(ValueOwned, ValueOwned)>)
    ensures
        ValueOwned::interp_pairs(pairs).len() == pairs.len(),
        forall|i: int|
            0 <= i < pairs.len() ==> ValueOwned::interp_pairs(pairs)[i] == ((
            #[trigger] pairs[i]).0.interp(), pairs[i].1.interp()),
    decreases pairs.len(),
{
    if pairs.len() > 0 {
        lemma_owned_interp_pairs_index(pairs.drop_first());
        assert forall|i: int| 0 <= i < pairs.len() implies ValueOwned::interp_pairs(pairs)[i] == ((
        #[trigger] pairs[i]).0.interp(), pairs[i].1.interp()) by {
            if i > 0 {
                assert(pairs.drop_first()[i - 1] == pairs[i]);
            }
        }
    }
}

impl Queryable for ValueOwned {
    open spec fn wf(&self, src: Seq<u8>) -> bool {
        true
    }

    open spec fn model(&self, src: Seq<u8>) -> ValModel {
        self.interp()
    }

    fn get_all<'a>(&'a self, src: &[u8], key: &[u8]) -> (r: Vec<&'a Self>)
        decreases *self,
    {
        match self {
            ValueOwned::Number(_) => {
                let r: Vec<&ValueOwned> = Vec::new();
                r
            },
            ValueOwned::Text(_) => {
                let r: Vec<&ValueOwned> = Vec::new();
                r
            },
            ValueOwned::Object(pairs) => {
                let ghost pm = ValueOwned::interp_pairs(pairs@);
                proof {
                    lemma_owned_interp_pairs_index(pairs@);
                    assert(pm.subrange(0, 0) =~= Seq::<(ValModel, ValModel)>::empty());
                }
                let mut out: Vec<&ValueOwned> = Vec::new();
                let mut i: usize = 0;
                while i < pairs.len()
                    invariant
                        *self == ValueOwned::Object(*pairs),
                        pm == ValueOwned::interp_pairs(pairs@),
                        pm.len() == pairs@.len(),
                        forall|k: int|
                            0 <= k < pairs@.len() ==> pm[k] == ((#[trigger] pairs@[k]).0.interp(),
                            pairs@[k].1.interp()),
                        i <= pairs@.len(),
                        out@.len() == spec_get_all_map(pm.subrange(0, i as int), key@).len(),
                        forall|k: int|
                            0 <= k < out@.len() ==> (#[trigger] out@[k]).interp()
                                == spec_get_all_map(pm.subrange(0, i as int), key@)[k],
                    decreases pairs@.len() - i,
                {
                    let p: &(ValueOwned, ValueOwned) = slice_index_get(pairs.as_slice(), i);
                    let is_m: bool = match &p.0 {
                        ValueOwned::Text(s) => bytes_eq(s.as_slice(), key),
                        _ => false,
                    };
                    proof {
                        assert(is_m == key_matches(p.0.interp(), key@));
                        lemma_get_all_map_push(pm.subrange(0, i as int), pm[i as int], key@);
                        assert(pm.subrange(0, i + 1) =~= pm.subrange(0, i as int).push(
                            pm[i as int],
                        ));
                    }
                    if is_m {
                        out.push(&p.1);
                    }
                    i += 1;
                }
                proof {
                    assert(pm.subrange(0, pm.len() as int) =~= pm);
                    assert(self.interp() == ValModel::Object(pm));
                }
                out
            },
            ValueOwned::Array(elems) => {
                let ghost em = ValueOwned::interp_elems(elems@);
                proof {
                    lemma_owned_interp_elems_index(elems@);
                    assert(em.subrange(0, 0) =~= Seq::<ValModel>::empty());
                }
                let mut out: Vec<&ValueOwned> = Vec::new();
                let mut i: usize = 0;
                while i < elems.len()
                    invariant
                        *self == ValueOwned::Array(*elems),
                        em == ValueOwned::interp_elems(elems@),
                        em.len() == elems@.len(),
                        forall|k: int|
                            0 <= k < elems@.len() ==> em[k] == (#[trigger] elems@[k]).interp(),
                        i <= elems@.len(),
                        out@.len() == spec_get_all_elems(em.subrange(0, i as int), key@).len(),
                        forall|k: int|
                            0 <= k < out@.len() ==> (#[trigger] out@[k]).interp()
                                == spec_get_all_elems(em.subrange(0, i as int), key@)[k],
                    decreases elems@.len() - i,
                {
                    let e: &ValueOwned = slice_index_get(elems.as_slice(), i);
                    proof {
                        assert(decreases_to!(*self => self->Array_0));
                        assert(self->Array_0 == *elems);
                        assert(decreases_to!(*elems => elems@));
                        assert(decreases_to!(elems@ => elems@[i as int]));
                    }
                    let sub: Vec<&ValueOwned> = e.get_all(src, key);
                    let ghost out0 = out@;
                    let mut j: usize = 0;
                    while j < sub.len()
                        invariant
                            j <= sub@.len(),
                            out@ == out0 + sub@.subrange(0, j as int),
                        decreases sub@.len() - j,
                    {
                        proof {
                            assert(out0 + sub@.subrange(0, j + 1) =~= (out0 + sub@.subrange(
                                0,
                                j as int,
                            )).push(sub@[j as int]));
                        }
                        out.push(sub[j]);
                        j += 1;
                    }
                    proof {
                        assert(sub@.subrange(0, sub@.len() as int) =~= sub@);
                        lemma_get_all_elems_push(em.subrange(0, i as int), em[i as int], key@);
                        assert(em.subrange(0, i + 1) =~= em.subrange(0, i as int).push(
                            em[i as int],
                        ));
                        assert(forall|k: int|
                            0 <= k < out@.len() ==> (#[trigger] out@[k]).interp()
                                == spec_get_all_elems(em.subrange(0, i + 1), key@)[k]);
                    }
                    i += 1;
                }
                proof {
                    assert(em.subrange(0, em.len() as int) =~= em);
                    assert(self.interp() == ValModel::Array(em));
                }
                out
            },
        }
    }

    fn contains(&self, src: &[u8], needle: &[u8]) -> (r: bool) {
        match self {
            ValueOwned::Text(s) => contains_bytes(s.as_slice(), needle),
            _ => false,
        }
    }
}

} // verus!
