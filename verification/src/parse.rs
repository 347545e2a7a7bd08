//! The deserializer: one record's bytes into a borrowed value tree.
//!
//! The grammar is JSON restricted to the four representable cases: objects,
//! arrays, double-quoted strings, and integer numbers. A null, boolean or
//! float token, a string holding an escape sequence or a control byte, a
//! number outside the supported range, and any syntax error all fail the
//! record. Two deliberate policies: a string containing a backslash is
//! rejected rather than unescaped, and a number above the signed 64-bit
//! maximum but within unsigned 64-bit range wraps to a negative number — a
//! known limitation: such values silently alias negative numbers. String
//! content is taken as raw bytes.
//!
//! The functions `spec_parse_*` are the grammar's definition; the executable
//! parser returns exactly what they describe, for every input.

use crate::model::ValModel;
use crate::value_borrow::ValueBorrow;
use vstd::prelude::*;
use vstd::slice::slice_index_get;

verus! {

/// JSON whitespace: space, tab, line feed, carriage return.
pub open spec fn is_ws(b: u8) -> bool {
    b == 0x20 || b == 0x09 || b == 0x0A || b == 0x0D
}

/// An ASCII decimal digit.
pub open spec fn is_digit(b: u8) -> bool {
    0x30 <= b <= 0x39
}

/// The first position at or after `i` holding a non-whitespace byte, or the
/// end of the input.
pub open spec fn spec_skip_ws(s: Seq<u8>, i: int) -> int
    decreases s.len() - i,
{
    if 0 <= i && i < s.len() && is_ws(s[i]) {
        spec_skip_ws(s, i + 1)
    } else {
        i
    }
}

pub proof fn lemma_skip_ws(s: Seq<u8>, i: int)
    requires
        0 <= i <= s.len(),
    ensures
        i <= spec_skip_ws(s, i) <= s.len(),
        spec_skip_ws(s, i) < s.len() ==> !is_ws(s[spec_skip_ws(s, i)]),
    decreases s.len() - i,
{
    if i < s.len() && is_ws(s[i]) {
        lemma_skip_ws(s, i + 1);
    }
}

/// The position of the closing quote of a string whose content begins at
/// `i`: the first quote at or after `i`, provided neither a backslash nor a
/// control byte stands before it; `None` for an unterminated, escaped or
/// control-carrying string.
pub open spec fn spec_str_end(s: Seq<u8>, i: int) -> Option<int>
    decreases s.len() - i,
{
    if !(0 <= i && i < s.len()) {
        None
    } else if s[i] == 0x22 {
        Some(i)
    } else if s[i] == 0x5C || s[i] < 0x20 {
        None
    } else {
        spec_str_end(s, i + 1)
    }
}

/// The value and end position of the run of digits starting at `i`, read
/// left to right onto the accumulator `acc`.
pub open spec fn spec_digits_from(s: Seq<u8>, i: int, acc: nat) -> (nat, int)
    decreases s.len() - i,
{
    if 0 <= i && i < s.len() && is_digit(s[i]) {
        spec_digits_from(s, i + 1, acc * 10 + (s[i] - 0x30) as nat)
    } else {
        (acc, i)
    }
}

pub proof fn lemma_digits_bounds(s: Seq<u8>, i: int, acc: nat)
    requires
        0 <= i <= s.len(),
    ensures
        ({
            let (v, e) = spec_digits_from(s, i, acc);
            &&& i <= e <= s.len()
            &&& v >= acc
            &&& (i < s.len() && is_digit(s[i])) ==> e >= i + 1
        }),
    decreases s.len() - i,
{
    if i < s.len() && is_digit(s[i]) {
        let acc2 = acc * 10 + (s[i] - 0x30) as nat;
        assert(acc2 >= acc);
        lemma_digits_bounds(s, i + 1, acc2);
    }
}

/// The digit run starting at `i` (which must hold a digit), under the
/// leading-zero rule: a leading zero stands alone, as in JSON.
pub open spec fn spec_digits_run(s: Seq<u8>, i: int) -> (nat, int) {
    if 0 <= i && i < s.len() && s[i] == 0x30 {
        (0 as nat, i + 1)
    } else {
        spec_digits_from(s, i, 0)
    }
}

/// An unsigned 64-bit value reinterpreted as signed: values above the
/// signed maximum wrap to negative numbers.
pub open spec fn wrap_u64(v: nat) -> int {
    if v <= 0x7FFF_FFFF_FFFF_FFFF {
        v as int
    } else {
        v as int - 0x1_0000_0000_0000_0000
    }
}

/// A number token at `i` (whose first byte is '-' or a digit). A negative
/// number below the signed 64-bit minimum fails; a positive number within
/// unsigned 64-bit range wraps; one above it fails.
pub open spec fn spec_parse_number(s: Seq<u8>, i: int) -> Option<(ValModel, int)> {
    if !(0 <= i && i < s.len()) {
        None
    } else if s[i] == 0x2D {
        if i + 1 < s.len() && is_digit(s[i + 1]) {
            let (v, j) = spec_digits_run(s, i + 1);
            if v <= 0x8000_0000_0000_0000 {
                Some((ValModel::Number(-(v as int)), j))
            } else {
                None
            }
        } else {
            None
        }
    } else if is_digit(s[i]) {
        let (v, j) = spec_digits_run(s, i);
        if v <= 0xFFFF_FFFF_FFFF_FFFF {
            Some((ValModel::Number(wrap_u64(v)), j))
        } else {
            None
        }
    } else {
        None
    }
}

/// A value at `i`: leading whitespace, then an object, array, string or
/// number. The returned position stands just past the value.
pub open spec fn spec_parse_value(s: Seq<u8>, i: int) -> Option<(ValModel, int)>
    decreases s.len() - i, 1int,
{
    if !(0 <= i <= s.len()) {
        None
    } else {
        let j = spec_skip_ws(s, i);
        proof {
            lemma_skip_ws(s, i);
        }
        if j >= s.len() {
            None
        } else if s[j] == 0x7B {
            match spec_parse_pairs(s, j + 1) {
                Some((pm, k)) => Some((ValModel::Object(pm), k)),
                None => None,
            }
        } else if s[j] == 0x5B {
            match spec_parse_elems(s, j + 1) {
                Some((ms, k)) => Some((ValModel::Array(ms), k)),
                None => None,
            }
        } else if s[j] == 0x22 {
            match spec_str_end(s, j + 1) {
                Some(e) => Some((ValModel::Text(s.subrange(j + 1, e)), e + 1)),
                None => None,
            }
        } else if s[j] == 0x2D || is_digit(s[j]) {
            spec_parse_number(s, j)
        } else {
            None
        }
    }
}

/// The elements of an array, starting just past the '[': either a closing
/// bracket at once, or one or more comma-separated values.
pub open spec fn spec_parse_elems(s: Seq<u8>, i: int) -> Option<(Seq<ValModel>, int)>
    decreases s.len() - i, 3int,
{
    if !(0 <= i <= s.len()) {
        None
    } else {
        let j = spec_skip_ws(s, i);
        proof {
            lemma_skip_ws(s, i);
        }
        if j < s.len() && s[j] == 0x5D {
            Some((Seq::empty(), j + 1))
        } else {
            spec_parse_elems_more(s, i)
        }
    }
}

/// One or more comma-separated values, then the closing bracket.
pub open spec fn spec_parse_elems_more(s: Seq<u8>, i: int) -> Option<(Seq<ValModel>, int)>
    decreases s.len() - i, 2int,
{
    if !(0 <= i <= s.len()) {
        None
    } else {
        match spec_parse_value(s, i) {
            None => None,
            Some((m, k)) => if !(i < k <= s.len()) {
                None
            } else {
                let k2 = spec_skip_ws(s, k);
                proof {
                    lemma_skip_ws(s, k);
                }
                if k2 >= s.len() {
                    None
                } else if s[k2] == 0x2C {
                    match spec_parse_elems_more(s, k2 + 1) {
                        Some((ms, e)) => Some((seq![m] + ms, e)),
                        None => None,
                    }
                } else if s[k2] == 0x5D {
                    Some((seq![m], k2 + 1))
                } else {
                    None
                }
            },
        }
    }
}

/// The pairs of an object, starting just past the '{': either a closing
/// brace at once, or one or more comma-separated key/value pairs.
pub open spec fn spec_parse_pairs(s: Seq<u8>, i: int) -> Option<(Seq<(ValModel, ValModel)>, int)>
    decreases s.len() - i, 3int,
{
    if !(0 <= i <= s.len()) {
        None
    } else {
        let j = spec_skip_ws(s, i);
        proof {
            lemma_skip_ws(s, i);
        }
        if j < s.len() && s[j] == 0x7D {
            Some((Seq::empty(), j + 1))
        } else {
            spec_parse_pairs_more(s, i)
        }
    }
}

/// One or more comma-separated key/value pairs, then the closing brace.
/// Any value may stand in key position; only string keys ever match a
/// string-keyed query.
pub open spec fn spec_parse_pairs_more(s: Seq<u8>, i: int) -> Option<
    (Seq<(ValModel, ValModel)>, int),
>
    decreases s.len() - i, 2int,
{
    if !(0 <= i <= s.len()) {
        None
    } else {
        match spec_parse_value(s, i) {
            None => None,
            Some((km, k)) => if !(i < k <= s.len()) {
                None
            } else {
                let k2 = spec_skip_ws(s, k);
                proof {
                    lemma_skip_ws(s, k);
                }
                if k2 >= s.len() || s[k2] != 0x3A {
                    None
                } else {
                    match spec_parse_value(s, k2 + 1) {
                        None => None,
                        Some((vm, p)) => if !(k2 < p <= s.len()) {
                            None
                        } else {
                            let p2 = spec_skip_ws(s, p);
                            proof {
                                lemma_skip_ws(s, p);
                            }
                            if p2 >= s.len() {
                                None
                            } else if s[p2] == 0x2C {
                                match spec_parse_pairs_more(s, p2 + 1) {
                                    Some((pm, e)) => Some((seq![(km, vm)] + pm, e)),
                                    None => None,
                                }
                            } else if s[p2] == 0x7D {
                                Some((seq![(km, vm)], p2 + 1))
                            } else {
                                None
                            }
                        },
                    }
                }
            },
        }
    }
}

/// A whole record: exactly one value with nothing but whitespace around it.
pub open spec fn spec_parse_record(s: Seq<u8>) -> Option<ValModel> {
    match spec_parse_value(s, 0) {
        Some((m, j)) => if spec_skip_ws(s, j) == s.len() {
            Some(m)
        } else {
            None
        },
        None => None,
    }
}

/// First non-whitespace position at or after `i`.
fn skip_ws(s: &[u8], i: usize) -> (r: usize)
    requires
        i <= s@.len(),
    ensures
        r as int == spec_skip_ws(s@, i as int),
        i <= r <= s@.len(),
    decreases s@.len() - i,
{
    if i < s.len() {
        let b: u8 = *slice_index_get(s, i);
        if b == 0x20 || b == 0x09 || b == 0x0A || b == 0x0D {
            return skip_ws(s, i + 1);
        }
    }
    i
}

/// Scan for a string's closing quote.
fn str_end(s: &[u8], i: usize) -> (r: Option<usize>)
    requires
        i <= s@.len(),
    ensures
        match r {
            Some(e) => spec_str_end(s@, i as int) == Some(e as int) && i <= e < s@.len(),
            None => spec_str_end(s@, i as int) is None,
        },
    decreases s@.len() - i,
{
    if i >= s.len() {
        return None;
    }
    let b: u8 = *slice_index_get(s, i);
    if b == 0x22 {
        Some(i)
    } else if b == 0x5C || b < 0x20 {
        None
    } else {
        str_end(s, i + 1)
    }
}

/// Accumulate a digit run; `None` only when the value exceeds unsigned
/// 64-bit range.
fn digits_from(s: &[u8], i: usize, acc: u64) -> (r: Option<(u64, usize)>)
    requires
        i <= s@.len(),
    ensures
        match r {
            Some((v, e)) => v as nat == spec_digits_from(s@, i as int, acc as nat).0 && e as int
                == spec_digits_from(s@, i as int, acc as nat).1,
            None => spec_digits_from(s@, i as int, acc as nat).0 > u64::MAX,
        },
    decreases s@.len() - i,
{
    if i < s.len() {
        let b: u8 = *slice_index_get(s, i);
        if 0x30 <= b && b <= 0x39 {
            let d: u64 = (b - 0x30) as u64;
            let ghost acc2_spec = (acc as nat) * 10 + (s@[i as int] - 0x30) as nat;
            proof {
                lemma_digits_bounds(s@, i + 1, acc2_spec);
            }
            let acc10: u64 = match acc.checked_mul(10) {
                Some(x) => x,
                None => {
                    proof {
                        assert(acc2_spec >= (acc as nat) * 10);
                    }
                    return None;
                },
            };
            let acc2: u64 = match acc10.checked_add(d) {
                Some(x) => x,
                None => {
                    return None;
                },
            };
            return digits_from(s, i + 1, acc2);
        }
    }
    Some((acc, i))
}

/// A digit run under the leading-zero rule.
fn digits_run(s: &[u8], i: usize) -> (r: Option<(u64, usize)>)
    requires
        i < s@.len(),
        is_digit(s@[i as int]),
    ensures
        match r {
            Some((v, e)) => v as nat == spec_digits_run(s@, i as int).0 && e as int
                == spec_digits_run(s@, i as int).1 && i < e <= s@.len(),
            None => spec_digits_run(s@, i as int).0 > u64::MAX,
        },
{
    let n = s.len();
    let b: u8 = *slice_index_get(s, i);
    if b == 0x30 {
        Some((0, i + 1))
    } else {
        proof {
            lemma_digits_bounds(s@, i as int, 0);
        }
        digits_from(s, i, 0)
    }
}

/// A number token.
fn parse_number(s: &[u8], i: usize) -> (r: Option<(ValueBorrow, usize)>)
    requires
        i < s@.len(),
    ensures
        match r {
            Some((v, j)) => spec_parse_number(s@, i as int) == Some((v.interp(s@), j as int))
                && v.inv(s@) && i < j <= s@.len(),
            None => spec_parse_number(s@, i as int) is None,
        },
{
    let n = s.len();
    let b: u8 = *slice_index_get(s, i);
    if b == 0x2D {
        if i + 1 < n {
            let b2: u8 = *slice_index_get(s, i + 1);
            if 0x30 <= b2 && b2 <= 0x39 {
                return match digits_run(s, i + 1) {
                    Some((v, j)) => {
                        if v <= 0x7FFF_FFFF_FFFF_FFFFu64 {
                            Some((ValueBorrow::Number(-(v as i64)), j))
                        } else if v == 0x8000_0000_0000_0000u64 {
                            Some((ValueBorrow::Number(i64::MIN), j))
                        } else {
                            None
                        }
                    },
                    None => None,
                };
            }
        }
        None
    } else if 0x30 <= b && b <= 0x39 {
        match digits_run(s, i) {
            Some((v, j)) => {
                let n: i64 = if v <= 0x7FFF_FFFF_FFFF_FFFFu64 {
                    v as i64
                } else {
                    let w: u64 = v - 0x8000_0000_0000_0000u64;
                    (w as i64) + i64::MIN
                };
                proof {
                    assert(n as int == wrap_u64(v as nat));
                }
                Some((ValueBorrow::Number(n), j))
            },
            None => None,
        }
    } else {
        None
    }
}

/// A value: leading whitespace, then an object, array, string or number.
fn parse_value(s: &[u8], i: usize) -> (r: Option<(ValueBorrow, usize)>)
    requires
        i <= s@.len(),
    ensures
        match r {
            Some((v, j)) => spec_parse_value(s@, i as int) == Some((v.interp(s@), j as int))
                && v.inv(s@) && i < j <= s@.len(),
            None => spec_parse_value(s@, i as int) is None,
        },
    decreases s@.len() - i, 1int,
{
    let j = skip_ws(s, i);
    if j >= s.len() {
        return None;
    }
    let b: u8 = *slice_index_get(s, j);
    if b == 0x7B {
        match parse_pairs(s, j + 1) {
            Some((vs, k)) => {
                let v = ValueBorrow::Object(vs);
                proof {
                    assert(v.interp(s@) == ValModel::Object(
                        ValueBorrow::interp_pairs(v->Object_0@, s@),
                    ));
                }
                Some((v, k))
            },
            None => None,
        }
    } else if b == 0x5B {
        match parse_elems(s, j + 1) {
            Some((vs, k)) => {
                let v = ValueBorrow::Array(vs);
                proof {
                    assert(v.interp(s@) == ValModel::Array(
                        ValueBorrow::interp_elems(v->Array_0@, s@),
                    ));
                }
                Some((v, k))
            },
            None => None,
        }
    } else if b == 0x22 {
        match str_end(s, j + 1) {
            Some(e) => Some((ValueBorrow::Text { start: j + 1, end: e }, e + 1)),
            None => None,
        }
    } else if b == 0x2D || (0x30 <= b && b <= 0x39) {
        parse_number(s, j)
    } else {
        None
    }
}

/// An array's elements, just past the '['.
fn parse_elems(s: &[u8], i: usize) -> (r: Option<(Vec<ValueBorrow>, usize)>)
    requires
        i <= s@.len(),
    ensures
        match r {
            Some((vs, e)) => spec_parse_elems(s@, i as int) == Some(
                (ValueBorrow::interp_elems(vs@, s@), e as int),
            ) && ValueBorrow::inv_elems(vs@, s@) && i < e <= s@.len(),
            None => spec_parse_elems(s@, i as int) is None,
        },
    decreases s@.len() - i, 3int,
{
    let j = skip_ws(s, i);
    if j < s.len() {
        let b: u8 = *slice_index_get(s, j);
        if b == 0x5D {
            let vs: Vec<ValueBorrow> = Vec::new();
            proof {
                assert(ValueBorrow::interp_elems(vs@, s@) =~= Seq::<ValModel>::empty());
            }
            return Some((vs, j + 1));
        }
    }
    parse_elems_more(s, i)
}

/// One or more comma-separated elements, then the closing bracket.
fn parse_elems_more(s: &[u8], i: usize) -> (r: Option<(Vec<ValueBorrow>, usize)>)
    requires
        i <= s@.len(),
    ensures
        match r {
            Some((vs, e)) => spec_parse_elems_more(s@, i as int) == Some(
                (ValueBorrow::interp_elems(vs@, s@), e as int),
            ) && ValueBorrow::inv_elems(vs@, s@) && i < e <= s@.len(),
            None => spec_parse_elems_more(s@, i as int) is None,
        },
    decreases s@.len() - i, 2int,
{
    match parse_value(s, i) {
        None => None,
        Some((v, k)) => {
            let k2 = skip_ws(s, k);
            if k2 >= s.len() {
                return None;
            }
            let b: u8 = *slice_index_get(s, k2);
            if b == 0x2C {
                match parse_elems_more(s, k2 + 1) {
                    Some((rest, e)) => {
                        let ghost rest0 = rest@;
                        let ghost m = v.interp(s@);
                        let mut vs = rest;
                        vs.insert(0, v);
                        proof {
                            assert(vs@ =~= seq![v] + rest0);
                            assert(vs@[0] == v);
                            assert(vs@.drop_first() =~= rest0);
                            assert(ValueBorrow::interp_elems(vs@, s@) == seq![m]
                                + ValueBorrow::interp_elems(rest0, s@));
                            assert(ValueBorrow::inv_elems(vs@, s@));
                        }
                        Some((vs, e))
                    },
                    None => None,
                }
            } else if b == 0x5D {
                let mut vs: Vec<ValueBorrow> = Vec::new();
                let ghost m = v.interp(s@);
                vs.push(v);
                proof {
                    assert(vs@[0] == v);
                    assert(vs@.drop_first() =~= Seq::<ValueBorrow>::empty());
                    assert(ValueBorrow::interp_elems(Seq::<ValueBorrow>::empty(), s@) == Seq::<
                        ValModel,
                    >::empty());
                    assert(ValueBorrow::inv_elems(Seq::<ValueBorrow>::empty(), s@));
                    assert(ValueBorrow::interp_elems(vs@, s@) =~= seq![m]);
                    assert(ValueBorrow::inv_elems(vs@, s@));
                }
                Some((vs, k2 + 1))
            } else {
                None
            }
        },
    }
}

/// An object's pairs, just past the '{'.
fn parse_pairs(s: &[u8], i: usize) -> (r: Option<(Vec<(ValueBorrow, ValueBorrow)>, usize)>)
    requires
        i <= s@.len(),
    ensures
        match r {
            Some((vs, e)) => spec_parse_pairs(s@, i as int) == Some(
                (ValueBorrow::interp_pairs(vs@, s@), e as int),
            ) && ValueBorrow::inv_pairs(vs@, s@) && i < e <= s@.len(),
            None => spec_parse_pairs(s@, i as int) is None,
        },
    decreases s@.len() - i, 3int,
{
    let j = skip_ws(s, i);
    if j < s.len() {
        let b: u8 = *slice_index_get(s, j);
        if b == 0x7D {
            let vs: Vec<(ValueBorrow, ValueBorrow)> = Vec::new();
            proof {
                assert(ValueBorrow::interp_pairs(vs@, s@) =~= Seq::<(ValModel, ValModel)>::empty());
            }
            return Some((vs, j + 1));
        }
    }
    parse_pairs_more(s, i)
}

/// One or more comma-separated key/value pairs, then the closing brace.
fn parse_pairs_more(s: &[u8], i: usize) -> (r: Option<(Vec<(ValueBorrow, ValueBorrow)>, usize)>)
    requires
        i <= s@.len(),
    ensures
        match r {
            Some((vs, e)) => spec_parse_pairs_more(s@, i as int) == Some(
                (ValueBorrow::interp_pairs(vs@, s@), e as int),
            ) && ValueBorrow::inv_pairs(vs@, s@) && i < e <= s@.len(),
            None => spec_parse_pairs_more(s@, i as int) is None,
        },
    decreases s@.len() - i, 2int,
{
    match parse_value(s, i) {
        None => None,
        Some((kv, k)) => {
            let k2 = skip_ws(s, k);
            if k2 >= s.len() {
                return None;
            }
            let bc: u8 = *slice_index_get(s, k2);
            if bc != 0x3A {
                return None;
            }
            match parse_value(s, k2 + 1) {
                None => None,
                Some((vv, p)) => {
                    let p2 = skip_ws(s, p);
                    if p2 >= s.len() {
                        return None;
                    }
                    let b: u8 = *slice_index_get(s, p2);
                    if b == 0x2C {
                        match parse_pairs_more(s, p2 + 1) {
                            Some((rest, e)) => {
                                let ghost rest0 = rest@;
                                let ghost km = kv.interp(s@);
                                let ghost vm = vv.interp(s@);
                                let mut vs = rest;
                                vs.insert(0, (kv, vv));
                                proof {
                                    assert(vs@[0].0 == kv && vs@[0].1 == vv);
                                    assert(vs@.drop_first() =~= rest0);
                                    assert(ValueBorrow::interp_pairs(vs@, s@) == seq![(km, vm)]
                                        + ValueBorrow::interp_pairs(rest0, s@));
                                    assert(ValueBorrow::inv_pairs(vs@, s@));
                                }
                                Some((vs, e))
                            },
                            None => None,
                        }
                    } else if b == 0x7D {
                        let mut vs: Vec<(ValueBorrow, ValueBorrow)> = Vec::new();
                        let ghost km = kv.interp(s@);
                        let ghost vm = vv.interp(s@);
                        vs.push((kv, vv));
                        proof {
                            assert(vs@[0].0 == kv && vs@[0].1 == vv);
                            assert(vs@.drop_first() =~= Seq::<(ValueBorrow, ValueBorrow)>::empty());
                            assert(ValueBorrow::interp_pairs(
                                Seq::<(ValueBorrow, ValueBorrow)>::empty(),
                                s@,
                            ) == Seq::<(ValModel, ValModel)>::empty());
                            assert(ValueBorrow::inv_pairs(
                                Seq::<(ValueBorrow, ValueBorrow)>::empty(),
                                s@,
                            ));
                            assert(ValueBorrow::interp_pairs(vs@, s@) =~= seq![(km, vm)]);
                            assert(ValueBorrow::inv_pairs(vs@, s@));
                        }
                        Some((vs, p2 + 1))
                    } else {
                        None
                    }
                },
            }
        },
    }
}

/// Deserialize one record: exactly one value, with nothing but whitespace
/// around it, as a borrowed tree over the record's bytes. Returns `None` on
/// exactly the inputs the grammar rejects.
pub fn parse_record(s: &[u8]) -> (r: Option<ValueBorrow>)
    ensures
        match r {
            Some(v) => spec_parse_record(s@) == Some(v.interp(s@)) && v.inv(s@),
            None => spec_parse_record(s@) is None,
        },
{
    match parse_value(s, 0) {
        Some((v, j)) => {
            let j2 = skip_ws(s, j);
            if j2 == s.len() {
                Some(v)
            } else {
                None
            }
        },
        None => None,
    }
}

} // verus!
