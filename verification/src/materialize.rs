//! The response materializer: strict structural decoding of the `.result`
//! projection of the node's responses into the domain records, failing with
//! `ShapeMismatch` wherever a required field is absent or of the wrong
//! primitive type.
//!
//! Integer fields must be plain integer tokens.  Amount fields are coin
//! values with at most eight fractional digits; they decode to zatoshis and
//! must stay within `AMOUNT_LIMIT_ZATS` in magnitude.  Missing numeric
//! fields are never defaulted.

use vstd::prelude::*;

use crate::errors::ClientError;
use crate::jsontext::{
    bytes_of_ascii, dot_in, obj_field, obj_field2, obj_field2_exec, obj_field_exec, scan_string,
    scan_number, scan_value, skip_ws, str_content, whole_value, whole_value_exec, find_member,
    lemma_find_member, lemma_obj_field2, lemma_scan_string, lemma_scan_value, lemma_skip_ws,
    pos_match, scan_string_exec, skip_ws_exec, str_bytes,
};
use crate::numbers::{
    all_digits, dec_digits, digit_run_end, digits_val, digits_value_u64, is_digit,
    lemma_dec_digits_len, lemma_dec_digits_val, lemma_digit_run_end, lemma_digits_val_bounds,
    lemma_zero_digits, pow10, scan_digits, zero_digits,
};
use crate::rpc::{
    lemma_digit_run_exact, lemma_starts_with_index, lemma_str_body_of_plain, quoted, starts_with,
};
use crate::records::{
    BlockSupplyInfo, BlockSupplyInfoV, ChainInfo, ChainInfoV, PoolEntry, PoolEntryV, SupplyInfo,
    AMOUNT_LIMIT_ZATS, ZATS_PER_COIN,
};

verus! {

/// Numeric value of the integer token filling the span `[i, e)`: an
/// optional minus sign and nothing but digits.
pub open spec fn int_span_val(s: Seq<u8>, i: nat, e: nat) -> Option<int> {
    if i < e <= s.len() {
        let neg = s[i as int] == 0x2d;
        let st: nat = if neg {
            i + 1
        } else {
            i
        };
        if st < e && all_digits(s.subrange(st as int, e as int)) {
            if neg {
                Some(-digits_val(s.subrange(st as int, e as int)))
            } else {
                Some(digits_val(s.subrange(st as int, e as int)))
            }
        } else {
            None
        }
    } else {
        None
    }
}

/// Zatoshi value of the amount token filling the span `[i, e)`: an optional
/// minus sign, whole-coin digits, and an optional fraction of one to eight
/// digits.
pub open spec fn amount_span_zats(s: Seq<u8>, i: nat, e: nat) -> Option<int> {
    if i < e <= s.len() {
        let neg = s[i as int] == 0x2d;
        let st: nat = if neg {
            i + 1
        } else {
            i
        };
        if st < e {
            match dot_in(s, st, e) {
                None => {
                    match int_span_val(s, i, e) {
                        Some(v) => Some(v * ZATS_PER_COIN),
                        None => None,
                    }
                },
                Some(p) => {
                    if st < p && p + 1 < e && e - p - 1 <= 8 && all_digits(
                        s.subrange(st as int, p as int),
                    ) && all_digits(s.subrange(p + 1 as int, e as int)) {
                        let coins = digits_val(s.subrange(st as int, p as int));
                        let frac = digits_val(s.subrange(p + 1 as int, e as int));
                        let mag = coins * ZATS_PER_COIN + frac * pow10((8 - (e - p - 1)) as nat);
                        if neg {
                            Some(-mag)
                        } else {
                            Some(mag)
                        }
                    } else {
                        None
                    }
                },
            }
        } else {
            None
        }
    } else {
        None
    }
}

/// Boolean value of the literal filling the span `[i, e)`.
pub open spec fn bool_span_val(s: Seq<u8>, i: nat, e: nat) -> Option<bool> {
    if i + 4 == e && e <= s.len() && s[i as int] == 0x74 && s[i + 1 as int] == 0x72 && s[i
        + 2 as int] == 0x75 && s[i + 3 as int] == 0x65 {
        Some(true)
    } else if i + 5 == e && e <= s.len() && s[i as int] == 0x66 && s[i + 1 as int] == 0x61 && s[i
        + 2 as int] == 0x6c && s[i + 3 as int] == 0x73 && s[i + 4 as int] == 0x65 {
        Some(false)
    } else {
        None
    }
}

/// Text of the string literal filling the span `[i, e)`.
pub open spec fn str_span_content(s: Seq<u8>, i: nat, e: nat) -> Option<Seq<u8>> {
    if scan_string(s, i) == Some(e) {
        Some(str_content(s, i, e))
    } else {
        None
    }
}

/// Decodes the span as a signed integer with magnitude at most `max`.
pub fn decode_int_span(s: &[u8], i: usize, e: usize, max: u64) -> (r: Option<(bool, u64)>)
    requires
        i <= e <= s@.len(),
    ensures
        match int_span_val(s@, i as nat, e as nat) {
            Some(v) => {
                if -(max as int) <= v <= max as int {
                    &&& r is Some
                    &&& (r->0).1 <= max
                    &&& v == if (r->0).0 {
                        -((r->0).1 as int)
                    } else {
                        (r->0).1 as int
                    }
                } else {
                    r is None
                }
            },
            None => r is None,
        },
{
    if i >= e {
        return None;
    }
    let neg = s[i] == 0x2d;
    let st = if neg {
        i + 1
    } else {
        i
    };
    if st >= e {
        return None;
    }
    let de = scan_digits(s, st);
    proof {
        lemma_digit_run_end(s@, st as nat);
    }
    if de < e {
        proof {
            if all_digits(s@.subrange(st as int, e as int)) {
                assert(s@.subrange(st as int, e as int)[de - st] == s@[de as int]);
            }
        }
        return None;
    }
    assert(forall|k: int|
        st <= k < e ==> is_digit(#[trigger] s@[k]));
    assert(all_digits(s@.subrange(st as int, e as int)));
    proof {
        lemma_digits_val_bounds(s@.subrange(st as int, e as int));
    }
    match digits_value_u64(s, st, e, max) {
        Some(m) => Some((neg, m)),
        None => None,
    }
}

/// Ten to the `k`, executable for `k` up to eight.
pub fn pow10_u64(k: u64) -> (r: u64)
    requires
        k <= 8,
    ensures
        r as int == pow10(k as nat),
{
    proof {
        reveal_with_fuel(pow10, 10);
    }
    if k == 0 {
        1
    } else if k == 1 {
        10
    } else if k == 2 {
        100
    } else if k == 3 {
        1000
    } else if k == 4 {
        10000
    } else if k == 5 {
        100000
    } else if k == 6 {
        1000000
    } else if k == 7 {
        10000000
    } else {
        100000000
    }
}

/// Finds the first `.` in `[i, e)`.
pub fn find_dot(s: &[u8], i: usize, e: usize) -> (r: Option<usize>)
    requires
        i <= e <= s@.len(),
    ensures
        pos_match(r, dot_in(s@, i as nat, e as nat)),
{
    let mut k = i;
    while k < e
        invariant
            i <= k <= e <= s@.len(),
            dot_in(s@, i as nat, e as nat) == dot_in(s@, k as nat, e as nat),
        decreases e - k,
    {
        if s[k] == 0x2e {
            assert(dot_in(s@, k as nat, e as nat) == Some(k as nat));
            return Some(k);
        }
        assert(dot_in(s@, k as nat, e as nat) == dot_in(s@, (k + 1) as nat, e as nat));
        k = k + 1;
    }
    assert(dot_in(s@, k as nat, e as nat) is None);
    None
}

/// Decodes the span as a zatoshi amount, refusing magnitudes beyond
/// `AMOUNT_LIMIT_ZATS`.
pub fn decode_amount_span(s: &[u8], i: usize, e: usize) -> (r: Result<i64, ClientError>)
    requires
        i <= e <= s@.len(),
    ensures
        match amount_span_zats(s@, i as nat, e as nat) {
            Some(v) => {
                if -AMOUNT_LIMIT_ZATS <= v <= AMOUNT_LIMIT_ZATS {
                    r == Ok::<i64, ClientError>(v as i64)
                } else {
                    r == Err::<i64, ClientError>(ClientError::ShapeMismatch)
                }
            },
            None => r == Err::<i64, ClientError>(ClientError::ShapeMismatch),
        },
{
    if i >= e {
        return Err(ClientError::ShapeMismatch);
    }
    let neg = s[i] == 0x2d;
    let st = if neg {
        i + 1
    } else {
        i
    };
    if st >= e {
        return Err(ClientError::ShapeMismatch);
    }
    match find_dot(s, st, e) {
        None => {
            // Whole-coin token: decode the integer and scale.
            match decode_int_span(s, i, e, 10_000_000_000u64) {
                Some((sg, coins)) => {
                    let zats = coins * 100_000_000u64;
                    assert(zats <= 1_000_000_000_000_000_000u64);
                    if sg {
                        Ok(0i64 - zats as i64)
                    } else {
                        Ok(zats as i64)
                    }
                },
                None => {
                    proof {
                        match int_span_val(s@, i as nat, e as nat) {
                            Some(v) => {
                                assert(v > 10_000_000_000 || v < -10_000_000_000);
                            },
                            None => {},
                        }
                    }
                    Err(ClientError::ShapeMismatch)
                },
            }
        },
        Some(p) => {
            proof {
                crate::jsontext::lemma_dot_in(s@, st as nat, e as nat);
            }
            if !(st < p && p + 1 < e && e - p - 1 <= 8) {
                return Err(ClientError::ShapeMismatch);
            }
            let de = scan_digits(s, st);
            proof {
                lemma_digit_run_end(s@, st as nat);
            }
            if de < p {
                proof {
                    if all_digits(s@.subrange(st as int, p as int)) {
                        assert(s@.subrange(st as int, p as int)[de - st] == s@[de as int]);
                    }
                }
                return Err(ClientError::ShapeMismatch);
            }
            assert(all_digits(s@.subrange(st as int, p as int)));
            let fe = scan_digits(s, p + 1);
            proof {
                lemma_digit_run_end(s@, (p + 1) as nat);
            }
            if fe < e {
                proof {
                    if all_digits(s@.subrange(p + 1 as int, e as int)) {
                        assert(s@.subrange(p + 1 as int, e as int)[fe - (p + 1)] == s@[
                            fe as int]);
                    }
                }
                return Err(ClientError::ShapeMismatch);
            }
            assert(all_digits(s@.subrange(p + 1 as int, e as int)));
            let coins = match digits_value_u64(s, st, p, 10_000_000_000u64) {
                Some(c) => c,
                None => {
                    proof {
                        let cv = digits_val(s@.subrange(st as int, p as int));
                        let fv = digits_val(s@.subrange(p + 1 as int, e as int));
                        lemma_digits_val_bounds(s@.subrange(p + 1 as int, e as int));
                        crate::numbers::lemma_pow10_pos((8 - (e - p - 1)) as nat);
                        assert(cv * 100_000_000 > 1_000_000_000_000_000_000) by (nonlinear_arith)
                            requires
                                cv > 10_000_000_000,
                        ;
                        assert(fv * pow10((8 - (e - p - 1)) as nat) >= 0) by (nonlinear_arith)
                            requires
                                fv >= 0,
                                pow10((8 - (e - p - 1)) as nat) >= 1,
                        ;
                    }
                    return Err(ClientError::ShapeMismatch);
                },
            };
            let frac = match digits_value_u64(s, p + 1, e, 99_999_999u64) {
                Some(f) => f,
                None => {
                    proof {
                        lemma_digits_val_bounds(s@.subrange(p + 1 as int, e as int));
                        reveal_with_fuel(pow10, 10);
                        assert(pow10((e - p - 1) as nat) <= pow10(8));
                    }
                    assert(false);
                    return Err(ClientError::ShapeMismatch);
                },
            };
            let scale = pow10_u64(8 - (e - p - 1) as u64);
            assert(scale <= 100_000_000) by {
                reveal_with_fuel(pow10, 10);
            }
            proof {
                lemma_digits_val_bounds(s@.subrange(st as int, p as int));
                lemma_digits_val_bounds(s@.subrange(p + 1 as int, e as int));
                assert((frac as int) * (scale as int) <= 99_999_999int * 100_000_000int)
                    by (nonlinear_arith)
                    requires
                        frac <= 99_999_999u64,
                        scale <= 100_000_000u64,
                ;
            }
            let fzats = frac * scale;
            let zats = coins * 100_000_000u64 + fzats;
            if zats > 1_000_000_000_000_000_000u64 {
                return Err(ClientError::ShapeMismatch);
            }
            if neg {
                Ok(0i64 - zats as i64)
            } else {
                Ok(zats as i64)
            }
        },
    }
}

/// Decodes the span as a boolean literal.
pub fn decode_bool_span(s: &[u8], i: usize, e: usize) -> (r: Result<bool, ClientError>)
    requires
        i <= e <= s@.len(),
    ensures
        match bool_span_val(s@, i as nat, e as nat) {
            Some(b) => r == Ok::<bool, ClientError>(b),
            None => r == Err::<bool, ClientError>(ClientError::ShapeMismatch),
        },
{
    if e - i == 4 && s[i] == 0x74 && s[i + 1] == 0x72 && s[i + 2] == 0x75 && s[i + 3] == 0x65 {
        Ok(true)
    } else if e - i == 5 && s[i] == 0x66 && s[i + 1] == 0x61 && s[i + 2] == 0x6c && s[i + 3]
        == 0x73 && s[i + 4] == 0x65 {
        Ok(false)
    } else {
        Err(ClientError::ShapeMismatch)
    }
}

/// Decodes the span as a string literal, handing out the text between the
/// quotes.
pub fn decode_string_span(s: &[u8], i: usize, e: usize) -> (r: Result<Vec<u8>, ClientError>)
    requires
        i <= e <= s@.len(),
    ensures
        match str_span_content(s@, i as nat, e as nat) {
            Some(c) => {
                &&& r is Ok
                &&& r->Ok_0@ == c
                &&& crate::jsontext::plain_text(c)
            },
            None => r == Err::<Vec<u8>, ClientError>(ClientError::ShapeMismatch),
        },
{
    match scan_string_exec(s, i) {
        Some(k) => {
            if k == e {
                proof {
                    lemma_scan_string(s@, i as nat);
                }
                let body = vstd::slice::slice_subrange(s, i + 1, e - 1);
                Ok(vstd::slice::slice_to_vec(body))
            } else {
                Err(ClientError::ShapeMismatch)
            }
        },
        None => Err(ClientError::ShapeMismatch),
    }
}


/// An `i64` value in range.
pub open spec fn in_i64(v: int) -> bool {
    -0x7fff_ffff_ffff_ffff <= v <= 0x7fff_ffff_ffff_ffff
}

/// An `i32` value in range.
pub open spec fn in_i32(v: int) -> bool {
    -0x7fff_ffff <= v <= 0x7fff_ffff
}

/// The text of the string member `key` of the object at `v`.
pub open spec fn string_field(s: Seq<u8>, v: nat, key: Seq<u8>) -> Option<Seq<u8>> {
    match obj_field(s, v, key) {
        Some(sp) => str_span_content(s, sp.0, sp.1),
        None => None,
    }
}

/// The numeric value of the integer member `key` of the object at `v`.
pub open spec fn int_field(s: Seq<u8>, v: nat, key: Seq<u8>) -> Option<int> {
    match obj_field(s, v, key) {
        Some(sp) => int_span_val(s, sp.0, sp.1),
        None => None,
    }
}

/// The boolean member `key` of the object at `v`.
pub open spec fn bool_field(s: Seq<u8>, v: nat, key: Seq<u8>) -> Option<bool> {
    match obj_field(s, v, key) {
        Some(sp) => bool_span_val(s, sp.0, sp.1),
        None => None,
    }
}

/// The zatoshi value of the amount member under either spelling, bounded by
/// `AMOUNT_LIMIT_ZATS`.
pub open spec fn amount_field2(s: Seq<u8>, v: nat, key1: Seq<u8>, key2: Seq<u8>) -> Option<i64> {
    match obj_field2(s, v, key1, key2) {
        Some(sp) => match amount_span_zats(s, sp.0, sp.1) {
            Some(z) => if -AMOUNT_LIMIT_ZATS <= z <= AMOUNT_LIMIT_ZATS {
                Some(z as i64)
            } else {
                None
            },
            None => None,
        },
        None => None,
    }
}

/// The supply record held by the object at `v`.
pub open spec fn supply_info_of(s: Seq<u8>, v: nat) -> Option<SupplyInfo> {
    match amount_field2(s, v, bytes_of_ascii("chain_value"@), bytes_of_ascii("chainValue"@)) {
        Some(cv) => match bool_field(s, v, bytes_of_ascii("monitored"@)) {
            Some(m) => Some(SupplyInfo { chain_value: cv, monitored: m }),
            None => None,
        },
        None => None,
    }
}

/// The pool record held by the object at `v`.
pub open spec fn pool_of(s: Seq<u8>, v: nat) -> Option<PoolEntryV> {
    match string_field(s, v, bytes_of_ascii("id"@)) {
        Some(id) => match amount_field2(
            s,
            v,
            bytes_of_ascii("chain_value"@),
            bytes_of_ascii("chainValue"@),
        ) {
            Some(cv) => match bool_field(s, v, bytes_of_ascii("monitored"@)) {
                Some(m) => Some(PoolEntryV { id: id, chain_value: cv, monitored: m }),
                None => None,
            },
            None => None,
        },
        None => None,
    }
}

/// The pool records of an array's element list, entered at its first
/// element, and the position one past the closing bracket.
pub open spec fn pools_of(s: Seq<u8>, i: nat) -> Option<(Seq<PoolEntryV>, nat)>
    decreases s.len() - i,
{
    match scan_value(s, i) {
        None => None,
        Some(e) => match pool_of(s, i) {
            None => None,
            Some(p) => {
                let d = skip_ws(s, e);
                if d < s.len() && s[d as int] == 0x2c {
                    let nx = skip_ws(s, d + 1);
                    if i < nx && nx <= s.len() {
                        match pools_of(s, nx) {
                            Some(pr) => Some((seq![p] + pr.0, pr.1)),
                            None => None,
                        }
                    } else {
                        None
                    }
                } else if d < s.len() && s[d as int] == 0x5d {
                    Some((seq![p], (d + 1) as nat))
                } else {
                    None
                }
            },
        },
    }
}

/// The pool list member under either spelling of the object at `v`.
pub open spec fn pools_field2(s: Seq<u8>, v: nat, key1: Seq<u8>, key2: Seq<u8>) -> Option<
    Seq<PoolEntryV>,
> {
    match obj_field2(s, v, key1, key2) {
        Some(sp) => {
            if sp.0 < s.len() && s[sp.0 as int] == 0x5b {
                let j = skip_ws(s, sp.0 + 1);
                if j < s.len() && s[j as int] == 0x5d {
                    Some(Seq::empty())
                } else if sp.0 < j && j <= s.len() {
                    match pools_of(s, j) {
                        Some(pr) => Some(pr.0),
                        None => None,
                    }
                } else {
                    None
                }
            } else {
                None
            }
        },
        None => None,
    }
}

/// The chain info record encoded by the whole input (already the `.result`
/// projection of the envelope).
pub open spec fn chain_info_of(s: Seq<u8>) -> Option<ChainInfoV> {
    match whole_value(s) {
        None => None,
        Some(w) => {
            match string_field(s, w.0, bytes_of_ascii("chain"@)) {
                None => None,
                Some(chain) => match int_field(s, w.0, bytes_of_ascii("blocks"@)) {
                    None => None,
                    Some(bl) => if !in_i64(bl) {
                        None
                    } else {
                        match int_field(s, w.0, bytes_of_ascii("size_on_disk"@)) {
                            None => None,
                            Some(sz) => if !in_i64(sz) {
                                None
                            } else {
                                match obj_field2(
                                    s,
                                    w.0,
                                    bytes_of_ascii("chain_supply"@),
                                    bytes_of_ascii("chainSupply"@),
                                ) {
                                    None => None,
                                    Some(sup) => match supply_info_of(s, sup.0) {
                                        None => None,
                                        Some(si) => match pools_field2(
                                            s,
                                            w.0,
                                            bytes_of_ascii("value_pools"@),
                                            bytes_of_ascii("valuePools"@),
                                        ) {
                                            None => None,
                                            Some(ps) => Some(
                                                ChainInfoV {
                                                    chain: chain,
                                                    blocks: bl as i64,
                                                    size_on_disk: sz as i64,
                                                    chain_supply: si,
                                                    value_pools: ps,
                                                },
                                            ),
                                        },
                                    },
                                }
                            },
                        }
                    },
                },
            }
        },
    }
}

/// The block supply record encoded by the whole input (already the
/// `.result` projection of the envelope).
pub open spec fn block_supply_of(s: Seq<u8>) -> Option<BlockSupplyInfoV> {
    match whole_value(s) {
        None => None,
        Some(w) => match int_field(s, w.0, bytes_of_ascii("height"@)) {
            None => None,
            Some(h) => if !in_i32(h) {
                None
            } else {
                match pools_field2(
                    s,
                    w.0,
                    bytes_of_ascii("value_pools"@),
                    bytes_of_ascii("valuePools"@),
                ) {
                    None => None,
                    Some(ps) => Some(BlockSupplyInfoV { height: h as i32, value_pools: ps }),
                }
            },
        },
    }
}

/// The span of the `result` member of the envelope object filling the
/// whole input.
pub open spec fn result_span(s: Seq<u8>) -> Option<(nat, nat)> {
    match whole_value(s) {
        Some(w) => obj_field(s, w.0, bytes_of_ascii("result"@)),
        None => None,
    }
}

/// Decodes the supply record held by the object at `v`.
pub fn decode_supply_info(s: &[u8], v: usize) -> (r: Result<SupplyInfo, ClientError>)
    requires
        v <= s@.len(),
    ensures
        match supply_info_of(s@, v as nat) {
            Some(si) => r == Ok::<SupplyInfo, ClientError>(si),
            None => r == Err::<SupplyInfo, ClientError>(ClientError::ShapeMismatch),
        },
        r is Ok ==> r->Ok_0.wf(),
{
    proof {
        reveal_strlit("chain_value");
        reveal_strlit("chainValue");
        reveal_strlit("monitored");
    }
    let k1 = str_bytes("chain_value");
    let k2 = str_bytes("chainValue");
    let km = str_bytes("monitored");
    let sp = match obj_field2_exec(s, v, k1, k2) {
        Some(sp) => sp,
        None => {
            return Err(ClientError::ShapeMismatch);
        },
    };
    proof {
        lemma_obj_field2(s@, v as nat, k1@, k2@);
    }
    let cv = match decode_amount_span(s, sp.0, sp.1) {
        Ok(cv) => cv,
        Err(e) => {
            return Err(e);
        },
    };
    let mp = match obj_field_exec(s, v, km) {
        Some(mp) => mp,
        None => {
            return Err(ClientError::ShapeMismatch);
        },
    };
    proof {
        crate::jsontext::lemma_obj_field(s@, v as nat, km@);
    }
    let m = match decode_bool_span(s, mp.0, mp.1) {
        Ok(m) => m,
        Err(e) => {
            return Err(e);
        },
    };
    Ok(SupplyInfo { chain_value: cv, monitored: m })
}

/// Decodes the pool record held by the object at `v`.
pub fn decode_pool(s: &[u8], v: usize) -> (r: Result<PoolEntry, ClientError>)
    requires
        v <= s@.len(),
    ensures
        match pool_of(s@, v as nat) {
            Some(pv) => {
                &&& r is Ok
                &&& r->Ok_0@ == pv
                &&& r->Ok_0.wf()
            },
            None => r == Err::<PoolEntry, ClientError>(ClientError::ShapeMismatch),
        },
{
    proof {
        reveal_strlit("id");
        reveal_strlit("chain_value");
        reveal_strlit("chainValue");
        reveal_strlit("monitored");
    }
    let ki = str_bytes("id");
    let k1 = str_bytes("chain_value");
    let k2 = str_bytes("chainValue");
    let km = str_bytes("monitored");
    let ip = match obj_field_exec(s, v, ki) {
        Some(ip) => ip,
        None => {
            return Err(ClientError::ShapeMismatch);
        },
    };
    proof {
        crate::jsontext::lemma_obj_field(s@, v as nat, ki@);
    }
    let id = match decode_string_span(s, ip.0, ip.1) {
        Ok(id) => id,
        Err(e) => {
            return Err(e);
        },
    };
    let sp = match obj_field2_exec(s, v, k1, k2) {
        Some(sp) => sp,
        None => {
            return Err(ClientError::ShapeMismatch);
        },
    };
    proof {
        lemma_obj_field2(s@, v as nat, k1@, k2@);
    }
    let cv = match decode_amount_span(s, sp.0, sp.1) {
        Ok(cv) => cv,
        Err(e) => {
            return Err(e);
        },
    };
    let mp = match obj_field_exec(s, v, km) {
        Some(mp) => mp,
        None => {
            return Err(ClientError::ShapeMismatch);
        },
    };
    proof {
        crate::jsontext::lemma_obj_field(s@, v as nat, km@);
    }
    let m = match decode_bool_span(s, mp.0, mp.1) {
        Ok(m) => m,
        Err(e) => {
            return Err(e);
        },
    };
    Ok(PoolEntry { id: id, chain_value: cv, monitored: m })
}

/// Decodes the pool records of an array's element list, entered at its
/// first element.
pub fn decode_pools(s: &[u8], i: usize) -> (r: Result<(Vec<PoolEntry>, usize), ClientError>)
    requires
        i <= s@.len(),
    ensures
        match pools_of(s@, i as nat) {
            Some(pr) => {
                &&& r is Ok
                &&& crate::records::pool_views(r->Ok_0.0@) == pr.0
                &&& r->Ok_0.1 == pr.1
                &&& forall|k: int|
                    0 <= k < r->Ok_0.0@.len() ==> (#[trigger] r->Ok_0.0@[k]).wf()
            },
            None => r == Err::<(Vec<PoolEntry>, usize), ClientError>(ClientError::ShapeMismatch),
        },
    decreases s@.len() - i,
{
    let n = s.len();
    let e = match crate::jsontext::scan_value_exec(s, i) {
        Some(e) => e,
        None => {
            return Err(ClientError::ShapeMismatch);
        },
    };
    proof {
        lemma_scan_value(s@, i as nat);
    }
    let p = match decode_pool(s, i) {
        Ok(p) => p,
        Err(err) => {
            return Err(err);
        },
    };
    let d = skip_ws_exec(s, e);
    if d < n && s[d] == 0x2c {
        let nx = skip_ws_exec(s, d + 1);
        if i < nx {
            match decode_pools(s, nx) {
                Ok(pr) => {
                    let (mut rest, ee) = pr;
                    let ghost rest0 = rest@;
                    let mut out: Vec<PoolEntry> = Vec::new();
                    out.push(p);
                    out.append(&mut rest);
                    proof {
                        assert(out@ =~= seq![p] + rest0);
                        assert(crate::records::pool_views(out@) =~= seq![p@]
                            + crate::records::pool_views(rest0));
                    }
                    Ok((out, ee))
                },
                Err(err) => Err(err),
            }
        } else {
            Err(ClientError::ShapeMismatch)
        }
    } else if d < n && s[d] == 0x5d {
        let mut out: Vec<PoolEntry> = Vec::new();
        out.push(p);
        assert(crate::records::pool_views(out@) =~= seq![p@]);
        Ok((out, d + 1))
    } else {
        Err(ClientError::ShapeMismatch)
    }
}

/// Decodes the pool list member of the object at `v`, under either
/// spelling.
pub fn decode_pools_field(s: &[u8], v: usize) -> (r: Result<Vec<PoolEntry>, ClientError>)
    requires
        v <= s@.len(),
    ensures
        match pools_field2(
            s@,
            v as nat,
            bytes_of_ascii("value_pools"@),
            bytes_of_ascii("valuePools"@),
        ) {
            Some(ps) => {
                &&& r is Ok
                &&& crate::records::pool_views(r->Ok_0@) == ps
                &&& forall|k: int| 0 <= k < r->Ok_0@.len() ==> (#[trigger] r->Ok_0@[k]).wf()
            },
            None => r == Err::<Vec<PoolEntry>, ClientError>(ClientError::ShapeMismatch),
        },
{
    proof {
        reveal_strlit("value_pools");
        reveal_strlit("valuePools");
    }
    let k1 = str_bytes("value_pools");
    let k2 = str_bytes("valuePools");
    let n = s.len();
    let sp = match obj_field2_exec(s, v, k1, k2) {
        Some(sp) => sp,
        None => {
            return Err(ClientError::ShapeMismatch);
        },
    };
    proof {
        lemma_obj_field2(s@, v as nat, k1@, k2@);
    }
    if sp.0 < n && s[sp.0] == 0x5b {
        let j = skip_ws_exec(s, sp.0 + 1);
        if j < n && s[j] == 0x5d {
            let out: Vec<PoolEntry> = Vec::new();
            assert(crate::records::pool_views(out@) =~= Seq::<PoolEntryV>::empty());
            Ok(out)
        } else if sp.0 < j {
            match decode_pools(s, j) {
                Ok(pr) => Ok(pr.0),
                Err(err) => Err(err),
            }
        } else {
            Err(ClientError::ShapeMismatch)
        }
    } else {
        Err(ClientError::ShapeMismatch)
    }
}

/// Materializes a chain info record from the `.result` projection of a
/// `getblockchaininfo` response, or reports the shape mismatch.
#[verifier::rlimit(60)]
pub fn materialize_chain_info(s: &[u8]) -> (r: Result<ChainInfo, ClientError>)
    ensures
        match chain_info_of(s@) {
            Some(v) => {
                &&& r is Ok
                &&& r->Ok_0@ == v
                &&& r->Ok_0.wf()
            },
            None => r == Err::<ChainInfo, ClientError>(ClientError::ShapeMismatch),
        },
{
    proof {
        reveal_strlit("chain");
        reveal_strlit("blocks");
        reveal_strlit("size_on_disk");
        reveal_strlit("chain_supply");
        reveal_strlit("chainSupply");
    }
    let w = match whole_value_exec(s) {
        Some(w) => w,
        None => {
            return Err(ClientError::ShapeMismatch);
        },
    };
    proof {
        lemma_skip_ws(s@, 0);
        lemma_scan_value(s@, skip_ws(s@, 0));
    }
    let kc = str_bytes("chain");
    let cp = match obj_field_exec(s, w.0, kc) {
        Some(cp) => cp,
        None => {
            return Err(ClientError::ShapeMismatch);
        },
    };
    proof {
        crate::jsontext::lemma_obj_field(s@, w.0 as nat, kc@);
    }
    let chain = match decode_string_span(s, cp.0, cp.1) {
        Ok(c) => c,
        Err(e) => {
            return Err(e);
        },
    };
    let kb = str_bytes("blocks");
    let bp = match obj_field_exec(s, w.0, kb) {
        Some(bp) => bp,
        None => {
            return Err(ClientError::ShapeMismatch);
        },
    };
    proof {
        crate::jsontext::lemma_obj_field(s@, w.0 as nat, kb@);
    }
    let blocks: i64 = match decode_int_span(s, bp.0, bp.1, 0x7fff_ffff_ffff_ffffu64) {
        Some((sg, m)) => if sg {
            0i64 - m as i64
        } else {
            m as i64
        },
        None => {
            return Err(ClientError::ShapeMismatch);
        },
    };
    let ks = str_bytes("size_on_disk");
    let zp = match obj_field_exec(s, w.0, ks) {
        Some(zp) => zp,
        None => {
            return Err(ClientError::ShapeMismatch);
        },
    };
    proof {
        crate::jsontext::lemma_obj_field(s@, w.0 as nat, ks@);
    }
    let size_on_disk: i64 = match decode_int_span(s, zp.0, zp.1, 0x7fff_ffff_ffff_ffffu64) {
        Some((sg, m)) => if sg {
            0i64 - m as i64
        } else {
            m as i64
        },
        None => {
            return Err(ClientError::ShapeMismatch);
        },
    };
    let u1 = str_bytes("chain_supply");
    let u2 = str_bytes("chainSupply");
    let up = match obj_field2_exec(s, w.0, u1, u2) {
        Some(up) => up,
        None => {
            return Err(ClientError::ShapeMismatch);
        },
    };
    proof {
        lemma_obj_field2(s@, w.0 as nat, u1@, u2@);
    }
    let supply = match decode_supply_info(s, up.0) {
        Ok(si) => si,
        Err(e) => {
            return Err(e);
        },
    };
    let pools = match decode_pools_field(s, w.0) {
        Ok(ps) => ps,
        Err(e) => {
            return Err(e);
        },
    };
    let out = ChainInfo {
        chain: chain,
        blocks: blocks,
        size_on_disk: size_on_disk,
        chain_supply: supply,
        value_pools: pools,
    };
    assert(out@ =~= chain_info_of(s@)->0);
    Ok(out)
}

/// Materializes a block supply record from the `.result` projection of a
/// `getblock` response, or reports the shape mismatch.
pub fn materialize_block_supply(s: &[u8]) -> (r: Result<BlockSupplyInfo, ClientError>)
    ensures
        match block_supply_of(s@) {
            Some(v) => {
                &&& r is Ok
                &&& r->Ok_0@ == v
                &&& r->Ok_0.wf()
            },
            None => r == Err::<BlockSupplyInfo, ClientError>(ClientError::ShapeMismatch),
        },
{
    proof {
        reveal_strlit("height");
    }
    let w = match whole_value_exec(s) {
        Some(w) => w,
        None => {
            return Err(ClientError::ShapeMismatch);
        },
    };
    proof {
        lemma_skip_ws(s@, 0);
        lemma_scan_value(s@, skip_ws(s@, 0));
    }
    let kh = str_bytes("height");
    let hp = match obj_field_exec(s, w.0, kh) {
        Some(hp) => hp,
        None => {
            return Err(ClientError::ShapeMismatch);
        },
    };
    proof {
        crate::jsontext::lemma_obj_field(s@, w.0 as nat, kh@);
    }
    let height: i32 = match decode_int_span(s, hp.0, hp.1, 0x7fff_ffffu64) {
        Some((sg, m)) => if sg {
            0i32 - m as i32
        } else {
            m as i32
        },
        None => {
            return Err(ClientError::ShapeMismatch);
        },
    };
    let pools = match decode_pools_field(s, w.0) {
        Ok(ps) => ps,
        Err(e) => {
            return Err(e);
        },
    };
    let out = BlockSupplyInfo { height: height, value_pools: pools };
    assert(out@ =~= block_supply_of(s@)->0);
    Ok(out)
}

/// Projects the `result` member out of a full JSON-RPC response envelope,
/// handing back its raw text.
pub fn project_result(s: &[u8]) -> (r: Result<Vec<u8>, ClientError>)
    ensures
        match result_span(s@) {
            Some(sp) => {
                &&& r is Ok
                &&& r->Ok_0@ == s@.subrange(sp.0 as int, sp.1 as int)
            },
            None => r == Err::<Vec<u8>, ClientError>(ClientError::ShapeMismatch),
        },
{
    proof {
        reveal_strlit("result");
    }
    let w = match whole_value_exec(s) {
        Some(w) => w,
        None => {
            return Err(ClientError::ShapeMismatch);
        },
    };
    proof {
        lemma_skip_ws(s@, 0);
        lemma_scan_value(s@, skip_ws(s@, 0));
    }
    let kr = str_bytes("result");
    let sp = match obj_field_exec(s, w.0, kr) {
        Some(sp) => sp,
        None => {
            return Err(ClientError::ShapeMismatch);
        },
    };
    proof {
        crate::jsontext::lemma_obj_field(s@, w.0 as nat, kr@);
    }
    Ok(vstd::slice::slice_to_vec(vstd::slice::slice_subrange(s, sp.0, sp.1)))
}


/// The string elements of an array's element list, entered at its first
/// element, and the position one past the closing bracket.
pub open spec fn str_elems_of(s: Seq<u8>, i: nat) -> Option<(Seq<Seq<u8>>, nat)>
    decreases s.len() - i,
{
    match scan_value(s, i) {
        None => None,
        Some(e) => match str_span_content(s, i, e) {
            None => None,
            Some(c) => {
                let d = skip_ws(s, e);
                if d < s.len() && s[d as int] == 0x2c {
                    let nx = skip_ws(s, d + 1);
                    if i < nx && nx <= s.len() {
                        match str_elems_of(s, nx) {
                            Some(r) => Some((seq![c] + r.0, r.1)),
                            None => None,
                        }
                    } else {
                        None
                    }
                } else if d < s.len() && s[d as int] == 0x5d {
                    Some((seq![c], (d + 1) as nat))
                } else {
                    None
                }
            },
        },
    }
}

/// The string elements of the array member `key` of the object at `v`.
pub open spec fn str_array_field(s: Seq<u8>, v: nat, key: Seq<u8>) -> Option<Seq<Seq<u8>>> {
    match obj_field(s, v, key) {
        Some(sp) => {
            if sp.0 < s.len() && s[sp.0 as int] == 0x5b {
                let j = skip_ws(s, sp.0 + 1);
                if j < s.len() && s[j as int] == 0x5d {
                    Some(Seq::empty())
                } else if sp.0 < j && j <= s.len() {
                    match str_elems_of(s, j) {
                        Some(r) => Some(r.0),
                        None => None,
                    }
                } else {
                    None
                }
            } else {
                None
            }
        },
        None => None,
    }
}

/// The transaction ids listed by a block's `.result` projection, in the
/// order the node reports them.
pub open spec fn tx_ids_of(s: Seq<u8>) -> Option<Seq<Seq<u8>>> {
    match whole_value(s) {
        Some(w) => str_array_field(s, w.0, bytes_of_ascii("tx"@)),
        None => None,
    }
}

/// The `addr` members of the objects of an array's element list, entered at
/// its first element.
pub open spec fn addr_elems_of(s: Seq<u8>, i: nat) -> Option<(Seq<Seq<u8>>, nat)>
    decreases s.len() - i,
{
    match scan_value(s, i) {
        None => None,
        Some(e) => match string_field(s, i, bytes_of_ascii("addr"@)) {
            None => None,
            Some(c) => {
                let d = skip_ws(s, e);
                if d < s.len() && s[d as int] == 0x2c {
                    let nx = skip_ws(s, d + 1);
                    if i < nx && nx <= s.len() {
                        match addr_elems_of(s, nx) {
                            Some(r) => Some((seq![c] + r.0, r.1)),
                            None => None,
                        }
                    } else {
                        None
                    }
                } else if d < s.len() && s[d as int] == 0x5d {
                    Some((seq![c], (d + 1) as nat))
                } else {
                    None
                }
            },
        },
    }
}

/// The peer addresses listed by a `getpeerinfo` response envelope, in
/// order.
pub open spec fn peer_addrs_of(s: Seq<u8>) -> Option<Seq<Seq<u8>>> {
    match result_span(s) {
        Some(sp) => {
            if sp.0 < s.len() && s[sp.0 as int] == 0x5b {
                let j = skip_ws(s, sp.0 + 1);
                if j < s.len() && s[j as int] == 0x5d {
                    Some(Seq::empty())
                } else if sp.0 < j && j <= s.len() {
                    match addr_elems_of(s, j) {
                        Some(r) => Some(r.0),
                        None => None,
                    }
                } else {
                    None
                }
            } else {
                None
            }
        },
        None => None,
    }
}

/// Decodes the string elements of an array's element list.
fn decode_str_elems(s: &[u8], i: usize) -> (r: Result<(Vec<Vec<u8>>, usize), ClientError>)
    requires
        i <= s@.len(),
    ensures
        match str_elems_of(s@, i as nat) {
            Some(sr) => {
                &&& r is Ok
                &&& r->Ok_0.0@.len() == sr.0.len()
                &&& forall|k: int| 0 <= k < sr.0.len() ==> (#[trigger] r->Ok_0.0@[k])@ == sr.0[k]
                &&& r->Ok_0.1 == sr.1
            },
            None => r == Err::<(Vec<Vec<u8>>, usize), ClientError>(ClientError::ShapeMismatch),
        },
    decreases s@.len() - i,
{
    let n = s.len();
    let e = match crate::jsontext::scan_value_exec(s, i) {
        Some(e) => e,
        None => {
            return Err(ClientError::ShapeMismatch);
        },
    };
    proof {
        lemma_scan_value(s@, i as nat);
    }
    let c = match decode_string_span(s, i, e) {
        Ok(c) => c,
        Err(err) => {
            return Err(err);
        },
    };
    let d = skip_ws_exec(s, e);
    if d < n && s[d] == 0x2c {
        let nx = skip_ws_exec(s, d + 1);
        if i < nx {
            match decode_str_elems(s, nx) {
                Ok(pr) => {
                    let (mut rest, ee) = pr;
                    let ghost rest0 = rest@;
                    let mut out: Vec<Vec<u8>> = Vec::new();
                    out.push(c);
                    out.append(&mut rest);
                    proof {
                        assert(out@ =~= seq![c] + rest0);
                    }
                    Ok((out, ee))
                },
                Err(err) => Err(err),
            }
        } else {
            Err(ClientError::ShapeMismatch)
        }
    } else if d < n && s[d] == 0x5d {
        let mut out: Vec<Vec<u8>> = Vec::new();
        out.push(c);
        Ok((out, d + 1))
    } else {
        Err(ClientError::ShapeMismatch)
    }
}

/// Lists a block's transaction ids, newest first (the node reports them
/// oldest first; the listing reverses them).
pub fn block_transactions(s: &[u8]) -> (r: Result<Vec<Vec<u8>>, ClientError>)
    ensures
        match tx_ids_of(s@) {
            Some(ids) => {
                &&& r is Ok
                &&& r->Ok_0@.len() == ids.len()
                &&& forall|k: int|
                    0 <= k < ids.len() ==> (#[trigger] r->Ok_0@[k])@ == ids[ids.len() - 1 - k]
            },
            None => r == Err::<Vec<Vec<u8>>, ClientError>(ClientError::ShapeMismatch),
        },
{
    proof {
        reveal_strlit("tx");
    }
    let w = match whole_value_exec(s) {
        Some(w) => w,
        None => {
            return Err(ClientError::ShapeMismatch);
        },
    };
    proof {
        lemma_skip_ws(s@, 0);
        lemma_scan_value(s@, skip_ws(s@, 0));
    }
    let kt = str_bytes("tx");
    let n = s.len();
    let sp = match obj_field_exec(s, w.0, kt) {
        Some(sp) => sp,
        None => {
            return Err(ClientError::ShapeMismatch);
        },
    };
    proof {
        crate::jsontext::lemma_obj_field(s@, w.0 as nat, kt@);
    }
    let mut forward: Vec<Vec<u8>> = if sp.0 < n && s[sp.0] == 0x5b {
        let j = skip_ws_exec(s, sp.0 + 1);
        if j < n && s[j] == 0x5d {
            Vec::new()
        } else if sp.0 < j {
            match decode_str_elems(s, j) {
                Ok(pr) => pr.0,
                Err(err) => {
                    return Err(err);
                },
            }
        } else {
            return Err(ClientError::ShapeMismatch);
        }
    } else {
        return Err(ClientError::ShapeMismatch);
    };
    let ghost ids = tx_ids_of(s@)->0;
    let mut out: Vec<Vec<u8>> = Vec::new();
    while forward.len() > 0
        invariant
            out@.len() + forward@.len() == ids.len(),
            forall|k: int| 0 <= k < forward@.len() ==> (#[trigger] forward@[k])@ == ids[k],
            forall|k: int|
                0 <= k < out@.len() ==> (#[trigger] out@[k])@ == ids[ids.len() - 1 - k],
        decreases forward@.len(),
    {
        match forward.pop() {
            Some(x) => {
                out.push(x);
            },
            None => {},
        }
    }
    Ok(out)
}

/// Decodes the `addr` members of an array of peer objects.
fn decode_addr_elems(s: &[u8], i: usize) -> (r: Result<(Vec<Vec<u8>>, usize), ClientError>)
    requires
        i <= s@.len(),
    ensures
        match addr_elems_of(s@, i as nat) {
            Some(sr) => {
                &&& r is Ok
                &&& r->Ok_0.0@.len() == sr.0.len()
                &&& forall|k: int| 0 <= k < sr.0.len() ==> (#[trigger] r->Ok_0.0@[k])@ == sr.0[k]
                &&& r->Ok_0.1 == sr.1
            },
            None => r == Err::<(Vec<Vec<u8>>, usize), ClientError>(ClientError::ShapeMismatch),
        },
    decreases s@.len() - i,
{
    proof {
        reveal_strlit("addr");
    }
    let n = s.len();
    let e = match crate::jsontext::scan_value_exec(s, i) {
        Some(e) => e,
        None => {
            return Err(ClientError::ShapeMismatch);
        },
    };
    proof {
        lemma_scan_value(s@, i as nat);
    }
    let ka = str_bytes("addr");
    let ap = match obj_field_exec(s, i, ka) {
        Some(ap) => ap,
        None => {
            return Err(ClientError::ShapeMismatch);
        },
    };
    proof {
        crate::jsontext::lemma_obj_field(s@, i as nat, ka@);
    }
    let c = match decode_string_span(s, ap.0, ap.1) {
        Ok(c) => c,
        Err(err) => {
            return Err(err);
        },
    };
    let d = skip_ws_exec(s, e);
    if d < n && s[d] == 0x2c {
        let nx = skip_ws_exec(s, d + 1);
        if i < nx {
            match decode_addr_elems(s, nx) {
                Ok(pr) => {
                    let (mut rest, ee) = pr;
                    let ghost rest0 = rest@;
                    let mut out: Vec<Vec<u8>> = Vec::new();
                    out.push(c);
                    out.append(&mut rest);
                    proof {
                        assert(out@ =~= seq![c] + rest0);
                    }
                    Ok((out, ee))
                },
                Err(err) => Err(err),
            }
        } else {
            Err(ClientError::ShapeMismatch)
        }
    } else if d < n && s[d] == 0x5d {
        let mut out: Vec<Vec<u8>> = Vec::new();
        out.push(c);
        Ok((out, d + 1))
    } else {
        Err(ClientError::ShapeMismatch)
    }
}

/// Lists the peer addresses of a `getpeerinfo` response envelope, in the
/// order the node reports them.
pub fn peer_addresses(s: &[u8]) -> (r: Result<Vec<Vec<u8>>, ClientError>)
    ensures
        match peer_addrs_of(s@) {
            Some(addrs) => {
                &&& r is Ok
                &&& r->Ok_0@.len() == addrs.len()
                &&& forall|k: int| 0 <= k < addrs.len() ==> (#[trigger] r->Ok_0@[k])@ == addrs[k]
            },
            None => r == Err::<Vec<Vec<u8>>, ClientError>(ClientError::ShapeMismatch),
        },
{
    proof {
        reveal_strlit("result");
    }
    let w = match whole_value_exec(s) {
        Some(w) => w,
        None => {
            return Err(ClientError::ShapeMismatch);
        },
    };
    proof {
        lemma_skip_ws(s@, 0);
        lemma_scan_value(s@, skip_ws(s@, 0));
    }
    let kr = str_bytes("result");
    let n = s.len();
    let sp = match obj_field_exec(s, w.0, kr) {
        Some(sp) => sp,
        None => {
            return Err(ClientError::ShapeMismatch);
        },
    };
    proof {
        crate::jsontext::lemma_obj_field(s@, w.0 as nat, kr@);
    }
    if sp.0 < n && s[sp.0] == 0x5b {
        let j = skip_ws_exec(s, sp.0 + 1);
        if j < n && s[j] == 0x5d {
            Ok(Vec::new())
        } else if sp.0 < j {
            match decode_addr_elems(s, j) {
                Ok(pr) => Ok(pr.0),
                Err(err) => Err(err),
            }
        } else {
            Err(ClientError::ShapeMismatch)
        }
    } else {
        Err(ClientError::ShapeMismatch)
    }
}


/// The digits of `f` padded with zeros on the left to eight places.
pub open spec fn frac8(f: nat) -> Seq<u8> {
    if dec_digits(f).len() <= 8 {
        zero_digits((8 - dec_digits(f).len()) as nat) + dec_digits(f)
    } else {
        dec_digits(f)
    }
}

/// The canonical token of a zatoshi amount: signed whole coins, a dot, and
/// eight fractional digits.
#[verifier::opaque]
pub open spec fn amount_token(v: i64) -> Seq<u8> {
    let mag: nat = if v < 0 {
        (-(v as int)) as nat
    } else {
        v as nat
    };
    let body = dec_digits(mag / 100_000_000) + seq![0x2eu8] + frac8(mag % 100_000_000);
    if v < 0 {
        seq![0x2du8] + body
    } else {
        body
    }
}

/// The literal of a boolean.
pub open spec fn bool_lit(b: bool) -> Seq<u8> {
    if b {
        seq![0x74u8, 0x72u8, 0x75u8, 0x65u8]
    } else {
        seq![0x66u8, 0x61u8, 0x6cu8, 0x73u8, 0x65u8]
    }
}

/// A serialized supply record, under either spelling of its aliased
/// chain-value key.
#[verifier::opaque]
pub open spec fn ser_supply(si: SupplyInfo, camel: bool) -> Seq<u8> {
    let key = if camel {
        bytes_of_ascii("chainValue"@)
    } else {
        bytes_of_ascii("chain_value"@)
    };
    seq![0x7bu8] + quoted(key) + seq![0x3au8] + amount_token(si.chain_value) + seq![0x2cu8]
        + quoted(bytes_of_ascii("monitored"@)) + seq![0x3au8] + bool_lit(si.monitored)
        + seq![0x7du8]
}

/// `dot_in` finds the first dot.
pub proof fn lemma_dot_in_at(s: Seq<u8>, st: nat, p: nat, e: nat)
    requires
        st <= p < e <= s.len(),
        forall|k: int| st <= k < p ==> s[k] != 0x2e,
        s[p as int] == 0x2e,
    ensures
        dot_in(s, st, e) == Some(p),
    decreases p - st,
{
    if st < p {
        lemma_dot_in_at(s, st + 1, p, e);
    }
}

/// Facts about the canonical amount token: it scans as one number token and
/// decodes to the amount it was made from.
pub proof fn lemma_amount_token(s: Seq<u8>, i: nat, v: i64)
    requires
        -AMOUNT_LIMIT_ZATS <= v <= AMOUNT_LIMIT_ZATS,
        starts_with(s, i, amount_token(v)),
        i + amount_token(v).len() < s.len(),
        s[(i + amount_token(v).len()) as int] == 0x2c || s[(i + amount_token(v).len()) as int]
            == 0x7d,
    ensures
        scan_value(s, i) == Some((i + amount_token(v).len()) as nat),
        amount_span_zats(s, i, i + amount_token(v).len()) == Some(v as int),
        amount_token(v).len() >= 3,
        amount_token(v)[0] == 0x2d || is_digit(amount_token(v)[0]),
{
    reveal(amount_token);
    let mag: nat = if v < 0 {
        (-(v as int)) as nat
    } else {
        v as nat
    };
    let coins = mag / 100_000_000;
    let frac = mag % 100_000_000;
    let cd = dec_digits(coins);
    let fd = frac8(frac);
    lemma_dec_digits_val(coins);
    lemma_dec_digits_val(frac);
    assert(pow10(8) == 100_000_000) by {
        reveal_with_fuel(pow10, 9);
    }
    lemma_dec_digits_len(frac, 8);
    lemma_zero_digits((8 - dec_digits(frac).len()) as nat, dec_digits(frac));
    assert(fd.len() == 8);
    assert(all_digits(fd)) by {
        assert(forall|k: int|
            0 <= k < fd.len() ==> is_digit(#[trigger] zero_digits(
                (8 - dec_digits(frac).len()) as nat,
            ).add(dec_digits(frac))[k]));
    }
    assert(digits_val(fd) == frac);
    let tok = amount_token(v);
    let st: nat = if v < 0 {
        i + 1
    } else {
        i
    };
    let p = st + cd.len();
    let e = i + tok.len();
    lemma_starts_with_index(s, i, tok);
    assert(tok =~= (if v < 0 {
        seq![0x2du8]
    } else {
        Seq::<u8>::empty()
    }) + cd + seq![0x2eu8] + fd);
    assert forall|k: int| st <= k < p implies s[k] == cd[k - st] && is_digit(
        #[trigger] s[k],
    ) by {
        assert(s[i + (k - i)] == tok[k - i]);
        assert(tok[k - i] == cd[k - st]);
    }
    assert(s[p as int] == tok[p - i]);
    assert(tok[p - i] == 0x2e);
    assert(!is_digit(s[p as int]));
    lemma_digit_run_exact(s, st, cd.len());
    assert forall|k: int| p + 1 <= k < e implies s[k] == fd[k - (p + 1)] && is_digit(
        #[trigger] s[k],
    ) by {
        assert(s[i + (k - i)] == tok[k - i]);
        assert(tok[k - i] == fd[k - (p + 1)]);
    }
    assert(!is_digit(s[e as int]));
    lemma_digit_run_exact(s, p + 1, fd.len());
    if v < 0 {
        assert(s[i as int] == tok[0]);
        assert(s[i as int] == 0x2d);
    } else {
        assert(s[i as int] == tok[0]);
        assert(s[i as int] == cd[0]);
        assert(is_digit(s[i as int]));
        assert(s[i as int] != 0x2d && s[i as int] != 0x22);
    }
    // The scanner sees sign digits dot digits, ending at the delimiter.
    assert(digit_run_end(s, st) == p);
    assert(s[p as int] == 0x2e && digit_run_end(s, p + 1) == e);
    assert(scan_number(s, i) == Some(e));
    assert(scan_value(s, i) == Some(e));
    // The decoder sees the same split and reassembles the amount.
    assert forall|k: int| st <= k < p implies s[k] != 0x2e by {
        assert(is_digit(s[k]));
    }
    lemma_dot_in_at(s, st, p, e);
    assert(s.subrange(st as int, p as int) =~= cd);
    assert(s.subrange(p + 1 as int, e as int) =~= fd);
    assert(e - p - 1 == 8);
    assert(pow10((8 - (e - p - 1)) as nat) == 1);
    assert(coins * 100_000_000 + frac == mag) by (nonlinear_arith)
        requires
            coins == mag / 100_000_000,
            frac == mag % 100_000_000,
    ;
    assert(amount_span_zats(s, i, e) == Some(v as int));
}

/// Facts about a serialized key: it scans as a string whose content is the
/// key.
pub proof fn lemma_key_token(s: Seq<u8>, i: nat, key: Seq<u8>)
    requires
        crate::jsontext::plain_text(key),
        starts_with(s, i, quoted(key)),
    ensures
        scan_string(s, i) == Some((i + key.len() + 2) as nat),
        str_content(s, i, i + key.len() + 2) == key,
{
    lemma_starts_with_index(s, i, quoted(key));
    assert(s[i as int] == quoted(key)[0]);
    assert(starts_with(s, i + 1, key + seq![0x22u8])) by {
        assert forall|k: int|
            0 <= k < key.len() + 1 implies s[i + 1 + k] == (key + seq![0x22u8])[k] by {
            assert(s[i + (k + 1)] == quoted(key)[k + 1]);
        }
        assert(s.subrange((i + 1) as int, (i + 1 + key.len() + 1) as int) =~= key
            + seq![0x22u8]);
    }
    lemma_str_body_of_plain(s, i + 1, key);
    assert forall|k: int| 0 <= k < key.len() implies s[i + 1 + k] == key[k] by {
        assert(s[i + (k + 1)] == quoted(key)[k + 1]);
    }
    assert(s.subrange(i + 1 as int, (i + key.len() + 2) - 1) =~= key);
}

/// The key under which a serialized supply record carries its chain value.
pub open spec fn sup_key(camel: bool) -> Seq<u8> {
    if camel {
        bytes_of_ascii("chainValue"@)
    } else {
        bytes_of_ascii("chain_value"@)
    }
}

/// Byte layout of a serialized supply record: where each token stands.
pub proof fn lemma_supply_layout(si: SupplyInfo, camel: bool)
    ensures
        ({
            let ck = sup_key(camel);
            let km = bytes_of_ascii("monitored"@);
            let s = ser_supply(si, camel);
            let tok = amount_token(si.chain_value);
            let blit = bool_lit(si.monitored);
            let va = 1 + ck.len() + 3;
            let cm = va + tok.len();
            let mq = cm + 1;
            let bv = mq + km.len() + 3;
            let cb = bv + blit.len();
            &&& s.len() == cb + 1
            &&& s[0] == 0x7b
            &&& starts_with(s, 1, quoted(ck))
            &&& s[(1 + ck.len() + 2) as int] == 0x3a
            &&& starts_with(s, va as nat, tok)
            &&& s[cm as int] == 0x2c
            &&& starts_with(s, mq as nat, quoted(km))
            &&& s[(mq + km.len() + 2) as int] == 0x3a
            &&& starts_with(s, bv as nat, blit)
            &&& s[cb as int] == 0x7d
        }),
{
    let ck = sup_key(camel);
    let km = bytes_of_ascii("monitored"@);
    let s = ser_supply(si, camel);
    let tok = amount_token(si.chain_value);
    let blit = bool_lit(si.monitored);
    let va = 1 + ck.len() + 3;
    let cm = va + tok.len();
    let mq = cm + 1;
    let bv = mq + km.len() + 3;
    let cb = bv + blit.len();
    reveal(ser_supply);
    assert(starts_with(s, 1, quoted(ck))) by {
        assert(s.subrange(1, (1 + ck.len() + 2) as int) =~= quoted(ck));
    }
    assert(starts_with(s, va as nat, tok)) by {
        assert(s.subrange(va as int, cm as int) =~= tok);
    }
    assert(starts_with(s, mq as nat, quoted(km))) by {
        assert(s.subrange(mq as int, (mq + km.len() + 2) as int) =~= quoted(km));
    }
    assert(starts_with(s, bv as nat, blit)) by {
        assert(s.subrange(bv as int, cb as int) =~= blit);
    }
}

/// Token-level facts about a serialized supply record: how each key,
/// amount and boolean literal scans, and that no whitespace intervenes.
#[verifier::rlimit(100)]
#[verifier::spinoff_prover]
pub proof fn lemma_supply_tokens(si: SupplyInfo, camel: bool)
    requires
        si.wf(),
    ensures
        ({
            let ck = sup_key(camel);
            let km = bytes_of_ascii("monitored"@);
            let s = ser_supply(si, camel);
            let tok = amount_token(si.chain_value);
            let va = 1 + ck.len() + 3;
            let cm = va + tok.len();
            let mq = cm + 1;
            let bv = mq + km.len() + 3;
            let cb = bv + bool_lit(si.monitored).len();
            &&& s.len() == cb + 1
            &&& s[0] == 0x7b
            &&& scan_string(s, 1) == Some((1 + ck.len() + 2) as nat)
            &&& str_content(s, 1, 1 + ck.len() + 2) == ck
            &&& s[(1 + ck.len() + 2) as int] == 0x3a
            &&& scan_value(s, va as nat) == Some(cm as nat)
            &&& amount_span_zats(s, va as nat, cm as nat) == Some(si.chain_value as int)
            &&& s[cm as int] == 0x2c
            &&& scan_string(s, mq as nat) == Some((mq + km.len() + 2) as nat)
            &&& str_content(s, mq as nat, mq + km.len() + 2) == km
            &&& s[(mq + km.len() + 2) as int] == 0x3a
            &&& scan_value(s, bv as nat) == Some(cb as nat)
            &&& bool_span_val(s, bv as nat, cb as nat) == Some(si.monitored)
            &&& s[cb as int] == 0x7d
            &&& skip_ws(s, 1) == 1
            &&& skip_ws(s, (1 + ck.len() + 2) as nat) == 1 + ck.len() + 2
            &&& skip_ws(s, va as nat) == va
            &&& skip_ws(s, cm as nat) == cm
            &&& skip_ws(s, mq as nat) == mq
            &&& skip_ws(s, (mq + km.len() + 2) as nat) == mq + km.len() + 2
            &&& skip_ws(s, bv as nat) == bv
            &&& skip_ws(s, cb as nat) == cb
        }),
{
    let ck = sup_key(camel);
    let km = bytes_of_ascii("monitored"@);
    let s = ser_supply(si, camel);
    let tok = amount_token(si.chain_value);
    let blit = bool_lit(si.monitored);
    let va = 1 + ck.len() + 3;
    let cm = va + tok.len();
    let mq = cm + 1;
    let bv = mq + km.len() + 3;
    let cb = bv + blit.len();
    lemma_supply_layout(si, camel);
    lemma_supply_keys();
    lemma_key_token(s, 1, ck);
    lemma_key_token(s, mq as nat, km);
    lemma_amount_token(s, va as nat, si.chain_value);
    assert(scan_value(s, bv as nat) == Some(cb as nat)) by {
        lemma_starts_with_index(s, bv as nat, blit);
        if si.monitored {
            assert(s[bv as int] == 0x74);
            assert(s[bv + 1 as int] == 0x72 && s[bv + 2 as int] == 0x75 && s[bv + 3 as int]
                == 0x65);
        } else {
            assert(s[bv as int] == 0x66);
            assert(s[bv + 1 as int] == 0x61 && s[bv + 2 as int] == 0x6c && s[bv + 3 as int]
                == 0x73 && s[bv + 4 as int] == 0x65);
        }
    }
    assert(bool_span_val(s, bv as nat, cb as nat) == Some(si.monitored)) by {
        lemma_starts_with_index(s, bv as nat, blit);
    }
    assert(skip_ws(s, 1) == 1) by {
        lemma_starts_with_index(s, 1, quoted(ck));
    }
    assert(skip_ws(s, (1 + ck.len() + 2) as nat) == 1 + ck.len() + 2);
    assert(skip_ws(s, va as nat) == va) by {
        lemma_starts_with_index(s, va as nat, tok);
        assert(s[va as int] == tok[0]);
    }
    assert(skip_ws(s, cm as nat) == cm);
    assert(skip_ws(s, mq as nat) == mq);
    assert(skip_ws(s, (mq + km.len() + 2) as nat) == mq + km.len() + 2);
    assert(skip_ws(s, bv as nat) == bv) by {
        lemma_starts_with_index(s, bv as nat, blit);
        assert(s[bv as int] == blit[0]);
    }
    assert(skip_ws(s, cb as nat) == cb);
}

/// Walks a serialized supply record's member list: each member is found
/// under its own key and no other.
#[verifier::rlimit(100)]
#[verifier::spinoff_prover]
pub proof fn lemma_supply_walk(si: SupplyInfo, camel: bool)
    requires
        si.wf(),
    ensures
        ({
            let ck = sup_key(camel);
            let km = bytes_of_ascii("monitored"@);
            let s = ser_supply(si, camel);
            let tok = amount_token(si.chain_value);
            let va = 1 + ck.len() + 3;
            let cm = va + tok.len();
            let mq = cm + 1;
            let bv = mq + km.len() + 3;
            let cb = bv + bool_lit(si.monitored).len();
            &&& obj_field(s, 0, ck) == Some((va as nat, cm as nat))
            &&& obj_field(s, 0, km) == Some((bv as nat, cb as nat))
            &&& camel ==> obj_field(s, 0, bytes_of_ascii("chain_value"@)) is None
            &&& amount_span_zats(s, va as nat, cm as nat) == Some(si.chain_value as int)
            &&& bool_span_val(s, bv as nat, cb as nat) == Some(si.monitored)
        }),
{
    let ck = sup_key(camel);
    let km = bytes_of_ascii("monitored"@);
    let s = ser_supply(si, camel);
    let tok = amount_token(si.chain_value);
    let va = 1 + ck.len() + 3;
    let cm = va + tok.len();
    let mq = cm + 1;
    let bv = mq + km.len() + 3;
    let cb = bv + bool_lit(si.monitored).len();
    lemma_supply_tokens(si, camel);
    lemma_supply_keys();
    let k1 = bytes_of_ascii("chain_value"@);
    assert(find_member(s, mq as nat, km) == Some((bv as nat, cb as nat)));
    assert(find_member(s, 1 as nat, ck) == Some((va as nat, cm as nat)));
    assert(obj_field(s, 0, ck) == Some((va as nat, cm as nat)));
    assert(ck != km && km != k1);
    assert(find_member(s, 1 as nat, km) == Some((bv as nat, cb as nat)));
    assert(obj_field(s, 0, km) == Some((bv as nat, cb as nat)));
    if camel {
        assert(ck != k1);
        assert(find_member(s, mq as nat, k1) is None);
        assert(find_member(s, 1 as nat, k1) is None);
        assert(obj_field(s, 0, k1) is None);
    }
}

/// The byte text of each supply key, and that each needs no escaping.
pub proof fn lemma_supply_keys()
    ensures
        bytes_of_ascii("chain_value"@) =~= seq![
            0x63u8, 0x68u8, 0x61u8, 0x69u8, 0x6eu8, 0x5fu8, 0x76u8, 0x61u8, 0x6cu8, 0x75u8,
            0x65u8,
        ],
        bytes_of_ascii("chainValue"@) =~= seq![
            0x63u8, 0x68u8, 0x61u8, 0x69u8, 0x6eu8, 0x56u8, 0x61u8, 0x6cu8, 0x75u8, 0x65u8,
        ],
        bytes_of_ascii("monitored"@) =~= seq![
            0x6du8, 0x6fu8, 0x6eu8, 0x69u8, 0x74u8, 0x6fu8, 0x72u8, 0x65u8, 0x64u8,
        ],
        crate::jsontext::plain_text(bytes_of_ascii("chain_value"@)),
        crate::jsontext::plain_text(bytes_of_ascii("chainValue"@)),
        crate::jsontext::plain_text(bytes_of_ascii("monitored"@)),
{
    reveal_strlit("chain_value");
    reveal_strlit("chainValue");
    reveal_strlit("monitored");
}

/// Both spellings of the chain-value key are accepted and decode a supply
/// record to the identical record: decoding a serialized supply record
/// gives the record back under either alias.
#[verifier::rlimit(100)]
#[verifier::spinoff_prover]
pub proof fn lemma_supply_aliases(si: SupplyInfo, camel: bool)
    requires
        si.wf(),
    ensures
        supply_info_of(ser_supply(si, camel), 0) == Some(si),
{
    let k1 = bytes_of_ascii("chain_value"@);
    let k2 = bytes_of_ascii("chainValue"@);
    let km = bytes_of_ascii("monitored"@);
    let ck = sup_key(camel);
    let s = ser_supply(si, camel);
    let tok = amount_token(si.chain_value);
    let va = 1 + ck.len() + 3;
    let cm = va + tok.len();
    let mq = cm + 1;
    let bv = mq + km.len() + 3;
    let cb = bv + bool_lit(si.monitored).len();
    lemma_supply_keys();
    lemma_supply_walk(si, camel);
    assert(k1.len() == 11 && k2.len() == 10 && km.len() == 9);
    assert(ck != km);
    if camel {
        assert(obj_field(s, 0, k1) is None);
        assert(obj_field2(s, 0, k1, k2) == Some((va as nat, cm as nat)));
    } else {
        assert(obj_field2(s, 0, k1, k2) == Some((va as nat, cm as nat)));
    }
    assert(amount_field2(s, 0, k1, k2) == Some(si.chain_value));
    assert(bool_field(s, 0, km) == Some(si.monitored));
}


/// A serialized pool record, under either spelling of its aliased
/// chain-value key.
#[verifier::opaque]
pub open spec fn ser_pool(pe: PoolEntryV, camel: bool) -> Seq<u8> {
    seq![0x7bu8] + quoted(bytes_of_ascii("id"@)) + seq![0x3au8] + quoted(pe.id) + seq![0x2cu8]
        + quoted(sup_key(camel)) + seq![0x3au8] + amount_token(pe.chain_value) + seq![0x2cu8]
        + quoted(bytes_of_ascii("monitored"@)) + seq![0x3au8] + bool_lit(pe.monitored)
        + seq![0x7du8]
}

/// Byte layout of a serialized pool record: where each token stands.
pub proof fn lemma_pool_layout(pe: PoolEntryV, camel: bool)
    ensures
        ({
            let ik = bytes_of_ascii("id"@);
            let ck = sup_key(camel);
            let km = bytes_of_ascii("monitored"@);
            let s = ser_pool(pe, camel);
            let tok = amount_token(pe.chain_value);
            let iv = 1 + ik.len() + 3;
            let ie = iv + pe.id.len() + 2;
            let kq = ie + 1;
            let va = kq + ck.len() + 3;
            let cm = va + tok.len();
            let mq = cm + 1;
            let bv = mq + km.len() + 3;
            let cb = bv + bool_lit(pe.monitored).len();
            &&& s.len() == cb + 1
            &&& s[0] == 0x7b
            &&& starts_with(s, 1, quoted(ik))
            &&& s[(1 + ik.len() + 2) as int] == 0x3a
            &&& starts_with(s, iv as nat, quoted(pe.id))
            &&& s[ie as int] == 0x2c
            &&& starts_with(s, kq as nat, quoted(ck))
            &&& s[(kq + ck.len() + 2) as int] == 0x3a
            &&& starts_with(s, va as nat, tok)
            &&& s[cm as int] == 0x2c
            &&& starts_with(s, mq as nat, quoted(km))
            &&& s[(mq + km.len() + 2) as int] == 0x3a
            &&& starts_with(s, bv as nat, bool_lit(pe.monitored))
            &&& s[cb as int] == 0x7d
        }),
{
    let ik = bytes_of_ascii("id"@);
    let ck = sup_key(camel);
    let km = bytes_of_ascii("monitored"@);
    let s = ser_pool(pe, camel);
    let tok = amount_token(pe.chain_value);
    let blit = bool_lit(pe.monitored);
    let iv = 1 + ik.len() + 3;
    let ie = iv + pe.id.len() + 2;
    let kq = ie + 1;
    let va = kq + ck.len() + 3;
    let cm = va + tok.len();
    let mq = cm + 1;
    let bv = mq + km.len() + 3;
    let cb = bv + blit.len();
    reveal(ser_pool);
    assert(starts_with(s, 1, quoted(ik))) by {
        assert(s.subrange(1, (1 + ik.len() + 2) as int) =~= quoted(ik));
    }
    assert(starts_with(s, iv as nat, quoted(pe.id))) by {
        assert(s.subrange(iv as int, ie as int) =~= quoted(pe.id));
    }
    assert(starts_with(s, kq as nat, quoted(ck))) by {
        assert(s.subrange(kq as int, (kq + ck.len() + 2) as int) =~= quoted(ck));
    }
    assert(starts_with(s, va as nat, tok)) by {
        assert(s.subrange(va as int, cm as int) =~= tok);
    }
    assert(starts_with(s, mq as nat, quoted(km))) by {
        assert(s.subrange(mq as int, (mq + km.len() + 2) as int) =~= quoted(km));
    }
    assert(starts_with(s, bv as nat, blit)) by {
        assert(s.subrange(bv as int, cb as int) =~= blit);
    }
}

/// Token-level facts about a serialized pool record.
#[verifier::rlimit(100)]
#[verifier::spinoff_prover]
pub proof fn lemma_pool_tokens(pe: PoolEntryV, camel: bool)
    requires
        crate::jsontext::plain_text(pe.id),
        -AMOUNT_LIMIT_ZATS <= pe.chain_value <= AMOUNT_LIMIT_ZATS,
    ensures
        ({
            let ik = bytes_of_ascii("id"@);
            let ck = sup_key(camel);
            let km = bytes_of_ascii("monitored"@);
            let s = ser_pool(pe, camel);
            let tok = amount_token(pe.chain_value);
            let iv = 1 + ik.len() + 3;
            let ie = iv + pe.id.len() + 2;
            let kq = ie + 1;
            let va = kq + ck.len() + 3;
            let cm = va + tok.len();
            let mq = cm + 1;
            let bv = mq + km.len() + 3;
            let cb = bv + bool_lit(pe.monitored).len();
            &&& s.len() == cb + 1
            &&& s[0] == 0x7b
            &&& scan_string(s, 1) == Some((1 + ik.len() + 2) as nat)
            &&& str_content(s, 1, 1 + ik.len() + 2) == ik
            &&& s[(1 + ik.len() + 2) as int] == 0x3a
            &&& scan_value(s, iv as nat) == Some(ie as nat)
            &&& str_span_content(s, iv as nat, ie as nat) == Some(pe.id)
            &&& s[ie as int] == 0x2c
            &&& scan_string(s, kq as nat) == Some((kq + ck.len() + 2) as nat)
            &&& str_content(s, kq as nat, kq + ck.len() + 2) == ck
            &&& s[(kq + ck.len() + 2) as int] == 0x3a
            &&& scan_value(s, va as nat) == Some(cm as nat)
            &&& amount_span_zats(s, va as nat, cm as nat) == Some(pe.chain_value as int)
            &&& s[cm as int] == 0x2c
            &&& scan_string(s, mq as nat) == Some((mq + km.len() + 2) as nat)
            &&& str_content(s, mq as nat, mq + km.len() + 2) == km
            &&& s[(mq + km.len() + 2) as int] == 0x3a
            &&& scan_value(s, bv as nat) == Some(cb as nat)
            &&& bool_span_val(s, bv as nat, cb as nat) == Some(pe.monitored)
            &&& s[cb as int] == 0x7d
            &&& skip_ws(s, 1) == 1
            &&& skip_ws(s, (1 + ik.len() + 2) as nat) == 1 + ik.len() + 2
            &&& skip_ws(s, iv as nat) == iv
            &&& skip_ws(s, ie as nat) == ie
            &&& skip_ws(s, kq as nat) == kq
            &&& skip_ws(s, (kq + ck.len() + 2) as nat) == kq + ck.len() + 2
            &&& skip_ws(s, va as nat) == va
            &&& skip_ws(s, cm as nat) == cm
            &&& skip_ws(s, mq as nat) == mq
            &&& skip_ws(s, (mq + km.len() + 2) as nat) == mq + km.len() + 2
            &&& skip_ws(s, bv as nat) == bv
            &&& skip_ws(s, cb as nat) == cb
        }),
{
    let ik = bytes_of_ascii("id"@);
    let ck = sup_key(camel);
    let km = bytes_of_ascii("monitored"@);
    let s = ser_pool(pe, camel);
    let tok = amount_token(pe.chain_value);
    let blit = bool_lit(pe.monitored);
    let iv = 1 + ik.len() + 3;
    let ie = iv + pe.id.len() + 2;
    let kq = ie + 1;
    let va = kq + ck.len() + 3;
    let cm = va + tok.len();
    let mq = cm + 1;
    let bv = mq + km.len() + 3;
    let cb = bv + blit.len();
    lemma_pool_layout(pe, camel);
    lemma_supply_keys();
    lemma_pool_keys();
    lemma_key_token(s, 1, ik);
    lemma_key_token(s, iv as nat, pe.id);
    lemma_key_token(s, kq as nat, ck);
    lemma_key_token(s, mq as nat, km);
    lemma_amount_token(s, va as nat, pe.chain_value);
    assert(scan_value(s, iv as nat) == Some(ie as nat)) by {
        lemma_starts_with_index(s, iv as nat, quoted(pe.id));
        assert(s[iv as int] == 0x22);
    }
    assert(scan_value(s, bv as nat) == Some(cb as nat)) by {
        lemma_starts_with_index(s, bv as nat, blit);
        if pe.monitored {
            assert(s[bv as int] == 0x74);
            assert(s[bv + 1 as int] == 0x72 && s[bv + 2 as int] == 0x75 && s[bv + 3 as int]
                == 0x65);
        } else {
            assert(s[bv as int] == 0x66);
            assert(s[bv + 1 as int] == 0x61 && s[bv + 2 as int] == 0x6c && s[bv + 3 as int]
                == 0x73 && s[bv + 4 as int] == 0x65);
        }
    }
    assert(bool_span_val(s, bv as nat, cb as nat) == Some(pe.monitored)) by {
        lemma_starts_with_index(s, bv as nat, blit);
    }
    assert(skip_ws(s, 1) == 1) by {
        lemma_starts_with_index(s, 1, quoted(ik));
    }
    assert(skip_ws(s, iv as nat) == iv) by {
        lemma_starts_with_index(s, iv as nat, quoted(pe.id));
    }
    assert(skip_ws(s, kq as nat) == kq) by {
        lemma_starts_with_index(s, kq as nat, quoted(ck));
    }
    assert(skip_ws(s, va as nat) == va) by {
        lemma_starts_with_index(s, va as nat, tok);
        assert(s[va as int] == tok[0]);
    }
    assert(skip_ws(s, mq as nat) == mq) by {
        lemma_starts_with_index(s, mq as nat, quoted(km));
    }
    assert(skip_ws(s, bv as nat) == bv) by {
        lemma_starts_with_index(s, bv as nat, blit);
        assert(s[bv as int] == blit[0]);
    }
}

/// The byte text of the pool id key, and that it needs no escaping.
pub proof fn lemma_pool_keys()
    ensures
        bytes_of_ascii("id"@) =~= seq![0x69u8, 0x64u8],
        crate::jsontext::plain_text(bytes_of_ascii("id"@)),
{
    reveal_strlit("id");
}

/// Walks the tail of a serialized pool record's member list, from the
/// chain-value member's key.
#[verifier::rlimit(100)]
#[verifier::spinoff_prover]
pub proof fn lemma_pool_walk_tail(pe: PoolEntryV, camel: bool)
    requires
        crate::jsontext::plain_text(pe.id),
        -AMOUNT_LIMIT_ZATS <= pe.chain_value <= AMOUNT_LIMIT_ZATS,
    ensures
        ({
            let ik = bytes_of_ascii("id"@);
            let ck = sup_key(camel);
            let km = bytes_of_ascii("monitored"@);
            let s = ser_pool(pe, camel);
            let tok = amount_token(pe.chain_value);
            let kq = 1 + ik.len() + 3 + pe.id.len() + 2 + 1;
            let va = kq + ck.len() + 3;
            let cm = va + tok.len();
            let mq = cm + 1;
            let bv = mq + km.len() + 3;
            let cb = bv + bool_lit(pe.monitored).len();
            &&& find_member(s, kq as nat, ck) == Some((va as nat, cm as nat))
            &&& find_member(s, kq as nat, km) == Some((bv as nat, cb as nat))
            &&& camel ==> find_member(s, kq as nat, bytes_of_ascii("chain_value"@)) is None
        }),
{
    let ik = bytes_of_ascii("id"@);
    let ck = sup_key(camel);
    let km = bytes_of_ascii("monitored"@);
    let s = ser_pool(pe, camel);
    let tok = amount_token(pe.chain_value);
    let kq = 1 + ik.len() + 3 + pe.id.len() + 2 + 1;
    let va = kq + ck.len() + 3;
    let cm = va + tok.len();
    let mq = cm + 1;
    let bv = mq + km.len() + 3;
    let cb = bv + bool_lit(pe.monitored).len();
    lemma_pool_tokens(pe, camel);
    lemma_supply_keys();
    lemma_pool_keys();
    let k1 = bytes_of_ascii("chain_value"@);
    assert(ck != km && km != k1);
    assert(find_member(s, mq as nat, km) == Some((bv as nat, cb as nat)));
    assert(find_member(s, kq as nat, km) == Some((bv as nat, cb as nat)));
    assert(find_member(s, kq as nat, ck) == Some((va as nat, cm as nat)));
    if camel {
        assert(ck != k1);
        assert(find_member(s, mq as nat, k1) is None);
        assert(find_member(s, kq as nat, k1) is None);
    }
}

/// Walks a serialized pool record's member list from its first member.
#[verifier::rlimit(100)]
#[verifier::spinoff_prover]
pub proof fn lemma_pool_walk(pe: PoolEntryV, camel: bool)
    requires
        crate::jsontext::plain_text(pe.id),
        -AMOUNT_LIMIT_ZATS <= pe.chain_value <= AMOUNT_LIMIT_ZATS,
    ensures
        ({
            let ik = bytes_of_ascii("id"@);
            let ck = sup_key(camel);
            let km = bytes_of_ascii("monitored"@);
            let s = ser_pool(pe, camel);
            let tok = amount_token(pe.chain_value);
            let iv = 1 + ik.len() + 3;
            let ie = iv + pe.id.len() + 2;
            let kq = ie + 1;
            let va = kq + ck.len() + 3;
            let cm = va + tok.len();
            let mq = cm + 1;
            let bv = mq + km.len() + 3;
            let cb = bv + bool_lit(pe.monitored).len();
            &&& obj_field(s, 0, ik) == Some((iv as nat, ie as nat))
            &&& obj_field(s, 0, ck) == Some((va as nat, cm as nat))
            &&& obj_field(s, 0, km) == Some((bv as nat, cb as nat))
            &&& camel ==> obj_field(s, 0, bytes_of_ascii("chain_value"@)) is None
            &&& str_span_content(s, iv as nat, ie as nat) == Some(pe.id)
            &&& amount_span_zats(s, va as nat, cm as nat) == Some(pe.chain_value as int)
            &&& bool_span_val(s, bv as nat, cb as nat) == Some(pe.monitored)
        }),
{
    let ik = bytes_of_ascii("id"@);
    let ck = sup_key(camel);
    let km = bytes_of_ascii("monitored"@);
    let s = ser_pool(pe, camel);
    let tok = amount_token(pe.chain_value);
    let iv = 1 + ik.len() + 3;
    let ie = iv + pe.id.len() + 2;
    let kq = ie + 1;
    let va = kq + ck.len() + 3;
    let cm = va + tok.len();
    let mq = cm + 1;
    let bv = mq + km.len() + 3;
    let cb = bv + bool_lit(pe.monitored).len();
    lemma_pool_tokens(pe, camel);
    lemma_pool_walk_tail(pe, camel);
    lemma_supply_keys();
    lemma_pool_keys();
    let k1 = bytes_of_ascii("chain_value"@);
    assert(ik.len() == 2 && km.len() == 9 && k1.len() == 11);
    assert(ik != ck && ik != km && ik != k1);
    assert(find_member(s, 1 as nat, ik) == Some((iv as nat, ie as nat)));
    assert(find_member(s, 1 as nat, ck) == Some((va as nat, cm as nat)));
    assert(find_member(s, 1 as nat, km) == Some((bv as nat, cb as nat)));
    assert(obj_field(s, 0, ik) == Some((iv as nat, ie as nat)));
    assert(obj_field(s, 0, ck) == Some((va as nat, cm as nat)));
    assert(obj_field(s, 0, km) == Some((bv as nat, cb as nat)));
    if camel {
        assert(find_member(s, 1 as nat, k1) is None);
        assert(obj_field(s, 0, k1) is None);
    }
}

/// Both spellings of the chain-value key are accepted inside a pool record
/// and decode it to the identical record.
#[verifier::rlimit(100)]
#[verifier::spinoff_prover]
pub proof fn lemma_pool_aliases(pe: PoolEntryV, camel: bool)
    requires
        crate::jsontext::plain_text(pe.id),
        -AMOUNT_LIMIT_ZATS <= pe.chain_value <= AMOUNT_LIMIT_ZATS,
    ensures
        pool_of(ser_pool(pe, camel), 0) == Some(pe),
{
    let k1 = bytes_of_ascii("chain_value"@);
    let k2 = bytes_of_ascii("chainValue"@);
    let ik = bytes_of_ascii("id"@);
    let km = bytes_of_ascii("monitored"@);
    let ck = sup_key(camel);
    let s = ser_pool(pe, camel);
    let tok = amount_token(pe.chain_value);
    let iv = 1 + ik.len() + 3;
    let ie = iv + pe.id.len() + 2;
    let kq = ie + 1;
    let va = kq + ck.len() + 3;
    let cm = va + tok.len();
    lemma_supply_keys();
    lemma_pool_keys();
    lemma_pool_walk(pe, camel);
    assert(string_field(s, 0, ik) == Some(pe.id));
    if camel {
        assert(obj_field(s, 0, k1) is None);
        assert(obj_field2(s, 0, k1, k2) == Some((va as nat, cm as nat)));
    } else {
        assert(obj_field2(s, 0, k1, k2) == Some((va as nat, cm as nat)));
    }
    assert(amount_field2(s, 0, k1, k2) == Some(pe.chain_value));
    assert(bool_field(s, 0, km) == Some(pe.monitored));
}

} // verus!
