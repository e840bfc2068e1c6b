//! JSON-RPC request construction: the fixed request shape
//! `{"jsonrpc":"...","id":"...","method":"...","params":[...]}` serialized
//! to its exact bytes, and a parser for that shape, so that serialization
//! is proven re-parseable.

use vstd::prelude::*;

use crate::jsontext::{bytes_of_ascii, plain_text, str_body_end};
use crate::numbers::{
    dec_digits, dec_signed, digit_run_end, digits_val, is_digit, push_i64_dec,
};

verus! {

/// One positional RPC parameter.
pub enum RpcParam {
    /// A JSON string parameter (a block hash, height or transaction id).
    Text(Vec<u8>),
    /// A JSON integer parameter (a verbosity level).
    Number(i64),
    /// A JSON boolean parameter.
    Flag(bool),
}

/// The mathematical value of an `RpcParam`.
pub enum RpcParamV {
    Text(Seq<u8>),
    Number(i64),
    Flag(bool),
}

impl View for RpcParam {
    type V = RpcParamV;

    open spec fn view(&self) -> RpcParamV {
        match self {
            RpcParam::Text(t) => RpcParamV::Text(t@),
            RpcParam::Number(n) => RpcParamV::Number(*n),
            RpcParam::Flag(b) => RpcParamV::Flag(*b),
        }
    }
}

/// The views of a parameter list.
pub open spec fn param_views(v: Seq<RpcParam>) -> Seq<RpcParamV> {
    v.map_values(|p: RpcParam| p@)
}

/// One JSON-RPC request: protocol version tag, correlation id, method name
/// and ordered parameter list.
pub struct RpcRequest {
    /// Protocol version tag, `1.0` for this client.
    pub version: Vec<u8>,
    /// Opaque correlation id echoed by the node.
    pub id: Vec<u8>,
    /// RPC method name.
    pub method: Vec<u8>,
    /// Positional parameters.
    pub params: Vec<RpcParam>,
}

/// The mathematical value of an `RpcRequest`.
#[verifier::ext_equal]
pub struct RpcRequestV {
    pub version: Seq<u8>,
    pub id: Seq<u8>,
    pub method: Seq<u8>,
    pub params: Seq<RpcParamV>,
}

impl View for RpcRequest {
    type V = RpcRequestV;

    open spec fn view(&self) -> RpcRequestV {
        RpcRequestV {
            version: self.version@,
            id: self.id@,
            method: self.method@,
            params: param_views(self.params@),
        }
    }
}

/// A parameter whose serialization needs no escaping.
pub open spec fn wf_param(p: RpcParamV) -> bool {
    match p {
        RpcParamV::Text(t) => plain_text(t),
        RpcParamV::Number(n) => true,
        RpcParamV::Flag(b) => true,
    }
}

impl RpcRequestV {
    /// A request whose serialization needs no escaping.
    pub open spec fn wf(self) -> bool {
        &&& plain_text(self.version)
        &&& plain_text(self.id)
        &&& plain_text(self.method)
        &&& forall|i: int| 0 <= i < self.params.len() ==> wf_param(#[trigger] self.params[i])
    }
}

/// `t` between double quotes.
pub open spec fn quoted(t: Seq<u8>) -> Seq<u8> {
    seq![0x22u8] + t + seq![0x22u8]
}

/// The serialization of one parameter.
pub open spec fn ser_param(p: RpcParamV) -> Seq<u8> {
    match p {
        RpcParamV::Text(t) => quoted(t),
        RpcParamV::Number(n) => dec_signed(n as int),
        RpcParamV::Flag(b) => if b {
            seq![0x74u8, 0x72u8, 0x75u8, 0x65u8]
        } else {
            seq![0x66u8, 0x61u8, 0x6cu8, 0x73u8, 0x65u8]
        },
    }
}

/// The serialization of a parameter list, comma separated.
pub open spec fn ser_params(ps: Seq<RpcParamV>) -> Seq<u8>
    decreases ps.len(),
{
    if ps.len() == 0 {
        Seq::empty()
    } else if ps.len() == 1 {
        ser_param(ps[0])
    } else {
        ser_params(ps.drop_last()) + seq![0x2cu8] + ser_param(ps.last())
    }
}

/// The serialization of a whole request, in the fixed key order
/// `jsonrpc`, `id`, `method`, `params`.
pub open spec fn ser_request(r: RpcRequestV) -> Seq<u8> {
    seq![0x7bu8] + quoted(bytes_of_ascii("jsonrpc"@)) + seq![0x3au8] + quoted(r.version)
        + seq![0x2cu8] + quoted(bytes_of_ascii("id"@)) + seq![0x3au8] + quoted(r.id)
        + seq![0x2cu8] + quoted(bytes_of_ascii("method"@)) + seq![0x3au8] + quoted(r.method)
        + seq![0x2cu8] + quoted(bytes_of_ascii("params"@)) + seq![0x3au8] + seq![0x5bu8]
        + ser_params(r.params) + seq![0x5du8, 0x7du8]
}

/// Appends all of `b` to `out`.
pub fn push_bytes(out: &mut Vec<u8>, b: &[u8])
    ensures
        final(out)@ == old(out)@ + b@,
{
    let n = b.len();
    let mut k: usize = 0;
    while k < n
        invariant
            k <= n == b@.len(),
            out@ == old(out)@ + b@.subrange(0, k as int),
        decreases n - k,
    {
        out.push(b[k]);
        assert(out@ =~= old(out)@ + b@.subrange(0, (k + 1) as int));
        k = k + 1;
    }
    assert(out@ =~= old(out)@ + b@);
}

/// Appends `t` between double quotes to `out`.
pub fn push_quoted(out: &mut Vec<u8>, t: &[u8])
    ensures
        final(out)@ == old(out)@ + quoted(t@),
{
    out.push(0x22);
    push_bytes(out, t);
    out.push(0x22);
    assert(out@ =~= old(out)@ + quoted(t@));
}

/// Appends the serialization of one parameter to `out`.
pub fn push_param(out: &mut Vec<u8>, p: &RpcParam)
    ensures
        final(out)@ == old(out)@ + ser_param(p@),
{
    match p {
        RpcParam::Text(t) => {
            push_quoted(out, t.as_slice());
        },
        RpcParam::Number(n) => {
            push_i64_dec(*n, out);
        },
        RpcParam::Flag(b) => {
            if *b {
                out.push(0x74);
                out.push(0x72);
                out.push(0x75);
                out.push(0x65);
                assert(out@ =~= old(out)@ + ser_param(p@));
            } else {
                out.push(0x66);
                out.push(0x61);
                out.push(0x6c);
                out.push(0x73);
                out.push(0x65);
                assert(out@ =~= old(out)@ + ser_param(p@));
            }
        },
    }
}

/// Serializes a request to the exact bytes of `ser_request`.
pub fn serialize_request(r: &RpcRequest) -> (out: Vec<u8>)
    ensures
        out@ == ser_request(r@),
{
    proof {
        reveal_strlit("jsonrpc");
        reveal_strlit("id");
        reveal_strlit("method");
        reveal_strlit("params");
    }
    let mut out: Vec<u8> = Vec::new();
    out.push(0x7b);
    push_quoted(&mut out, crate::jsontext::str_bytes("jsonrpc"));
    out.push(0x3a);
    push_quoted(&mut out, r.version.as_slice());
    out.push(0x2c);
    push_quoted(&mut out, crate::jsontext::str_bytes("id"));
    out.push(0x3a);
    push_quoted(&mut out, r.id.as_slice());
    out.push(0x2c);
    push_quoted(&mut out, crate::jsontext::str_bytes("method"));
    out.push(0x3a);
    push_quoted(&mut out, r.method.as_slice());
    out.push(0x2c);
    push_quoted(&mut out, crate::jsontext::str_bytes("params"));
    out.push(0x3a);
    out.push(0x5b);
    let ghost base = out@;
    let n = r.params.len();
    let mut k: usize = 0;
    while k < n
        invariant
            k <= n == r.params@.len(),
            out@ == base + ser_params(param_views(r.params@).subrange(0, k as int)),
        decreases n - k,
    {
        if k > 0 {
            out.push(0x2c);
        }
        push_param(&mut out, &r.params[k]);
        proof {
            let vs = param_views(r.params@);
            assert(vs.subrange(0, (k + 1) as int).drop_last() =~= vs.subrange(0, k as int));
            assert(vs.subrange(0, (k + 1) as int).last() == r.params@[k as int]@);
            if k == 0 {
                assert(out@ =~= base + ser_params(vs.subrange(0, 1)));
            } else {
                assert(out@ =~= base + ser_params(vs.subrange(0, (k + 1) as int)));
            }
        }
        k = k + 1;
    }
    proof {
        assert(param_views(r.params@).subrange(0, r.params@.len() as int) =~= param_views(
            r.params@,
        ));
    }
    out.push(0x5d);
    out.push(0x7d);
    assert(out@ =~= ser_request(r@));
    out
}


/// `t` occurs in `s` at position `i`.
pub open spec fn starts_with(s: Seq<u8>, i: nat, t: Seq<u8>) -> bool {
    i + t.len() <= s.len() && s.subrange(i as int, (i + t.len()) as int) == t
}

/// The bytes of an occurrence, pointwise.
pub proof fn lemma_starts_with_index(s: Seq<u8>, i: nat, t: Seq<u8>)
    requires
        starts_with(s, i, t),
    ensures
        forall|k: int| 0 <= k < t.len() ==> s[i + k] == #[trigger] t[k],
{
    assert forall|k: int| 0 <= k < t.len() implies s[i + k] == #[trigger] t[k] by {
        assert(s.subrange(i as int, (i + t.len()) as int)[k] == t[k]);
    }
}

/// Parses one parameter at `i`: a string, an integer or a boolean literal.
pub open spec fn parse_param_at(s: Seq<u8>, i: nat) -> Option<(RpcParamV, nat)> {
    if i < s.len() {
        let b = s[i as int];
        if b == 0x22 {
            match str_body_end(s, i + 1) {
                Some(e) => Some((RpcParamV::Text(s.subrange(i + 1 as int, e - 1)), e)),
                None => None,
            }
        } else if b == 0x2d || is_digit(b) {
            let st: nat = if b == 0x2d {
                i + 1
            } else {
                i
            };
            let de = digit_run_end(s, st);
            if st < de <= s.len() {
                let m = digits_val(s.subrange(st as int, de as int));
                let v: int = if b == 0x2d {
                    -m
                } else {
                    m
                };
                if -0x8000_0000_0000_0000 <= v <= 0x7fff_ffff_ffff_ffff {
                    Some((RpcParamV::Number(v as i64), de))
                } else {
                    None
                }
            } else {
                None
            }
        } else if b == 0x74 {
            if starts_with(s, i, seq![0x74u8, 0x72u8, 0x75u8, 0x65u8]) {
                Some((RpcParamV::Flag(true), (i + 4) as nat))
            } else {
                None
            }
        } else if b == 0x66 {
            if starts_with(s, i, seq![0x66u8, 0x61u8, 0x6cu8, 0x73u8, 0x65u8]) {
                Some((RpcParamV::Flag(false), (i + 5) as nat))
            } else {
                None
            }
        } else {
            None
        }
    } else {
        None
    }
}

/// Parses a comma-separated parameter list at `i`, through the closing
/// bracket.
pub open spec fn parse_params_at(s: Seq<u8>, i: nat) -> Option<(Seq<RpcParamV>, nat)>
    decreases s.len() - i,
{
    match parse_param_at(s, i) {
        None => None,
        Some(pe) => {
            let e = pe.1;
            if e < s.len() && s[e as int] == 0x2c && i < e {
                match parse_params_at(s, e + 1) {
                    Some(r) => Some((seq![pe.0] + r.0, r.1)),
                    None => None,
                }
            } else if e < s.len() && s[e as int] == 0x5d {
                Some((seq![pe.0], (e + 1) as nat))
            } else {
                None
            }
        },
    }
}

/// Parses a serialized request, in the fixed key order the serializer
/// emits.
pub open spec fn parse_request(s: Seq<u8>) -> Option<RpcRequestV> {
    let p0 = seq![0x7bu8] + quoted(bytes_of_ascii("jsonrpc"@)) + seq![0x3au8, 0x22u8];
    if starts_with(s, 0, p0) {
        match str_body_end(s, p0.len()) {
            None => None,
            Some(e1) => {
                let version = s.subrange(p0.len() as int, e1 - 1);
                let p1 = seq![0x2cu8] + quoted(bytes_of_ascii("id"@)) + seq![0x3au8, 0x22u8];
                if starts_with(s, e1, p1) {
                    match str_body_end(s, e1 + p1.len()) {
                        None => None,
                        Some(e2) => {
                            let id = s.subrange((e1 + p1.len()) as int, e2 - 1);
                            let p2 = seq![0x2cu8] + quoted(bytes_of_ascii("method"@))
                                + seq![0x3au8, 0x22u8];
                            if starts_with(s, e2, p2) {
                                match str_body_end(s, e2 + p2.len()) {
                                    None => None,
                                    Some(e3) => {
                                        let method = s.subrange((e2 + p2.len()) as int, e3 - 1);
                                        let p3 = seq![0x2cu8] + quoted(bytes_of_ascii("params"@))
                                            + seq![0x3au8, 0x5bu8];
                                        if starts_with(s, e3, p3) {
                                            let q = e3 + p3.len();
                                            if q + 2 == s.len() && q < s.len() && s[q as int]
                                                == 0x5d && s[q + 1 as int] == 0x7d {
                                                Some(
                                                    RpcRequestV {
                                                        version,
                                                        id,
                                                        method,
                                                        params: Seq::empty(),
                                                    },
                                                )
                                            } else {
                                                match parse_params_at(s, q) {
                                                    Some(r) => {
                                                        if r.1 + 1 == s.len() && r.1 < s.len()
                                                            && s[r.1 as int] == 0x7d {
                                                            Some(
                                                                RpcRequestV {
                                                                    version,
                                                                    id,
                                                                    method,
                                                                    params: r.0,
                                                                },
                                                            )
                                                        } else {
                                                            None
                                                        }
                                                    },
                                                    None => None,
                                                }
                                            }
                                        } else {
                                            None
                                        }
                                    },
                                }
                            } else {
                                None
                            }
                        },
                    }
                } else {
                    None
                }
            },
        }
    } else {
        None
    }
}

/// Scanning a plain string body whose closing quote follows lands exactly
/// on that quote.
pub proof fn lemma_str_body_of_plain(s: Seq<u8>, i: nat, t: Seq<u8>)
    requires
        plain_text(t),
        starts_with(s, i, t + seq![0x22u8]),
    ensures
        str_body_end(s, i) == Some((i + t.len() + 1) as nat),
    decreases t.len(),
{
    assert(s.subrange(i as int, (i + t.len() + 1) as int)[t.len() as int] == 0x22);
    if t.len() == 0 {
        assert(s[i as int] == 0x22);
    } else {
        assert(s[i as int] == (t + seq![0x22u8])[0]);
        assert(crate::jsontext::plain_str_byte(t[0]));
        assert(starts_with(s, i + 1, t.drop_first() + seq![0x22u8])) by {
            lemma_starts_with_index(s, i, t + seq![0x22u8]);
            assert forall|k: int|
                0 <= k < t.len() implies s[i + 1 + k] == (t.drop_first() + seq![0x22u8])[k] by {
                assert(s[i + (k + 1)] == (t + seq![0x22u8])[k + 1]);
            }
            assert(s.subrange((i + 1) as int, (i + 1 + t.len()) as int) =~= t.drop_first()
                + seq![0x22u8]);
        }
        assert(plain_text(t.drop_first()));
        lemma_str_body_of_plain(s, i + 1, t.drop_first());
    }
}

/// A digit run bounded on the right by a non-digit ends exactly there.
pub proof fn lemma_digit_run_exact(s: Seq<u8>, st: nat, ln: nat)
    requires
        st + ln <= s.len(),
        forall|k: int| st <= k < st + ln ==> is_digit(#[trigger] s[k]),
        st + ln == s.len() || !is_digit(s[(st + ln) as int]),
    ensures
        digit_run_end(s, st) == st + ln,
{
    crate::numbers::lemma_digit_run_end(s, st);
    let d = digit_run_end(s, st);
    if d < st + ln {
        assert(is_digit(s[d as int]));
    }
    if d > st + ln {
        assert(is_digit(s[(st + ln) as int]));
    }
}

/// A serialized parameter is at least one byte long.
pub proof fn lemma_ser_param_len(p: RpcParamV)
    ensures
        ser_param(p).len() >= 1,
{
    match p {
        RpcParamV::Number(n) => {
            crate::numbers::lemma_dec_digits_val(if n < 0 {
                (-(n as int)) as nat
            } else {
                n as nat
            });
        },
        _ => {},
    }
}

/// Parsing a serialized parameter followed by a separator gives the
/// parameter back.
pub proof fn lemma_parse_param_of_ser(s: Seq<u8>, i: nat, p: RpcParamV)
    requires
        wf_param(p),
        starts_with(s, i, ser_param(p)),
        i + ser_param(p).len() < s.len(),
        s[(i + ser_param(p).len()) as int] == 0x2c || s[(i + ser_param(p).len()) as int]
            == 0x5d,
    ensures
        parse_param_at(s, i) == Some((p, (i + ser_param(p).len()) as nat)),
{
    let e = i + ser_param(p).len();
    match p {
        RpcParamV::Text(t) => {
            assert(s[i as int] == quoted(t)[0]);
            assert(s[i as int] == 0x22);
            assert(starts_with(s, i + 1, t + seq![0x22u8])) by {
                lemma_starts_with_index(s, i, quoted(t));
                assert forall|k: int|
                    0 <= k < t.len() + 1 implies s[i + 1 + k] == (t + seq![0x22u8])[k] by {
                    assert(s[i + (k + 1)] == quoted(t)[k + 1]);
                }
                assert(s.subrange((i + 1) as int, (i + 1 + t.len() + 1) as int) =~= t
                    + seq![0x22u8]);
            }
            lemma_str_body_of_plain(s, i + 1, t);
            lemma_starts_with_index(s, i, quoted(t));
            assert forall|k: int| 0 <= k < t.len() implies s[i + 1 + k] == t[k] by {
                assert(s[i + (k + 1)] == quoted(t)[k + 1]);
            }
            assert(s.subrange(i + 1 as int, e - 1) =~= t);
        },
        RpcParamV::Number(n) => {
            let m: nat = if n < 0 {
                (-(n as int)) as nat
            } else {
                n as nat
            };
            crate::numbers::lemma_dec_digits_val(m);
            let ds = dec_digits(m);
            if n < 0 {
                assert(ser_param(p) =~= seq![0x2du8] + ds);
                lemma_starts_with_index(s, i, seq![0x2du8] + ds);
                assert(s[i as int] == (seq![0x2du8] + ds)[0]);
                assert(s[i as int] == 0x2d);
                assert forall|k: int|
                    i + 1 <= k < e implies s[k] == ds[k - (i + 1)] && is_digit(
                    #[trigger] s[k],
                ) by {
                    assert(s[i + (k - i)] == (seq![0x2du8] + ds)[k - i]);
                }
                assert(!is_digit(s[e as int]));
                lemma_digit_run_exact(s, i + 1, ds.len());
                assert(s.subrange((i + 1) as int, e as int) =~= ds);
                assert(digits_val(s.subrange((i + 1) as int, e as int)) == m);
            } else {
                assert(ser_param(p) == ds);
                lemma_starts_with_index(s, i, ds);
                assert(s[i as int] == ds[0]);
                assert(is_digit(s[i as int]));
                assert(s[i as int] != 0x22 && s[i as int] != 0x2d);
                assert forall|k: int|
                    i <= k < e implies s[k] == ds[k - i] && is_digit(#[trigger] s[k]) by {
                    assert(s[i + (k - i)] == ds[k - i]);
                }
                assert(!is_digit(s[e as int]));
                lemma_digit_run_exact(s, i, ds.len());
                assert(s.subrange(i as int, e as int) =~= ds);
                assert(digits_val(s.subrange(i as int, e as int)) == m);
            }
        },
        RpcParamV::Flag(b) => {
            if b {
                assert(s[i as int] == ser_param(p)[0]);
                assert(starts_with(s, i, seq![0x74u8, 0x72u8, 0x75u8, 0x65u8])) by {
                    assert(s.subrange(i as int, (i + 4) as int) =~= seq![
                        0x74u8,
                        0x72u8,
                        0x75u8,
                        0x65u8,
                    ]);
                }
            } else {
                assert(s[i as int] == ser_param(p)[0]);
                assert(starts_with(s, i, seq![0x66u8, 0x61u8, 0x6cu8, 0x73u8, 0x65u8])) by {
                    assert(s.subrange(i as int, (i + 5) as int) =~= seq![
                        0x66u8,
                        0x61u8,
                        0x6cu8,
                        0x73u8,
                        0x65u8,
                    ]);
                }
            }
        },
    }
}

/// Head decomposition of `ser_params`.
pub proof fn lemma_ser_params_head(ps: Seq<RpcParamV>)
    requires
        ps.len() >= 2,
    ensures
        ser_params(ps) == ser_param(ps[0]) + seq![0x2cu8] + ser_params(ps.drop_first()),
    decreases ps.len(),
{
    if ps.len() == 2 {
        assert(ps.drop_last() =~= seq![ps[0]]);
        assert(ps.drop_first() =~= seq![ps[1]]);
        assert(ser_params(seq![ps[0]]) == ser_param(ps[0]));
        assert(ser_params(seq![ps[1]]) == ser_param(ps[1]));
        assert(ser_params(ps) =~= ser_param(ps[0]) + seq![0x2cu8] + ser_params(
            ps.drop_first(),
        ));
    } else {
        lemma_ser_params_head(ps.drop_last());
        assert(ps.drop_last()[0] == ps[0]);
        assert(ps.drop_last().drop_first() =~= ps.drop_first().drop_last());
        assert(ps.drop_first().last() == ps.last());
        assert(ps.drop_first().len() >= 2);
        assert(ser_params(ps.drop_first()) == ser_params(ps.drop_first().drop_last())
            + seq![0x2cu8] + ser_param(ps.drop_first().last()));
        assert(ser_params(ps) =~= ser_param(ps[0]) + seq![0x2cu8] + ser_params(
            ps.drop_first(),
        ));
    }
}

/// Parsing a serialized non-empty parameter list followed by the closing
/// bracket gives the list back.
pub proof fn lemma_parse_params_of_ser(s: Seq<u8>, i: nat, ps: Seq<RpcParamV>)
    requires
        ps.len() >= 1,
        forall|k: int| 0 <= k < ps.len() ==> wf_param(#[trigger] ps[k]),
        starts_with(s, i, ser_params(ps) + seq![0x5du8]),
    ensures
        parse_params_at(s, i) == Some((ps, (i + ser_params(ps).len() + 1) as nat)),
    decreases ps.len(),
{
    lemma_ser_param_len(ps[0]);
    if ps.len() == 1 {
        assert(ser_params(ps) == ser_param(ps[0]));
        assert(starts_with(s, i, ser_param(ps[0]))) by {
            lemma_starts_with_index(s, i, ser_params(ps) + seq![0x5du8]);
            assert forall|k: int|
                0 <= k < ser_param(ps[0]).len() implies s[i + k] == ser_param(ps[0])[k] by {
                assert(s[i + k] == (ser_params(ps) + seq![0x5du8])[k]);
            }
            assert(s.subrange(i as int, (i + ser_param(ps[0]).len()) as int) =~= ser_param(
                ps[0],
            ));
        }
        let e = i + ser_param(ps[0]).len();
        assert(s[e as int] == (ser_params(ps) + seq![0x5du8])[e - i]);
        assert(s[e as int] == 0x5d);
        lemma_parse_param_of_ser(s, i, ps[0]);
        assert(seq![ps[0]] =~= ps);
    } else {
        lemma_ser_params_head(ps);
        let e = i + ser_param(ps[0]).len();
        assert(starts_with(s, i, ser_param(ps[0]))) by {
            lemma_starts_with_index(s, i, ser_params(ps) + seq![0x5du8]);
            assert forall|k: int|
                0 <= k < ser_param(ps[0]).len() implies s[i + k] == ser_param(ps[0])[k] by {
                assert(s[i + k] == (ser_params(ps) + seq![0x5du8])[k]);
            }
            assert(s.subrange(i as int, e as int) =~= ser_param(ps[0]));
        }
        assert(s[e as int] == (ser_params(ps) + seq![0x5du8])[e - i]);
        assert(s[e as int] == 0x2c);
        lemma_parse_param_of_ser(s, i, ps[0]);
        assert(starts_with(s, e + 1, ser_params(ps.drop_first()) + seq![0x5du8])) by {
            lemma_starts_with_index(s, i, ser_params(ps) + seq![0x5du8]);
            let hd = ser_param(ps[0]).len() as int;
            let tl = ser_params(ps.drop_first()) + seq![0x5du8];
            assert forall|k: int| 0 <= k < tl.len() implies s[e + 1 + k] == tl[k] by {
                assert(s[i + (hd + 1 + k)] == (ser_params(ps) + seq![0x5du8])[hd + 1 + k]);
                assert((ser_params(ps) + seq![0x5du8])[hd + 1 + k] == tl[k]);
            }
            assert(s.subrange((e + 1) as int, (e + 1 + tl.len()) as int) =~= tl);
        }
        lemma_parse_params_of_ser(s, e + 1, ps.drop_first());
        assert(seq![ps[0]] + ps.drop_first() =~= ps);
    }
}

/// Round trip: a well-formed request's serialization parses back to the
/// identical protocol version, correlation id, method name and parameter
/// list.
#[verifier::rlimit(100)]
pub proof fn lemma_request_round_trip(r: RpcRequestV)
    requires
        r.wf(),
    ensures
        parse_request(ser_request(r)) == Some(r),
{
    let s = ser_request(r);
    let jk = bytes_of_ascii("jsonrpc"@);
    let ik = bytes_of_ascii("id"@);
    let mk = bytes_of_ascii("method"@);
    let pk = bytes_of_ascii("params"@);
    let p0 = seq![0x7bu8] + quoted(jk) + seq![0x3au8, 0x22u8];
    let p1 = seq![0x2cu8] + quoted(ik) + seq![0x3au8, 0x22u8];
    let p2 = seq![0x2cu8] + quoted(mk) + seq![0x3au8, 0x22u8];
    let p3 = seq![0x2cu8] + quoted(pk) + seq![0x3au8, 0x5bu8];
    let e1 = p0.len() + r.version.len() + 1;
    let e2 = e1 + p1.len() + r.id.len() + 1;
    let e3 = e2 + p2.len() + r.method.len() + 1;
    let q = e3 + p3.len();
    assert(s =~= p0 + r.version + seq![0x22u8] + p1 + r.id + seq![0x22u8] + p2 + r.method
        + seq![0x22u8] + p3 + ser_params(r.params) + seq![0x5du8, 0x7du8]);
    assert(starts_with(s, 0, p0)) by {
        assert(s.subrange(0, p0.len() as int) =~= p0);
    }
    assert(starts_with(s, p0.len(), r.version + seq![0x22u8])) by {
        assert(s.subrange(p0.len() as int, e1 as int) =~= r.version + seq![0x22u8]);
    }
    lemma_str_body_of_plain(s, p0.len(), r.version);
    assert(str_body_end(s, p0.len()) == Some(e1 as nat));
    assert(s.subrange(p0.len() as int, e1 - 1) =~= r.version);
    assert(starts_with(s, e1, p1)) by {
        assert(s.subrange(e1 as int, (e1 + p1.len()) as int) =~= p1);
    }
    assert(starts_with(s, e1 + p1.len(), r.id + seq![0x22u8])) by {
        assert(s.subrange((e1 + p1.len()) as int, e2 as int) =~= r.id + seq![0x22u8]);
    }
    lemma_str_body_of_plain(s, e1 + p1.len(), r.id);
    assert(str_body_end(s, e1 + p1.len()) == Some(e2 as nat));
    assert(s.subrange((e1 + p1.len()) as int, e2 - 1) =~= r.id);
    assert(starts_with(s, e2, p2)) by {
        assert(s.subrange(e2 as int, (e2 + p2.len()) as int) =~= p2);
    }
    assert(starts_with(s, e2 + p2.len(), r.method + seq![0x22u8])) by {
        assert(s.subrange((e2 + p2.len()) as int, e3 as int) =~= r.method + seq![0x22u8]);
    }
    lemma_str_body_of_plain(s, e2 + p2.len(), r.method);
    assert(str_body_end(s, e2 + p2.len()) == Some(e3 as nat));
    assert(s.subrange((e2 + p2.len()) as int, e3 - 1) =~= r.method);
    assert(starts_with(s, e3, p3)) by {
        assert(s.subrange(e3 as int, q as int) =~= p3);
    }
    if r.params.len() == 0 {
        assert(ser_params(r.params) == Seq::<u8>::empty());
        assert(s[q as int] == 0x5d);
        assert(s[q + 1 as int] == 0x7d);
        assert(q + 2 == s.len());
        assert(parse_request(s) == Some(r));
    } else {
        assert(s[q as int] == (ser_params(r.params) + seq![0x5du8, 0x7du8])[0]);
        lemma_ser_param_len(r.params[0]);
        assert(ser_params(r.params).len() >= 1) by {
            if r.params.len() >= 2 {
                lemma_ser_params_head(r.params);
            }
        }
        assert(starts_with(s, q, ser_params(r.params) + seq![0x5du8])) by {
            assert(s.subrange(q as int, (q + ser_params(r.params).len() + 1) as int)
                =~= ser_params(r.params) + seq![0x5du8]);
        }
        lemma_parse_params_of_ser(s, q, r.params);
        let ee = q + ser_params(r.params).len() + 1;
        assert(s[ee as int] == 0x7d);
        assert(ee + 1 == s.len());
        assert(!(q + 2 == s.len() && s[q as int] == 0x5d)) by {
            if q + 2 == s.len() && s[q as int] == 0x5d {
                assert(ser_params(r.params).len() == 0);
            }
        }
        assert(parse_request(s) == Some(r));
    }
}

} // verus!
