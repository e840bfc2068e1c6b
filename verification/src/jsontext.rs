//! A scanner for the JSON subset that the node's interface uses.
//!
//! The grammar is standard JSON restricted in two ways: numbers carry no
//! exponent part, and strings carry no escape sequences (every byte between
//! the quotes is a printable or multi-byte UTF-8 byte other than `"` and
//! `\`).  Nothing the node sends for the fixed RPC catalogue needs either.
//!
//! The spec functions in this module are the definition of the grammar: each
//! takes the input and a position and returns the position one past the item
//! scanned, or `None` where no such item starts there.  The exec functions
//! return exactly what their spec twins return.

use vstd::prelude::*;

use crate::numbers::{digit_run_end, is_digit, scan_digits};

verus! {

/// JSON insignificant whitespace.
pub open spec fn is_ws(b: u8) -> bool {
    b == 0x20 || b == 0x09 || b == 0x0a || b == 0x0d
}

/// A byte that may stand unescaped inside a string literal: anything but a
/// control byte, the quote and the backslash.
pub open spec fn plain_str_byte(b: u8) -> bool {
    0x20 <= b && b != 0x22 && b != 0x5c
}

/// Text of unescaped string-literal bytes.
pub open spec fn plain_text(s: Seq<u8>) -> bool {
    forall|i: int| 0 <= i < s.len() ==> plain_str_byte(#[trigger] s[i])
}

/// The bytes of an ASCII character sequence, one byte per character.
pub open spec fn bytes_of_ascii(cs: Seq<char>) -> Seq<u8> {
    Seq::new(cs.len(), |i: int| cs[i] as u8)
}

/// First position at or after `i` holding no whitespace.
pub open spec fn skip_ws(s: Seq<u8>, i: nat) -> nat
    decreases s.len() - i,
{
    if i < s.len() && is_ws(s[i as int]) {
        skip_ws(s, i + 1)
    } else {
        i
    }
}

/// `skip_ws` stays inside the input and lands on a non-whitespace byte.
pub proof fn lemma_skip_ws(s: Seq<u8>, i: nat)
    requires
        i <= s.len(),
    ensures
        i <= skip_ws(s, i) <= s.len(),
        skip_ws(s, i) < s.len() ==> !is_ws(s[skip_ws(s, i) as int]),
    decreases s.len() - i,
{
    if i < s.len() && is_ws(s[i as int]) {
        lemma_skip_ws(s, i + 1);
    }
}

/// End of a string literal's body and closing quote, entered one past the
/// opening quote: the position one past the closing quote.
pub open spec fn str_body_end(s: Seq<u8>, i: nat) -> Option<nat>
    decreases s.len() - i,
{
    if i < s.len() {
        if s[i as int] == 0x22 {
            Some((i + 1) as nat)
        } else if plain_str_byte(s[i as int]) {
            str_body_end(s, i + 1)
        } else {
            None
        }
    } else {
        None
    }
}

/// End of a string literal starting at `i`: one past the closing quote.
pub open spec fn scan_string(s: Seq<u8>, i: nat) -> Option<nat> {
    if i < s.len() && s[i as int] == 0x22 {
        str_body_end(s, i + 1)
    } else {
        None
    }
}

/// The text between the quotes of the string literal `[i, e)`.
pub open spec fn str_content(s: Seq<u8>, i: nat, e: nat) -> Seq<u8> {
    s.subrange(i + 1 as int, e - 1)
}

/// Shape facts about a scanned string literal.
pub proof fn lemma_str_body_end(s: Seq<u8>, i: nat)
    requires
        i <= s.len(),
    ensures
        str_body_end(s, i) is Some ==> {
            let e = str_body_end(s, i)->0;
            &&& i < e <= s.len()
            &&& s[e - 1] == 0x22
            &&& plain_text(s.subrange(i as int, e - 1))
        },
    decreases s.len() - i,
{
    if i < s.len() && s[i as int] != 0x22 && plain_str_byte(s[i as int]) {
        lemma_str_body_end(s, i + 1);
        if str_body_end(s, i) is Some {
            let e = str_body_end(s, i)->0;
            assert(s.subrange(i as int, e - 1) =~= seq![s[i as int]] + s.subrange(
                i + 1 as int,
                e - 1,
            ));
        }
    }
}

/// Shape facts about a scanned string literal, from its opening quote.
pub proof fn lemma_scan_string(s: Seq<u8>, i: nat)
    requires
        i <= s.len(),
    ensures
        scan_string(s, i) is Some ==> {
            let e = scan_string(s, i)->0;
            &&& i + 2 <= e <= s.len()
            &&& s[i as int] == 0x22
            &&& s[e - 1] == 0x22
            &&& plain_text(str_content(s, i, e))
        },
{
    if i < s.len() && s[i as int] == 0x22 {
        lemma_str_body_end(s, i + 1);
    }
}

/// End of a number token starting at `i`: an optional minus sign, an integer
/// digit run, and an optional fraction of up to any length (the decoders
/// bound the fraction; the scanner does not).
pub open spec fn scan_number(s: Seq<u8>, i: nat) -> Option<nat> {
    let st: nat = if i < s.len() && s[i as int] == 0x2d {
        i + 1
    } else {
        i
    };
    let de = digit_run_end(s, st);
    if de == st {
        None
    } else if de < s.len() && s[de as int] == 0x2e {
        let fe = digit_run_end(s, de + 1);
        if fe == de + 1 {
            None
        } else {
            Some(fe)
        }
    } else {
        Some(de)
    }
}

/// A scanned number token ends after `i`, inside the input.
pub proof fn lemma_scan_number(s: Seq<u8>, i: nat)
    requires
        i <= s.len(),
    ensures
        scan_number(s, i) is Some ==> i < scan_number(s, i)->0 <= s.len(),
{
    let st: nat = if i < s.len() && s[i as int] == 0x2d {
        i + 1
    } else {
        i
    };
    crate::numbers::lemma_digit_run_end(s, st);
    let de = digit_run_end(s, st);
    if de != st && de < s.len() && s[de as int] == 0x2e {
        crate::numbers::lemma_digit_run_end(s, de + 1);
    }
}

/// End of any JSON value starting at `i`.
pub open spec fn scan_value(s: Seq<u8>, i: nat) -> Option<nat>
    decreases s.len() - i, 0int,
{
    if i >= s.len() {
        None
    } else {
        let b = s[i as int];
        if b == 0x22 {
            scan_string(s, i)
        } else if b == 0x2d || is_digit(b) {
            scan_number(s, i)
        } else if b == 0x74 {
            // "true"
            if i + 4 <= s.len() && s[i + 1 as int] == 0x72 && s[i + 2 as int] == 0x75 && s[i + 3 as int] == 0x65 {
                Some((i + 4) as nat)
            } else {
                None
            }
        } else if b == 0x66 {
            // "false"
            if i + 5 <= s.len() && s[i + 1 as int] == 0x61 && s[i + 2 as int] == 0x6c && s[i + 3 as int] == 0x73 && s[i + 4 as int] == 0x65 {
                Some((i + 5) as nat)
            } else {
                None
            }
        } else if b == 0x6e {
            // "null"
            if i + 4 <= s.len() && s[i + 1 as int] == 0x75 && s[i + 2 as int] == 0x6c && s[i + 3 as int] == 0x6c {
                Some((i + 4) as nat)
            } else {
                None
            }
        } else if b == 0x7b {
            // '{'
            let j = skip_ws(s, i + 1);
            if j < s.len() && s[j as int] == 0x7d {
                Some((j + 1) as nat)
            } else if i < j && j <= s.len() {
                obj_members_end(s, j)
            } else {
                None
            }
        } else if b == 0x5b {
            // '['
            let j = skip_ws(s, i + 1);
            if j < s.len() && s[j as int] == 0x5d {
                Some((j + 1) as nat)
            } else if i < j && j <= s.len() {
                arr_elems_end(s, j)
            } else {
                None
            }
        } else {
            None
        }
    }
}

/// End of a member list of an object, entered at the opening quote of a key
/// (whitespace already skipped): the position one past the closing brace.
pub open spec fn obj_members_end(s: Seq<u8>, i: nat) -> Option<nat>
    decreases s.len() - i, 1int,
{
    match scan_string(s, i) {
        None => None,
        Some(k) => {
            let c = skip_ws(s, k);
            if c < s.len() && s[c as int] == 0x3a {
                // ':'
                let v = skip_ws(s, c + 1);
                if i < v && v <= s.len() {
                    match scan_value(s, v) {
                        None => None,
                        Some(e) => {
                            let d = skip_ws(s, e);
                            if d < s.len() && s[d as int] == 0x2c {
                                // ','
                                let nx = skip_ws(s, d + 1);
                                if i < nx && nx <= s.len() {
                                    obj_members_end(s, nx)
                                } else {
                                    None
                                }
                            } else if d < s.len() && s[d as int] == 0x7d {
                                Some((d + 1) as nat)
                            } else {
                                None
                            }
                        },
                    }
                } else {
                    None
                }
            } else {
                None
            }
        },
    }
}

/// End of an element list of an array, entered at the first element
/// (whitespace already skipped): the position one past the closing bracket.
pub open spec fn arr_elems_end(s: Seq<u8>, i: nat) -> Option<nat>
    decreases s.len() - i, 1int,
{
    match scan_value(s, i) {
        None => None,
        Some(e) => {
            let d = skip_ws(s, e);
            if d < s.len() && s[d as int] == 0x2c {
                let nx = skip_ws(s, d + 1);
                if i < nx && nx <= s.len() {
                    arr_elems_end(s, nx)
                } else {
                    None
                }
            } else if d < s.len() && s[d as int] == 0x5d {
                Some((d + 1) as nat)
            } else {
                None
            }
        },
    }
}

/// A scanned value ends after `i`, inside the input.
pub proof fn lemma_scan_value(s: Seq<u8>, i: nat)
    requires
        i <= s.len(),
    ensures
        scan_value(s, i) is Some ==> i < scan_value(s, i)->0 <= s.len(),
    decreases s.len() - i, 0int,
{
    if i < s.len() {
        let b = s[i as int];
        if b == 0x22 {
            lemma_scan_string(s, i);
        } else if b == 0x2d || is_digit(b) {
            lemma_scan_number(s, i);
        } else if b == 0x7b {
            let j = skip_ws(s, i + 1);
            lemma_skip_ws(s, i + 1);
            if j < s.len() && s[j as int] == 0x7d {
            } else if i < j && j <= s.len() {
                lemma_obj_members_end(s, j);
            }
        } else if b == 0x5b {
            let j = skip_ws(s, i + 1);
            lemma_skip_ws(s, i + 1);
            if j < s.len() && s[j as int] == 0x5d {
            } else if i < j && j <= s.len() {
                lemma_arr_elems_end(s, j);
            }
        }
    }
}

/// A scanned member list ends after `i`, inside the input.
pub proof fn lemma_obj_members_end(s: Seq<u8>, i: nat)
    requires
        i <= s.len(),
    ensures
        obj_members_end(s, i) is Some ==> i < obj_members_end(s, i)->0 <= s.len(),
    decreases s.len() - i, 1int,
{
    lemma_scan_string(s, i);
    match scan_string(s, i) {
        None => {},
        Some(k) => {
            lemma_skip_ws(s, k);
            let c = skip_ws(s, k);
            if c < s.len() && s[c as int] == 0x3a {
                let v = skip_ws(s, c + 1);
                lemma_skip_ws(s, c + 1);
                if i < v && v <= s.len() {
                    lemma_scan_value(s, v);
                    match scan_value(s, v) {
                        None => {},
                        Some(e) => {
                            let d = skip_ws(s, e);
                            lemma_skip_ws(s, e);
                            if d < s.len() && s[d as int] == 0x2c {
                                let nx = skip_ws(s, d + 1);
                                lemma_skip_ws(s, d + 1);
                                if i < nx && nx <= s.len() {
                                    lemma_obj_members_end(s, nx);
                                }
                            }
                        },
                    }
                }
            }
        },
    }
}

/// A scanned element list ends after `i`, inside the input.
pub proof fn lemma_arr_elems_end(s: Seq<u8>, i: nat)
    requires
        i <= s.len(),
    ensures
        arr_elems_end(s, i) is Some ==> i < arr_elems_end(s, i)->0 <= s.len(),
    decreases s.len() - i, 1int,
{
    lemma_scan_value(s, i);
    match scan_value(s, i) {
        None => {},
        Some(e) => {
            let d = skip_ws(s, e);
            lemma_skip_ws(s, e);
            if d < s.len() && s[d as int] == 0x2c {
                let nx = skip_ws(s, d + 1);
                lemma_skip_ws(s, d + 1);
                if i < nx && nx <= s.len() {
                    lemma_arr_elems_end(s, nx);
                }
            }
        },
    }
}

/// The span `(value start, value end)` of the first member with the given
/// key, walking the member list entered at the opening quote of a key.
pub open spec fn find_member(s: Seq<u8>, i: nat, key: Seq<u8>) -> Option<(nat, nat)>
    decreases s.len() - i,
{
    match scan_string(s, i) {
        None => None,
        Some(k) => {
            let c = skip_ws(s, k);
            if c < s.len() && s[c as int] == 0x3a {
                let v = skip_ws(s, c + 1);
                if i < v && v <= s.len() {
                    match scan_value(s, v) {
                        None => None,
                        Some(e) => {
                            if str_content(s, i, k) == key {
                                Some((v, e))
                            } else {
                                let d = skip_ws(s, e);
                                if d < s.len() && s[d as int] == 0x2c {
                                    let nx = skip_ws(s, d + 1);
                                    if i < nx && nx <= s.len() {
                                        find_member(s, nx, key)
                                    } else {
                                        None
                                    }
                                } else {
                                    None
                                }
                            }
                        },
                    }
                } else {
                    None
                }
            } else {
                None
            }
        },
    }
}

/// A found member value is a scannable value span inside the input.
pub proof fn lemma_find_member(s: Seq<u8>, i: nat, key: Seq<u8>)
    requires
        i <= s.len(),
    ensures
        find_member(s, i, key) is Some ==> {
            let (v, e) = find_member(s, i, key)->0;
            &&& i < v < e <= s.len()
            &&& scan_value(s, v) == Some(e)
        },
    decreases s.len() - i,
{
    lemma_scan_string(s, i);
    match scan_string(s, i) {
        None => {},
        Some(k) => {
            lemma_skip_ws(s, k);
            let c = skip_ws(s, k);
            if c < s.len() && s[c as int] == 0x3a {
                let v = skip_ws(s, c + 1);
                lemma_skip_ws(s, c + 1);
                if i < v && v <= s.len() {
                    lemma_scan_value(s, v);
                    match scan_value(s, v) {
                        None => {},
                        Some(e) => {
                            if str_content(s, i, k) != key {
                                let d = skip_ws(s, e);
                                lemma_skip_ws(s, e);
                                if d < s.len() && s[d as int] == 0x2c {
                                    let nx = skip_ws(s, d + 1);
                                    lemma_skip_ws(s, d + 1);
                                    if i < nx && nx <= s.len() {
                                        lemma_find_member(s, nx, key);
                                    }
                                }
                            }
                        },
                    }
                }
            }
        },
    }
}

/// Member lookup inside an object value starting at `v`: `None` if the value
/// is not an object, is the empty object, or has no member with the key.
pub open spec fn obj_field(s: Seq<u8>, v: nat, key: Seq<u8>) -> Option<(nat, nat)> {
    if v < s.len() && s[v as int] == 0x7b {
        let j = skip_ws(s, v + 1);
        if j < s.len() && s[j as int] == 0x7d {
            None
        } else if v < j && j <= s.len() {
            find_member(s, j, key)
        } else {
            None
        }
    } else {
        None
    }
}

/// A member found inside an object value is a scannable value span.
pub proof fn lemma_obj_field(s: Seq<u8>, v: nat, key: Seq<u8>)
    requires
        v <= s.len(),
    ensures
        obj_field(s, v, key) is Some ==> {
            let (a, b) = obj_field(s, v, key)->0;
            &&& v < a < b <= s.len()
            &&& scan_value(s, a) == Some(b)
        },
{
    if v < s.len() && s[v as int] == 0x7b {
        let j = skip_ws(s, v + 1);
        lemma_skip_ws(s, v + 1);
        if !(j < s.len() && s[j as int] == 0x7d) && v < j && j <= s.len() {
            lemma_find_member(s, j, key);
        }
    }
}

/// Member lookup under a field's two accepted spellings: the first spelling
/// wins where both occur.
pub open spec fn obj_field2(s: Seq<u8>, v: nat, key1: Seq<u8>, key2: Seq<u8>) -> Option<
    (nat, nat),
> {
    match obj_field(s, v, key1) {
        Some(span) => Some(span),
        None => obj_field(s, v, key2),
    }
}

/// A member found under either spelling is a scannable value span.
pub proof fn lemma_obj_field2(s: Seq<u8>, v: nat, key1: Seq<u8>, key2: Seq<u8>)
    requires
        v <= s.len(),
    ensures
        obj_field2(s, v, key1, key2) is Some ==> {
            let (a, b) = obj_field2(s, v, key1, key2)->0;
            &&& v < a < b <= s.len()
            &&& scan_value(s, a) == Some(b)
        },
{
    lemma_obj_field(s, v, key1);
    lemma_obj_field(s, v, key2);
}

/// The span of the single JSON value that makes up the whole input, with
/// nothing but whitespace around it.
pub open spec fn whole_value(s: Seq<u8>) -> Option<(nat, nat)> {
    let st = skip_ws(s, 0);
    if st <= s.len() {
        match scan_value(s, st) {
            None => None,
            Some(e) => {
                if skip_ws(s, e) == s.len() {
                    Some((st, e))
                } else {
                    None
                }
            },
        }
    } else {
        None
    }
}


/// First `.` at or after `i` and before `e`.
pub open spec fn dot_in(s: Seq<u8>, i: nat, e: nat) -> Option<nat>
    decreases e - i,
{
    if i < e && i < s.len() {
        if s[i as int] == 0x2e {
            Some(i)
        } else {
            dot_in(s, i + 1, e)
        }
    } else {
        None
    }
}

/// A found dot lies in the searched range.
pub proof fn lemma_dot_in(s: Seq<u8>, i: nat, e: nat)
    requires
        i <= e <= s.len(),
    ensures
        dot_in(s, i, e) is Some ==> {
            let p = dot_in(s, i, e)->0;
            &&& i <= p < e
            &&& s[p as int] == 0x2e
        },
    decreases e - i,
{
    if i < e && i < s.len() && s[i as int] != 0x2e {
        lemma_dot_in(s, i + 1, e);
    }
}

/// An exec position result agrees with a spec position result.
pub open spec fn pos_match(r: Option<usize>, m: Option<nat>) -> bool {
    match r {
        Some(a) => m == Some(a as nat),
        None => m is None,
    }
}

/// An exec span result agrees with a spec span result.
pub open spec fn span_match(r: Option<(usize, usize)>, m: Option<(nat, nat)>) -> bool {
    match r {
        Some(a) => m == Some((a.0 as nat, a.1 as nat)),
        None => m is None,
    }
}

/// The byte string of an ASCII string slice.
pub fn str_bytes(s: &str) -> (r: &[u8])
    requires
        s.is_ascii(),
    ensures
        r@ == bytes_of_ascii(s@),
{
    proof {
        broadcast use vstd::string::is_ascii_spec_bytes;

    }
    let b = s.as_bytes();
    assert(b@ =~= bytes_of_ascii(s@));
    b
}

/// Scans forward over whitespace.
pub fn skip_ws_exec(s: &[u8], i: usize) -> (j: usize)
    requires
        i <= s@.len(),
    ensures
        j == skip_ws(s@, i as nat),
        i <= j <= s@.len(),
{
    let n = s.len();
    let mut j = i;
    while j < n && (s[j] == 0x20 || s[j] == 0x09 || s[j] == 0x0a || s[j] == 0x0d)
        invariant
            i <= j <= n == s@.len(),
            skip_ws(s@, i as nat) == skip_ws(s@, j as nat),
        decreases n - j,
    {
        j = j + 1;
    }
    j
}

/// Scans a string literal from its opening quote.
pub fn scan_string_exec(s: &[u8], i: usize) -> (r: Option<usize>)
    requires
        i <= s@.len(),
    ensures
        pos_match(r, scan_string(s@, i as nat)),
{
    let n = s.len();
    if i < n && s[i] == 0x22 {
        let mut j = i + 1;
        while j < n
            invariant
                i + 1 <= j <= n == s@.len(),
                s@[i as int] == 0x22,
                str_body_end(s@, (i + 1) as nat) == str_body_end(s@, j as nat),
            decreases n - j,
        {
            let b = s[j];
            if b == 0x22 {
                assert(str_body_end(s@, j as nat) == Some((j + 1) as nat));
                return Some(j + 1);
            }
            if !(0x20 <= b && b != 0x5c) {
                assert(str_body_end(s@, j as nat) is None);
                return None;
            }
            assert(str_body_end(s@, j as nat) == str_body_end(s@, (j + 1) as nat));
            j = j + 1;
        }
        None
    } else {
        None
    }
}

/// Scans a number token.
pub fn scan_number_exec(s: &[u8], i: usize) -> (r: Option<usize>)
    requires
        i <= s@.len(),
    ensures
        pos_match(r, scan_number(s@, i as nat)),
{
    let n = s.len();
    let st = if i < n && s[i] == 0x2d {
        i + 1
    } else {
        i
    };
    let de = scan_digits(s, st);
    proof {
        crate::numbers::lemma_digit_run_end(s@, st as nat);
    }
    if de == st {
        None
    } else if de < n && s[de] == 0x2e {
        let fe = scan_digits(s, de + 1);
        if fe == de + 1 {
            None
        } else {
            Some(fe)
        }
    } else {
        Some(de)
    }
}

/// Scans any JSON value.
pub fn scan_value_exec(s: &[u8], i: usize) -> (r: Option<usize>)
    requires
        i <= s@.len(),
    ensures
        pos_match(r, scan_value(s@, i as nat)),
    decreases s@.len() - i, 0int,
{
    let n = s.len();
    if i >= n {
        return None;
    }
    let b = s[i];
    if b == 0x22 {
        scan_string_exec(s, i)
    } else if b == 0x2d || (0x30 <= b && b <= 0x39) {
        scan_number_exec(s, i)
    } else if b == 0x74 {
        if n - i >= 4 && s[i + 1] == 0x72 && s[i + 2] == 0x75 && s[i + 3] == 0x65 {
            Some(i + 4)
        } else {
            None
        }
    } else if b == 0x66 {
        if n - i >= 5 && s[i + 1] == 0x61 && s[i + 2] == 0x6c && s[i + 3] == 0x73 && s[i + 4]
            == 0x65 {
            Some(i + 5)
        } else {
            None
        }
    } else if b == 0x6e {
        if n - i >= 4 && s[i + 1] == 0x75 && s[i + 2] == 0x6c && s[i + 3] == 0x6c {
            Some(i + 4)
        } else {
            None
        }
    } else if b == 0x7b {
        let j = skip_ws_exec(s, i + 1);
        if j < n && s[j] == 0x7d {
            Some(j + 1)
        } else if i < j {
            obj_members_end_exec(s, j)
        } else {
            None
        }
    } else if b == 0x5b {
        let j = skip_ws_exec(s, i + 1);
        if j < n && s[j] == 0x5d {
            Some(j + 1)
        } else if i < j {
            arr_elems_end_exec(s, j)
        } else {
            None
        }
    } else {
        None
    }
}

/// Scans an object's member list from the first key's opening quote.
pub fn obj_members_end_exec(s: &[u8], i: usize) -> (r: Option<usize>)
    requires
        i <= s@.len(),
    ensures
        pos_match(r, obj_members_end(s@, i as nat)),
    decreases s@.len() - i, 1int,
{
    let n = s.len();
    match scan_string_exec(s, i) {
        None => None,
        Some(k) => {
            proof {
                lemma_scan_string(s@, i as nat);
            }
            let c = skip_ws_exec(s, k);
            if c < n && s[c] == 0x3a {
                let v = skip_ws_exec(s, c + 1);
                if i < v {
                    match scan_value_exec(s, v) {
                        None => None,
                        Some(e) => {
                            proof {
                                lemma_scan_value(s@, v as nat);
                            }
                            let d = skip_ws_exec(s, e);
                            if d < n && s[d] == 0x2c {
                                let nx = skip_ws_exec(s, d + 1);
                                if i < nx {
                                    obj_members_end_exec(s, nx)
                                } else {
                                    None
                                }
                            } else if d < n && s[d] == 0x7d {
                                Some(d + 1)
                            } else {
                                None
                            }
                        },
                    }
                } else {
                    None
                }
            } else {
                None
            }
        },
    }
}

/// Scans an array's element list from its first element.
pub fn arr_elems_end_exec(s: &[u8], i: usize) -> (r: Option<usize>)
    requires
        i <= s@.len(),
    ensures
        pos_match(r, arr_elems_end(s@, i as nat)),
    decreases s@.len() - i, 1int,
{
    let n = s.len();
    match scan_value_exec(s, i) {
        None => None,
        Some(e) => {
            proof {
                lemma_scan_value(s@, i as nat);
            }
            let d = skip_ws_exec(s, e);
            if d < n && s[d] == 0x2c {
                let nx = skip_ws_exec(s, d + 1);
                if i < nx {
                    arr_elems_end_exec(s, nx)
                } else {
                    None
                }
            } else if d < n && s[d] == 0x5d {
                Some(d + 1)
            } else {
                None
            }
        },
    }
}

/// Compares the byte range `[i, j)` of `s` against `key`.
pub fn range_eq(s: &[u8], i: usize, j: usize, key: &[u8]) -> (r: bool)
    requires
        i <= j <= s@.len(),
    ensures
        r <==> s@.subrange(i as int, j as int) =~= key@,
{
    if j - i != key.len() {
        return false;
    }
    let mut k = i;
    while k < j
        invariant
            i <= k <= j <= s@.len(),
            j - i == key@.len(),
            forall|t: int| 0 <= t < k - i ==> s@[i + t] == key@[t],
        decreases j - k,
    {
        if s[k] != key[k - i] {
            assert(s@.subrange(i as int, j as int)[k - i] != key@[k - i]);
            return false;
        }
        k = k + 1;
    }
    assert(s@.subrange(i as int, j as int) =~= key@);
    true
}

/// Walks a member list looking for `key`; returns the value span of the
/// first member whose key matches.
pub fn find_member_exec(s: &[u8], i: usize, key: &[u8]) -> (r: Option<(usize, usize)>)
    requires
        i <= s@.len(),
    ensures
        span_match(r, find_member(s@, i as nat, key@)),
    decreases s@.len() - i,
{
    let n = s.len();
    match scan_string_exec(s, i) {
        None => None,
        Some(k) => {
            proof {
                lemma_scan_string(s@, i as nat);
            }
            let c = skip_ws_exec(s, k);
            if c < n && s[c] == 0x3a {
                let v = skip_ws_exec(s, c + 1);
                if i < v {
                    match scan_value_exec(s, v) {
                        None => None,
                        Some(e) => {
                            proof {
                                lemma_scan_value(s@, v as nat);
                            }
                            if range_eq(s, i + 1, k - 1, key) {
                                Some((v, e))
                            } else {
                                let d = skip_ws_exec(s, e);
                                if d < n && s[d] == 0x2c {
                                    let nx = skip_ws_exec(s, d + 1);
                                    if i < nx {
                                        find_member_exec(s, nx, key)
                                    } else {
                                        None
                                    }
                                } else {
                                    None
                                }
                            }
                        },
                    }
                } else {
                    None
                }
            } else {
                None
            }
        },
    }
}

/// Looks a member up inside the object value starting at `v`.
pub fn obj_field_exec(s: &[u8], v: usize, key: &[u8]) -> (r: Option<(usize, usize)>)
    requires
        v <= s@.len(),
    ensures
        span_match(r, obj_field(s@, v as nat, key@)),
{
    let n = s.len();
    if v < n && s[v] == 0x7b {
        let j = skip_ws_exec(s, v + 1);
        if j < n && s[j] == 0x7d {
            None
        } else if v < j {
            find_member_exec(s, j, key)
        } else {
            None
        }
    } else {
        None
    }
}

/// Looks a member up under either of a field's two accepted spellings.
pub fn obj_field2_exec(s: &[u8], v: usize, key1: &[u8], key2: &[u8]) -> (r: Option<
    (usize, usize),
>)
    requires
        v <= s@.len(),
    ensures
        span_match(r, obj_field2(s@, v as nat, key1@, key2@)),
{
    match obj_field_exec(s, v, key1) {
        Some(span) => Some(span),
        None => obj_field_exec(s, v, key2),
    }
}

/// Scans the single JSON value that makes up the whole input.
pub fn whole_value_exec(s: &[u8]) -> (r: Option<(usize, usize)>)
    ensures
        span_match(r, whole_value(s@)),
{
    let st = skip_ws_exec(s, 0);
    match scan_value_exec(s, st) {
        None => None,
        Some(e) => {
            proof {
                lemma_scan_value(s@, st as nat);
            }
            if skip_ws_exec(s, e) == s.len() {
                Some((st, e))
            } else {
                None
            }
        },
    }
}

} // verus!
