//! The credential resolver: turns the text of a cookie artifact into the
//! session's authentication identity and secret.
//!
//! Everything after the first colon, trimmed of surrounding whitespace,
//! becomes the secret, and the identity becomes the reserved cookie-auth
//! identity.  Text without a colon leaves the caller's identity and secret
//! untouched.

use vstd::prelude::*;

verus! {

/// Whitespace trimmed from around the secret.
pub open spec fn is_space_char(c: char) -> bool {
    c == ' ' || c == '\t' || c == '\n' || c == '\r'
}

/// First colon at or after `i`.
pub open spec fn first_colon(s: Seq<char>, i: nat) -> Option<nat>
    decreases s.len() - i,
{
    if i < s.len() {
        if s[i as int] == ':' {
            Some(i)
        } else {
            first_colon(s, i + 1)
        }
    } else {
        None
    }
}

/// First position at or after `i` holding no whitespace.
pub open spec fn skip_spaces(s: Seq<char>, i: nat) -> nat
    decreases s.len() - i,
{
    if i < s.len() && is_space_char(s[i as int]) {
        skip_spaces(s, i + 1)
    } else {
        i
    }
}

/// Scans back from `j` over whitespace, not below `a`.
pub open spec fn rskip_spaces(s: Seq<char>, j: nat, a: nat) -> nat
    decreases j,
{
    if j > a && j <= s.len() && is_space_char(s[j - 1]) {
        rskip_spaces(s, (j - 1) as nat, a)
    } else {
        j
    }
}

/// The secret carried by cookie text: everything after the first colon,
/// trimmed of surrounding whitespace; `None` where no colon occurs.
pub open spec fn cookie_secret(s: Seq<char>) -> Option<Seq<char>> {
    match first_colon(s, 0) {
        Some(p) => {
            let a = skip_spaces(s, p + 1);
            let b = rskip_spaces(s, s.len(), a);
            Some(s.subrange(a as int, b as int))
        },
        None => None,
    }
}

/// Whether the character at `j` is trimmable whitespace.
fn space_at(s: &str, j: usize) -> (r: bool)
    requires
        j < s@.len(),
    ensures
        r == is_space_char(s@[j as int]),
{
    let c = s.get_char(j);
    c == ' ' || c == '\t' || c == '\n' || c == '\r'
}

/// Finds the first colon of the text.
fn find_colon(s: &str) -> (r: Option<usize>)
    ensures
        match r {
            Some(c) => first_colon(s@, 0) == Some(c as nat) && c < s@.len(),
            None => first_colon(s@, 0) is None,
        },
{
    let n = s.unicode_len();
    let mut i: usize = 0;
    while i < n
        invariant
            i <= n == s@.len(),
            first_colon(s@, 0) == first_colon(s@, i as nat),
        decreases n - i,
    {
        if s.get_char(i) == ':' {
            assert(first_colon(s@, i as nat) == Some(i as nat));
            return Some(i);
        }
        assert(first_colon(s@, i as nat) == first_colon(s@, (i + 1) as nat));
        i = i + 1;
    }
    assert(first_colon(s@, i as nat) is None);
    None
}

/// Resolves the identity and secret from cookie text, falling back to the
/// given pair where the text holds no colon.
pub fn resolve_cookie(content: &str, username: String, password: String) -> (r: (String, String))
    ensures
        match cookie_secret(content@) {
            Some(sec) => r.0@ == "__cookie__"@ && r.1@ == sec,
            None => r.0@ == username@ && r.1@ == password@,
        },
{
    let n = content.unicode_len();
    let colon = find_colon(content);
    match colon {
        None => (username, password),
        Some(p) => {
            let mut a = p + 1;
            while a < n && space_at(content, a)
                invariant
                    p + 1 <= a <= n == content@.len(),
                    skip_spaces(content@, (p + 1) as nat) == skip_spaces(content@, a as nat),
                decreases n - a,
            {
                a = a + 1;
            }
            assert(skip_spaces(content@, a as nat) == a as nat);
            let mut b = n;
            while b > a && space_at(content, b - 1)
                invariant
                    a <= b <= n == content@.len(),
                    rskip_spaces(content@, n as nat, a as nat) == rskip_spaces(
                        content@,
                        b as nat,
                        a as nat,
                    ),
                decreases b,
            {
                b = b - 1;
            }
            assert(rskip_spaces(content@, b as nat, a as nat) == b as nat);
            let secret = content.substring_char(a, b);
            (String::from_str("__cookie__"), String::from_str(secret))
        },
    }
}

} // verus!
