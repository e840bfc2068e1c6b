//! The session's connection record: authentication identity, secret, base
//! URL and port, immutable after credential resolution and shared read-only
//! by every RPC call of the session.

use vstd::prelude::*;

use crate::credentials::{cookie_secret, resolve_cookie};

verus! {

/// The decimal character of one digit.
pub open spec fn digit_char(d: int) -> char {
    if d == 0 {
        '0'
    } else if d == 1 {
        '1'
    } else if d == 2 {
        '2'
    } else if d == 3 {
        '3'
    } else if d == 4 {
        '4'
    } else if d == 5 {
        '5'
    } else if d == 6 {
        '6'
    } else if d == 7 {
        '7'
    } else if d == 8 {
        '8'
    } else {
        '9'
    }
}

/// The decimal character string of `n`, most significant digit first.
pub open spec fn dec_chars(n: nat) -> Seq<char>
    decreases n,
{
    if n < 10 {
        seq![digit_char(n as int)]
    } else {
        dec_chars(n / 10).push(digit_char((n % 10) as int))
    }
}

/// The decimal character string of a signed value.
pub open spec fn dec_chars_signed(n: int) -> Seq<char> {
    if n < 0 {
        seq!['-'] + dec_chars((-n) as nat)
    } else {
        dec_chars(n as nat)
    }
}

/// Appends one decimal digit character.
fn append_digit(out: &mut String, d: u32)
    requires
        d < 10,
    ensures
        final(out)@ == old(out)@ + seq![digit_char(d as int)],
{
    if d == 0 {
        proof {
            reveal_strlit("0");
        }
        out.append("0");
    } else if d == 1 {
        proof {
            reveal_strlit("1");
        }
        out.append("1");
    } else if d == 2 {
        proof {
            reveal_strlit("2");
        }
        out.append("2");
    } else if d == 3 {
        proof {
            reveal_strlit("3");
        }
        out.append("3");
    } else if d == 4 {
        proof {
            reveal_strlit("4");
        }
        out.append("4");
    } else if d == 5 {
        proof {
            reveal_strlit("5");
        }
        out.append("5");
    } else if d == 6 {
        proof {
            reveal_strlit("6");
        }
        out.append("6");
    } else if d == 7 {
        proof {
            reveal_strlit("7");
        }
        out.append("7");
    } else if d == 8 {
        proof {
            reveal_strlit("8");
        }
        out.append("8");
    } else {
        proof {
            reveal_strlit("9");
        }
        out.append("9");
    }
    assert(out@ =~= old(out)@ + seq![digit_char(d as int)]);
}

/// Appends the decimal digits of `n`.
fn append_u32_dec(out: &mut String, n: u32)
    ensures
        final(out)@ == old(out)@ + dec_chars(n as nat),
    decreases n,
{
    if n < 10 {
        append_digit(out, n);
    } else {
        let ghost pre = out@;
        append_u32_dec(out, n / 10);
        append_digit(out, n % 10);
        assert(out@ =~= pre + dec_chars(n as nat));
    }
}

/// One node connection.
#[derive(Clone)]
pub struct NodeConnection {
    /// Authentication identity for HTTP Basic auth.
    pub username: String,
    /// Authentication secret.
    pub password: String,
    /// Base URL of the node's RPC interface.
    pub url: String,
    /// TCP port of the node's RPC interface.
    pub port: i32,
}

impl NodeConnection {
    /// The connection's endpoint as `url:port` text.
    pub fn display(&self) -> (r: String)
        ensures
            r@ == self.url@ + seq![':'] + dec_chars_signed(self.port as int),
    {
        proof {
            reveal_strlit(":");
        }
        let mut out = self.url.clone();
        out.append(":");
        if self.port < 0 {
            proof {
                reveal_strlit("-");
            }
            out.append("-");
            let m: u32 = if self.port == i32::MIN {
                2147483648u32
            } else {
                (0 - self.port) as u32
            };
            assert(m as nat == (-(self.port as int)) as nat);
            append_u32_dec(&mut out, m);
        } else {
            append_u32_dec(&mut out, self.port as u32);
        }
        assert(out@ =~= self.url@ + seq![':'] + dec_chars_signed(self.port as int));
        out
    }

    /// Applies cookie text to the connection's credentials: the reserved
    /// cookie identity and the trimmed secret where the text holds a colon,
    /// the previous pair otherwise.  The endpoint never changes.
    pub fn apply_cookie(&mut self, content: &str)
        ensures
            match cookie_secret(content@) {
                Some(sec) => final(self).username@ == "__cookie__"@ && final(self).password@
                    == sec,
                None => final(self).username@ == old(self).username@ && final(self).password@
                    == old(self).password@,
            },
            final(self).url == old(self).url,
            final(self).port == old(self).port,
    {
        let (u, p) = resolve_cookie(content, self.username.clone(), self.password.clone());
        self.username = u;
        self.password = p;
    }

    /// Whether an HTTP status code reports an established connection.
    pub fn connection_established(status: u32) -> (r: bool)
        ensures
            r <==> status == 200,
    {
        status == 200
    }
}

} // verus!
