//! A fresh recovery phrase for display: twenty-four English words joined by
//! single spaces, drawn from the system's randomness.

use vstd::prelude::*;

verus! {

/// The number of spaces in a character string.
pub open spec fn count_spaces(s: Seq<char>) -> nat
    decreases s.len(),
{
    if s.len() == 0 {
        0
    } else {
        count_spaces(s.drop_last()) + if s.last() == ' ' {
            1nat
        } else {
            0nat
        }
    }
}

/// A phrase of exactly `w` words: lowercase letters and single spaces, with
/// `w - 1` separators and no space at either end.
pub open spec fn word_phrase(s: Seq<char>, w: nat) -> bool {
    &&& s.len() > 0
    &&& w >= 1
    &&& count_spaces(s) == w - 1
    &&& s[0] != ' '
    &&& s[s.len() - 1] != ' '
    &&& forall|i: int| 0 <= i < s.len() - 1 ==> !(#[trigger] s[i] == ' ' && s[i + 1] == ' ')
    &&& forall|i: int| 0 <= i < s.len() ==> (#[trigger] s[i] == ' ' || ('a' <= s[i] <= 'z'))
}

/// Relies on bip0039's `Mnemonic::<English>::generate` with the 24-word
/// count: the phrase is 24 words of the English wordlist (lowercase ASCII
/// letters) joined by single ASCII spaces.  The words themselves are drawn
/// from fresh randomness, so nothing else is stated of them.
#[verifier::external_body]
fn generate_phrase() -> (r: String)
    ensures
        word_phrase(r@, 24),
{
    let m: bip0039::Mnemonic<bip0039::English> = bip0039::Mnemonic::generate(
        bip0039::Count::Words24,
    );
    m.into_phrase()
}

/// A fresh 24-word recovery phrase.
pub fn fresh_mnemonic() -> (r: String)
    ensures
        word_phrase(r@, 24),
{
    generate_phrase()
}

} // verus!
