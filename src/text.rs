//! Preparation of raw ciphertext.
use vstd::prelude::*;
use crate::attack::B2;

verus! {

/// The text with every newline character removed.
pub open spec fn strip_newlines(s: Seq<char>) -> Seq<char>
    decreases s.len(),
{
    if s.len() == 0 {
        seq![]
    } else if s.last() == '\n' {
        strip_newlines(s.drop_last())
    } else {
        strip_newlines(s.drop_last()).push(s.last())
    }
}

/// What `str::to_uppercase` returns for a text.
pub uninterp spec fn upper_of(s: Seq<char>) -> Seq<char>;

/// Relies on `str::to_uppercase`: the uppercase mapping of each character, which depends on the
/// characters alone.
#[verifier::external_body]
fn to_upper(s: &str) -> (r: String)
    ensures
        r@ == upper_of(s@),
{
    s.to_uppercase()
}

/// The text with every newline character removed.
pub fn without_newlines(text: &str) -> (r: String)
    ensures
        r@ == strip_newlines(text@),
{
    let mut r = String::new();
    for c in it: text.chars()
        invariant
            it.seq() == text@,
            r@ == strip_newlines(text@.take(it.index() as int)),
    {
        proof {
            assert(text@.take(it.index() + 1).drop_last() =~= text@.take(it.index() as int));
        }
        if c != '\n' {
            r.push(c);
        }
    }
    proof {
        assert(text@.take(text@.len() as int) =~= text@);
    }
    r
}

impl B2 {
    /// The ciphertext of a raw text: newlines removed, then every letter in upper case.
    pub fn from_text(text: &str) -> (r: Self)
        ensures
            r.ciphertext@ == upper_of(strip_newlines(text@)),
    {
        let stripped = without_newlines(text);
        B2 { ciphertext: to_upper(stripped.as_str()) }
    }
}

} // verus!
