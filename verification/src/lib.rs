//! Cardsharp: study cards embedded in plain-text documents.
//!
//! The library locates card markers in document text, mints persistent
//! identifiers for new cards and splices them back into the text, encodes
//! identifiers as fixed-length printable tokens, and drives the review
//! session's scheduling decisions. Floating-point memory-model arithmetic
//! and all I/O live outside the library.

use vstd::prelude::*;

pub mod codec;
pub mod locator;
pub mod schedule;

verus! {

/// A card's persistent identity: six bytes of entropy, minted once when the
/// card's marker is first seen and never regenerated afterwards.
#[derive(Debug, Copy, Clone)]
pub struct CardId(pub [u8; 6]);

impl View for CardId {
    type V = Seq<u8>;

    open spec fn view(&self) -> Seq<u8> {
        self.0@
    }
}

impl PartialEq for CardId {
    fn eq(&self, other: &CardId) -> (r: bool) {
        let mut i: usize = 0;
        while i < 6
            invariant
                i <= 6,
                forall|k: int| 0 <= k < i ==> self.0@[k] == other.0@[k],
            decreases 6 - i,
        {
            if self.0[i] != other.0[i] {
                assert(self@ != other@);
                return false;
            }
            i += 1;
        }
        assert(self@ =~= other@);
        true
    }
}

impl vstd::std_specs::cmp::PartialEqSpecImpl for CardId {
    open spec fn obeys_eq_spec() -> bool {
        true
    }

    open spec fn eq_spec(&self, other: &CardId) -> bool {
        self@ == other@
    }
}

impl CardId {
    /// The identifier packed into the low bytes of a `u64`, with the lowest
    /// byte left zero.
    pub fn as_int(self) -> (r: u64)
        ensures
            r == self@[0] * 0x1000000000000 + self@[1] * 0x10000000000 + self@[2] * 0x100000000
                + self@[3] * 0x1000000 + self@[4] * 0x10000 + self@[5] * 0x100,
    {
        let b0 = self.0[0];
        let b1 = self.0[1];
        let b2 = self.0[2];
        let b3 = self.0[3];
        let b4 = self.0[4];
        let b5 = self.0[5];
        let r = ((((((((((b0 as u64) << 8) | b1 as u64) << 8) | b2 as u64) << 8) | b3 as u64)
            << 8) | b4 as u64) << 8 | b5 as u64) << 8;
        assert(r == b0 * 0x1000000000000 + b1 * 0x10000000000 + b2 * 0x100000000 + b3 * 0x1000000
            + b4 * 0x10000 + b5 * 0x100) by (bit_vector)
            requires
                r == ((((((((((b0 as u64) << 8) | b1 as u64) << 8) | b2 as u64) << 8) | b3 as u64)
                    << 8) | b4 as u64) << 8 | b5 as u64) << 8,
        ;
        r
    }
}

/// The characters left of a question once cloze deletions are masked,
/// starting at position `i` with the masking state `hidden`. An underscore
/// toggles masking and is dropped; while masking is on, every character
/// shows as an underscore.
pub open spec fn hide_from(s: Seq<char>, i: int, hidden: bool) -> Seq<char>
    decreases s.len() - i,
{
    if i < 0 || i >= s.len() {
        Seq::empty()
    } else if s[i] == '_' {
        hide_from(s, i + 1, !hidden)
    } else if hidden {
        seq!['_'] + hide_from(s, i + 1, hidden)
    } else {
        seq![s[i]] + hide_from(s, i + 1, hidden)
    }
}

/// What a question looks like with its cloze deletions masked.
pub open spec fn spec_hide_cloze(s: Seq<char>) -> Seq<char> {
    hide_from(s, 0, false)
}

/// Masks the text between paired underscores of a question, so the card's
/// front can be shown without giving the answer away.
pub fn hide_cloze(ques: &str) -> (r: String)
    ensures
        r@ == spec_hide_cloze(ques@),
{
    let n = ques.unicode_len();
    let mut r = String::new();
    let mut hidden = false;
    let mut i: usize = 0;
    while i < n
        invariant
            i <= n,
            n == ques@.len(),
            spec_hide_cloze(ques@) == r@ + hide_from(ques@, i as int, hidden),
        decreases n - i,
    {
        let c = ques.get_char(i);
        if c == '_' {
            hidden = !hidden;
        } else if hidden {
            codec::push_char(&mut r, '_');
        } else {
            codec::push_char(&mut r, c);
        }
        i += 1;
    }
    assert(r@ =~= spec_hide_cloze(ques@));
    r
}

} // verus!
