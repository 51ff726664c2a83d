//! The characters that individuals are made of.
use vstd::prelude::*;

verus! {

/// A contiguous range of characters, `first..=last`.
#[derive(Clone, Copy, Debug, PartialEq, Eq, Structural)]
pub struct Alphabet {
    pub first: char,
    pub last: char,
}

impl Alphabet {
    /// The range is non-empty and does not span the surrogate gap
    /// `0xD800..=0xDFFF`, so it holds every code point between its ends.
    pub open spec fn wf(self) -> bool {
        &&& (self.first as u32) <= (self.last as u32)
        &&& ((self.last as u32) < 0xD800 || (self.first as u32) > 0xDFFF)
    }

    /// Whether `c` lies in the range of a well-formed alphabet.
    pub open spec fn has(self, c: char) -> bool {
        self.wf() && (self.first as u32) <= (c as u32) <= (self.last as u32)
    }

    /// Number of characters in the range.
    pub open spec fn size(self) -> nat {
        if self.wf() {
            ((self.last as u32) - (self.first as u32) + 1) as nat
        } else {
            0
        }
    }

    /// Every character of `s` lies in the range.
    pub open spec fn covers(self, s: Seq<char>) -> bool {
        forall|i: int| 0 <= i < s.len() ==> self.has(#[trigger] s[i])
    }

    /// The printable ASCII characters, from space to tilde.
    pub fn printable() -> (r: Alphabet)
        ensures
            r.wf(),
            r.first == ' ',
            r.last == '~',
            r.size() == 95,
    {
        Alphabet { first: ' ', last: '~' }
    }

    /// The lowercase ASCII letters.
    pub fn lowercase() -> (r: Alphabet)
        ensures
            r.wf(),
            r.first == 'a',
            r.last == 'z',
            r.size() == 26,
    {
        Alphabet { first: 'a', last: 'z' }
    }

    /// Whether the alphabet is well formed.
    pub fn is_valid(&self) -> (r: bool)
        ensures
            r == self.wf(),
    {
        (self.first as u32) <= (self.last as u32) && ((self.last as u32) < 0xD800 || (self.first as u32) > 0xDFFF)
    }

    /// Number of characters in the range; zero when it is not well formed.
    pub fn len(&self) -> (r: usize)
        ensures
            r == self.size(),
    {
        if self.is_valid() {
            ((self.last as u32) - (self.first as u32) + 1) as usize
        } else {
            0
        }
    }

    /// Whether `c` lies in the range of a well-formed alphabet.
    pub fn contains(&self, c: char) -> (r: bool)
        ensures
            r == self.has(c),
    {
        self.is_valid() && (self.first as u32) <= (c as u32) && (c as u32) <= (self.last as u32)
    }

    /// Whether every character of `s` lies in the range.
    pub fn covers_all(&self, s: &Vec<char>) -> (r: bool)
        ensures
            r == self.covers(s@),
    {
        let mut i: usize = 0;
        while i < s.len()
            invariant
                i <= s.len(),
                forall|j: int| 0 <= j < i ==> self.has(#[trigger] s@[j]),
            decreases s.len() - i,
        {
            if !self.contains(s[i]) {
                return false;
            }
            i = i + 1;
        }
        true
    }
}

} // verus!
