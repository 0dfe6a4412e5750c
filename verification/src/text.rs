//! A minimal character-addressed text view: slicing by character offset
//! and bidirectional conversion between character and byte offsets, as a
//! pattern matcher works on encoded bytes while selections use characters.

use vstd::prelude::*;

verus! {

/// UTF-8 encoded length of one character, from its code point.
pub open spec fn spec_char_len(c: char) -> int {
    let u = c as u32;
    if u < 0x80 {
        1
    } else if u < 0x800 {
        2
    } else if u < 0x10000 {
        3
    } else {
        4
    }
}

/// Byte offset of character offset `i`: the encoded length of the first
/// `i` characters.
pub open spec fn spec_bytes_upto(s: Seq<char>, i: int) -> int
    decreases i,
{
    if i <= 0 {
        0
    } else {
        spec_bytes_upto(s, i - 1) + spec_char_len(s[i - 1])
    }
}

/// A byte offset that falls on a character boundary of `s`.
pub open spec fn spec_is_char_boundary(s: Seq<char>, b: int) -> bool {
    exists|i: int| 0 <= i <= s.len() && spec_bytes_upto(s, i) == b
}

/// The character offset whose byte offset is `b` (unique when `b` is a
/// boundary).
pub open spec fn spec_byte_to_char(s: Seq<char>, b: int) -> int {
    choose|i: int| 0 <= i <= s.len() && spec_bytes_upto(s, i) == b
}

/// Byte offsets grow by at least one per character: monotonicity with gap.
pub proof fn lemma_bytes_upto_mono(s: Seq<char>, i: int, j: int)
    requires
        0 <= i <= j,
    ensures
        spec_bytes_upto(s, i) + (j - i) <= spec_bytes_upto(s, j),
    decreases j - i,
{
    if j > i {
        lemma_bytes_upto_mono(s, i, j - 1);
    }
}

/// A boundary byte offset determines its character offset uniquely.
pub proof fn lemma_boundary_unique(s: Seq<char>, i: int, j: int)
    requires
        0 <= i,
        0 <= j,
        spec_bytes_upto(s, i) == spec_bytes_upto(s, j),
    ensures
        i == j,
{
    if i < j {
        lemma_bytes_upto_mono(s, i, j);
    }
    if j < i {
        lemma_bytes_upto_mono(s, j, i);
    }
}

/// Byte offsets within a slice of the text line up with byte offsets of
/// the whole text, shifted by the slice's starting byte offset.
pub proof fn lemma_bytes_upto_subrange(s: Seq<char>, lo: int, hi: int, i: int)
    requires
        0 <= lo <= hi <= s.len(),
        0 <= i <= hi - lo,
    ensures
        spec_bytes_upto(s, lo + i) == spec_bytes_upto(s, lo) + spec_bytes_upto(
            s.subrange(lo, hi),
            i,
        ),
    decreases i,
{
    if i > 0 {
        lemma_bytes_upto_subrange(s, lo, hi, i - 1);
        assert(s.subrange(lo, hi)[i - 1] == s[lo + i - 1]);
    }
}

/// A read-only text of characters, addressed by character offset.
#[derive(Debug, Clone)]
pub struct TextView {
    chars: Vec<char>,
}

impl View for TextView {
    type V = Seq<char>;

    closed spec fn view(&self) -> Seq<char> {
        self.chars@
    }
}

impl TextView {
    /// Well-formedness: the total encoded byte length stays addressable.
    pub open spec fn inv(&self) -> bool {
        spec_bytes_upto(self@, self@.len() as int) <= usize::MAX
    }

    /// Wraps a sequence of characters as a text view. The bound on the
    /// encoded length is a machine limit: byte offsets must fit `usize`.
    pub fn new(chars: Vec<char>) -> (t: TextView)
        requires
            spec_bytes_upto(chars@, chars@.len() as int) <= usize::MAX,
        ensures
            t@ == chars@,
            t.inv(),
    {
        TextView { chars }
    }

    /// Number of characters.
    pub fn len(&self) -> (n: usize)
        ensures
            n == self@.len(),
    {
        self.chars.len()
    }

    /// The character at the given offset.
    pub fn char_at(&self, i: usize) -> (c: char)
        requires
            i < self@.len(),
        ensures
            c == self@[i as int],
    {
        self.chars[i]
    }

    /// Encoded length of one character.
    fn char_len(c: char) -> (n: usize)
        ensures
            n == spec_char_len(c),
    {
        let u = c as u32;
        if u < 0x80 {
            1
        } else if u < 0x800 {
            2
        } else if u < 0x10000 {
            3
        } else {
            4
        }
    }

    /// Byte offset of the given character offset.
    pub fn char_to_byte(&self, char_idx: usize) -> (b: usize)
        requires
            self.inv(),
            char_idx <= self@.len(),
        ensures
            b == spec_bytes_upto(self@, char_idx as int),
    {
        let mut b: usize = 0;
        let mut i: usize = 0;
        while i < char_idx
            invariant
                0 <= i <= char_idx,
                char_idx <= self@.len(),
                self.inv(),
                b == spec_bytes_upto(self@, i as int),
            decreases char_idx - i,
        {
            proof {
                lemma_bytes_upto_mono(self@, i + 1, self@.len() as int);
            }
            b = b + Self::char_len(self.char_at(i));
            i += 1;
        }
        b
    }

    /// Character offset of a byte offset that lies on a character
    /// boundary.
    pub fn byte_to_char(&self, byte_idx: usize) -> (i: usize)
        requires
            self.inv(),
            spec_is_char_boundary(self@, byte_idx as int),
        ensures
            i <= self@.len(),
            spec_bytes_upto(self@, i as int) == byte_idx,
            i == spec_byte_to_char(self@, byte_idx as int),
    {
        let ghost w = choose|w: int|
            0 <= w <= self@.len() && spec_bytes_upto(self@, w) == byte_idx;
        let n = self.len();
        let mut b: usize = 0;
        let mut i: usize = 0;
        while b < byte_idx
            invariant
                0 <= i <= w,
                0 <= w <= n,
                n == self@.len(),
                spec_bytes_upto(self@, w) == byte_idx,
                b == spec_bytes_upto(self@, i as int),
                b <= byte_idx,
            decreases byte_idx - b,
        {
            proof {
                if i == w {
                    assert(b == byte_idx);
                }
                lemma_bytes_upto_mono(self@, i + 1, w);
            }
            b = b + Self::char_len(self.char_at(i));
            i += 1;
        }
        proof {
            lemma_boundary_unique(self@, i as int, w);
            let c = spec_byte_to_char(self@, byte_idx as int);
            lemma_boundary_unique(self@, i as int, c);
        }
        i
    }

    /// The characters in `[lo, hi)`.
    pub fn slice_chars(&self, lo: usize, hi: usize) -> (out: Vec<char>)
        requires
            lo <= hi <= self@.len(),
        ensures
            out@ == self@.subrange(lo as int, hi as int),
    {
        let mut out: Vec<char> = Vec::new();
        let mut i: usize = lo;
        while i < hi
            invariant
                lo <= i <= hi,
                hi <= self@.len(),
                out@ =~= self@.subrange(lo as int, i as int),
            decreases hi - i,
        {
            out.push(self.char_at(i));
            i += 1;
        }
        proof {
            assert(out@ =~= self@.subrange(lo as int, hi as int));
        }
        out
    }
}

} // verus!
