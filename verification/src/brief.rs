//! BRIEF descriptors: fixed-length binary fingerprints of small grayscale
//! patches, compared by Hamming distance.

use vstd::prelude::*;

verus! {

/// Number of bits of one descriptor signature.
pub const BRIEF_BITS: usize = 192;

/// Bit `i` of a signature stored as little-endian 32-bit words: bit
/// `i % 32` of word `i / 32`.
pub open spec fn word_bit(words: Seq<u32>, i: int) -> bool {
    (words[i / 32] >> ((i % 32) as u32)) & 1 == 1
}

/// Number of positions among the first `n` where `a` and `b` differ.
pub open spec fn hamming(a: Seq<bool>, b: Seq<bool>, n: int) -> int
    decreases n,
{
    if n <= 0 {
        0
    } else {
        hamming(a, b, n - 1) + (if a[n - 1] != b[n - 1] {
            1int
        } else {
            0int
        })
    }
}

/// The Hamming distance of a signature to itself is zero.
pub proof fn lemma_hamming_self(a: Seq<bool>, n: int)
    ensures
        hamming(a, a, n) == 0,
    decreases n,
{
    if n > 0 {
        lemma_hamming_self(a, n - 1);
    }
}

/// A Hamming distance is never negative.
pub proof fn lemma_hamming_nonneg(a: Seq<bool>, b: Seq<bool>, n: int)
    ensures
        hamming(a, b, n) >= 0,
    decreases n,
{
    if n > 0 {
        lemma_hamming_nonneg(a, b, n - 1);
    }
}

/// One BRIEF descriptor: a reference center and a 192-bit signature.
#[derive(Clone, Debug)]
pub struct Brief {
    /// Column of the reference center.
    pub x: i32,
    /// Row of the reference center.
    pub y: i32,
    /// The signature bits.
    pub b: Vec<bool>,
}

impl Brief {
    /// A descriptor is well formed when it carries exactly 192 bits.
    pub open spec fn wf(self) -> bool {
        self.b@.len() == 192
    }

    /// Hamming distance between the signatures of two descriptors.
    pub fn distance(&self, other: &Brief) -> (r: u32)
        requires
            self.wf(),
            other.wf(),
        ensures
            r as int == hamming(self.b@, other.b@, 192),
            r <= 192,
    {
        let mut count: u32 = 0;
        let mut i: usize = 0;
        while i < BRIEF_BITS
            invariant
                i <= 192,
                self.wf(),
                other.wf(),
                count as int == hamming(self.b@, other.b@, i as int),
                count <= i,
            decreases 192 - i,
        {
            if self.b[i] != other.b[i] {
                count = count + 1;
            }
            i = i + 1;
        }
        count
    }

    /// The 192 signature bits unpacked from six little-endian words.
    pub fn from_words(x: i32, y: i32, words: &[u32; 6]) -> (r: Brief)
        ensures
            r.wf(),
            r.x == x,
            r.y == y,
            forall|i: int| 0 <= i < 192 ==> r.b@[i] == word_bit(words@, i),
    {
        let mut b: Vec<bool> = Vec::new();
        let mut w: usize = 0;
        while w < 6
            invariant
                w <= 6,
                b@.len() == 32 * w,
                forall|i: int| 0 <= i < 32 * w ==> b@[i] == word_bit(words@, i),
            decreases 6 - w,
        {
            let word = words[w];
            let mut j: usize = 0;
            while j < 32
                invariant
                    j <= 32,
                    w < 6,
                    word == words@[w as int],
                    b@.len() == 32 * w + j,
                    forall|i: int| 0 <= i < 32 * w + j ==> b@[i] == word_bit(words@, i),
                decreases 32 - j,
            {
                b.push((word >> (j as u32)) & 1 == 1);
                proof {
                    assert((32 * w + j) / 32 == w && (32 * w + j) % 32 == j) by (nonlinear_arith)
                        requires
                            0 <= j < 32,
                            0 <= w,
                    ;
                }
                j = j + 1;
            }
            w = w + 1;
        }
        Brief { x, y, b }
    }

    /// The signature packed back into six little-endian words, inverse of
    /// [`Brief::from_words`].
    pub fn to_words(&self) -> (r: [u32; 6])
        requires
            self.wf(),
        ensures
            forall|i: int| 0 <= i < 192 ==> word_bit(r@, i) == self.b@[i],
    {
        let mut out: [u32; 6] = [0, 0, 0, 0, 0, 0];
        let mut w: usize = 0;
        while w < 6
            invariant
                w <= 6,
                self.wf(),
                out@.len() == 6,
                forall|i: int| 0 <= i < 32 * w ==> word_bit(out@, i) == self.b@[i],
            decreases 6 - w,
        {
            let mut word: u32 = 0;
            proof {
                assert forall|t: int| 0 <= t < 32 implies #[trigger] (0u32 >> (t as u32)) & 1
                    == 0 by {
                    let tu = t as u32;
                    assert((0u32 >> tu) & 1 == 0) by (bit_vector);
                }
            }
            let mut j: usize = 0;
            while j < 32
                invariant
                    j <= 32,
                    w < 6,
                    self.wf(),
                    forall|t: int|
                        0 <= t < j ==> (#[trigger] (word >> (t as u32)) & 1 == 1) == self.b@[32 * (
                        w as int
                        ) + t],
                    forall|t: int| j <= t < 32 ==> #[trigger] (word >> (t as u32)) & 1 == 0,
                decreases 32 - j,
            {
                if self.b[32 * w + j] {
                    let ghost old_word = word;
                    let bit: u32 = 1u32 << (j as u32);
                    word = word | bit;
                    proof {
                        assert forall|t: int| 0 <= t < 32 implies (#[trigger] (word >> (t as u32))
                            & 1) == (
                            if t == j {
                                1u32
                            } else {
                                (old_word >> (t as u32)) & 1
                            }
                        ) by {
                            let tu = t as u32;
                            let ju = j as u32;
                            assert(tu < 32 && ju < 32 && (tu == ju <==> t == j));
                            assert(((old_word | (1u32 << ju)) >> tu) & 1 == (if tu == ju {
                                1u32
                            } else {
                                (old_word >> tu) & 1
                            })) by (bit_vector)
                                requires
                                    tu < 32,
                                    ju < 32,
                            ;
                        }
                    }
                }
                j = j + 1;
            }
            let ghost old_out = out@;
            out[w] = word;
            proof {
                assert(out@ =~= old_out.update(w as int, word));
                assert forall|i: int| 0 <= i < 32 * (w as int) + 32 implies word_bit(out@, i)
                    == self.b@[i] by {
                    assert(0 <= i % 32 < 32);
                    assert(i / 32 <= w as int) by (nonlinear_arith)
                        requires
                            0 <= i < 32 * (w as int) + 32,
                            0 <= w,
                    ;
                    if i / 32 == w as int {
                        assert(i % 32 == i - 32 * (w as int)) by (nonlinear_arith)
                            requires
                                i / 32 == w as int,
                                0 <= i,
                        ;
                        assert(((word >> ((i % 32) as u32)) & 1 == 1) == self.b@[32 * (w as int) + (
                        i % 32)]);
                    } else {
                        assert(i < 32 * (w as int)) by (nonlinear_arith)
                            requires
                                i / 32 < w as int,
                                0 <= i % 32 < 32,
                                0 <= i,
                        ;
                        assert(word_bit(old_out, i) == self.b@[i]);
                        assert(out@[i / 32] == old_out[i / 32]);
                    }
                }
            }
            w = w + 1;
        }
        out
    }
}

} // verus!
