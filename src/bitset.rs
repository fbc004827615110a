use vstd::prelude::*;

verus! {

/// Bit `b` of the word `w`.
pub open spec fn word_bit(w: u32, b: u32) -> bool {
    (w >> b) & 1u32 == 1u32
}

/// The bits held by a sequence of words, lowest bit of the first word first.
pub open spec fn bits_of(words: Seq<u32>) -> Seq<bool> {
    Seq::new((words.len() * 32) as nat, |i: int| word_bit(words[i / 32], (i % 32) as u32))
}

proof fn lemma_test_bit(w: u32, b: u32)
    by (bit_vector)
    requires
        b < 32,
    ensures
        (w & (1u32 << b) != 0) == word_bit(w, b),
{
}

proof fn lemma_set_bit(w: u32, b: u32, c: u32)
    by (bit_vector)
    requires
        b < 32,
        c < 32,
    ensures
        word_bit(w | (1u32 << b), c) == (b == c || word_bit(w, c)),
{
}

proof fn lemma_clear_bit(w: u32, b: u32, c: u32)
    by (bit_vector)
    requires
        b < 32,
        c < 32,
    ensures
        word_bit(w & !(1u32 << b), c) == (b != c && word_bit(w, c)),
{
}

proof fn lemma_zero_bits(c: u32)
    by (bit_vector)
    requires
        c < 32,
    ensures
        !word_bit(0u32, c),
{
}

/// Reads bit `i` of `words`.
fn words_test(words: &Vec<u32>, i: usize) -> (r: bool)
    requires
        i < bits_of(words@).len(),
    ensures
        r == bits_of(words@)[i as int],
{
    let w = words[i / 32];
    let b = (i % 32) as u32;
    proof {
        lemma_test_bit(w, b);
    }
    w & (1u32 << b) != 0
}

/// Sets (`x`) or clears (`!x`) bit `i` of `words`.
fn words_put(words: &mut Vec<u32>, i: usize, x: bool)
    requires
        i < bits_of(old(words)@).len(),
    ensures
        bits_of(final(words)@) == bits_of(old(words)@).update(i as int, x),
        final(words)@.len() == old(words)@.len(),
{
    let k = i / 32;
    let b = (i % 32) as u32;
    let w = words[k];
    let nw = if x {
        w | (1u32 << b)
    } else {
        w & !(1u32 << b)
    };
    words.set(k, nw);
    proof {
        let before = bits_of(old(words)@);
        let after = bits_of(words@);
        assert forall|j: int| 0 <= j < after.len() implies after[j] == before.update(
            i as int,
            x,
        )[j] by {
            let c = (j % 32) as u32;
            if j / 32 == k as int {
                if x {
                    lemma_set_bit(w, b, c);
                } else {
                    lemma_clear_bit(w, b, c);
                }
                assert((c == b) == (j == i as int));
            } else {
                assert(j != i as int);
            }
        }
        assert(after =~= before.update(i as int, x));
    }
}

/// A fixed-length bit vector stored as 32-bit words.
pub struct BitSet {
    bits: Vec<u32>,
}

/// A window onto a bit vector's words that starts at a base bit.
///
/// Bit `i` of the window is bit `base + i` of the underlying words.
pub struct BitSetOffsetted {
    bits: Vec<u32>,
    offset: usize,
}

impl BitSet {
    /// The bits, lowest first.
    pub closed spec fn view(&self) -> Seq<bool> {
        bits_of(self.bits@)
    }

    /// The words' bits can all be numbered by a `usize`.
    pub closed spec fn wf(&self) -> bool {
        self.bits@.len() * 32 <= usize::MAX
    }

    /// A bit vector of `n_words` words, every bit clear.
    pub fn new(n_words: usize) -> (r: BitSet)
        requires
            n_words * 32 <= usize::MAX,
        ensures
            r.wf(),
            r.view() == Seq::new((n_words * 32) as nat, |i: int| false),
    {
        let bits: Vec<u32> = vec![0u32; n_words];
        let r = BitSet { bits };
        proof {
            assert forall|j: int| 0 <= j < r.view().len() implies r.view()[j] == false by {
                lemma_zero_bits((j % 32) as u32);
            }
            assert(r.view() =~= Seq::new((n_words * 32) as nat, |i: int| false));
        }
        r
    }

    /// Whether bit `i` is set.
    pub fn test(&self, i: usize) -> (r: bool)
        requires
            i < self.view().len(),
        ensures
            r == self.view()[i as int],
    {
        words_test(&self.bits, i)
    }

    /// Sets bit `i` to `x`.
    pub fn set(&mut self, i: usize, x: bool)
        requires
            i < old(self).view().len(),
        ensures
            final(self).view() == old(self).view().update(i as int, x),
            final(self).wf() == old(self).wf(),
    {
        words_put(&mut self.bits, i, x);
    }

    /// A window onto these bits starting at bit `offset`.
    pub fn offset(self, offset: usize) -> (r: BitSetOffsetted)
        requires
            offset <= self.view().len(),
        ensures
            r.bits() == self.view(),
            r.base() == offset,
            r.wf() == self.wf(),
    {
        BitSetOffsetted { bits: self.bits, offset }
    }
}

impl BitSetOffsetted {
    /// All bits of the underlying words, not only those of the window.
    pub closed spec fn bits(&self) -> Seq<bool> {
        bits_of(self.bits@)
    }

    /// The bit of the underlying words where the window starts.
    pub closed spec fn base(&self) -> nat {
        self.offset as nat
    }

    /// The bits of the window, from its base to the end.
    pub open spec fn view(&self) -> Seq<bool> {
        self.bits().subrange(self.base() as int, self.bits().len() as int)
    }

    /// The words' bits can all be numbered by a `usize`.
    pub closed spec fn wf(&self) -> bool {
        self.bits@.len() * 32 <= usize::MAX
    }

    fn idx(&self, index: usize) -> (r: usize)
        requires
            self.wf(),
            self.base() + index < self.bits().len(),
        ensures
            r == self.base() + index,
    {
        self.offset + index
    }

    /// Whether bit `i` of the window is set.
    pub fn test(&self, i: usize) -> (r: bool)
        requires
            self.wf(),
            self.base() + i < self.bits().len(),
        ensures
            r == self.bits()[self.base() + i],
    {
        let j = self.idx(i);
        words_test(&self.bits, j)
    }

    /// Sets bit `i` of the window.
    pub fn set(&mut self, i: usize)
        requires
            old(self).wf(),
            old(self).base() + i < old(self).bits().len(),
        ensures
            final(self).bits() == old(self).bits().update(old(self).base() + i, true),
            final(self).base() == old(self).base(),
            final(self).wf(),
    {
        let j = self.idx(i);
        words_put(&mut self.bits, j, true);
    }

    /// Clears bit `i` of the window.
    pub fn clear(&mut self, i: usize)
        requires
            old(self).wf(),
            old(self).base() + i < old(self).bits().len(),
        ensures
            final(self).bits() == old(self).bits().update(old(self).base() + i, false),
            final(self).base() == old(self).base(),
            final(self).wf(),
    {
        let j = self.idx(i);
        words_put(&mut self.bits, j, false);
    }

    /// A narrower window, starting `offset` bits after this one.
    pub fn offset(self, offset: usize) -> (r: BitSetOffsetted)
        requires
            self.wf(),
            self.base() + offset <= self.bits().len(),
        ensures
            r.wf(),
            r.bits() == self.bits(),
            r.base() == self.base() + offset,
    {
        BitSetOffsetted { bits: self.bits, offset: self.offset + offset }
    }

    /// The underlying bit vector, whole.
    pub fn into_bitset(self) -> (r: BitSet)
        ensures
            r.view() == self.bits(),
            r.wf() == self.wf(),
    {
        BitSet { bits: self.bits }
    }
}

} // verus!
