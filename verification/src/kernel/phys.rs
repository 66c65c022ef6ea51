//! Physical memory: a word-addressed view of RAM starting at `base`.
//!
//! Every structure the kernel keeps *inside* RAM (the intrusive free-frame
//! list, page tables, loaded program images) is read and written through this
//! one type, so that what one of them writes is what the others read back.
use vstd::prelude::*;

verus! {

/// Size of a physical frame (the 4 KiB AArch64 translation granule).
pub const FRAME_SIZE: u64 = 4096;

/// RAM as 64-bit little-endian words.
pub struct PhysMem {
    /// Physical address of the first word.
    pub base: u64,
    /// The words of RAM, in address order.
    pub words: Vec<u64>,
}

/// Whether `f` is the base of a 4 KiB frame (frame alignment).
pub open spec fn frame_aligned(f: int) -> bool {
    f % FRAME_SIZE as int == 0
}

impl PhysMem {
    /// The base is a nonzero frame boundary, RAM is a whole number of frames,
    /// and its last byte is addressable.
    pub open spec fn wf(&self) -> bool {
        &&& self.base > 0
        &&& frame_aligned(self.base as int)
        &&& self.words.len() % 512 == 0
        &&& self.base + self.size() <= u64::MAX
    }

    /// Size of RAM in bytes.
    pub open spec fn size(&self) -> int {
        8 * self.words.len()
    }

    /// One past the last byte of RAM.
    pub open spec fn end(&self) -> int {
        self.base + self.size()
    }

    /// Index in `words` of the word at physical address `a`.
    pub open spec fn idx(&self, a: int) -> int {
        (a - self.base) / 8
    }

    /// `a` is the address of a word of RAM.
    pub open spec fn has_word(&self, a: int) -> bool {
        &&& self.base <= a
        &&& a + 8 <= self.end()
        &&& a % 8 == 0
    }

    /// `a` is the address of a byte of RAM.
    pub open spec fn has_byte(&self, a: int) -> bool {
        self.base <= a < self.end()
    }

    /// `f` is the base of a whole frame of RAM.
    pub open spec fn has_frame(&self, f: int) -> bool {
        &&& frame_aligned(f)
        &&& self.base <= f
        &&& f + FRAME_SIZE <= self.end()
    }

    /// The word at physical address `a`.
    pub open spec fn word(&self, a: int) -> u64 {
        self.words@[self.idx(a)]
    }

    /// The byte at physical address `a` (little-endian within its word).
    pub open spec fn byte(&self, a: int) -> u8 {
        byte_of(self.words@[self.idx(a)], (a % 8) as u64)
    }

    /// Every byte of the frame at `g` holds in `self` what it holds in `m`.
    pub open spec fn frame_kept(&self, m: &PhysMem, g: u64) -> bool {
        forall|x: int| g <= x < g + FRAME_SIZE ==> #[trigger] self.byte(x) == m.byte(x)
    }

    /// RAM of `size` bytes at `base`, all zero.
    pub fn new(base: u64, size: u64) -> (m: PhysMem)
        requires
            base > 0,
            frame_aligned(base as int),
            size % FRAME_SIZE == 0,
            base + size <= u64::MAX,
            size / 8 <= usize::MAX,
        ensures
            m.wf(),
            m.base == base,
            m.size() == size,
            forall|i: int| 0 <= i < m.words.len() ==> #[trigger] m.words@[i] == 0,
    {
        let n = (size / 8) as usize;
        let words = vec![0u64; n];
        PhysMem { base, words }
    }

    /// Read the word at `a`.
    pub fn read_u64(&self, a: u64) -> (v: u64)
        requires
            self.wf(),
            self.has_word(a as int),
        ensures
            v == self.word(a as int),
    {
        self.words[((a - self.base) / 8) as usize]
    }

    /// Write the word at `a`; no other word changes.
    pub fn write_u64(&mut self, a: u64, v: u64)
        requires
            old(self).wf(),
            old(self).has_word(a as int),
        ensures
            final(self).wf(),
            final(self).base == old(self).base,
            final(self).words@ == old(self).words@.update(old(self).idx(a as int), v),
            forall|g: u64| old(self).has_frame(g as int) && !(g <= a < g + FRAME_SIZE)
                ==> #[trigger] final(self).frame_kept(old(self), g),
    {
        let i = ((a - self.base) / 8) as usize;
        self.words.set(i, v);
        proof {
            assert forall|g: u64| old(self).has_frame(g as int) && !(g <= a < g + FRAME_SIZE)
                implies #[trigger] self.frame_kept(old(self), g) by {
                assert forall|x: int| g <= x < g + FRAME_SIZE implies #[trigger] self.byte(x) == old(self).byte(x) by {
                    lemma_byte_outside_word(self.base as int, g as int, a as int, x);
                }
            }
        }
    }

    /// Read the byte at `a`.
    pub fn read_u8(&self, a: u64) -> (b: u8)
        requires
            self.wf(),
            self.has_byte(a as int),
        ensures
            b == self.byte(a as int),
    {
        let w = self.words[((a - self.base) / 8) as usize];
        let sh = a % 8;
        ((w >> (sh * 8)) & 0xff) as u8
    }

    /// Write the byte at `a`; every other byte of RAM keeps its value.
    pub fn write_u8(&mut self, a: u64, b: u8)
        requires
            old(self).wf(),
            old(self).has_byte(a as int),
        ensures
            final(self).wf(),
            final(self).base == old(self).base,
            final(self).words.len() == old(self).words.len(),
            final(self).byte(a as int) == b,
            forall|x: int| #![trigger final(self).byte(x)]
                old(self).has_byte(x) && x != a ==> final(self).byte(x) == old(self).byte(x),
            forall|i: int| 0 <= i < old(self).words.len() && i != old(self).idx(a as int)
                ==> #[trigger] final(self).words@[i] == old(self).words@[i],
            forall|g: u64| old(self).has_frame(g as int) && !(g <= a < g + FRAME_SIZE)
                ==> #[trigger] final(self).frame_kept(old(self), g),
    {
        let i = ((a - self.base) / 8) as usize;
        let w = self.words[i];
        let sh = a % 8;
        let nw = set_byte(w, sh, b);
        self.words.set(i, nw);
        proof {
            assert forall|x: int| #![trigger self.byte(x)]
                old(self).has_byte(x) && x != a implies self.byte(x) == old(self).byte(x) by {
                if old(self).idx(x) == i as int {
                    lemma_set_byte_other(w, sh, b, (x % 8) as u64);
                }
            }
            assert forall|g: u64| old(self).has_frame(g as int) && !(g <= a < g + FRAME_SIZE)
                implies #[trigger] self.frame_kept(old(self), g) by {
                assert forall|x: int| g <= x < g + FRAME_SIZE implies #[trigger] self.byte(x) == old(self).byte(x) by {
                    assert(x != a);
                }
            }
        }
    }

    /// Zero the 512 words of frame `f`; every word outside it is unchanged.
    pub fn zero_frame(&mut self, f: u64)
        requires
            old(self).wf(),
            old(self).has_frame(f as int),
        ensures
            final(self).wf(),
            final(self).base == old(self).base,
            final(self).words.len() == old(self).words.len(),
            forall|a: int| f <= a < f + FRAME_SIZE && a % 8 == 0 ==> #[trigger] final(self).word(a) == 0,
            forall|i: int| 0 <= i < old(self).words.len()
                && !(old(self).idx(f as int) <= i < old(self).idx(f as int) + 512)
                ==> #[trigger] final(self).words@[i] == old(self).words@[i],
            forall|g: u64| old(self).has_frame(g as int) && g != f
                ==> #[trigger] final(self).frame_kept(old(self), g),
    {
        let start = ((f - self.base) / 8) as usize;
        let mut k: usize = 0;
        while k < 512
            invariant
                self.wf(),
                self.base == old(self).base,
                self.words.len() == old(self).words.len(),
                start == old(self).idx(f as int),
                old(self).has_frame(f as int),
                k <= 512,
                forall|j: int| start <= j < start + k ==> #[trigger] self.words@[j] == 0,
                forall|i: int| 0 <= i < old(self).words.len()
                    && !(start <= i < start + k)
                    ==> #[trigger] self.words@[i] == old(self).words@[i],
            decreases 512 - k,
        {
            self.words.set(start + k, 0);
            k = k + 1;
        }
        assert forall|a: int| f <= a < f + FRAME_SIZE && a % 8 == 0 implies #[trigger] self.word(a) == 0 by {
            lemma_idx_in_frame(self.base as int, f as int, a);
        }
        assert forall|g: u64| old(self).has_frame(g as int) && g != f
            implies #[trigger] self.frame_kept(old(self), g) by {
            assert forall|x: int| g <= x < g + FRAME_SIZE implies #[trigger] self.byte(x) == old(self).byte(x) by {
                lemma_word_of_byte(self.base as int, x);
                let x8 = x - x % 8;
                let j = old(self).idx(x);
                if start <= j < start + 512 {
                    lemma_idx_in_frame(self.base as int, f as int, f + 8 * (j - start));
                    lemma_frames_disjoint(self.base as int, g as int, f as int, x8, f + 8 * (j - start));
                }
            }
        }
    }
}

/// A byte of frame `g` is not in the word at `a` when `a` lies outside `g`.
pub proof fn lemma_byte_outside_word(base: int, g: int, a: int, x: int)
    requires
        base >= 0,
        base % 8 == 0,
        g % 8 == 0,
        base <= g <= x < g + FRAME_SIZE,
        base <= a,
        a % 8 == 0,
        !(g <= a < g + FRAME_SIZE),
    ensures
        (x - base) / 8 != (a - base) / 8,
{
    lemma_word_of_byte(base, x);
    let x8 = x - x % 8;
    if (x - base) / 8 == (a - base) / 8 {
        assert((x8 - base) % 8 == 0);
        assert((a - base) % 8 == 0);
        assert(x8 - base == 8 * ((x8 - base) / 8));
        assert(a - base == 8 * ((a - base) / 8));
        assert(x8 == a);
        assert(x8 >= g) by {
            assert((x - g) % 8 == x % 8);
        }
    }
}

/// An address lies in only one frame.
pub proof fn lemma_one_frame(g: int, t: int, y: int)
    requires
        frame_aligned(g),
        frame_aligned(t),
        t <= y < t + FRAME_SIZE,
        g <= y < g + FRAME_SIZE,
    ensures
        g == t,
{
}

/// A byte lies in the word at its address rounded down to a multiple of 8.
pub proof fn lemma_word_of_byte(base: int, x: int)
    requires
        base >= 0,
        base % 8 == 0,
        base <= x,
    ensures
        (x - x % 8 - base) / 8 == (x - base) / 8,
        (x - x % 8) % 8 == 0,
        x - 8 < x - x % 8 <= x,
{
}

/// A word inside frame `f` has its index among the frame's 512 word indices.
pub proof fn lemma_idx_in_frame(base: int, f: int, a: int)
    requires
        base >= 0,
        frame_aligned(base),
        frame_aligned(f),
        base <= f <= a < f + FRAME_SIZE,
        a % 8 == 0,
    ensures
        (f - base) / 8 <= (a - base) / 8 < (f - base) / 8 + 512,
        (a - base) / 8 == (f - base) / 8 + (a - f) / 8,
{
    assert((f - base) % 8 == 0);
    assert((a - base) / 8 == (f - base) / 8 + (a - f) / 8);
}

/// Words of two different frames have different indices.
pub proof fn lemma_frames_disjoint(base: int, f: int, g: int, a: int, b: int)
    requires
        base >= 0,
        frame_aligned(base),
        frame_aligned(f),
        frame_aligned(g),
        f != g,
        base <= f <= a < f + FRAME_SIZE,
        base <= g <= b < g + FRAME_SIZE,
        a % 8 == 0,
        b % 8 == 0,
    ensures
        (a - base) / 8 != (b - base) / 8,
{
    lemma_idx_in_frame(base, f, a);
    lemma_idx_in_frame(base, g, b);
}

/// Byte `k` (0 = least significant) of the word `w`.
pub open spec fn byte_of(w: u64, k: u64) -> u8 {
    ((w >> (k * 8)) & 0xff) as u8
}

/// `w` with byte `k` replaced by `b`.
fn set_byte(w: u64, k: u64, b: u8) -> (r: u64)
    requires
        k < 8,
    ensures
        byte_of(r, k) == b,
        forall|j: u64| j < 8 && j != k ==> #[trigger] byte_of(r, j) == byte_of(w, j),
{
    let sh = k * 8;
    let r = (w & !(0xffu64 << sh)) | ((b as u64) << sh);
    proof {
        lemma_set_byte_same(w, k, b);
        assert forall|j: u64| j < 8 && j != k implies #[trigger] byte_of(r, j) == byte_of(w, j) by {
            lemma_set_byte_other(w, k, b, j);
        }
    }
    r
}

proof fn lemma_set_byte_same(w: u64, k: u64, b: u8)
    requires
        k < 8,
    ensures
        byte_of((w & !(0xffu64 << (k * 8))) | ((b as u64) << (k * 8)), k) == b,
{
    let bb = b as u64;
    assert(bb < 256);
    assert((((w & !(0xffu64 << (k * 8))) | (bb << (k * 8))) >> (k * 8)) & 0xff == bb) by (bit_vector)
        requires
            k < 8,
            bb < 256,
    ;
}

proof fn lemma_set_byte_other(w: u64, k: u64, b: u8, j: u64)
    requires
        k < 8,
        j < 8,
        j != k,
    ensures
        byte_of((w & !(0xffu64 << (k * 8))) | ((b as u64) << (k * 8)), j) == byte_of(w, j),
{
    let bb = b as u64;
    assert(bb < 256);
    assert((((w & !(0xffu64 << (k * 8))) | (bb << (k * 8))) >> (j * 8)) & 0xff == (w >> (j * 8)) & 0xff) by (bit_vector)
        requires
            k < 8,
            j < 8,
            j != k,
            bb < 256,
    ;
}

} // verus!
