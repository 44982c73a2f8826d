//! Word-packed boolean storage and the two-dimensional grid built on it.
//!
//! `BitVec` packs booleans into 64-bit words; index `i` lives in word
//! `i / 64`, bit `i % 64`. `BitGrid` lays a width/height coordinate system
//! over one `BitVec` in row-major order, with bounds-checked access: reading
//! outside the grid yields `false`, writing outside it changes nothing.

use vstd::prelude::*;

verus! {

/// Number of 64-bit words needed to hold `n` bits.
pub open spec fn words_for(n: int) -> int {
    if n % 64 == 0 {
        n / 64
    } else {
        n / 64 + 1
    }
}

/// Fixed-size boolean vector packed into 64-bit words.
#[derive(Clone)]
pub(crate) struct BitVec {
    pub(crate) words: Vec<u64>,
}

impl BitVec {
    /// Total number of bits held, a multiple of 64.
    pub(crate) open spec fn nbits(self) -> int {
        self.words@.len() as int * 64
    }

    /// The boolean at index `i`.
    pub(crate) open spec fn bit(self, i: int) -> bool {
        (self.words@[i / 64] >> ((i % 64) as u64)) & 1 == 1
    }

    /// Allocates `words_for(size)` words, each all-zero or all-one, so that
    /// every bit in range starts out equal to `val`.
    pub(crate) fn new(size: usize, val: bool) -> (r: BitVec)
        ensures
            r.words@.len() == words_for(size as int),
            r.nbits() >= size,
            forall|i: int| 0 <= i < r.nbits() ==> r.bit(i) == val,
    {
        let n = if size % 64 == 0 {
            size / 64
        } else {
            size / 64 + 1
        };
        let word: u64 = if val {
            0xffff_ffff_ffff_ffff
        } else {
            0
        };
        let mut words: Vec<u64> = Vec::new();
        let mut k: usize = 0;
        while k < n
            invariant
                k <= n,
                words@.len() == k,
                forall|j: int| 0 <= j < k ==> words@[j] == word,
            decreases n - k,
        {
            words.push(word);
            k += 1;
        }
        proof {
            lemma_words_cover(size as int);
            assert forall|i: int| 0 <= i < n * 64 implies (BitVec { words }).bit(i) == val by {
                lemma_bit_index_range(i, n as int);
                lemma_uniform_word_bit(word, (i % 64) as u64, val);
            }
        }
        BitVec { words }
    }

    /// Reads bit `i`. The caller is responsible for the range; `BitGrid`
    /// is the only caller and always checks bounds first.
    pub(crate) fn get(&self, i: usize) -> (r: bool)
        requires
            i < self.nbits(),
        ensures
            r == self.bit(i as int),
    {
        proof {
            lemma_bit_index_range(i as int, self.words@.len() as int);
        }
        let w = self.words[i / 64];
        (w >> ((i % 64) as u64)) & 1 == 1
    }

    /// Writes bit `i`, leaving every other bit as it was.
    pub(crate) fn set(&mut self, i: usize, v: bool)
        requires
            i < old(self).nbits(),
        ensures
            final(self).nbits() == old(self).nbits(),
            final(self).bit(i as int) == v,
            forall|j: int|
                0 <= j < old(self).nbits() && j != i ==> final(self).bit(j) == old(self).bit(j),
    {
        proof {
            lemma_bit_index_range(i as int, self.words@.len() as int);
        }
        let q = i / 64;
        let sh = (i % 64) as u64;
        let w = self.words[q];
        let w2 = if v {
            w | (1u64 << sh)
        } else {
            w & !(1u64 << sh)
        };
        self.words.set(q, w2);
        proof {
            assert forall|j: int| 0 <= j < old(self).nbits() && j != i implies self.bit(j) == old(
                self,
            ).bit(j) by {
                lemma_bit_index_range(j, self.words@.len() as int);
                if j / 64 == i as int / 64 {
                    lemma_div_mod_unique(j, i as int);
                    lemma_write_word_bit(w, sh, (j % 64) as u64, v);
                }
            }
            lemma_write_word_bit(w, sh, sh, v);
        }
    }

    /// Word-wise OR with another vector of the same word count.
    pub(crate) fn bitwise_or(&mut self, other: &BitVec)
        requires
            other.words@.len() == old(self).words@.len(),
        ensures
            final(self).nbits() == old(self).nbits(),
            forall|j: int|
                0 <= j < old(self).nbits() ==> (#[trigger] final(self).bit(j)) == (old(self).bit(
                    j,
                ) || other.bit(j)),
    {
        let ghost orig: BitVec = *self;
        let n = self.words.len();
        let mut k: usize = 0;
        while k < n
            invariant
                k <= n,
                n == self.words@.len(),
                other.words@.len() == n,
                orig.words@.len() == n,
                forall|j: int| 0 <= j < k ==> self.words@[j] == (orig.words@[j] | other.words@[j]),
                forall|j: int| k <= j < n ==> self.words@[j] == orig.words@[j],
            decreases n - k,
        {
            let a = self.words[k];
            let b = other.words[k];
            self.words.set(k, a | b);
            k += 1;
        }
        proof {
            assert forall|j: int| 0 <= j < orig.nbits() implies self.bit(j) == (orig.bit(j)
                || other.bit(j)) by {
                lemma_bit_index_range(j, n as int);
                lemma_or_word_bit(orig.words@[j / 64], other.words@[j / 64], (j % 64) as u64);
            }
        }
    }

    /// Word-wise AND with another vector of the same word count.
    pub(crate) fn bitwise_and(&mut self, other: &BitVec)
        requires
            other.words@.len() == old(self).words@.len(),
        ensures
            final(self).nbits() == old(self).nbits(),
            forall|j: int|
                0 <= j < old(self).nbits() ==> (#[trigger] final(self).bit(j)) == (old(self).bit(
                    j,
                ) && other.bit(j)),
    {
        let ghost orig: BitVec = *self;
        let n = self.words.len();
        let mut k: usize = 0;
        while k < n
            invariant
                k <= n,
                n == self.words@.len(),
                other.words@.len() == n,
                orig.words@.len() == n,
                forall|j: int| 0 <= j < k ==> self.words@[j] == (orig.words@[j] & other.words@[j]),
                forall|j: int| k <= j < n ==> self.words@[j] == orig.words@[j],
            decreases n - k,
        {
            let a = self.words[k];
            let b = other.words[k];
            self.words.set(k, a & b);
            k += 1;
        }
        proof {
            assert forall|j: int| 0 <= j < orig.nbits() implies self.bit(j) == (orig.bit(j)
                && other.bit(j)) by {
                lemma_bit_index_range(j, n as int);
                lemma_and_word_bit(orig.words@[j / 64], other.words@[j / 64], (j % 64) as u64);
            }
        }
    }
}

/// Two-dimensional boolean grid over a packed `BitVec`.
///
/// Width and height are signed to keep offset arithmetic simple; coordinate
/// `(x, y)` maps to packed index `y * w + x`. All public access is
/// bounds-checked: `get` outside the grid is `false`, `set` outside it is a
/// no-op.
pub struct BitGrid {
    w: isize,
    h: isize,
    vec: BitVec,
}

impl BitGrid {
    /// The grid's width.
    pub closed spec fn width(self) -> int {
        self.w as int
    }

    /// The grid's height.
    pub closed spec fn height(self) -> int {
        self.h as int
    }

    /// Well-formed: non-negative dimensions whose product fits an `isize`
    /// index, backed by exactly the words that `w * h` bits need.
    pub closed spec fn wf(self) -> bool {
        &&& 0 <= self.w
        &&& 0 <= self.h
        &&& self.width() * self.height() <= isize::MAX as int
        &&& self.vec.words@.len() == words_for(self.width() * self.height())
    }

    /// The cell at `(x, y)`: `false` everywhere outside `[0, w) x [0, h)`.
    pub closed spec fn at(self, x: int, y: int) -> bool {
        &&& 0 <= x < self.width()
        &&& 0 <= y < self.height()
        &&& self.vec.bit(y * self.width() + x)
    }

    /// A grid of `w` by `h` cells, every one equal to `val`.
    pub fn new(w: usize, h: usize, val: bool) -> (r: BitGrid)
        requires
            w <= isize::MAX as int,
            h <= isize::MAX as int,
            w * h <= isize::MAX as int,
        ensures
            r.wf(),
            r.width() == w,
            r.height() == h,
            forall|x: int, y: int| #[trigger]
                r.at(x, y) == (0 <= x < w && 0 <= y < h && val),
    {
        let r = BitGrid { w: w as isize, h: h as isize, vec: BitVec::new(w * h, val) };
        proof {
            lemma_words_cover(w as int * h as int);
            assert forall|x: int, y: int| #[trigger]
                r.at(x, y) == (0 <= x < w && 0 <= y < h && val) by {
                if 0 <= x < w && 0 <= y < h {
                    lemma_rowmajor_in_range(x, y, w as int, h as int);
                    assert(r.vec.bit(y * r.width() + x) == val);
                }
            }
        }
        r
    }

    /// The width, as stored.
    pub fn w(&self) -> (r: isize)
        ensures
            r == self.width(),
    {
        self.w
    }

    /// The height, as stored.
    pub fn h(&self) -> (r: isize)
        ensures
            r == self.height(),
    {
        self.h
    }

    /// Reads the cell at `xy`; outside the grid the answer is `false`,
    /// whatever the grid holds.
    pub fn get(&self, xy: (isize, isize)) -> (r: bool)
        requires
            self.wf(),
        ensures
            r == self.at(xy.0 as int, xy.1 as int),
            !(0 <= xy.0 < self.width() && 0 <= xy.1 < self.height()) ==> r == false,
    {
        let (x, y) = xy;
        if x >= 0 && y >= 0 && x < self.w && y < self.h {
            proof {
                lemma_rowmajor_in_range(x as int, y as int, self.width(), self.height());
                lemma_words_cover(self.width() * self.height());
            }
            self.vec.get((y * self.w + x) as usize)
        } else {
            false
        }
    }

    /// Writes the cell at `xy`; outside the grid nothing changes, and no
    /// other cell is ever touched.
    pub fn set(&mut self, xy: (isize, isize), v: bool)
        requires
            old(self).wf(),
        ensures
            final(self).wf(),
            final(self).width() == old(self).width(),
            final(self).height() == old(self).height(),
            0 <= xy.0 < old(self).width() && 0 <= xy.1 < old(self).height() ==> final(self).at(
                xy.0 as int,
                xy.1 as int,
            ) == v,
            forall|x: int, y: int|
                !(x == xy.0 && y == xy.1) ==> final(self).at(x, y) == old(self).at(x, y),
            !(0 <= xy.0 < old(self).width() && 0 <= xy.1 < old(self).height()) ==> forall|
                x: int,
                y: int,
            | final(self).at(x, y) == old(self).at(x, y),
    {
        let (x, y) = xy;
        if x >= 0 && y >= 0 && x < self.w && y < self.h {
            proof {
                lemma_rowmajor_in_range(x as int, y as int, self.width(), self.height());
                lemma_words_cover(self.width() * self.height());
            }
            let ghost orig: BitGrid = *self;
            self.vec.set((y * self.w + x) as usize, v);
            proof {
                assert forall|i: int, j: int| !(i == x && j == y) implies self.at(i, j) == orig.at(
                    i,
                    j,
                ) by {
                    if 0 <= i < self.width() && 0 <= j < self.height() {
                        lemma_rowmajor_in_range(i, j, self.width(), self.height());
                        lemma_rowmajor_distinct(
                            i,
                            j,
                            x as int,
                            y as int,
                            self.width(),
                            self.height(),
                        );
                    }
                }
            }
        }
    }

    /// In-place AND with a grid of the same dimensions; on a dimension
    /// mismatch, fails and leaves this grid untouched.
    pub fn bitwise_and(&mut self, other: &BitGrid) -> (res: Result<(), crate::Error>)
        requires
            old(self).wf(),
            other.wf(),
        ensures
            final(self).wf(),
            final(self).width() == old(self).width(),
            final(self).height() == old(self).height(),
            old(self).width() == other.width() && old(self).height() == other.height() ==> {
                &&& res is Ok
                &&& forall|x: int, y: int| #[trigger]
                    final(self).at(x, y) == (old(self).at(x, y) && other.at(x, y))
            },
            !(old(self).width() == other.width() && old(self).height() == other.height()) ==> {
                &&& res == Result::<(), crate::Error>::Err(crate::Error::DimensionMismatch)
                &&& *final(self) == *old(self)
            },
    {
        let ghost orig: BitGrid = *self;
        if self.w != other.w || self.h != other.h {
            Err(crate::Error::DimensionMismatch)
        } else {
            self.vec.bitwise_and(&other.vec);
            proof {
                lemma_nonneg_product(orig.width(), orig.height());
                lemma_words_cover(orig.width() * orig.height());
                assert forall|x: int, y: int| #[trigger]
                    self.at(x, y) == (orig.at(x, y) && other.at(x, y)) by {
                    if 0 <= x < self.width() && 0 <= y < self.height() {
                        lemma_rowmajor_in_range(x, y, self.width(), self.height());
                        assert(self.vec.bit(y * self.width() + x) == (orig.vec.bit(
                            y * self.width() + x,
                        ) && other.vec.bit(y * self.width() + x)));
                    }
                }
            }
            Ok(())
        }
    }

    /// In-place OR with a grid of the same dimensions; on a dimension
    /// mismatch, fails and leaves this grid untouched.
    pub fn bitwise_or(&mut self, other: &BitGrid) -> (res: Result<(), crate::Error>)
        requires
            old(self).wf(),
            other.wf(),
        ensures
            final(self).wf(),
            final(self).width() == old(self).width(),
            final(self).height() == old(self).height(),
            old(self).width() == other.width() && old(self).height() == other.height() ==> {
                &&& res is Ok
                &&& forall|x: int, y: int| #[trigger]
                    final(self).at(x, y) == (old(self).at(x, y) || other.at(x, y))
            },
            !(old(self).width() == other.width() && old(self).height() == other.height()) ==> {
                &&& res == Result::<(), crate::Error>::Err(crate::Error::DimensionMismatch)
                &&& *final(self) == *old(self)
            },
    {
        let ghost orig: BitGrid = *self;
        if self.w != other.w || self.h != other.h {
            Err(crate::Error::DimensionMismatch)
        } else {
            self.vec.bitwise_or(&other.vec);
            proof {
                lemma_nonneg_product(orig.width(), orig.height());
                lemma_words_cover(orig.width() * orig.height());
                assert forall|x: int, y: int| #[trigger]
                    self.at(x, y) == (orig.at(x, y) || other.at(x, y)) by {
                    if 0 <= x < self.width() && 0 <= y < self.height() {
                        lemma_rowmajor_in_range(x, y, self.width(), self.height());
                        assert(self.vec.bit(y * self.width() + x) == (orig.vec.bit(
                            y * self.width() + x,
                        ) || other.vec.bit(y * self.width() + x)));
                    }
                }
            }
            Ok(())
        }
    }
}

impl Clone for BitGrid {
    /// An independent copy: same dimensions, same cells, sharing nothing.
    fn clone(&self) -> (r: BitGrid)
        ensures
            r.wf() == self.wf(),
            r.width() == self.width(),
            r.height() == self.height(),
            forall|x: int, y: int| #[trigger] r.at(x, y) == self.at(x, y),
    {
        let mut words: Vec<u64> = Vec::new();
        let n = self.vec.words.len();
        let mut k: usize = 0;
        while k < n
            invariant
                k <= n,
                n == self.vec.words@.len(),
                words@.len() == k,
                forall|j: int| 0 <= j < k ==> words@[j] == self.vec.words@[j],
            decreases n - k,
        {
            words.push(self.vec.words[k]);
            k += 1;
        }
        let r = BitGrid { w: self.w, h: self.h, vec: BitVec { words } };
        proof {
            assert(r.vec.words@ =~= self.vec.words@);
        }
        r
    }
}

/// A product of non-negative factors is non-negative.
proof fn lemma_nonneg_product(a: int, b: int)
    by (nonlinear_arith)
    requires
        0 <= a,
        0 <= b,
    ensures
        0 <= a * b,
{
}

/// In-bounds coordinates give an in-bounds row-major index.
proof fn lemma_rowmajor_in_range(x: int, y: int, w: int, h: int)
    by (nonlinear_arith)
    requires
        0 <= x < w,
        0 <= y < h,
    ensures
        0 <= y * w + x < w * h,
{
}

/// Row-major indexing is injective on in-bounds coordinates.
proof fn lemma_rowmajor_distinct(x0: int, y0: int, x1: int, y1: int, w: int, h: int)
    by (nonlinear_arith)
    requires
        0 <= x0 < w,
        0 <= y0 < h,
        0 <= x1 < w,
        0 <= y1 < h,
        !(x0 == x1 && y0 == y1),
    ensures
        y0 * w + x0 != y1 * w + x1,
{
}

/// `words_for(n)` words hold at least `n` bits.
proof fn lemma_words_cover(n: int)
    requires
        0 <= n,
    ensures
        n <= 64 * words_for(n),
{
    assert(n == 64 * (n / 64) + n % 64);
}

/// A bit index below `64 * len` selects a word index below `len` and a
/// shift below 64.
proof fn lemma_bit_index_range(i: int, len: int)
    requires
        0 <= i < 64 * len,
    ensures
        0 <= i / 64 < len,
        0 <= i % 64 < 64,
{
    assert(i == 64 * (i / 64) + i % 64);
    assert(i / 64 < len) by (nonlinear_arith)
        requires
            i < 64 * len,
            0 <= i,
    ;
}

/// Two indices in the same word with distinct bit positions differ.
proof fn lemma_div_mod_unique(a: int, b: int)
    requires
        0 <= a,
        0 <= b,
        a != b,
        a / 64 == b / 64,
    ensures
        a % 64 != b % 64,
{
    assert(a == 64 * (a / 64) + a % 64);
    assert(b == 64 * (b / 64) + b % 64);
}

/// Every bit of an all-zero word is false; of an all-one word, true.
proof fn lemma_uniform_word_bit(w: u64, sh: u64, val: bool)
    requires
        sh < 64,
        w == if val { 0xffff_ffff_ffff_ffffu64 } else { 0u64 },
    ensures
        ((w >> sh) & 1 == 1) == val,
{
    assert(((0xffff_ffff_ffff_ffffu64 >> sh) & 1 == 1) && !((0u64 >> sh) & 1 == 1))
        by (bit_vector)
        requires
            sh < 64,
    ;
}

/// Setting or clearing one bit position leaves the others alone.
proof fn lemma_write_word_bit(w: u64, sh: u64, m: u64, v: bool)
    by (bit_vector)
    requires
        sh < 64,
        m < 64,
    ensures
        m == sh ==> (((if v { w | (1u64 << sh) } else { w & !(1u64 << sh) }) >> m) & 1 == 1) == v,
        m != sh ==> ((if v { w | (1u64 << sh) } else { w & !(1u64 << sh) }) >> m) & 1 == (w >> m)
            & 1,
{
}

/// A bit of an OR is the OR of the bits.
proof fn lemma_or_word_bit(a: u64, b: u64, m: u64)
    by (bit_vector)
    requires
        m < 64,
    ensures
        (((a | b) >> m) & 1 == 1) == ((a >> m) & 1 == 1 || (b >> m) & 1 == 1),
{
}

/// A bit of an AND is the AND of the bits.
proof fn lemma_and_word_bit(a: u64, b: u64, m: u64)
    by (bit_vector)
    requires
        m < 64,
    ensures
        (((a & b) >> m) & 1 == 1) == ((a >> m) & 1 == 1 && (b >> m) & 1 == 1),
{
}

} // verus!
