//! Rank and select over a bit vector, with the level-order tree
//! navigation formulas built on them.
//!
//! `rank` counts the bits of one kind ahead of a position; `select`
//! finds the position of the n-th bit of one kind (counting from one).
//! A tree encoded in level order as a bit vector is then walked with
//! `first_child` / `last_child` / `parent`.

use vstd::prelude::*;

verus! {

/// How many bits equal to `b` sit in the first `i` positions of `s`.
pub open spec fn spec_rank(s: Seq<bool>, b: bool, i: int) -> int
    decreases i,
{
    if i <= 0 {
        0
    } else {
        spec_rank(s, b, i - 1) + if s[i - 1] == b {
            1int
        } else {
            0int
        }
    }
}

/// The count of matching bits never exceeds the prefix length.
pub proof fn lemma_rank_bounds(s: Seq<bool>, b: bool, i: int)
    requires
        0 <= i <= s.len(),
    ensures
        0 <= spec_rank(s, b, i) <= i,
    decreases i,
{
    if i > 0 {
        lemma_rank_bounds(s, b, i - 1);
    }
}

/// A bit vector with rank and select.
pub struct Succinct {
    pub bits: Vec<bool>,
}

impl Succinct {
    /// Wrap a bit vector.
    pub fn new(bits: Vec<bool>) -> (r: Succinct)
        ensures
            r.bits == bits,
    {
        Succinct { bits }
    }

    /// Zeros among the first `x` bits.
    pub fn rank0(&self, x: u64) -> (r: u64)
        requires
            x <= self.bits@.len(),
        ensures
            r == spec_rank(self.bits@, false, x as int),
    {
        self.rank_bit(false, x)
    }

    /// Ones among the first `x` bits.
    pub fn rank1(&self, x: u64) -> (r: u64)
        requires
            x <= self.bits@.len(),
        ensures
            r == spec_rank(self.bits@, true, x as int),
    {
        self.rank_bit(true, x)
    }

    /// Matching bits among the first `x`.
    fn rank_bit(&self, b: bool, x: u64) -> (r: u64)
        requires
            x <= self.bits@.len(),
        ensures
            r == spec_rank(self.bits@, b, x as int),
    {
        let n = self.bits.len();
        let mut count: u64 = 0;
        let mut i: usize = 0;
        while (i as u64) < x
            invariant
                i <= n,
                i as u64 <= x,
                x <= self.bits@.len(),
                n == self.bits@.len(),
                count == spec_rank(self.bits@, b, i as int),
                count <= i as u64,
            decreases x - i,
        {
            proof {
                lemma_rank_bounds(self.bits@, b, i as int);
            }
            if self.bits[i] == b {
                count = count + 1;
            }
            i = i + 1;
        }
        count
    }

    /// Position just past the `x`-th zero (counting from one):
    /// the least `p` with `x` zeros among the first `p` bits.
    pub fn select0(&self, x: u64) -> (r: u64)
        requires
            x <= spec_rank(self.bits@, false, self.bits@.len() as int),
        ensures
            r <= self.bits@.len(),
            spec_rank(self.bits@, false, r as int) == x,
            r > 0 ==> self.bits@[r - 1] == false,
            x > 0 ==> r > 0,
    {
        self.select_bit(false, x)
    }

    /// Position just past the `x`-th one (counting from one).
    pub fn select1(&self, x: u64) -> (r: u64)
        requires
            x <= spec_rank(self.bits@, true, self.bits@.len() as int),
        ensures
            r <= self.bits@.len(),
            spec_rank(self.bits@, true, r as int) == x,
            r > 0 ==> self.bits@[r - 1] == true,
            x > 0 ==> r > 0,
    {
        self.select_bit(true, x)
    }

    /// Position just past the `x`-th matching bit.
    fn select_bit(&self, b: bool, x: u64) -> (r: u64)
        requires
            x <= spec_rank(self.bits@, b, self.bits@.len() as int),
        ensures
            r <= self.bits@.len(),
            spec_rank(self.bits@, b, r as int) == x,
            r > 0 ==> self.bits@[r - 1] == b,
            x > 0 ==> r > 0,
    {
        let n = self.bits.len();
        if x == 0 {
            return 0;
        }
        let mut count: u64 = 0;
        let mut i: usize = 0;
        while i < n
            invariant
                i <= n,
                n == self.bits@.len(),
                count == spec_rank(self.bits@, b, i as int),
                count < x,
                x <= spec_rank(self.bits@, b, self.bits@.len() as int),
            decreases n - i,
        {
            proof {
                lemma_rank_bounds(self.bits@, b, i as int);
            }
            if self.bits[i] == b {
                count = count + 1;
                if count == x {
                    return (i + 1) as u64;
                }
            }
            i = i + 1;
        }
        proof {
            assert(spec_rank(self.bits@, b, n as int) < x);
            assert(false);
        }
        0
    }

    /// First child of the node whose bit sits at `i`, in level order:
    /// one past the position closing the `rank1(i)`-th node.
    pub fn first_child(&self, i: u64) -> (r: u64)
        requires
            i <= self.bits@.len(),
            spec_rank(self.bits@, true, i as int) <= spec_rank(
                self.bits@,
                false,
                self.bits@.len() as int,
            ),
            self.bits@.len() < u64::MAX,
        ensures
            1 <= r,
            r - 1 <= self.bits@.len(),
            spec_rank(self.bits@, false, r - 1) == spec_rank(self.bits@, true, i as int),
            r >= 2 ==> self.bits@[r - 2] == false,
    {
        let ones = self.rank1(i);
        self.select0(ones) + 1
    }

    /// Last child of the node whose bit sits at `i`: one short of the
    /// position closing the next node.
    pub fn last_child(&self, i: u64) -> (r: u64)
        requires
            i <= self.bits@.len(),
            spec_rank(self.bits@, true, i as int) + 1 <= spec_rank(
                self.bits@,
                false,
                self.bits@.len() as int,
            ),
            spec_rank(self.bits@, true, i as int) < u64::MAX,
        ensures
            r + 1 <= self.bits@.len(),
            spec_rank(self.bits@, false, r + 1) == spec_rank(self.bits@, true, i as int)
                + 1,
            self.bits@[r as int] == false,
    {
        let ones = self.rank1(i);
        let s = self.select0(ones + 1);
        proof {
            assert(s > 0);
        }
        s - 1
    }

    /// Parent of the node whose bit sits at `i`: the position of the
    /// `rank0(i)`-th one.
    pub fn parent(&self, i: u64) -> (r: u64)
        requires
            i <= self.bits@.len(),
            spec_rank(self.bits@, false, i as int) <= spec_rank(
                self.bits@,
                true,
                self.bits@.len() as int,
            ),
        ensures
            r <= self.bits@.len(),
            spec_rank(self.bits@, true, r as int) == spec_rank(self.bits@, false, i as int),
            r > 0 ==> self.bits@[r - 1] == true,
    {
        let zeros = self.rank0(i);
        self.select1(zeros)
    }

    /// Number of children of the node whose bit sits at `i`: the ones
    /// between the closings of its node and the next.
    pub fn children(&self, i: u64) -> (r: u64)
        requires
            i <= self.bits@.len(),
            spec_rank(self.bits@, true, i as int) + 1 <= spec_rank(
                self.bits@,
                false,
                self.bits@.len() as int,
            ),
            spec_rank(self.bits@, true, i as int) < u64::MAX,
            self.bits@.len() < u64::MAX,
        ensures
            exists|first: u64, last: u64|
                {
                    &&& r == last - first + 1
                    &&& first >= 1
                    &&& last + 1 <= self.bits@.len()
                    &&& #[trigger] spec_rank(self.bits@, false, first - 1) == spec_rank(
                        self.bits@,
                        true,
                        i as int,
                    )
                    &&& #[trigger] spec_rank(self.bits@, false, last + 1) == spec_rank(
                        self.bits@,
                        true,
                        i as int,
                    ) + 1
                },
    {
        let last = self.last_child(i);
        let first = self.first_child(i);
        proof {
            lemma_rank_bounds(self.bits@, true, i as int);
            if first - 1 > last as int {
                lemma_rank_mono(self.bits@, false, last as int + 1, first - 1);
                assert(false);
            }
        }
        let r = last + 1 - first;
        proof {
            assert(spec_rank(self.bits@, false, first - 1) == spec_rank(
                self.bits@,
                true,
                i as int,
            ) && spec_rank(self.bits@, false, last + 1) == spec_rank(
                self.bits@,
                true,
                i as int,
            ) + 1 && r == last - first + 1 && first >= 1 && last + 1
                <= self.bits@.len());
        }
        r
    }

    /// The `num`-th child (from zero) of the node whose bit sits at `i`.
    pub fn child(&self, i: u64, num: u64) -> (r: u64)
        requires
            i <= self.bits@.len(),
            spec_rank(self.bits@, true, i as int) <= spec_rank(
                self.bits@,
                false,
                self.bits@.len() as int,
            ),
            self.bits@.len() < u64::MAX,
            self.bits@.len() + 1 + num <= u64::MAX,
        ensures
            exists|first: u64|
                {
                    &&& r == first + num
                    &&& first >= 1
                    &&& #[trigger] spec_rank(self.bits@, false, first - 1) == spec_rank(
                        self.bits@,
                        true,
                        i as int,
                    )
                },
    {
        let first = self.first_child(i);
        let r = first + num;
        proof {
            assert(spec_rank(self.bits@, false, first - 1) == spec_rank(
                self.bits@,
                true,
                i as int,
            ) && r == first + num && first >= 1);
        }
        r
    }
}

/// More of the prefix never loses matching bits.
pub proof fn lemma_rank_mono(s: Seq<bool>, b: bool, i: int, j: int)
    requires
        0 <= i <= j,
    ensures
        spec_rank(s, b, i) <= spec_rank(s, b, j),
    decreases j - i,
{
    if i < j {
        lemma_rank_mono(s, b, i, j - 1);
    }
}

} // verus!
