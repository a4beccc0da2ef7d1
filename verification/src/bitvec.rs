//! A fixed-length bit vector packed into 64-bit words.

use vstd::arithmetic::div_mod::{lemma_fundamental_div_mod, lemma_fundamental_div_mod_converse};
use vstd::prelude::*;

verus! {

/// True iff bit `k` of `word` is set.
pub open spec fn bit_at(word: u64, k: u64) -> bool {
    (word >> k) & 1 == 1
}

/// Number of 64-bit words needed to hold `n` bits.
pub open spec fn words_for(n: int) -> int {
    (n + 63) / 64
}

/// Ceiling division.
pub fn div_ceil(dividend: usize, divisor: usize) -> (r: usize)
    requires
        divisor > 0,
    ensures
        r as int == (dividend as int + divisor as int - 1) / divisor as int,
{
    let q = dividend / divisor;
    let m = dividend % divisor;
    proof {
        lemma_fundamental_div_mod(dividend as int, divisor as int);
        let d = dividend as int;
        let v = divisor as int;
        let qq = q as int;
        let mm = m as int;
        if m == 0 {
            assert(d + v - 1 == qq * v + (v - 1)) by (nonlinear_arith)
                requires
                    d == v * qq + mm,
                    mm == 0,
            ;
            lemma_fundamental_div_mod_converse(d + v - 1, v, qq, v - 1);
        } else {
            assert(d + v - 1 == (qq + 1) * v + (mm - 1)) by (nonlinear_arith)
                requires
                    d == v * qq + mm,
            ;
            assert(qq < d) by (nonlinear_arith)
                requires
                    d == v * qq + mm,
                    v >= 1,
                    qq >= 0,
                    mm >= 1,
            ;
            lemma_fundamental_div_mod_converse(d + v - 1, v, qq + 1, mm - 1);
        }
    }
    if m != 0 {
        q + 1
    } else {
        q
    }
}

/// A bit vector of a length fixed at construction, packed into a
/// vector of 64-bit words. Unused high bits of the last word are
/// always kept zero.
#[derive(PartialEq, Eq, Debug)]
pub struct BitVec {
    data: Vec<u64>,
    length: usize,
}

impl View for BitVec {
    type V = Seq<bool>;

    closed spec fn view(&self) -> Seq<bool> {
        Seq::new(self.length as nat, |i: int| bit_at(self.data@[i / 64], (i % 64) as u64))
    }
}

proof fn lemma_bit_set(w: u64, k: u64, j: u64)
    by (bit_vector)
    requires
        k < 64,
        j < 64,
    ensures
        bit_at(w | (1u64 << k), j) == (j == k || bit_at(w, j)),
        bit_at(w & !(1u64 << k), j) == (j != k && bit_at(w, j)),
{
}

proof fn lemma_bit_of_zero(j: u64)
    by (bit_vector)
    requires
        j < 64,
    ensures
        !bit_at(0u64, j),
{
}

impl BitVec {
    /// The words hold exactly the declared number of bits and every
    /// bit beyond that length is zero.
    pub closed spec fn wf(&self) -> bool {
        &&& self.data@.len() == words_for(self.length as int)
        &&& forall|i: int|
            self.length <= i < self.data@.len() * 64 ==> !(#[trigger] bit_at(
                self.data@[i / 64],
                (i % 64) as u64,
            ))
    }

    /// A bit vector of `length` zero bits.
    pub fn new(length: usize) -> (r: BitVec)
        ensures
            r.wf(),
            r@.len() == length,
            forall|i: int| 0 <= i < length ==> !r@[i],
    {
        let size = div_ceil(length, 64);
        let r = BitVec { data: vec![0u64; size], length };
        proof {
            assert forall|i: int| 0 <= i < r.data@.len() * 64 implies !(#[trigger] bit_at(
                r.data@[i / 64],
                (i % 64) as u64,
            )) by {
                lemma_fundamental_div_mod(i, 64);
                lemma_bit_of_zero((i % 64) as u64);
            }
        }
        r
    }

    /// The number of bits.
    pub fn len(&self) -> (r: usize)
        ensures
            r == self@.len(),
    {
        self.length
    }

    /// The bit at `index`.
    pub fn get(&self, index: usize) -> (r: bool)
        requires
            self.wf(),
            index < self@.len(),
        ensures
            r == self@[index as int],
    {
        proof {
            lemma_fundamental_div_mod(index as int, 64);
        }
        (self.data[index / 64] >> ((index % 64) as u64)) & 1 == 1
    }

    /// Set the bit at `index` to `value`.
    pub fn set(&mut self, index: usize, value: bool)
        requires
            old(self).wf(),
            index < old(self)@.len(),
        ensures
            final(self).wf(),
            final(self)@ == old(self)@.update(index as int, value),
    {
        let wi = index / 64;
        let k = (index % 64) as u64;
        proof {
            lemma_fundamental_div_mod(index as int, 64);
        }
        let mask: u64 = 1u64 << k;
        let w = self.data[wi];
        let nw = if value {
            w | mask
        } else {
            w & !mask
        };
        self.data[wi] = nw;
        proof {
            assert forall|j: u64| j < 64 implies #[trigger] bit_at(nw, j) == (if j == k {
                value
            } else {
                bit_at(w, j)
            }) by {
                lemma_bit_set(w, k, j);
            }
            assert forall|i: int| 0 <= i < self.data@.len() * 64 && i != index implies #[trigger] bit_at(
                self.data@[i / 64],
                (i % 64) as u64,
            ) == bit_at(old(self).data@[i / 64], (i % 64) as u64) by {
                lemma_fundamental_div_mod(i, 64);
                if i / 64 == wi as int {
                    assert((i % 64) as u64 != k);
                }
            }
            assert(bit_at(self.data@[index as int / 64], (index as int % 64) as u64) == value);
            assert(self@ =~= old(self)@.update(index as int, value));
        }
    }

    /// Copy the bits of `other` into `self` without reallocating.
    pub fn copy_from_bitvec(&mut self, other: &BitVec)
        requires
            old(self).wf(),
            other.wf(),
            old(self)@.len() == other@.len(),
        ensures
            final(self).wf(),
            final(self)@ == other@,
    {
        let n = self.data.len();
        let mut i: usize = 0;
        while i < n
            invariant
                n == self.data@.len(),
                self.data@.len() == other.data@.len(),
                self.length == other.length,
                i <= n,
                forall|j: int| 0 <= j < i ==> self.data@[j] == other.data@[j],
            decreases n - i,
        {
            self.data[i] = other.data[i];
            i += 1;
        }
        proof {
            assert(self.data@ =~= other.data@);
            assert(self@ =~= other@);
        }
    }

    /// Set every bit to zero.
    pub fn reset(&mut self)
        requires
            old(self).wf(),
        ensures
            final(self).wf(),
            final(self)@.len() == old(self)@.len(),
            forall|i: int| 0 <= i < final(self)@.len() ==> !final(self)@[i],
    {
        let n = self.data.len();
        let mut i: usize = 0;
        while i < n
            invariant
                n == self.data@.len(),
                self.length == old(self).length,
                self.data@.len() == words_for(self.length as int),
                i <= n,
                forall|j: int| 0 <= j < i ==> self.data@[j] == 0u64,
            decreases n - i,
        {
            self.data[i] = 0u64;
            i += 1;
        }
        proof {
            assert forall|j: int| 0 <= j < self.data@.len() * 64 implies !(#[trigger] bit_at(
                self.data@[j / 64],
                (j % 64) as u64,
            )) by {
                lemma_fundamental_div_mod(j, 64);
                lemma_bit_of_zero((j % 64) as u64);
            }
        }
    }

    /// Is any bit set?
    pub fn any(&self) -> (r: bool)
        requires
            self.wf(),
        ensures
            r == exists|i: int| 0 <= i < self@.len() && self@[i],
    {
        let n = self.length;
        let mut i: usize = 0;
        while i < n
            invariant
                self.wf(),
                n == self@.len(),
                i <= n,
                forall|j: int| 0 <= j < i ==> !self@[j],
            decreases n - i,
        {
            if self.get(i) {
                return true;
            }
            i += 1;
        }
        false
    }

    /// The bits in index order.
    pub fn iter(&self) -> (r: Vec<bool>)
        requires
            self.wf(),
        ensures
            r@ == self@,
    {
        let n = self.length;
        let mut r: Vec<bool> = Vec::new();
        let mut i: usize = 0;
        while i < n
            invariant
                self.wf(),
                n == self@.len(),
                i <= n,
                r@ =~= self@.take(i as int),
            decreases n - i,
        {
            r.push(self.get(i));
            i += 1;
        }
        proof {
            assert(r@ =~= self@);
        }
        r
    }
}

} // verus!
