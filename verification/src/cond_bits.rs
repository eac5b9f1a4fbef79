//! The bitmap of a guard.
//!
//! A guard has one bit for each of its literals. A set bit means that the
//! literal is not satisfied. The bitmap keeps a count of its set bits, so that
//! asking whether the guard holds takes one comparison.
use vstd::prelude::*;

verus! {

/// The number of `true` entries of `bits`.
pub open spec fn popcount(bits: Seq<bool>) -> nat
    decreases bits.len(),
{
    if bits.len() == 0 {
        0
    } else {
        popcount(bits.drop_last()) + if bits.last() {
            1nat
        } else {
            0nat
        }
    }
}

/// The sequence of `len` bits of which exactly the first `ones` are set.
pub open spec fn leading_ones(ones: nat, len: nat) -> Seq<bool> {
    Seq::new(len, |i: int| i < ones)
}

/// Whether bit `s` of `byte` is set, for `s` below 8.
pub open spec fn bit_of(byte: u8, s: u8) -> bool {
    (byte >> s) & 1 == 1
}

/// A sequence has at most as many set bits as it has bits.
pub proof fn lemma_popcount_bound(bits: Seq<bool>)
    ensures
        popcount(bits) <= bits.len(),
    decreases bits.len(),
{
    if bits.len() > 0 {
        lemma_popcount_bound(bits.drop_last());
    }
}

/// Changing one bit changes the count by the difference of the old and the new bit.
pub proof fn lemma_popcount_update(bits: Seq<bool>, i: int, value: bool)
    requires
        0 <= i < bits.len(),
    ensures
        popcount(bits.update(i, value)) + (if bits[i] {
            1int
        } else {
            0int
        }) == popcount(bits) + (if value {
            1int
        } else {
            0int
        }),
    decreases bits.len(),
{
    let after = bits.update(i, value);
    if i == bits.len() - 1 {
        assert(after.drop_last() =~= bits.drop_last());
    } else {
        lemma_popcount_update(bits.drop_last(), i, value);
        assert(after.drop_last() =~= bits.drop_last().update(i, value));
    }
}

/// No bit is counted exactly when no bit is set.
pub proof fn lemma_popcount_zero(bits: Seq<bool>)
    ensures
        popcount(bits) == 0 <==> (forall|i: int| 0 <= i < bits.len() ==> !bits[i]),
    decreases bits.len(),
{
    if bits.len() > 0 {
        let front = bits.drop_last();
        lemma_popcount_zero(front);
        if popcount(bits) == 0 {
            assert forall|i: int| 0 <= i < bits.len() implies !bits[i] by {
                if i < front.len() {
                    assert(front[i] == bits[i]);
                }
            }
        }
        if forall|i: int| 0 <= i < bits.len() ==> !bits[i] {
            assert forall|i: int| 0 <= i < front.len() implies !front[i] by {
                assert(front[i] == bits[i]);
            }
            assert(!bits.last());
        }
    }
}

/// Of `len` bits with the first `ones` set, `ones` are counted.
pub proof fn lemma_popcount_leading_ones(ones: nat, len: nat)
    requires
        ones <= len,
    ensures
        popcount(leading_ones(ones, len)) == ones,
    decreases len,
{
    if len > 0 {
        let bits = leading_ones(ones, len);
        if ones == len {
            assert(bits.drop_last() =~= leading_ones((ones - 1) as nat, (len - 1) as nat));
            lemma_popcount_leading_ones((ones - 1) as nat, (len - 1) as nat);
        } else {
            assert(bits.drop_last() =~= leading_ones(ones, (len - 1) as nat));
            lemma_popcount_leading_ones(ones, (len - 1) as nat);
        }
    }
}

proof fn lemma_byte_full(s: u8)
    by (bit_vector)
    requires
        s < 8,
    ensures
        (0xffu8 >> s) & 1 == 1,
        (0u8 >> s) & 1 == 0,
{
}

proof fn lemma_byte_low_ones(r: u8, s: u8)
    by (bit_vector)
    requires
        0 < r < 8,
        s < 8,
    ensures
        ((((1u8 << r) - 1) as u8) >> s) & 1 == 1 <==> s < r,
{
}

proof fn lemma_byte_test(b: u8, s: u8)
    by (bit_vector)
    requires
        s < 8,
    ensures
        (b & (1u8 << s) != 0) <==> ((b >> s) & 1 == 1),
{
}

proof fn lemma_byte_set(b: u8, s: u8, t: u8)
    by (bit_vector)
    requires
        s < 8,
        t < 8,
    ensures
        (((b | (1u8 << s)) >> t) & 1 == 1) <==> (t == s || ((b >> t) & 1 == 1)),
{
}

proof fn lemma_byte_clear(b: u8, s: u8, t: u8)
    by (bit_vector)
    requires
        s < 8,
        t < 8,
    ensures
        (((b & !(1u8 << s)) >> t) & 1 == 1) <==> (t != s && ((b >> t) & 1 == 1)),
{
}

/// The bitmap of one guard: a bit for each literal, set while the literal is not
/// satisfied, and the number of set bits.
#[derive(Debug)]
pub struct CondBits {
    buf: Vec<u8>,
    len: usize,
    unsatisfied: usize,
}

impl View for CondBits {
    type V = Seq<bool>;

    /// The bits, one for each literal of the guard.
    closed spec fn view(&self) -> Seq<bool> {
        Seq::new(self.len as nat, |i: int| bit_of(self.buf@[i / 8], (i % 8) as u8))
    }
}

impl CondBits {
    /// The counter agrees with the bitmap: it is the number of set bits.
    pub closed spec fn wf(&self) -> bool {
        &&& self.buf@.len() * 8 >= self.len
        &&& self.unsatisfied == popcount(self@)
    }

    /// The counter of set bits.
    pub closed spec fn spec_unsatisfied(&self) -> nat {
        self.unsatisfied as nat
    }

    /// The number of bits is a machine integer.
    pub proof fn lemma_len_fits(&self)
        ensures
            self@.len() <= usize::MAX,
    {
    }

    /// A well-formed bitmap counts what it holds.
    pub proof fn lemma_counter(&self)
        requires
            self.wf(),
        ensures
            self.spec_unsatisfied() == popcount(self@),
    {
    }

    /// A bitmap of `cap` bits of which the first `unsatisfied` are set.
    pub fn new(unsatisfied: usize, cap: usize) -> (r: CondBits)
        requires
            unsatisfied <= cap,
        ensures
            r.wf(),
            r@ == leading_ones(unsatisfied as nat, cap as nat),
            r.spec_unsatisfied() == unsatisfied,
    {
        let nbytes: usize = cap / 8 + if cap % 8 != 0 {
            1
        } else {
            0
        };
        let full: usize = unsatisfied / 8;
        let rest: usize = unsatisfied % 8;
        let mut buf: Vec<u8> = Vec::new();
        let mut i: usize = 0;
        while i < nbytes
            invariant
                i <= nbytes,
                buf@.len() == i,
                full == unsatisfied / 8,
                rest == unsatisfied % 8,
                forall|j: int, s: u8|
                    0 <= j < i && s < 8 ==> (#[trigger] bit_of(buf@[j], s) <==> 8 * j + s
                        < unsatisfied),
            decreases nbytes - i,
        {
            let byte: u8 = if i < full {
                0xff
            } else if i == full && rest != 0 {
                let r: u8 = rest as u8;
                assert(1u8 << r >= 1) by (bit_vector)
                    requires
                        r < 8,
                ;
                (1u8 << r) - 1
            } else {
                0
            };
            proof {
                assert forall|s: u8| s < 8 implies (#[trigger] bit_of(byte, s) <==> 8 * i + s
                    < unsatisfied) by {
                    lemma_byte_full(s);
                    if i == full && rest != 0 {
                        lemma_byte_low_ones(rest as u8, s);
                    }
                }
            }
            buf.push(byte);
            i = i + 1;
        }
        let r = CondBits { buf, len: cap, unsatisfied };
        proof {
            assert(r@ =~= leading_ones(unsatisfied as nat, cap as nat)) by {
                assert forall|p: int| 0 <= p < cap implies r@[p] == (p < unsatisfied) by {
                    let s = (p % 8) as u8;
                    assert(bit_of(r.buf@[p / 8], s) <==> 8 * (p / 8) + s < unsatisfied);
                }
            }
            lemma_popcount_leading_ones(unsatisfied as nat, cap as nat);
        }
        r
    }

    /// The number of bits.
    pub fn len(&self) -> (n: usize)
        ensures
            n == self@.len(),
    {
        self.len
    }

    /// The number of set bits, that is of literals that are not satisfied.
    pub fn unsatisfied(&self) -> (n: usize)
        requires
            self.wf(),
        ensures
            n == self.spec_unsatisfied(),
            n == popcount(self@),
    {
        self.unsatisfied
    }

    /// Whether every literal is satisfied.
    pub fn is_eligible(&self) -> (b: bool)
        requires
            self.wf(),
        ensures
            b == (popcount(self@) == 0),
    {
        self.unsatisfied == 0
    }

    /// The bit at `index`.
    pub fn get(&self, index: usize) -> (b: bool)
        requires
            self.wf(),
            index < self@.len(),
        ensures
            b == self@[index as int],
    {
        let i: usize = index / 8;
        let s: u8 = (index % 8) as u8;
        proof {
            lemma_byte_test(self.buf@[i as int], s);
        }
        self.buf[i] & (1u8 << s) != 0
    }

    /// Sets the bit at `index` to `value` and keeps the counter in step.
    pub fn set(&mut self, index: usize, value: bool)
        requires
            old(self).wf(),
            index < old(self)@.len(),
        ensures
            final(self).wf(),
            final(self)@ == old(self)@.update(index as int, value),
    {
        let i: usize = index / 8;
        let s: u8 = (index % 8) as u8;
        let byte: u8 = self.buf[i];
        let was: bool = byte & (1u8 << s) != 0;
        proof {
            lemma_byte_test(byte, s);
            assert(was == self@[index as int]);
        }
        if value == was {
            assert(self@ =~= old(self)@.update(index as int, value));
            return ;
        }
        let changed: u8 = if value {
            byte | (1u8 << s)
        } else {
            byte & !(1u8 << s)
        };
        proof {
            lemma_popcount_update(self@, index as int, value);
            lemma_popcount_bound(self@.update(index as int, value));
        }
        if value {
            self.unsatisfied = self.unsatisfied + 1;
        } else {
            self.unsatisfied = self.unsatisfied - 1;
        }
        self.buf[i] = changed;
        proof {
            assert(self@ =~= old(self)@.update(index as int, value)) by {
                assert forall|p: int| 0 <= p < self.len implies self@[p] == old(self)@.update(
                    index as int,
                    value,
                )[p] by {
                    let t = (p % 8) as u8;
                    if p / 8 == i {
                        lemma_byte_set(byte, s, t);
                        lemma_byte_clear(byte, s, t);
                    }
                }
            }
        }
    }
}

} // verus!
