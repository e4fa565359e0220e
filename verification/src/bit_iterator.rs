use vstd::prelude::*;

verus! {

/// How many bits in a `u8`.
pub const U8BITS: usize = 8;

/// The bit of `bytes` at position `i`, counting from the least significant bit of the first
/// byte.
pub open spec fn bit_at(bytes: Seq<u8>, i: int) -> bool {
    ((bytes[i / 8] >> ((i % 8) as u8)) & 1u8) == 1u8
}

/// Every bit of `bytes`, least significant bit of each byte first.
pub open spec fn bits_of(bytes: Seq<u8>) -> Seq<bool> {
    Seq::new(bytes.len() * 8, |i: int| bit_at(bytes, i))
}

/// Number of ones in the binary representation of a byte.
pub open spec fn byte_ones(b: u8) -> nat {
    partial_byte_ones(b, 8)
}

/// Number of ones in the binary representation of a sequence of bytes.
pub open spec fn ones(bytes: Seq<u8>) -> nat
    decreases bytes.len(),
{
    if bytes.len() == 0 {
        0
    } else {
        ones(bytes.drop_last()) + byte_ones(bytes.last())
    }
}

/// Lazy iterator over bits of a vector of bytes, starting with the LSB
/// (least-significat bit) of the first element of the vector.
pub struct BitIterator<'a> {
    object: &'a [u8],
    next_idx: usize,
    end_idx: usize,
}

impl<'a> BitIterator<'a> {
    #[verifier::type_invariant]
    spec fn inv(self) -> bool {
        &&& self.end_idx == self.object@.len() * 8
        &&& self.next_idx <= self.end_idx
    }

    /// The bits that the iterator has still to yield.
    pub closed spec fn remaining(self) -> Seq<bool> {
        bits_of(self.object@).subrange(self.next_idx as int, self.end_idx as int)
    }

    /// The bytes the iterator walks over.
    pub closed spec fn bytes(self) -> Seq<u8> {
        self.object@
    }

    /// Creates an iterator from a vector of bytes. Each byte becomes eight bits, with the least
    /// significant bits coming first.
    pub fn from_bytes(obj: &'a [u8]) -> (it: BitIterator<'a>)
        requires
            obj@.len() * 8 <= usize::MAX,
        ensures
            it.remaining() == bits_of(obj@),
            it.bytes() == obj@,
    {
        let it = BitIterator { object: obj, next_idx: 0, end_idx: obj.len() * U8BITS };
        assert(it.remaining() =~= bits_of(obj@));
        it
    }

    /// Returns the number of ones in the binary representation of the underlying object.
    pub fn count_ones(&self) -> (n: u32)
        requires
            ones(self.bytes()) <= u32::MAX,
        ensures
            n == ones(self.bytes()),
    {
        let mut acc: u32 = 0;
        let mut i: usize = 0;
        while i < self.object.len()
            invariant
                i <= self.object@.len(),
                acc == ones(self.object@.subrange(0, i as int)),
                ones(self.object@) <= u32::MAX,
            decreases self.object@.len() - i,
        {
            proof {
                lemma_ones_prefix_monotone(self.object@, i as int + 1);
                assert(self.object@.subrange(0, i as int + 1).drop_last() =~= self.object@.subrange(
                    0,
                    i as int,
                ));
            }
            acc = acc + count_byte_ones(self.object[i]);
            i = i + 1;
        }
        assert(self.object@.subrange(0, i as int) =~= self.object@);
        acc
    }

    /// Whether `after` is this iterator after one call of `next` that returned `r`: the first
    /// remaining bit is yielded and dropped, or `None` where none remains; the bytes stay.
    pub open spec fn stepped(self, after: Self, r: Option<bool>) -> bool {
        &&& self.remaining().len() == 0 ==> r is None && after.remaining() == self.remaining()
        &&& self.remaining().len() > 0 ==> r == Some(self.remaining()[0]) && after.remaining()
            == self.remaining().drop_first()
        &&& after.bytes() == self.bytes()
    }

    /// Yields the next bit, or `None` once every bit was yielded.
    pub fn next(&mut self) -> (r: Option<bool>)
        ensures
            old(self).stepped(*final(self), r),
            old(self).remaining().len() == 0 ==> r is None && final(self).remaining() == old(
                self,
            ).remaining(),
            old(self).remaining().len() > 0 ==> r == Some(old(self).remaining()[0])
                && final(self).remaining() == old(self).remaining().drop_first(),
            final(self).bytes() == old(self).bytes(),
    {
        proof {
            use_type_invariant(&*self);
        }
        if self.next_idx != self.end_idx {
            let byte_idx = self.next_idx / U8BITS;
            let bit_idx = self.next_idx % U8BITS;
            let bit = self.object[byte_idx] >> (bit_idx as u8) & 0x1;
            let ghost old_rem = self.remaining();
            self.next_idx = self.next_idx + 1;
            assert(self.remaining() =~= old_rem.drop_first());
            Some(bit == 0x1)
        } else {
            None
        }
    }

    /// Returns the bounds on the number of bits, which are both the total number of bits of
    /// the underlying bytes.
    pub fn size_hint(&self) -> (r: (usize, Option<usize>))
        ensures
            r.0 == self.bytes().len() * 8,
            r.1 == Some(r.0),
    {
        proof {
            use_type_invariant(self);
        }
        (self.end_idx, Some(self.end_idx))
    }

    /// Collects every bit still to be yielded, in order.
    pub fn collect_bits(&mut self) -> (v: Vec<bool>)
        ensures
            v@ == old(self).remaining(),
            final(self).remaining().len() == 0,
            final(self).bytes() == old(self).bytes(),
    {
        let mut v: Vec<bool> = Vec::new();
        loop
            invariant
                v@ + self.remaining() == old(self).remaining(),
                self.bytes() == old(self).bytes(),
            decreases self.remaining().len(),
        {
            let ghost before = self.remaining();
            match self.next() {
                Some(b) => {
                    v.push(b);
                    assert(v@ + self.remaining() =~= old(self).remaining()) by {
                        assert(before =~= seq![b] + before.drop_first());
                    }
                },
                None => {
                    assert(v@ =~= old(self).remaining());
                    return v;
                },
            }
        }
    }
}

/// Counts the ones in the binary representation of a byte.
fn count_byte_ones(b: u8) -> (n: u32)
    ensures
        n == byte_ones(b),
{
    let mut n: u32 = 0;
    let mut k: u8 = 0;
    while k < 8
        invariant
            k <= 8,
            n <= k,
            n == partial_byte_ones(b, k as nat),
        decreases 8 - k,
    {
        assert((b >> k) & 1u8 <= 1u8) by (bit_vector);
        n = n + ((b >> k) & 1u8) as u32;
        k = k + 1;
    }
    n
}

/// Number of ones among the `k` least significant bits of `b`.
pub open spec fn partial_byte_ones(b: u8, k: nat) -> nat
    decreases k,
{
    if k == 0 {
        0
    } else {
        partial_byte_ones(b, (k - 1) as nat) + ((b >> ((k - 1) as u8)) & 1u8) as nat
    }
}

proof fn lemma_ones_prefix_monotone(s: Seq<u8>, i: int)
    requires
        0 <= i <= s.len(),
    ensures
        ones(s.subrange(0, i)) <= ones(s),
    decreases s.len(),
{
    if i < s.len() {
        assert(s.drop_last().subrange(0, i) =~= s.subrange(0, i));
        lemma_ones_prefix_monotone(s.drop_last(), i);
    } else {
        assert(s.subrange(0, i) =~= s);
    }
}

/// The number of `true` among a sequence of bits.
pub open spec fn count_true(s: Seq<bool>) -> nat
    decreases s.len(),
{
    if s.len() == 0 {
        0
    } else {
        count_true(s.drop_last()) + if s.last() {
            1nat
        } else {
            0nat
        }
    }
}

proof fn lemma_count_true_append(s: Seq<bool>, t: Seq<bool>)
    ensures
        count_true(s + t) == count_true(s) + count_true(t),
    decreases t.len(),
{
    if t.len() > 0 {
        lemma_count_true_append(s, t.drop_last());
        assert((s + t).drop_last() =~= s + t.drop_last());
    } else {
        assert(s + t =~= s);
    }
}

/// The first `k` bits of byte `m` count the ones among the `k` least significant bits of it.
proof fn lemma_byte_bits(b: Seq<u8>, m: int, k: nat)
    requires
        0 <= m < b.len(),
        k <= 8,
    ensures
        count_true(bits_of(b).subrange(8 * m, 8 * m + k)) == partial_byte_ones(b[m], k),
    decreases k,
{
    let bits = bits_of(b);
    if k == 0 {
        assert(bits.subrange(8 * m, 8 * m) =~= Seq::<bool>::empty());
    } else {
        let j = (k - 1) as nat;
        lemma_byte_bits(b, m, j);
        assert(bits.subrange(8 * m, 8 * m + k).drop_last() =~= bits.subrange(8 * m, 8 * m + j));
        let i = 8 * m + j;
        assert(i / 8 == m && i % 8 == j) by (nonlinear_arith)
            requires
                i == 8 * m + j,
                j < 8,
                m >= 0,
        ;
        assert(8 * m + k <= 8 * b.len()) by (nonlinear_arith)
            requires
                m < b.len(),
                k <= 8,
        ;
        assert(bits.subrange(8 * m, 8 * m + k).last() == bits[i]);
        let x = b[m];
        let sh = j as u8;
        assert(((x >> sh) & 1u8) == 1u8 || ((x >> sh) & 1u8) == 0u8) by (bit_vector);
    }
}

/// The iterator's count of ones is the number of set bits that it yields: `count_ones` and
/// `next` agree.
pub proof fn law_ones_are_set_bits(b: Seq<u8>)
    ensures
        ones(b) == count_true(bits_of(b)),
    decreases b.len(),
{
    if b.len() > 0 {
        let n = b.len();
        let c = b.drop_last();
        law_ones_are_set_bits(c);
        let bits = bits_of(b);
        let m = (n - 1) as int;
        assert(8 * m + 8 == 8 * n);
        assert(bits.subrange(0, 8 * m) =~= bits_of(c)) by {
            assert forall|i: int| 0 <= i < 8 * m implies bits[i] == bits_of(c)[i] by {
                assert(i / 8 < m) by (nonlinear_arith)
                    requires
                        0 <= i < 8 * m,
                ;
            }
        }
        assert(bits =~= bits.subrange(0, 8 * m) + bits.subrange(8 * m, 8 * m + 8));
        lemma_count_true_append(bits.subrange(0, 8 * m), bits.subrange(8 * m, 8 * m + 8));
        lemma_byte_bits(b, m, 8);
    }
}

/// A run of calls of `next` on an iterator made by `from_bytes(b)` yields the bits of `b` in
/// order, the least significant bit of the first byte first, and `None` on every call after the
/// last bit; the bytes stay those of `b` throughout, so `count_ones` gives the same count after
/// any number of calls.
pub proof fn law_bit_iterator_run<'a>(b: Seq<u8>, its: Seq<BitIterator<'a>>, rs: Seq<Option<bool>>)
    requires
        its.len() == rs.len() + 1,
        its[0].remaining() == bits_of(b),
        its[0].bytes() == b,
        forall|i: int| 0 <= i < rs.len() ==> #[trigger] its[i].stepped(its[i + 1], rs[i]),
    ensures
        forall|i: int| 0 <= i < rs.len() ==> #[trigger] rs[i] == if i < b.len() * 8 {
            Some(bit_at(b, i))
        } else {
            None::<bool>
        },
        forall|i: int| 0 <= i < its.len() ==> (#[trigger] its[i]).bytes() == b,
{
    let n = b.len() * 8;
    assert forall|i: int| 0 <= i < its.len() implies (#[trigger] its[i]).remaining() == bits_of(b).subrange(
        if i < n { i } else { n as int },
        n as int,
    ) && its[i].bytes() == b by {
        lemma_bit_run_at(b, its, rs, i);
    }
    assert forall|i: int| 0 <= i < rs.len() implies #[trigger] rs[i] == if i < b.len() * 8 {
        Some(bit_at(b, i))
    } else {
        None::<bool>
    } by {
        lemma_bit_run_at(b, its, rs, i);
        assert(its[i].stepped(its[i + 1], rs[i]));
    }
}

proof fn lemma_bit_run_at<'a>(b: Seq<u8>, its: Seq<BitIterator<'a>>, rs: Seq<Option<bool>>, i: int)
    requires
        its.len() == rs.len() + 1,
        its[0].remaining() == bits_of(b),
        its[0].bytes() == b,
        forall|k: int| 0 <= k < rs.len() ==> #[trigger] its[k].stepped(its[k + 1], rs[k]),
        0 <= i < its.len(),
    ensures
        its[i].remaining() == bits_of(b).subrange(
            if i < b.len() * 8 { i } else { (b.len() * 8) as int },
            (b.len() * 8) as int,
        ),
        its[i].bytes() == b,
    decreases i,
{
    let n = (b.len() * 8) as int;
    if i == 0 {
        assert(bits_of(b).subrange(0, n) =~= bits_of(b));
    } else {
        lemma_bit_run_at(b, its, rs, i - 1);
        let k = i - 1;
        assert(its[k].stepped(its[k + 1], rs[k]));
        if k < n {
            assert(bits_of(b).subrange(k, n).drop_first() =~= bits_of(b).subrange(k + 1, n));
        }
    }
}

} // verus!
