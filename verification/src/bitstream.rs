use vstd::prelude::*;
use vstd::arithmetic::power2::*;
use vstd::arithmetic::div_mod::*;
use vstd::bits::*;

verus! {

/// The `n` low bits of `v`, most significant bit first.
pub open spec fn low_bits(v: u64, n: nat) -> Seq<bool> {
    Seq::new(n, |i: int| (v >> ((n - 1 - i) as u64)) & 1 == 1)
}

/// Every bit of a byte sequence, most significant bit of each byte first.
pub open spec fn bytes_bits(s: Seq<u8>) -> Seq<bool>
    decreases s.len(),
{
    if s.len() == 0 {
        Seq::empty()
    } else {
        bytes_bits(s.drop_last()) + low_bits(s.last() as u64, 8)
    }
}

/// The unsigned value of a bit sequence read most-significant-bit first.
pub open spec fn bits_val(s: Seq<bool>) -> nat
    decreases s.len(),
{
    if s.len() == 0 {
        0
    } else {
        2 * bits_val(s.drop_last()) + if s.last() {
            1nat
        } else {
            0nat
        }
    }
}

/// How many zero bits extend a stream of `n` bits to a whole number of bytes.
pub open spec fn pad_len(n: nat) -> nat {
    if n % 8 == 0 {
        0
    } else {
        (8 - n % 8) as nat
    }
}

/// A bit stream padded with zero bits to a whole number of bytes.
pub open spec fn padded_bits(s: Seq<bool>) -> Seq<bool> {
    s + Seq::new(pad_len(s.len()), |i: int| false)
}

pub proof fn lemma_bytes_bits_len(s: Seq<u8>)
    ensures
        bytes_bits(s).len() == 8 * s.len(),
    decreases s.len(),
{
    if s.len() > 0 {
        lemma_bytes_bits_len(s.drop_last());
    }
}

pub proof fn lemma_bytes_bits_push(s: Seq<u8>, b: u8)
    ensures
        bytes_bits(s.push(b)) == bytes_bits(s) + low_bits(b as u64, 8),
{
    assert(s.push(b).drop_last() =~= s);
}

/// Bit `k` of a byte stream lies in byte `k / 8` at offset `k % 8` from the top.
pub proof fn lemma_bytes_bits_index(s: Seq<u8>, k: int)
    requires
        0 <= k < 8 * s.len(),
    ensures
        bytes_bits(s)[k] == (((s[k / 8] as u64) >> ((7 - k % 8) as u64)) & 1 == 1),
    decreases s.len(),
{
    lemma_bytes_bits_len(s.drop_last());
    let n = s.len() as int;
    if k < 8 * (n - 1) {
        lemma_bytes_bits_index(s.drop_last(), k);
        assert(k / 8 < n - 1) by {
            lemma_div_is_ordered(k, 8 * (n - 1) - 1, 8);
            lemma_fundamental_div_mod_converse(8 * (n - 1) - 1, 8, n - 2, 7);
        }
        assert(s.drop_last()[k / 8] == s[k / 8]);
    } else {
        lemma_fundamental_div_mod_converse(k, 8, n - 1, k - 8 * (n - 1));
        assert(bytes_bits(s)[k] == low_bits(s.last() as u64, 8)[k - 8 * (n - 1)]);
    }
}

/// A bit sequence of length `n` has value below `2^n`.
pub proof fn lemma_bits_val_bound(s: Seq<bool>)
    ensures
        bits_val(s) < pow2(s.len()),
    decreases s.len(),
{
    if s.len() == 0 {
        lemma2_to64();
    } else {
        lemma_bits_val_bound(s.drop_last());
        lemma_pow2_unfold(s.len());
    }
}

/// Reading back the low `n` bits of `v` recovers `v` when `v < 2^n`.
pub proof fn lemma_bits_val_low_bits(v: u64, n: nat)
    requires
        n <= 64,
        (v as nat) < pow2(n),
    ensures
        bits_val(low_bits(v, n)) == v,
    decreases n,
{
    if n == 0 {
        lemma2_to64();
        assert(low_bits(v, 0) =~= Seq::<bool>::empty());
    } else {
        let h = v >> 1;
        lemma_u64_shr_is_div(v, 1);
        lemma_pow2_unfold(n);
        lemma2_to64();
        lemma_multiply_divide_lt(v as int, 2, pow2((n - 1) as nat) as int);
        lemma_bits_val_low_bits(h, (n - 1) as nat);
        assert forall|i: int| 0 <= i < n - 1 implies low_bits(v, n)[i] == low_bits(
            h,
            (n - 1) as nat,
        )[i] by {
            let j = (n - 2 - i) as u64;
            assert(((v >> 1) >> j) & 1 == (v >> ((j + 1) as u64)) & 1) by (bit_vector)
                requires
                    j < 63,
            ;
            assert((n - 1 - i) as u64 == (j + 1) as u64);
        }
        assert(low_bits(v, n).drop_last() =~= low_bits(h, (n - 1) as nat));
        assert(low_bits(v, n).last() == ((v >> 0u64) & 1 == 1));
        assert((v >> 0u64) & 1 == v % 2) by (bit_vector);
        lemma_fundamental_div_mod(v as int, 2);
    }
}

/// The value of a concatenation: the left part shifted up, plus the right part.
pub proof fn lemma_bits_val_concat(a: Seq<bool>, b: Seq<bool>)
    ensures
        bits_val(a + b) == bits_val(a) * pow2(b.len()) + bits_val(b),
    decreases b.len(),
{
    if b.len() == 0 {
        lemma2_to64();
        assert(a + b =~= a);
    } else {
        lemma_bits_val_concat(a, b.drop_last());
        assert((a + b).drop_last() =~= a + b.drop_last());
        lemma_pow2_unfold(b.len());
        assert(bits_val(a) * pow2(b.len()) == 2 * (bits_val(a) * pow2((b.len() - 1) as nat)))
            by (nonlinear_arith)
            requires
                pow2(b.len()) == 2 * pow2((b.len() - 1) as nat),
        ;
    }
}

/// A writer that packs bits most-significant-first into a growing byte vector.
pub struct BitWriter {
    bytes: Vec<u8>,
    acc: u8,
    fill: usize,
}

impl BitWriter {
    /// All bits written so far, in order.
    pub closed spec fn bits(&self) -> Seq<bool> {
        bytes_bits(self.bytes@) + low_bits(self.acc as u64, self.fill as nat)
    }

    pub closed spec fn wf(&self) -> bool {
        &&& self.fill < 8
        &&& (self.acc as u64) >> (self.fill as u64) == 0
        &&& 8 * self.bytes@.len() + self.fill <= usize::MAX
    }

    pub fn new() -> (w: Self)
        ensures
            w.wf(),
            w.bits() == Seq::<bool>::empty(),
    {
        let w = BitWriter { bytes: Vec::new(), acc: 0, fill: 0 };
        proof {
            assert(0u64 >> 0u64 == 0) by (bit_vector);
            assert(w.bits() =~= Seq::<bool>::empty());
        }
        w
    }

    /// Total number of bits written so far.
    pub fn total_bits_written(&self) -> (r: usize)
        requires
            self.wf(),
        ensures
            r == self.bits().len(),
    {
        proof {
            lemma_bytes_bits_len(self.bytes@);
        }
        self.bytes.len() * 8 + self.fill
    }

    fn push_bit(&mut self, bit: bool)
        requires
            old(self).wf(),
            old(self).bits().len() < usize::MAX,
        ensures
            final(self).wf(),
            final(self).bits() == old(self).bits().push(bit),
    {
        proof {
            lemma_bytes_bits_len(self.bytes@);
        }
        let b: u8 = if bit {
            1
        } else {
            0
        };
        let acc0: u8 = self.acc;
        let a: u8 = (acc0 << 1u8) | b;
        let ghost av: u64 = acc0 as u64;
        let ghost fv: u64 = self.fill as u64;
        proof {
            assert((a as u64) >> ((fv + 1) as u64) == 0 && ((a as u64) >> 0) & 1 == (b as u64) && (
            forall|j: u64|
                1 <= j < 8 ==> (#[trigger] ((a as u64) >> j)) & 1 == (av >> ((j - 1) as u64)) & 1))
                by (bit_vector)
                requires
                    a == (acc0 << 1u8) | b,
                    av == acc0 as u64,
                    av >> fv == 0,
                    fv < 8,
                    b <= 1,
            ;
            assert forall|i: int| 0 <= i <= fv implies low_bits(a as u64, (fv + 1) as nat)[i]
                == low_bits(av, fv as nat).push(bit)[i] by {
                if i < fv {
                    let j = (fv - i) as u64;
                    assert(((a as u64) >> j) & 1 == (av >> ((j - 1) as u64)) & 1);
                }
            }
            assert(low_bits(a as u64, (fv + 1) as nat) =~= low_bits(av, fv as nat).push(bit));
        }
        if self.fill == 7 {
            let ghost oldbytes = self.bytes@;
            self.bytes.push(a);
            self.acc = 0;
            self.fill = 0;
            proof {
                lemma_bytes_bits_push(oldbytes, a);
                assert(0u64 >> 0u64 == 0) by (bit_vector);
                assert(low_bits(0u64, 0) =~= Seq::<bool>::empty());
                assert(self.bits() =~= old(self).bits().push(bit));
            }
        } else {
            self.acc = a;
            self.fill = self.fill + 1;
            proof {
                assert(self.bits() =~= old(self).bits().push(bit));
            }
        }
    }

    /// Appends the low `bit_num` bits of `data`, most significant first.
    pub fn write_bits_u32(&mut self, data: u32, bit_num: usize)
        requires
            old(self).wf(),
            bit_num <= 32,
            old(self).bits().len() + bit_num <= usize::MAX,
        ensures
            final(self).wf(),
            final(self).bits() == old(self).bits() + low_bits(data as u64, bit_num as nat),
    {
        let ghost target = low_bits(data as u64, bit_num as nat);
        let mut k: usize = 0;
        while k < bit_num
            invariant
                self.wf(),
                k <= bit_num,
                bit_num <= 32,
                old(self).bits().len() + bit_num <= usize::MAX,
                target == low_bits(data as u64, bit_num as nat),
                self.bits() == old(self).bits() + target.take(k as int),
            decreases bit_num - k,
        {
            let sh: usize = bit_num - 1 - k;
            let bit: bool = ((data as u64) >> (sh as u64)) & 1 == 1;
            proof {
                assert(target[k as int] == bit);
                assert(target.take(k as int).push(bit) =~= target.take(k + 1));
            }
            self.push_bit(bit);
            proof {
                assert(self.bits() =~= old(self).bits() + target.take(k + 1));
            }
            k = k + 1;
        }
        proof {
            assert(target.take(bit_num as int) =~= target);
        }
    }

    /// Appends the low `bit_num` bits of `data`, most significant first.
    pub fn write_bits_u16(&mut self, data: u16, bit_num: usize)
        requires
            old(self).wf(),
            bit_num <= 16,
            old(self).bits().len() + bit_num <= usize::MAX,
        ensures
            final(self).wf(),
            final(self).bits() == old(self).bits() + low_bits(data as u64, bit_num as nat),
    {
        self.write_bits_u32(data as u32, bit_num);
    }

    /// The bytes written so far, with any partial final byte padded with zero bits.
    pub fn get_bytes(&self) -> (r: Vec<u8>)
        requires
            self.wf(),
        ensures
            bytes_bits(r@) == padded_bits(self.bits()),
    {
        proof {
            lemma_bytes_bits_len(self.bytes@);
        }
        let mut out: Vec<u8> = Vec::new();
        let mut i: usize = 0;
        while i < self.bytes.len()
            invariant
                i <= self.bytes@.len(),
                out@ =~= self.bytes@.take(i as int),
            decreases self.bytes@.len() - i,
        {
            let b = self.bytes[i];
            out.push(b);
            i = i + 1;
        }
        proof {
            assert(out@ =~= self.bytes@);
        }
        if self.fill > 0 {
            let acc0: u8 = self.acc;
            let pad: u8 = (8 - self.fill) as u8;
            let p: u8 = acc0 << pad;
            let ghost av: u64 = acc0 as u64;
            let ghost fv: u64 = self.fill as u64;
            let ghost pv: u64 = pad as u64;
            proof {
                assert(((p as u64) == (av << pv)) && (forall|j: u64|
                    j < 8 ==> (#[trigger] ((p as u64) >> j)) & 1 == (if j >= pv {
                        (av >> ((j - pv) as u64)) & 1
                    } else {
                        0
                    }))) by (bit_vector)
                    requires
                        p == acc0 << pad,
                        av == acc0 as u64,
                        pv == pad as u64,
                        pv + fv == 8,
                        av >> fv == 0,
                        0 < fv < 8,
                ;
            }
            out.push(p);
            proof {
                lemma_bytes_bits_push(self.bytes@, p);
                let full = self.bits();
                assert forall|i2: int| 0 <= i2 < 8 implies #[trigger] low_bits(p as u64, 8)[i2]
                    == padded_bits(full).skip(8 * self.bytes@.len() as int)[i2] by {
                    let j = (7 - i2) as u64;
                    assert(((p as u64) >> j) & 1 == (if j >= pv {
                        (av >> ((j - pv) as u64)) & 1
                    } else {
                        0u64
                    }));
                    if i2 < fv {
                        assert(low_bits(av, fv as nat)[i2] == ((av >> ((fv - 1 - i2) as u64)) & 1
                            == 1));
                        assert((j - pv) as u64 == (fv - 1 - i2) as u64);
                    } else {
                        assert(full.len() % 8 == fv as nat % 8) by {
                            lemma_mod_multiples_vanish(
                                self.bytes@.len() as int,
                                self.fill as int,
                                8,
                            );
                        }
                    }
                }
                assert(bytes_bits(out@) =~= padded_bits(full));
            }
        } else {
            proof {
                assert(low_bits(self.acc as u64, 0) =~= Seq::<bool>::empty());
                assert(self.bits().len() % 8 == 0) by {
                    lemma_mod_multiples_vanish(self.bytes@.len() as int, 0, 8);
                }
                assert(bytes_bits(out@) =~= padded_bits(self.bits()));
            }
        }
        out
    }
}

/// A reader that consumes the bits of a borrowed byte slice most-significant-first.
pub struct BitReader<'a> {
    bytes: &'a [u8],
    pos: usize,
}

impl<'a> BitReader<'a> {
    /// Every bit of the backing slice.
    pub closed spec fn all_bits(&self) -> Seq<bool> {
        bytes_bits(self.bytes@)
    }

    /// The bits not yet consumed.
    pub closed spec fn rem_bits(&self) -> Seq<bool> {
        self.all_bits().skip(self.pos as int)
    }

    pub closed spec fn wf(&self) -> bool {
        &&& 8 * self.bytes@.len() <= usize::MAX
        &&& self.pos <= 8 * self.bytes@.len()
    }

    pub fn new(bytes: &'a [u8]) -> (r: Self)
        requires
            bytes@.len() <= usize::MAX as nat / 8,
        ensures
            r.wf(),
            r.all_bits() == bytes_bits(bytes@),
            r.rem_bits() == bytes_bits(bytes@),
    {
        let r = BitReader { bytes, pos: 0 };
        proof {
            lemma_bytes_bits_len(bytes@);
            assert(r.rem_bits() =~= bytes_bits(bytes@));
        }
        r
    }

    /// Number of bits not yet consumed.
    pub fn remaining_bits(&self) -> (r: usize)
        requires
            self.wf(),
        ensures
            r == self.rem_bits().len(),
    {
        proof {
            lemma_bytes_bits_len(self.bytes@);
        }
        self.bytes.len() * 8 - self.pos
    }

    fn bit_at(&self, idx: usize) -> (r: bool)
        requires
            self.wf(),
            (idx as nat) < 8 * self.bytes@.len(),
        ensures
            r == self.all_bits()[idx as int],
    {
        proof {
            lemma_bytes_bits_len(self.bytes@);
            lemma_bytes_bits_index(self.bytes@, idx as int);
        }
        let byte: u8 = self.bytes[idx / 8];
        ((byte as u64) >> ((7 - idx % 8) as u64)) & 1 == 1
    }

    /// Reads the next `n` bits as a value without consuming them.
    fn peek_core(&self, n: usize) -> (r: u64)
        requires
            self.wf(),
            n <= 64,
            n as nat <= self.rem_bits().len(),
        ensures
            r as nat == bits_val(self.rem_bits().take(n as int)),
            (r as nat) < pow2(n as nat),
    {
        proof {
            lemma_bytes_bits_len(self.bytes@);
        }
        let ghost rem = self.rem_bits();
        let mut v: u64 = 0;
        let mut k: usize = 0;
        proof {
            lemma2_to64();
            assert(rem.take(0) =~= Seq::<bool>::empty());
        }
        while k < n
            invariant
                self.wf(),
                k <= n,
                n <= 64,
                n as nat <= rem.len(),
                rem == self.rem_bits(),
                v as nat == bits_val(rem.take(k as int)),
                (v as nat) < pow2(k as nat),
            decreases n - k,
        {
            proof {
                lemma_bytes_bits_len(self.bytes@);
            }
            let bit = self.bit_at(self.pos + k);
            let ghost vold: u64 = v;
            proof {
                assert(rem[k as int] == self.all_bits()[self.pos + k]);
                assert(rem.take(k + 1).drop_last() =~= rem.take(k as int));
                lemma_pow2_unfold((k + 1) as nat);
                if (k as nat) < 63 {
                    lemma_pow2_strictly_increases(k as nat, 63);
                }
                lemma2_to64();
                lemma2_to64_rest();
                assert(vold < 0x8000_0000_0000_0000u64);
            }
            v = (v << 1u64) | (if bit {
                1u64
            } else {
                0u64
            });
            proof {
                assert((vold << 1u64) | 1u64 == 2 * vold + 1 && (vold << 1u64) | 0u64 == 2 * vold)
                    by (bit_vector)
                    requires
                        vold < 0x8000_0000_0000_0000u64,
                ;
            }
            k = k + 1;
        }
        v
    }

    fn advance(&mut self, n: usize)
        requires
            old(self).wf(),
            n as nat <= old(self).rem_bits().len(),
        ensures
            final(self).wf(),
            final(self).all_bits() == old(self).all_bits(),
            final(self).rem_bits() == old(self).rem_bits().skip(n as int),
    {
        proof {
            lemma_bytes_bits_len(self.bytes@);
        }
        self.pos = self.pos + n;
        proof {
            assert(self.rem_bits() =~= old(self).rem_bits().skip(n as int));
        }
    }

    /// Reads a single bit; `None` when the stream is exhausted.
    pub fn read_bit(&mut self) -> (r: Option<bool>)
        requires
            old(self).wf(),
        ensures
            final(self).wf(),
            final(self).all_bits() == old(self).all_bits(),
            old(self).rem_bits().len() == 0 ==> r is None && final(self).rem_bits() == old(
                self,
            ).rem_bits(),
            old(self).rem_bits().len() > 0 ==> r == Some(old(self).rem_bits()[0])
                && final(self).rem_bits() == old(self).rem_bits().skip(1),
    {
        proof {
            lemma_bytes_bits_len(self.bytes@);
        }
        if self.pos == self.bytes.len() * 8 {
            return None;
        }
        let b = self.bit_at(self.pos);
        proof {
            assert(old(self).rem_bits()[0] == self.all_bits()[self.pos as int]);
        }
        self.advance(1);
        Some(b)
    }

    /// Reads the next `bit_num` bits (at most 64) as an unsigned value, most
    /// significant bit first. Asking for more bits than remain is an
    /// unexpected end of input and consumes nothing; zero bits read as zero.
    pub fn read_bits(&mut self, bit_num: usize) -> (r: Option<u64>)
        requires
            old(self).wf(),
            bit_num <= 64,
        ensures
            final(self).wf(),
            final(self).all_bits() == old(self).all_bits(),
            bit_num as nat > old(self).rem_bits().len() ==> r is None && final(self).rem_bits()
                == old(self).rem_bits(),
            bit_num as nat <= old(self).rem_bits().len() ==> r == Some(
                bits_val(old(self).rem_bits().take(bit_num as int)) as u64,
            ) && final(self).rem_bits() == old(self).rem_bits().skip(bit_num as int),
    {
        let rem = self.remaining_bits();
        if bit_num > rem {
            return None;
        }
        let v = self.peek_core(bit_num);
        self.advance(bit_num);
        Some(v)
    }

    /// Like `read_bits` with a bound of 8 bits.
    pub fn read_bits_into_u8(&mut self, bit_num: usize) -> (r: Option<u8>)
        requires
            old(self).wf(),
            bit_num <= 8,
        ensures
            final(self).wf(),
            final(self).all_bits() == old(self).all_bits(),
            bit_num as nat > old(self).rem_bits().len() ==> r is None && final(self).rem_bits()
                == old(self).rem_bits(),
            bit_num as nat <= old(self).rem_bits().len() ==> r == Some(
                bits_val(old(self).rem_bits().take(bit_num as int)) as u8,
            ) && final(self).rem_bits() == old(self).rem_bits().skip(bit_num as int),
    {
        let rem = self.remaining_bits();
        if bit_num > rem {
            return None;
        }
        let v = self.peek_core(bit_num);
        proof {
            if (bit_num as nat) < 8 {
                lemma_pow2_strictly_increases(bit_num as nat, 8);
            }
            lemma2_to64();
        }
        self.advance(bit_num);
        Some(v as u8)
    }

    /// Like `read_bits` with a bound of 16 bits.
    pub fn read_bits_into_u16(&mut self, bit_num: usize) -> (r: Option<u16>)
        requires
            old(self).wf(),
            bit_num <= 16,
        ensures
            final(self).wf(),
            final(self).all_bits() == old(self).all_bits(),
            bit_num as nat > old(self).rem_bits().len() ==> r is None && final(self).rem_bits()
                == old(self).rem_bits(),
            bit_num as nat <= old(self).rem_bits().len() ==> r == Some(
                bits_val(old(self).rem_bits().take(bit_num as int)) as u16,
            ) && final(self).rem_bits() == old(self).rem_bits().skip(bit_num as int),
    {
        let rem = self.remaining_bits();
        if bit_num > rem {
            return None;
        }
        let v = self.peek_core(bit_num);
        proof {
            if (bit_num as nat) < 16 {
                lemma_pow2_strictly_increases(bit_num as nat, 16);
            }
            lemma2_to64();
        }
        self.advance(bit_num);
        Some(v as u16)
    }

    /// Like `read_bits` with a bound of 32 bits.
    pub fn read_bits_into_u32(&mut self, bit_num: usize) -> (r: Option<u32>)
        requires
            old(self).wf(),
            bit_num <= 32,
        ensures
            final(self).wf(),
            final(self).all_bits() == old(self).all_bits(),
            bit_num as nat > old(self).rem_bits().len() ==> r is None && final(self).rem_bits()
                == old(self).rem_bits(),
            bit_num as nat <= old(self).rem_bits().len() ==> r == Some(
                bits_val(old(self).rem_bits().take(bit_num as int)) as u32,
            ) && final(self).rem_bits() == old(self).rem_bits().skip(bit_num as int),
    {
        let rem = self.remaining_bits();
        if bit_num > rem {
            return None;
        }
        let v = self.peek_core(bit_num);
        proof {
            if (bit_num as nat) < 32 {
                lemma_pow2_strictly_increases(bit_num as nat, 32);
            }
            lemma2_to64();
        }
        self.advance(bit_num);
        Some(v as u32)
    }

    /// Like `read_bits_into_u32`, but when fewer than `bit_num` bits remain the
    /// remainder is returned shifted into the high positions of a `bit_num`-bit
    /// window, and the stream is drained.
    pub fn read_bits_into_u32_with_shift(&mut self, bit_num: usize) -> (r: Option<u32>)
        requires
            old(self).wf(),
            bit_num <= 32,
        ensures
            final(self).wf(),
            final(self).all_bits() == old(self).all_bits(),
            old(self).rem_bits().len() == 0 ==> r is None && final(self).rem_bits() == old(
                self,
            ).rem_bits(),
            old(self).rem_bits().len() > 0 ==> r == Some(
                saturating_window(old(self).rem_bits(), bit_num as nat) as u32,
            ) && final(self).rem_bits() == old(self).rem_bits().skip(
                if bit_num as nat <= old(self).rem_bits().len() {
                    bit_num as int
                } else {
                    old(self).rem_bits().len() as int
                },
            ),
    {
        let rem = self.remaining_bits();
        if rem == 0 {
            return None;
        }
        if bit_num <= rem {
            let v = self.peek_core(bit_num);
            proof {
                if (bit_num as nat) < 32 {
                    lemma_pow2_strictly_increases(bit_num as nat, 32);
                }
                lemma2_to64();
            }
            self.advance(bit_num);
            Some(v as u32)
        } else {
            let v = self.peek_core(rem);
            let sh: usize = bit_num - rem;
            proof {
                lemma_pow2_adds(rem as nat, sh as nat);
                lemma_pow2_strictly_increases(rem as nat, 32);
                lemma_pow2_pos(sh as nat);
                if (bit_num as nat) < 32 {
                    lemma_pow2_strictly_increases(bit_num as nat, 32);
                }
                lemma2_to64();
                vstd::arithmetic::mul::lemma_mul_inequality(
                    v as int,
                    pow2(rem as nat) as int - 1,
                    pow2(sh as nat) as int,
                );
                assert((pow2(rem as nat) - 1) * pow2(sh as nat) == pow2(rem as nat) * pow2(
                    sh as nat,
                ) - pow2(sh as nat)) by (nonlinear_arith);
                lemma_u32_shl_is_mul(v as u32, sh as u32);
                assert(old(self).rem_bits().take(rem as int) =~= old(self).rem_bits());
            }
            let out: u32 = (v as u32) << (sh as u32);
            self.advance(rem);
            Some(out)
        }
    }

    /// Reads the next `bit_num` bits as a value without consuming anything;
    /// asking for more bits than remain is an unexpected end of input.
    pub fn peek_bits_into_u32(&self, bit_num: usize) -> (r: Option<u32>)
        requires
            self.wf(),
            bit_num <= 32,
        ensures
            bit_num as nat > self.rem_bits().len() ==> r is None,
            bit_num as nat <= self.rem_bits().len() ==> r == Some(
                bits_val(self.rem_bits().take(bit_num as int)) as u32,
            ),
    {
        let rem = self.remaining_bits();
        if bit_num > rem {
            return None;
        }
        let v = self.peek_core(bit_num);
        proof {
            if (bit_num as nat) < 32 {
                lemma_pow2_strictly_increases(bit_num as nat, 32);
            }
            lemma2_to64();
        }
        Some(v as u32)
    }

    /// Reads the next `bit_num` bits as a value without consuming anything;
    /// when fewer remain, the remainder is shifted into the high positions.
    pub fn peek_bits_into_u32_with_shift(&self, bit_num: usize) -> (r: Option<u32>)
        requires
            self.wf(),
            bit_num <= 32,
        ensures
            self.rem_bits().len() == 0 ==> r is None,
            self.rem_bits().len() > 0 ==> r == Some(
                saturating_window(self.rem_bits(), bit_num as nat) as u32,
            ),
    {
        let rem = self.remaining_bits();
        if rem == 0 {
            return None;
        }
        if bit_num <= rem {
            let v = self.peek_core(bit_num);
            proof {
                if (bit_num as nat) < 32 {
                    lemma_pow2_strictly_increases(bit_num as nat, 32);
                }
                lemma2_to64();
            }
            Some(v as u32)
        } else {
            let v = self.peek_core(rem);
            let sh: usize = bit_num - rem;
            proof {
                lemma_pow2_adds(rem as nat, sh as nat);
                lemma_pow2_strictly_increases(rem as nat, 32);
                lemma_pow2_pos(sh as nat);
                if (bit_num as nat) < 32 {
                    lemma_pow2_strictly_increases(bit_num as nat, 32);
                }
                lemma2_to64();
                vstd::arithmetic::mul::lemma_mul_inequality(
                    v as int,
                    pow2(rem as nat) as int - 1,
                    pow2(sh as nat) as int,
                );
                assert((pow2(rem as nat) - 1) * pow2(sh as nat) == pow2(rem as nat) * pow2(
                    sh as nat,
                ) - pow2(sh as nat)) by (nonlinear_arith);
                lemma_u32_shl_is_mul(v as u32, sh as u32);
                assert(self.rem_bits().take(rem as int) =~= self.rem_bits());
            }
            Some((v as u32) << (sh as u32))
        }
    }

    /// Discards up to `bit_num` bits; never more than remain.
    pub fn empty_bits(&mut self, bit_num: usize)
        requires
            old(self).wf(),
        ensures
            final(self).wf(),
            final(self).all_bits() == old(self).all_bits(),
            final(self).rem_bits() == old(self).rem_bits().skip(
                if bit_num as nat <= old(self).rem_bits().len() {
                    bit_num as int
                } else {
                    old(self).rem_bits().len() as int
                },
            ),
    {
        let rem = self.remaining_bits();
        let eff = if bit_num <= rem {
            bit_num
        } else {
            rem
        };
        self.advance(eff);
    }
}

/// The `n`-bit window a decoder sees at the front of `s`: the next `n` bits,
/// or — near the end of the stream — every remaining bit shifted into the
/// high positions of the window.
pub open spec fn saturating_window(s: Seq<bool>, n: nat) -> nat {
    if n <= s.len() {
        bits_val(s.take(n as int))
    } else {
        bits_val(s) * pow2((n - s.len()) as nat)
    }
}


/// The bit stream laid down by a sequence of writes `(value, width)`.
pub open spec fn writes_bits(ws: Seq<(u32, usize)>) -> Seq<bool>
    decreases ws.len(),
{
    if ws.len() == 0 {
        Seq::empty()
    } else {
        writes_bits(ws.drop_last()) + low_bits(ws.last().0 as u64, ws.last().1 as nat)
    }
}

pub proof fn lemma_writes_bits_concat(a: Seq<(u32, usize)>, b: Seq<(u32, usize)>)
    ensures
        writes_bits(a + b) == writes_bits(a) + writes_bits(b),
    decreases b.len(),
{
    if b.len() == 0 {
        assert(a + b =~= a);
        assert(writes_bits(a) + writes_bits(b) =~= writes_bits(a));
    } else {
        lemma_writes_bits_concat(a, b.drop_last());
        assert((a + b).drop_last() =~= a + b.drop_last());
        assert(writes_bits(a) + writes_bits(b.drop_last()) + low_bits(
            b.last().0 as u64,
            b.last().1 as nat,
        ) =~= writes_bits(a) + writes_bits(b));
    }
}

/// Round trip of the bit substrate: in the stream laid down by any sequence of
/// writes, each of `0 < width <= 32` bits of a value below `2^width` — and with
/// anything at all appended after the stream — reading the `i`-th width at the
/// `i`-th offset yields exactly the `i`-th value written.
pub proof fn lemma_bitio_round_trip(ws: Seq<(u32, usize)>, tail: Seq<bool>, i: int)
    requires
        forall|j: int|
            0 <= j < ws.len() ==> 0 < (#[trigger] ws[j]).1 <= 32 && (ws[j].0 as nat) < pow2(
                ws[j].1 as nat,
            ),
        0 <= i < ws.len(),
    ensures
        ({
            let s = writes_bits(ws) + tail;
            let off = writes_bits(ws.take(i)).len() as int;
            &&& off + ws[i].1 <= s.len()
            &&& bits_val(s.skip(off).take(ws[i].1 as int)) == ws[i].0
        }),
{
    let s = writes_bits(ws) + tail;
    let pre = ws.take(i);
    let mid = seq![ws[i]];
    let post = ws.skip(i + 1);
    let code = low_bits(ws[i].0 as u64, ws[i].1 as nat);
    assert(ws =~= (pre + mid) + post);
    lemma_writes_bits_concat(pre + mid, post);
    lemma_writes_bits_concat(pre, mid);
    assert(mid.drop_last() =~= Seq::<(u32, usize)>::empty());
    assert(writes_bits(Seq::<(u32, usize)>::empty()) =~= Seq::<bool>::empty());
    assert(writes_bits(mid) == writes_bits(mid.drop_last()) + low_bits(
        mid.last().0 as u64,
        mid.last().1 as nat,
    ));
    assert(writes_bits(mid) =~= code);
    let off = writes_bits(pre).len() as int;
    assert(s.skip(off).take(ws[i].1 as int) =~= code);
    lemma_bits_val_low_bits(ws[i].0 as u64, ws[i].1 as nat);
}

} // verus!

