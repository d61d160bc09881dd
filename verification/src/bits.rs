use vstd::arithmetic::div_mod::lemma_fundamental_div_mod;
use vstd::prelude::*;

verus! {

/// The `j`-th bit of a byte, least significant first.
pub open spec fn bit_of(b: u8, j: u8) -> bool
    recommends
        j < 8,
{
    (b >> j) & 1 == 1
}

/// The eight bits of one byte, least significant first.
pub open spec fn byte_bits(b: u8) -> Seq<bool> {
    Seq::new(8, |j: int| bit_of(b, j as u8))
}

/// A byte sequence read as a bit stream: least-significant bit first within
/// each byte, bytes in order.
pub open spec fn bits_of_bytes(s: Seq<u8>) -> Seq<bool> {
    Seq::new((s.len() * 8) as nat, |i: int| bit_of(s[i / 8], (i % 8) as u8))
}

/// The value of a byte sequence read as a little-endian integer.
pub open spec fn le_bytes_val(s: Seq<u8>) -> int
    decreases s.len(),
{
    if s.len() == 0 {
        0
    } else {
        s[0] + 256 * le_bytes_val(s.skip(1))
    }
}

/// Appending a byte to a stream appends its eight bits.
pub proof fn lemma_bits_of_bytes_push(s: Seq<u8>, a: u8)
    ensures
        bits_of_bytes(s.push(a)) == bits_of_bytes(s) + byte_bits(a),
{
    let lhs = bits_of_bytes(s.push(a));
    let rhs = bits_of_bytes(s) + byte_bits(a);
    assert(lhs.len() == rhs.len());
    assert forall|i: int| 0 <= i < lhs.len() implies lhs[i] == rhs[i] by {
        if i < s.len() * 8 {
            assert(i / 8 < s.len() && 0 <= i / 8 && 0 <= i % 8 < 8) by (nonlinear_arith)
                requires
                    0 <= i < s.len() * 8,
            ;
            assert(s.push(a)[i / 8] == s[i / 8]);
        } else {
            assert(i / 8 == s.len() && i % 8 == i - s.len() * 8) by (nonlinear_arith)
                requires
                    s.len() * 8 <= i < s.len() * 8 + 8,
            ;
            assert(s.push(a)[i / 8] == a);
        }
    }
    assert(lhs =~= rhs);
}

/// An incremental writer for a bit-packed byte stream: bits accumulate
/// least-significant-first into a carry byte that is flushed to the output
/// every eight bits.
pub struct BitWriter {
    bytes: Vec<u8>,
    acc: u8,
    used: u8,
}

/// Setting bit `u` of a byte leaves every other bit as it was.
proof fn lemma_set_bit(a: u8, u: u8)
    by (bit_vector)
    requires
        u < 8,
    ensures
        forall|j: u8| j < 8 && j != u ==> #[trigger] ((a | (1u8 << u)) >> j) & 1 == (a >> j) & 1,
        ((a | (1u8 << u)) >> u) & 1 == 1,
{
}

/// A zero byte has no bit set.
proof fn lemma_zero_bits()
    by (bit_vector)
    ensures
        forall|j: u8| #[trigger] ((0u8 >> j) & 1) == 0,
{
}

impl BitWriter {
    pub closed spec fn wf(&self) -> bool {
        &&& self.used < 8
        &&& forall|j: u8| self.used <= j < 8 ==> !(#[trigger] bit_of(self.acc, j))
    }

    /// All bits written so far, in order.
    pub closed spec fn bits(&self) -> Seq<bool> {
        bits_of_bytes(self.bytes@) + Seq::new(self.used as nat, |j: int| bit_of(self.acc, j as u8))
    }

    pub fn new() -> (r: BitWriter)
        ensures
            r.wf(),
            r.bits() == Seq::<bool>::empty(),
    {
        let r = BitWriter { bytes: Vec::new(), acc: 0, used: 0 };
        proof {
            lemma_zero_bits();
            assert(r.bits() =~= Seq::<bool>::empty());
        }
        r
    }

    /// Append one bit.
    pub fn push_bit(&mut self, bit: bool)
        requires
            old(self).wf(),
        ensures
            final(self).wf(),
            final(self).bits() == old(self).bits().push(bit),
    {
        let ghost pre = *old(self);
        if bit {
            self.acc = self.acc | (1u8 << self.used);
            proof {
                lemma_set_bit(pre.acc, pre.used);
            }
        }
        proof {
            assert forall|j: u8| j < 8 implies #[trigger] bit_of(self.acc, j) == (if j < pre.used {
                bit_of(pre.acc, j)
            } else if j == pre.used {
                bit
            } else {
                false
            }) by {
                if bit {
                    if j != pre.used {
                        assert(((pre.acc | (1u8 << pre.used)) >> j) & 1 == (pre.acc >> j) & 1);
                    }
                }
            }
        }
        if self.used == 7 {
            let a = self.acc;
            self.bytes.push(a);
            self.acc = 0;
            self.used = 0;
            proof {
                lemma_zero_bits();
                lemma_bits_of_bytes_push(pre.bytes@, a);
                assert(byte_bits(a) =~= Seq::new(pre.used as nat, |j: int| bit_of(pre.acc, j as u8)).push(bit));
                assert(self.bits() =~= pre.bits().push(bit));
            }
        } else {
            self.used = self.used + 1;
            proof {
                assert(Seq::new(self.used as nat, |j: int| bit_of(self.acc, j as u8)) =~= Seq::new(
                    pre.used as nat,
                    |j: int| bit_of(pre.acc, j as u8),
                ).push(bit));
                assert(self.bits() =~= pre.bits().push(bit));
            }
        }
    }

    /// Append a whole code, first bit first.
    pub fn push_code(&mut self, code: &Vec<bool>)
        requires
            old(self).wf(),
        ensures
            final(self).wf(),
            final(self).bits() == old(self).bits() + code@,
    {
        let n = code.len();
        let mut j: usize = 0;
        while j < n
            invariant
                self.wf(),
                n == code@.len(),
                j <= n,
                self.bits() == old(self).bits() + code@.take(j as int),
            decreases n - j,
        {
            self.push_bit(code[j]);
            proof {
                assert(old(self).bits() + code@.take(j as int + 1) =~= (old(self).bits()
                    + code@.take(j as int)).push(code@[j as int]));
            }
            j = j + 1;
        }
        proof {
            assert(code@.take(n as int) =~= code@);
        }
    }

    /// Flush: the packed bytes, the last byte padded with zero bits.
    pub fn finish(self) -> (r: Vec<u8>)
        requires
            self.wf(),
        ensures
            r@.len() == (self.bits().len() + 7) / 8,
            bits_of_bytes(r@).take(self.bits().len() as int) == self.bits(),
    {
        let BitWriter { mut bytes, acc, used } = self;
        let ghost n = bytes@.len() as int;
        let ghost total = self.bits().len() as int;
        if used > 0 {
            bytes.push(acc);
            proof {
                lemma_bits_of_bytes_push(self.bytes@, acc);
                assert(total == 8 * n + used);
                assert((8 * n + used + 7) / 8 == n + 1) by (nonlinear_arith)
                    requires
                        0 < used < 8,
                        0 <= n,
                ;
                assert(bits_of_bytes(bytes@).take(total) =~= self.bits());
            }
        } else {
            proof {
                assert(total == 8 * n);
                assert((8 * n + 7) / 8 == n) by (nonlinear_arith)
                    requires
                        0 <= n,
                ;
                assert(bits_of_bytes(bytes@).take(total) =~= self.bits());
            }
        }
        bytes
    }
}

/// Powers of 256, up to the eight the header needs.
pub open spec fn pow256(k: int) -> int
    decreases k,
{
    if k <= 0 {
        1
    } else {
        256 * pow256(k - 1)
    }
}

/// Bytes that spell a value in base 256 read back as that value.
pub proof fn lemma_le_bytes_val_of_digits(s: Seq<u8>, v: int)
    requires
        s.len() <= 8,
        0 <= v < pow256(s.len() as int),
        digits_of(s, v),
    ensures
        le_bytes_val(s) == v,
    decreases s.len(),
{
    if s.len() == 0 {
    } else {
        assert(s[0] == v % 256 && digits_of(s.skip(1), v / 256));
        assert(0 <= v / 256 && v / 256 < pow256(s.len() - 1)) by (nonlinear_arith)
            requires
                0 <= v < 256 * pow256(s.len() - 1),
        ;
        lemma_le_bytes_val_of_digits(s.skip(1), v / 256);
        lemma_fundamental_div_mod(v, 256);
    }
}

/// `s` spells `v` in base 256, low digit first.
pub open spec fn digits_of(s: Seq<u8>, v: int) -> bool
    decreases s.len(),
{
    if s.len() == 0 {
        true
    } else {
        s[0] == v % 256 && digits_of(s.skip(1), v / 256)
    }
}

/// Eight bytes carved off a 64-bit value by repeated division by 256 spell
/// that value in base 256, so they read back as it, little-endian.
pub proof fn lemma_header_digits(
    hdr: Seq<u8>,
    h0: int,
    h1: int,
    h2: int,
    h3: int,
    h4: int,
    h5: int,
    h6: int,
    h7: int,
)
    requires
        hdr.len() == 8,
        0 <= h0 <= u64::MAX,
        h1 == h0 / 256,
        h2 == h1 / 256,
        h3 == h2 / 256,
        h4 == h3 / 256,
        h5 == h4 / 256,
        h6 == h5 / 256,
        h7 == h6 / 256,
        hdr[0] == h0 % 256,
        hdr[1] == h1 % 256,
        hdr[2] == h2 % 256,
        hdr[3] == h3 % 256,
        hdr[4] == h4 % 256,
        hdr[5] == h5 % 256,
        hdr[6] == h6 % 256,
        hdr[7] == h7 % 256,
    ensures
        le_bytes_val(hdr) == h0,
{
    assert(hdr.skip(7).skip(1) =~= hdr.skip(8));
    assert(hdr.skip(8) =~= Seq::<u8>::empty());
    assert(hdr.skip(7)[0] == hdr[7]);
    assert(digits_of(Seq::<u8>::empty(), h7 / 256));
    assert(digits_of(hdr.skip(7), h7));
    assert(hdr.skip(6).skip(1) =~= hdr.skip(7));
    assert(hdr.skip(6)[0] == hdr[6]);
    assert(digits_of(hdr.skip(6), h6));
    assert(hdr.skip(5).skip(1) =~= hdr.skip(6));
    assert(hdr.skip(5)[0] == hdr[5]);
    assert(digits_of(hdr.skip(5), h5));
    assert(hdr.skip(4).skip(1) =~= hdr.skip(5));
    assert(hdr.skip(4)[0] == hdr[4]);
    assert(digits_of(hdr.skip(4), h4));
    assert(hdr.skip(3).skip(1) =~= hdr.skip(4));
    assert(hdr.skip(3)[0] == hdr[3]);
    assert(digits_of(hdr.skip(3), h3));
    assert(hdr.skip(2).skip(1) =~= hdr.skip(3));
    assert(hdr.skip(2)[0] == hdr[2]);
    assert(digits_of(hdr.skip(2), h2));
    assert(hdr.skip(1).skip(1) =~= hdr.skip(2));
    assert(hdr.skip(1)[0] == hdr[1]);
    assert(digits_of(hdr.skip(1), h1));
    assert(hdr.skip(0) =~= hdr);
    assert(digits_of(hdr, h0));
    assert(pow256(8) == 0x1_0000_0000_0000_0000) by {
        reveal_with_fuel(pow256, 9);
    }
    lemma_le_bytes_val_of_digits(hdr, h0);
}

} // verus!
