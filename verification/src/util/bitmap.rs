use vstd::prelude::*;

verus! {

/// The largest number of dimensions an array can have.
pub const NDIM_MAX: usize = 8;

/// `n` low bits set, nothing above.
pub open spec fn low_mask_spec(n: int) -> u8 {
    if n >= 8 {
        0xffu8
    } else {
        ((1u8 << (n as u8)) - 1) as u8
    }
}

/// Bit `d` of `bits` is set.
pub open spec fn bit(bits: u8, d: int) -> bool {
    (bits >> (d as u8)) & 1u8 == 1u8
}

proof fn lemma_low_mask(n: u8, d: u8)
    by (bit_vector)
    requires
        n < 8,
        d < 8,
    ensures
        (((1u8 << n) - 1) as u8 >> d) & 1u8 == 1u8 <==> d < n,
        (0xffu8 >> d) & 1u8 == 1u8,
{
}

proof fn lemma_set_bit(b: u8, i: u8, d: u8)
    by (bit_vector)
    requires
        i < 8,
        d < 8,
    ensures
        ((b | (1u8 << i)) >> d) & 1u8 == 1u8 <==> (d == i || (b >> d) & 1u8 == 1u8),
        ((b & !(1u8 << i)) >> d) & 1u8 == 1u8 <==> (d != i && (b >> d) & 1u8 == 1u8),
{
}

proof fn lemma_single_bit(b: u8, i: u8)
    by (bit_vector)
    requires
        i < 8,
    ensures
        ((b & (1u8 << i)) != 0) == ((b >> i) & 1u8 == 1u8),
        (1u8 << i) >= 1,
{
}

proof fn lemma_bits_eq(a: u8, b: u8)
    by (bit_vector)
    requires
        (a >> 0u8) & 1u8 == (b >> 0u8) & 1u8,
        (a >> 1u8) & 1u8 == (b >> 1u8) & 1u8,
        (a >> 2u8) & 1u8 == (b >> 2u8) & 1u8,
        (a >> 3u8) & 1u8 == (b >> 3u8) & 1u8,
        (a >> 4u8) & 1u8 == (b >> 4u8) & 1u8,
        (a >> 5u8) & 1u8 == (b >> 5u8) & 1u8,
        (a >> 6u8) & 1u8 == (b >> 6u8) & 1u8,
        (a >> 7u8) & 1u8 == (b >> 7u8) & 1u8,
    ensures
        a == b,
{
}

proof fn lemma_bit_is_01(a: u8, d: u8)
    by (bit_vector)
    ensures
        (a >> d) & 1u8 == 0u8 || (a >> d) & 1u8 == 1u8,
{
}

/// Two bytes with the same bits are the same byte.
proof fn lemma_same_bits(a: u8, b: u8)
    requires
        forall|d: int| 0 <= d < 8 ==> bit(a, d) == bit(b, d),
    ensures
        a == b,
{
    assert forall|d: u8| d < 8 implies (a >> d) & 1u8 == (b >> d) & 1u8 by {
        assert(bit(a, d as int) == bit(b, d as int));
        lemma_bit_is_01(a, d);
        lemma_bit_is_01(b, d);
    }
    lemma_bits_eq(a, b);
}

proof fn lemma_and_bits(a: u8, b: u8, d: u8)
    by (bit_vector)
    requires
        d < 8,
    ensures
        ((a & b) >> d) & 1u8 == 1u8 <==> ((a >> d) & 1u8 == 1u8 && (b >> d) & 1u8 == 1u8),
        ((a | b) >> d) & 1u8 == 1u8 <==> ((a >> d) & 1u8 == 1u8 || (b >> d) & 1u8 == 1u8),
        (!a >> d) & 1u8 == 1u8 <==> !((a >> d) & 1u8 == 1u8),
        (0u8 >> d) & 1u8 != 1u8,
{
}

proof fn lemma_shl_bits(a: u8, d: u8)
    by (bit_vector)
    requires
        d < 8,
    ensures
        d == 0 ==> ((a << 1u8) >> d) & 1u8 != 1u8,
        d > 0 ==> (((a << 1u8) >> d) & 1u8 == 1u8 <==> (a >> ((d - 1) as u8)) & 1u8 == 1u8),
{
}

/// A compact, fixed-length sequence of per-dimension boolean flags.
///
/// Flag `d` is bit `d` of one byte (the low bit is dimension 0); the bitmap also records its own
/// length, at most [`NDIM_MAX`], and keeps every bit at or above that length clear, so two bitmaps
/// are equal exactly when they hold the same flags.
#[derive(Clone, Copy, PartialEq, Eq, Debug, Hash)]
pub struct DimBitmap {
    bits: u8,
    len: u8,
}

impl View for DimBitmap {
    type V = Seq<bool>;

    closed spec fn view(&self) -> Seq<bool> {
        Seq::new(self.len as nat, |d: int| bit(self.bits, d))
    }
}

impl DimBitmap {
    #[verifier::type_invariant]
    closed spec fn inv(self) -> bool {
        &&& self.len <= 8
        &&& forall|d: int| self.len <= d < 8 ==> !#[trigger] bit(self.bits, d)
    }

    /// The low `n` bits set (and nothing above), used to mask off unused high bits.
    fn low_mask(n: usize) -> (r: u8)
        requires
            n <= NDIM_MAX,
        ensures
            r == low_mask_spec(n as int),
            forall|d: int| 0 <= d < 8 ==> (bit(r, d) <==> d < n),
    {
        if n >= NDIM_MAX {
            proof {
                assert forall|d: int| 0 <= d < 8 implies (bit(0xffu8, d) <==> d < n) by {
                    lemma_low_mask(0, d as u8);
                }
            }
            u8::MAX
        } else {
            proof {
                lemma_single_bit(0, n as u8);
            }
            let r = (1u8 << (n as u8)) - 1;
            proof {
                assert forall|d: int| 0 <= d < 8 implies (bit(r, d) <==> d < n) by {
                    lemma_low_mask(n as u8, d as u8);
                }
            }
            r
        }
    }
    /// A bitmap of `len` dimensions, every flag set to `value`.
    pub fn filled(len: usize, value: bool) -> (r: Self)
        requires
            len <= NDIM_MAX,
        ensures
            r@ == Seq::new(len as nat, |d: int| value),
    {
        let bits = if value {
            Self::low_mask(len)
        } else {
            0
        };
        proof {
            assert forall|d: int| 0 <= d < 8 implies (bit(bits, d) <==> (value && d < len)) by {
                lemma_and_bits(0, 0, d as u8);
            }
        }
        let r = Self { bits, len: len as u8 };
        proof {
            assert(r@ =~= Seq::new(len as nat, |d: int| value));
        }
        r
    }

    /// The number of dimensions the bitmap covers.
    pub fn len(self) -> (r: usize)
        ensures
            r == self@.len(),
            r <= NDIM_MAX,
    {
        proof {
            use_type_invariant(self);
        }
        self.len as usize
    }

    /// The flag of dimension `dim`.
    pub fn get(self, dim: usize) -> (r: bool)
        requires
            dim < self@.len(),
        ensures
            r == self@[dim as int],
    {
        proof {
            use_type_invariant(self);
            lemma_single_bit(self.bits, dim as u8);
        }
        self.bits & (1u8 << (dim as u8)) != 0
    }

    /// Sets the flag of dimension `dim` to `value`.
    pub fn set(&mut self, dim: usize, value: bool)
        requires
            dim < old(self)@.len(),
        ensures
            final(self)@ == old(self)@.update(dim as int, value),
    {
        proof {
            use_type_invariant(&*self);
        }
        let bit_mask = 1u8 << (dim as u8);
        let bits = if value {
            self.bits | bit_mask
        } else {
            self.bits & !bit_mask
        };
        proof {
            assert forall|d: int| 0 <= d < 8 implies bit(bits, d) == if d == dim {
                value
            } else {
                bit(self.bits, d)
            } by {
                lemma_set_bit(self.bits, dim as u8, d as u8);
            }
        }
        self.bits = bits;
        proof {
            assert(self@ =~= old(self)@.update(dim as int, value));
        }
    }

    /// Whether every dimension's flag is set.
    pub fn all(self) -> (r: bool)
        ensures
            r == forall|d: int| 0 <= d < self@.len() ==> #[trigger] self@[d],
    {
        proof {
            use_type_invariant(self);
        }
        let mask = Self::low_mask(self.len as usize);
        let r = self.bits & mask == mask;
        proof {
            assert forall|d: int| 0 <= d < 8 implies bit(self.bits & mask, d) == (bit(self.bits, d)
                && bit(mask, d)) by {
                lemma_and_bits(self.bits, mask, d as u8);
            }
            if forall|d: int| 0 <= d < self@.len() ==> #[trigger] self@[d] {
                assert forall|d: int| 0 <= d < 8 implies bit(self.bits & mask, d) == bit(mask, d) by {
                    if d < self.len {
                        assert(self@[d]);
                    }
                }
                lemma_same_bits(self.bits & mask, mask);
            }
            if r {
                assert forall|d: int| 0 <= d < self@.len() implies #[trigger] self@[d] by {
                    assert(bit(self.bits & mask, d) == bit(mask, d));
                }
            }
        }
        r
    }

    /// Inserts a new dimension at position `pos`, shifting the higher dimensions up by one; the
    /// new dimension takes `value`.
    pub fn insert(&mut self, pos: usize, value: bool)
        requires
            pos <= old(self)@.len(),
            old(self)@.len() < NDIM_MAX,
        ensures
            final(self)@ == old(self)@.insert(pos as int, value),
    {
        proof {
            use_type_invariant(&*self);
        }
        let low = Self::low_mask(pos);
        let bits = (self.bits & low) | ((self.bits & !low) << 1u8);
        proof {
            assert forall|d: int| 0 <= d < 8 implies bit(bits, d) == if d < pos {
                bit(self.bits, d)
            } else if d == pos {
                false
            } else {
                bit(self.bits, d - 1)
            } by {
                assert(bit(low, d) == (d < pos));
                if d > 0 {
                    assert(bit(low, d - 1) == (d - 1 < pos));
                }
                lemma_and_bits(self.bits & low, (self.bits & !low) << 1u8, d as u8);
                lemma_and_bits(self.bits, low, d as u8);
                lemma_shl_bits(self.bits & !low, d as u8);
                if d > 0 {
                    lemma_and_bits(self.bits, !low, (d - 1) as u8);
                    lemma_and_bits(low, low, (d - 1) as u8);
                }
            }
        }
        *self = DimBitmap { bits, len: self.len + 1 };
        self.set(pos, value);
        proof {
            assert(final(self)@ =~= old(self)@.insert(pos as int, value));
        }
    }

    /// A bitmap holding the flags `values`, dimension 0 first.
    pub fn from_bools(values: &[bool]) -> (r: Self)
        requires
            values@.len() <= NDIM_MAX,
        ensures
            r@ == values@,
    {
        proof {
            assert forall|d: int| 0 <= d < 8 implies !bit(0u8, d) by {
                lemma_and_bits(0, 0, d as u8);
            }
        }
        let mut bitmap = DimBitmap { bits: 0, len: 0 };
        proof {
            assert(bitmap@ =~= values@.subrange(0, 0));
        }
        let mut i: usize = 0;
        while i < values.len()
            invariant
                i <= values@.len(),
                values@.len() <= NDIM_MAX,
                bitmap@ == values@.subrange(0, i as int),
            decreases values@.len() - i,
        {
            proof {
                use_type_invariant(bitmap);
                assert(bitmap@.len() == bitmap.len as nat);
                assert(bitmap@.len() == i);
                assert(bitmap.len == i);
                assert(!bit(bitmap.bits, i as int));
            }
            let ghost prev = bitmap@;
            bitmap = DimBitmap { bits: bitmap.bits, len: bitmap.len + 1 };
            proof {
                assert(bitmap@ =~= prev.push(false));
            }
            bitmap.set(i, values[i]);
            proof {
                assert(bitmap@ =~= values@.subrange(0, i as int + 1));
            }
            i += 1;
        }
        proof {
            assert(values@.subrange(0, values@.len() as int) =~= values@);
        }
        bitmap
    }

    /// The flags, dimension 0 first.
    pub fn to_vec(self) -> (r: Vec<bool>)
        ensures
            r@ == self@,
    {
        let mut out: Vec<bool> = Vec::new();
        let n = self.len();
        let mut i: usize = 0;
        while i < n
            invariant
                i <= n,
                n == self@.len(),
                out@ == self@.subrange(0, i as int),
            decreases n - i,
        {
            out.push(self.get(i));
            proof {
                assert(out@ =~= self@.subrange(0, i as int + 1));
            }
            i += 1;
        }
        proof {
            assert(out@ =~= self@);
        }
        out
    }
}

} // verus!
