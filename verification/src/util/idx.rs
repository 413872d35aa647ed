use vstd::prelude::*;

verus! {

/// An unsigned machine integer used as an index, a length, a stride or an offset.
///
/// Every value is modelled by [`as_int`](Idx::as_int), a mathematical integer in
/// `0..modulus()`. The wrapping operations compute modulo `modulus()`, which is exactly the
/// mathematical result whenever that result fits.
pub trait Idx: Copy + Sized {
    /// The mathematical value of `self`.
    spec fn as_int(self) -> int;

    /// One past the largest representable value (`2^BITS`).
    spec fn modulus() -> int;

    /// Every value lies in `0..modulus()`, and `modulus()` is at least `2^16`.
    proof fn lemma_range(self)
        ensures
            0 <= self.as_int() < Self::modulus(),
            Self::modulus() >= 0x10000,
    ;

    /// The modulus is at least `2^16`.
    proof fn lemma_modulus()
        ensures
            Self::modulus() >= 0x10000,
    ;

    fn zero() -> (r: Self)
        ensures
            r.as_int() == 0,
    ;

    fn one() -> (r: Self)
        ensures
            r.as_int() == 1,
    ;

    /// Converts to `usize`, keeping the low bits.
    fn usize(self) -> (r: usize)
        ensures
            r as int == self.as_int() % (usize::MAX as int + 1),
    ;

    /// Converts from `usize`, keeping the low bits.
    fn from_usize(n: usize) -> (r: Self)
        ensures
            r.as_int() == n as int % Self::modulus(),
    ;

    /// Converts to `u64`, keeping the low bits.
    fn u64(self) -> (r: u64)
        ensures
            r as int == self.as_int() % 0x1_0000_0000_0000_0000,
    ;

    /// Converts from `u64`, keeping the low bits.
    fn from_u64(n: u64) -> (r: Self)
        ensures
            r.as_int() == n as int % Self::modulus(),
    ;

    fn add_wrapping(self, rhs: Self) -> (r: Self)
        ensures
            r.as_int() == (self.as_int() + rhs.as_int()) % Self::modulus(),
    ;

    fn sub_wrapping(self, rhs: Self) -> (r: Self)
        ensures
            r.as_int() == (self.as_int() - rhs.as_int()) % Self::modulus(),
    ;

    fn mul_wrapping(self, rhs: Self) -> (r: Self)
        ensures
            r.as_int() == (self.as_int() * rhs.as_int()) % Self::modulus(),
    ;

    /// `self / rhs` rounded up.
    fn div_ceil(self, rhs: Self) -> (r: Self)
        requires
            rhs.as_int() > 0,
        ensures
            r.as_int() == (self.as_int() + rhs.as_int() - 1) / rhs.as_int(),
    ;

    fn checked_mul(self, rhs: Self) -> (r: Option<Self>)
        ensures
            r is Some <==> self.as_int() * rhs.as_int() < Self::modulus(),
            r matches Some(v) ==> v.as_int() == self.as_int() * rhs.as_int(),
    ;
}

/// Rounding a division up: `(x + d - 1) / d` is `x / d`, plus one when `d` does not divide `x`.
pub proof fn lemma_div_ceil(x: int, d: int)
    requires
        x >= 0,
        d > 0,
    ensures
        (x + d - 1) / d == if x % d == 0 { x / d } else { x / d + 1 },
        0 <= x / d <= x,
        x / d * d <= x,
{
    vstd::arithmetic::div_mod::lemma_fundamental_div_mod(x, d);
    vstd::arithmetic::div_mod::lemma_div_pos_is_pos(x, d);
    vstd::arithmetic::div_mod::lemma_mod_bound(x, d);
    vstd::arithmetic::div_mod::lemma_div_is_ordered_by_denominator(x, 1, d);
    assert(d * (x / d) == (x / d) * d) by (nonlinear_arith);
    if x % d == 0 {
        vstd::arithmetic::div_mod::lemma_fundamental_div_mod_converse_div(
            x + d - 1,
            d,
            x / d,
            d - 1,
        );
    } else {
        assert((x / d + 1) * d + (x % d - 1) == d * (x / d) + x % d + d - 1) by (nonlinear_arith);
        vstd::arithmetic::div_mod::lemma_fundamental_div_mod_converse_div(
            x + d - 1,
            d,
            x / d + 1,
            x % d - 1,
        );
    }
}

/// `v % m` for a `v` within one modulus of the range `0..m`.
pub proof fn lemma_mod_window(v: int, m: int)
    requires
        m > 0,
        -m <= v < 2 * m,
    ensures
        v % m == if v < 0 {
            v + m
        } else if v >= m {
            v - m
        } else {
            v
        },
{
    if v < 0 {
        vstd::arithmetic::div_mod::lemma_fundamental_div_mod_converse_mod(v, m, -1, v + m);
    } else if v >= m {
        vstd::arithmetic::div_mod::lemma_fundamental_div_mod_converse_mod(v, m, 1, v - m);
    } else {
        vstd::arithmetic::div_mod::lemma_fundamental_div_mod_converse_mod(v, m, 0, v);
    }
}

impl Idx for usize {
    open spec fn as_int(self) -> int {
        self as int
    }

    open spec fn modulus() -> int {
        usize::MAX as int + 1
    }

    proof fn lemma_range(self) {
    }

    proof fn lemma_modulus() {
    }

    fn zero() -> (r: usize) {
        0
    }

    fn one() -> (r: usize) {
        1
    }

    fn usize(self) -> (r: usize) {
        proof {
            vstd::arithmetic::div_mod::lemma_small_mod(self as nat, usize::MAX as nat + 1);
        }
        self
    }

    fn from_usize(n: usize) -> (r: usize) {
        proof {
            vstd::arithmetic::div_mod::lemma_small_mod(n as nat, usize::MAX as nat + 1);
        }
        n
    }

    fn u64(self) -> (r: u64) {
        proof {
            vstd::arithmetic::div_mod::lemma_small_mod(self as nat, 0x1_0000_0000_0000_0000);
        }
        self as u64
    }

    fn from_u64(n: u64) -> (r: usize) {
        if n <= usize::MAX as u64 {
            proof {
                vstd::arithmetic::div_mod::lemma_small_mod(n as nat, usize::MAX as nat + 1);
            }
            n as usize
        } else {
            let m = usize::MAX as u64 + 1;
            proof {
                vstd::arithmetic::div_mod::lemma_mod_bound(n as int, m as int);
            }
            (n % m) as usize
        }
    }

    fn add_wrapping(self, rhs: usize) -> (r: usize) {
        proof {
            lemma_mod_window(self + rhs, usize::MAX + 1);
        }
        self.wrapping_add(rhs)
    }

    fn sub_wrapping(self, rhs: usize) -> (r: usize) {
        proof {
            lemma_mod_window(self - rhs, usize::MAX + 1);
        }
        self.wrapping_sub(rhs)
    }

    fn mul_wrapping(self, rhs: usize) -> (r: usize) {
        self.wrapping_mul(rhs)
    }

    fn div_ceil(self, rhs: usize) -> (r: usize) {
        proof {
            lemma_div_ceil(self as int, rhs as int);
        }
        let q = self / rhs;
        if self % rhs == 0 {
            q
        } else {
            assert(rhs != 1);
            assert(q as int * 2 <= q as int * rhs as int) by (nonlinear_arith)
                requires
                    rhs >= 2,
            ;
            q + 1
        }
    }

    fn checked_mul(self, rhs: usize) -> (r: Option<usize>) {
        self.checked_mul(rhs)
    }
}

impl Idx for u64 {
    open spec fn as_int(self) -> int {
        self as int
    }

    open spec fn modulus() -> int {
        u64::MAX as int + 1
    }

    proof fn lemma_range(self) {
    }

    proof fn lemma_modulus() {
    }

    fn zero() -> (r: u64) {
        0
    }

    fn one() -> (r: u64) {
        1
    }

    fn usize(self) -> (r: usize) {
        <usize as Idx>::from_u64(self)
    }

    fn from_usize(n: usize) -> (r: u64) {
        proof {
            vstd::arithmetic::div_mod::lemma_small_mod(n as nat, u64::MAX as nat + 1);
        }
        n as u64
    }

    fn u64(self) -> (r: u64) {
        proof {
            vstd::arithmetic::div_mod::lemma_small_mod(self as nat, 0x1_0000_0000_0000_0000);
        }
        self as u64
    }

    fn from_u64(n: u64) -> (r: u64) {
        proof {
            vstd::arithmetic::div_mod::lemma_small_mod(n as nat, u64::MAX as nat + 1);
        }
        n as u64
    }

    fn add_wrapping(self, rhs: u64) -> (r: u64) {
        proof {
            lemma_mod_window(self + rhs, u64::MAX + 1);
        }
        self.wrapping_add(rhs)
    }

    fn sub_wrapping(self, rhs: u64) -> (r: u64) {
        proof {
            lemma_mod_window(self - rhs, u64::MAX + 1);
        }
        self.wrapping_sub(rhs)
    }

    fn mul_wrapping(self, rhs: u64) -> (r: u64) {
        self.wrapping_mul(rhs)
    }

    fn div_ceil(self, rhs: u64) -> (r: u64) {
        proof {
            lemma_div_ceil(self as int, rhs as int);
        }
        let q = self / rhs;
        if self % rhs == 0 {
            q
        } else {
            assert(rhs != 1);
            assert(q as int * 2 <= q as int * rhs as int) by (nonlinear_arith)
                requires
                    rhs >= 2,
            ;
            q + 1
        }
    }

    fn checked_mul(self, rhs: u64) -> (r: Option<u64>) {
        self.checked_mul(rhs)
    }
}

impl Idx for u32 {
    open spec fn as_int(self) -> int {
        self as int
    }

    open spec fn modulus() -> int {
        u32::MAX as int + 1
    }

    proof fn lemma_range(self) {
    }

    proof fn lemma_modulus() {
    }

    fn zero() -> (r: u32) {
        0
    }

    fn one() -> (r: u32) {
        1
    }

    fn usize(self) -> (r: usize) {
        proof {
            vstd::arithmetic::div_mod::lemma_small_mod(self as nat, usize::MAX as nat + 1);
        }
        self as usize
    }

    fn from_usize(n: usize) -> (r: u32) {
        if n <= u32::MAX as usize {
            proof {
                vstd::arithmetic::div_mod::lemma_small_mod(n as nat, u32::MAX as nat + 1);
            }
            n as u32
        } else {
            let m = u32::MAX as usize + 1;
            proof {
                vstd::arithmetic::div_mod::lemma_mod_bound(n as int, m as int);
            }
            (n % m) as u32
        }
    }

    fn u64(self) -> (r: u64) {
        proof {
            vstd::arithmetic::div_mod::lemma_small_mod(self as nat, 0x1_0000_0000_0000_0000);
        }
        self as u64
    }

    fn from_u64(n: u64) -> (r: u32) {
        if n <= u32::MAX as u64 {
            proof {
                vstd::arithmetic::div_mod::lemma_small_mod(n as nat, u32::MAX as nat + 1);
            }
            n as u32
        } else {
            let m = u32::MAX as u64 + 1;
            proof {
                vstd::arithmetic::div_mod::lemma_mod_bound(n as int, m as int);
            }
            (n % m) as u32
        }
    }

    fn add_wrapping(self, rhs: u32) -> (r: u32) {
        proof {
            lemma_mod_window(self + rhs, u32::MAX + 1);
        }
        self.wrapping_add(rhs)
    }

    fn sub_wrapping(self, rhs: u32) -> (r: u32) {
        proof {
            lemma_mod_window(self - rhs, u32::MAX + 1);
        }
        self.wrapping_sub(rhs)
    }

    fn mul_wrapping(self, rhs: u32) -> (r: u32) {
        self.wrapping_mul(rhs)
    }

    fn div_ceil(self, rhs: u32) -> (r: u32) {
        proof {
            lemma_div_ceil(self as int, rhs as int);
        }
        let q = self / rhs;
        if self % rhs == 0 {
            q
        } else {
            assert(rhs != 1);
            assert(q as int * 2 <= q as int * rhs as int) by (nonlinear_arith)
                requires
                    rhs >= 2,
            ;
            q + 1
        }
    }

    fn checked_mul(self, rhs: u32) -> (r: Option<u32>) {
        self.checked_mul(rhs)
    }
}

impl Idx for u16 {
    open spec fn as_int(self) -> int {
        self as int
    }

    open spec fn modulus() -> int {
        u16::MAX as int + 1
    }

    proof fn lemma_range(self) {
    }

    proof fn lemma_modulus() {
    }

    fn zero() -> (r: u16) {
        0
    }

    fn one() -> (r: u16) {
        1
    }

    fn usize(self) -> (r: usize) {
        proof {
            vstd::arithmetic::div_mod::lemma_small_mod(self as nat, usize::MAX as nat + 1);
        }
        self as usize
    }

    fn from_usize(n: usize) -> (r: u16) {
        if n <= u16::MAX as usize {
            proof {
                vstd::arithmetic::div_mod::lemma_small_mod(n as nat, u16::MAX as nat + 1);
            }
            n as u16
        } else {
            let m = u16::MAX as usize + 1;
            proof {
                vstd::arithmetic::div_mod::lemma_mod_bound(n as int, m as int);
            }
            (n % m) as u16
        }
    }

    fn u64(self) -> (r: u64) {
        proof {
            vstd::arithmetic::div_mod::lemma_small_mod(self as nat, 0x1_0000_0000_0000_0000);
        }
        self as u64
    }

    fn from_u64(n: u64) -> (r: u16) {
        if n <= u16::MAX as u64 {
            proof {
                vstd::arithmetic::div_mod::lemma_small_mod(n as nat, u16::MAX as nat + 1);
            }
            n as u16
        } else {
            let m = u16::MAX as u64 + 1;
            proof {
                vstd::arithmetic::div_mod::lemma_mod_bound(n as int, m as int);
            }
            (n % m) as u16
        }
    }

    fn add_wrapping(self, rhs: u16) -> (r: u16) {
        proof {
            lemma_mod_window(self + rhs, u16::MAX + 1);
        }
        self.wrapping_add(rhs)
    }

    fn sub_wrapping(self, rhs: u16) -> (r: u16) {
        proof {
            lemma_mod_window(self - rhs, u16::MAX + 1);
        }
        self.wrapping_sub(rhs)
    }

    fn mul_wrapping(self, rhs: u16) -> (r: u16) {
        self.wrapping_mul(rhs)
    }

    fn div_ceil(self, rhs: u16) -> (r: u16) {
        proof {
            lemma_div_ceil(self as int, rhs as int);
        }
        let q = self / rhs;
        if self % rhs == 0 {
            q
        } else {
            assert(rhs != 1);
            assert(q as int * 2 <= q as int * rhs as int) by (nonlinear_arith)
                requires
                    rhs >= 2,
            ;
            q + 1
        }
    }

    fn checked_mul(self, rhs: u16) -> (r: Option<u16>) {
        self.checked_mul(rhs)
    }
}

} // verus!
