//! The cell abstraction: a fixed-width unsigned integer with wrapping
//! arithmetic, a zero test, and the low-byte conversions used for I/O.

use vstd::prelude::*;

verus! {

use vstd::arithmetic::div_mod::lemma_add_mod_noop;
use vstd::arithmetic::div_mod::lemma_mod_add_multiples_vanish;
use vstd::arithmetic::div_mod::lemma_mod_self_0;
use vstd::arithmetic::div_mod::lemma_small_mod;
use vstd::arithmetic::div_mod::lemma_sub_mod_noop;

/// One tape cell: an unsigned integer of some fixed width, with wrapping
/// add/subtract, a zero test, and single-byte get/set.  The engine's step
/// logic is written once over this trait and instantiated per width.
pub trait Value: Sized + Copy {
    /// The cell's content as a mathematical integer, always below
    /// `Self::modulus()`.
    spec fn as_nat(self) -> nat;

    /// The number of distinct cell values: two to the cell's bit width.
    spec fn modulus() -> nat;

    /// Every cell value lies below the modulus, and a cell holds at least a
    /// full byte.
    proof fn lemma_bounds(self)
        ensures
            self.as_nat() < Self::modulus(),
            Self::modulus() >= 256,
    ;

    /// The cell value zero.
    fn zero() -> (r: Self)
        ensures
            r.as_nat() == 0,
    ;

    /// Add a signed delta to the cell, wrapping within the cell's width.
    fn add(&mut self, amount: i32)
        ensures
            final(self).as_nat() as int == (old(self).as_nat() + amount) % (
            Self::modulus() as int),
    ;

    /// Whether the cell holds zero.
    fn is_zero(&self) -> (r: bool)
        ensures
            r <==> self.as_nat() == 0,
    ;

    /// The cell's low byte.
    fn get_byte(&self) -> (r: u8)
        ensures
            r as nat == self.as_nat() % 256,
    ;

    /// Overwrite the cell with a byte's value.
    fn set_byte(&mut self, byte: u8)
        ensures
            final(self).as_nat() == byte as nat,
    ;
}

/// The wrapped sum of a cell value and a signed delta equals the delta first
/// reduced modulo the width and then added or subtracted with a single wrap.
proof fn lemma_wrap_delta(v: int, a: int, m: int)
    requires
        0 <= v < m,
        0 < m,
    ensures
        (v + a % m) % m == (v + a) % m,
        (v - (-a) % m) % m == (v + a) % m,
{
    lemma_small_mod(v as nat, m as nat);
    lemma_add_mod_noop(v, a, m);
    lemma_sub_mod_noop(v, -a, m);
    assert((v - (-a)) % m == (v + a) % m);
}

/// Cell arithmetic wraps at both ends: adding one to the greatest cell
/// value lands on zero, and subtracting one from zero lands on the greatest
/// cell value, for every cell width.  Together with `Value::add`'s
/// contract, this pins the wrap behaviour of every implementation.
pub proof fn lemma_cell_wraparound(m: int, v: int)
    requires
        0 < m,
        0 <= v < m,
    ensures
        v == m - 1 ==> (v + 1) % m == 0,
        v == 0 ==> (v - 1) % m == m - 1,
{
    if v == m - 1 {
        assert((v + 1) % m == 0) by {
            lemma_mod_self_0(m);
        }
    }
    if v == 0 {
        lemma_mod_add_multiples_vanish(-1, m);
        lemma_small_mod((m - 1) as nat, m as nat);
    }
}

impl Value for u8 {
    open spec fn as_nat(self) -> nat {
        self as nat
    }

    open spec fn modulus() -> nat {
        256
    }

    proof fn lemma_bounds(self) {
    }

    fn zero() -> (r: Self) {
        0
    }

    fn add(&mut self, amount: i32) {
        proof {
            lemma_wrap_delta(*old(self) as int, amount as int, 256);
        }
        if amount >= 0 {
            let d: u8 = ((amount as u32) % 256) as u8;
            *self = self.wrapping_add(d);
        } else {
            let neg: u32 = (-(amount as i64)) as u32;
            let d: u8 = (neg % 256) as u8;
            *self = self.wrapping_sub(d);
        }
    }

    fn is_zero(&self) -> (r: bool) {
        *self == 0
    }

    fn get_byte(&self) -> (r: u8) {
        *self
    }

    fn set_byte(&mut self, byte: u8) {
        *self = byte;
    }
}

impl Value for u16 {
    open spec fn as_nat(self) -> nat {
        self as nat
    }

    open spec fn modulus() -> nat {
        65536
    }

    proof fn lemma_bounds(self) {
    }

    fn zero() -> (r: Self) {
        0
    }

    fn add(&mut self, amount: i32) {
        proof {
            lemma_wrap_delta(*old(self) as int, amount as int, 65536);
        }
        if amount >= 0 {
            let d: u16 = ((amount as u32) % 65536) as u16;
            *self = self.wrapping_add(d);
        } else {
            let neg: u32 = (-(amount as i64)) as u32;
            let d: u16 = (neg % 65536) as u16;
            *self = self.wrapping_sub(d);
        }
    }

    fn is_zero(&self) -> (r: bool) {
        *self == 0
    }

    fn get_byte(&self) -> (r: u8) {
        (*self % 256) as u8
    }

    fn set_byte(&mut self, byte: u8) {
        *self = byte as u16;
    }
}

impl Value for u32 {
    open spec fn as_nat(self) -> nat {
        self as nat
    }

    open spec fn modulus() -> nat {
        0x1_0000_0000
    }

    proof fn lemma_bounds(self) {
    }

    fn zero() -> (r: Self) {
        0
    }

    fn add(&mut self, amount: i32) {
        proof {
            lemma_wrap_delta(*old(self) as int, amount as int, 0x1_0000_0000);
        }
        if amount >= 0 {
            let d: u32 = amount as u32;
            proof {
                lemma_small_mod(d as nat, 0x1_0000_0000);
            }
            *self = self.wrapping_add(d);
        } else {
            let neg: u32 = (-(amount as i64)) as u32;
            proof {
                lemma_small_mod(neg as nat, 0x1_0000_0000);
            }
            *self = self.wrapping_sub(neg);
        }
    }

    fn is_zero(&self) -> (r: bool) {
        *self == 0
    }

    fn get_byte(&self) -> (r: u8) {
        (*self % 256) as u8
    }

    fn set_byte(&mut self, byte: u8) {
        *self = byte as u32;
    }
}

} // verus!
