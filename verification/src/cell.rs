//! The numeric capability that a tape cell needs, for each fixed-width
//! integer type.

use vstd::arithmetic::div_mod::{
    lemma_add_mod_noop_right, lemma_fundamental_div_mod_converse, lemma_mod_bound,
};
use vstd::prelude::*;

verus! {

/// The value in `lowest..=highest` that differs from `v` by a multiple of the
/// number of values in that range: what fixed-width arithmetic makes of `v`.
pub open spec fn wrap_into(v: int, lowest: int, highest: int) -> int {
    lowest + (v - lowest) % (highest - lowest + 1)
}

/// The value that follows `v` in `lowest..=highest`, the lowest following the
/// highest.
pub open spec fn successor(v: int, lowest: int, highest: int) -> int {
    if v == highest {
        lowest
    } else {
        v + 1
    }
}

/// The value that `v` follows in `lowest..=highest`, the lowest following the
/// highest.
pub open spec fn predecessor(v: int, lowest: int, highest: int) -> int {
    if v == lowest {
        highest
    } else {
        v - 1
    }
}

/// A value no further than one range length outside of `lowest..=highest` is
/// carried back into the range by one step of that length; one inside of it
/// stays as it is.
pub proof fn lemma_wrap_near(v: int, lowest: int, highest: int)
    requires
        lowest <= highest,
        lowest - (highest - lowest + 1) <= v <= highest + (highest - lowest + 1),
    ensures
        wrap_into(v, lowest, highest) == if v > highest {
            v - (highest - lowest + 1)
        } else if v < lowest {
            v + (highest - lowest + 1)
        } else {
            v
        },
{
    let span = highest - lowest + 1;
    let offset = v - lowest;
    if v > highest {
        lemma_fundamental_div_mod_converse(offset, span, 1, offset - span);
    } else if v < lowest {
        lemma_fundamental_div_mod_converse(offset, span, -1, offset + span);
    } else {
        lemma_fundamental_div_mod_converse(offset, span, 0, offset);
    }
}

/// Adding as many as the range has values carries a value of the range back
/// to itself.
pub proof fn lemma_wrap_full_cycle(v: int, lowest: int, highest: int)
    requires
        lowest <= v <= highest,
    ensures
        wrap_into(v + (highest - lowest + 1), lowest, highest) == v,
{
    lemma_wrap_near(v + (highest - lowest + 1), lowest, highest);
}

/// To add one to a value of the range, or to take one from it, and carry the
/// result into the range is to step to its successor, or to its predecessor.
pub proof fn lemma_step_wraps(v: int, lowest: int, highest: int)
    requires
        lowest <= v <= highest,
    ensures
        wrap_into(v + 1, lowest, highest) == successor(v, lowest, highest),
        wrap_into(v - 1, lowest, highest) == predecessor(v, lowest, highest),
{
    lemma_wrap_near(v + 1, lowest, highest);
    lemma_wrap_near(v - 1, lowest, highest);
}

/// Carrying a value into the range before something is added to it changes
/// nothing about where the sum is carried to.
pub proof fn lemma_wrap_of_sum(v: int, w: int, lowest: int, highest: int)
    requires
        lowest <= highest,
    ensures
        wrap_into(wrap_into(v, lowest, highest) + w, lowest, highest) == wrap_into(
            v + w,
            lowest,
            highest,
        ),
{
    let span = highest - lowest + 1;
    lemma_add_mod_noop_right(w, v - lowest, span);
}

/// A value carried into the range lies within it, and a value within it is
/// carried to itself.
pub proof fn lemma_wrap_in_range(v: int, lowest: int, highest: int)
    requires
        lowest <= highest,
    ensures
        lowest <= wrap_into(v, lowest, highest) <= highest,
        lowest <= v <= highest ==> wrap_into(v, lowest, highest) == v,
{
    lemma_mod_bound(v - lowest, highest - lowest + 1);
    if lowest <= v <= highest {
        lemma_wrap_near(v, lowest, highest);
    }
}

/// An integer type that can serve as a tape cell.
pub trait Cell: Copy {
    /// The integer that the cell holds.
    spec fn value(self) -> int;

    /// The least value that a cell of this type can hold.
    spec fn lowest() -> int;

    /// The greatest value that a cell of this type can hold.
    spec fn highest() -> int;

    /// A cell never leaves the range of its type.
    proof fn lemma_value_in_range(self)
        ensures
            Self::lowest() <= self.value() <= Self::highest(),
    ;

    /// Every cell type can hold zero and each of the seven-bit codes.
    proof fn lemma_range()
        ensures
            Self::lowest() <= 0,
            127 <= Self::highest(),
    ;

    /// The cell that holds zero.
    fn zero() -> (cell: Self)
        ensures
            cell.value() == 0,
    ;

    /// The cell that holds one.
    fn one() -> (cell: Self)
        ensures
            cell.value() == 1,
    ;

    /// Whether the cell holds zero.
    fn is_zero(self) -> (zero: bool)
        ensures
            zero == (self.value() == 0),
    ;

    /// The sum, carried around the ends of the type's range.
    fn wrapping_add(self, rhs: Self) -> (cell: Self)
        ensures
            cell.value() == wrap_into(self.value() + rhs.value(), Self::lowest(), Self::highest()),
    ;

    /// The difference, carried around the ends of the type's range.
    fn wrapping_sub(self, rhs: Self) -> (cell: Self)
        ensures
            cell.value() == wrap_into(self.value() - rhs.value(), Self::lowest(), Self::highest()),
    ;

    /// The low eight bits of the cell.
    fn to_byte(self) -> (byte: u8)
        ensures
            byte as int == self.value() % 256,
    ;

    /// The cell that holds `byte`, where the type has such a cell.
    fn from_byte(byte: u8) -> (cell: Option<Self>)
        ensures
            match cell {
                Some(c) => c.value() == byte as int && byte as int <= Self::highest(),
                None => byte as int > Self::highest(),
            },
    ;
}

impl Cell for i8 {
    open spec fn value(self) -> int {
        self as int
    }

    open spec fn lowest() -> int {
        i8::MIN as int
    }

    open spec fn highest() -> int {
        i8::MAX as int
    }

    proof fn lemma_value_in_range(self) {
    }

    proof fn lemma_range() {
    }

    fn zero() -> (cell: Self) {
        0
    }

    fn one() -> (cell: Self) {
        1
    }

    fn is_zero(self) -> (zero: bool) {
        self == 0
    }

    fn wrapping_add(self, rhs: Self) -> (cell: Self) {
        proof {
            lemma_wrap_near(self as int + rhs as int, i8::MIN as int, i8::MAX as int);
        }
        i8::wrapping_add(self, rhs)
    }

    fn wrapping_sub(self, rhs: Self) -> (cell: Self) {
        proof {
            lemma_wrap_near(self as int - rhs as int, i8::MIN as int, i8::MAX as int);
        }
        i8::wrapping_sub(self, rhs)
    }

    fn to_byte(self) -> (byte: u8) {
        let byte: u8 = #[verifier::truncate] (self as u8);
        assert(byte as int == (self as int) % 256) by (bit_vector)
            requires
                byte == self as u8,
        ;
        byte
    }

    fn from_byte(byte: u8) -> (cell: Option<Self>) {
        if byte <= 127 {
            Some(byte as i8)
        } else {
            None
        }
    }
}

impl Cell for u8 {
    open spec fn value(self) -> int {
        self as int
    }

    open spec fn lowest() -> int {
        u8::MIN as int
    }

    open spec fn highest() -> int {
        u8::MAX as int
    }

    proof fn lemma_value_in_range(self) {
    }

    proof fn lemma_range() {
    }

    fn zero() -> (cell: Self) {
        0
    }

    fn one() -> (cell: Self) {
        1
    }

    fn is_zero(self) -> (zero: bool) {
        self == 0
    }

    fn wrapping_add(self, rhs: Self) -> (cell: Self) {
        proof {
            lemma_wrap_near(self as int + rhs as int, u8::MIN as int, u8::MAX as int);
        }
        u8::wrapping_add(self, rhs)
    }

    fn wrapping_sub(self, rhs: Self) -> (cell: Self) {
        proof {
            lemma_wrap_near(self as int - rhs as int, u8::MIN as int, u8::MAX as int);
        }
        u8::wrapping_sub(self, rhs)
    }

    fn to_byte(self) -> (byte: u8) {
        self
    }

    fn from_byte(byte: u8) -> (cell: Option<Self>) {
        Some(byte)
    }
}

impl Cell for i16 {
    open spec fn value(self) -> int {
        self as int
    }

    open spec fn lowest() -> int {
        i16::MIN as int
    }

    open spec fn highest() -> int {
        i16::MAX as int
    }

    proof fn lemma_value_in_range(self) {
    }

    proof fn lemma_range() {
    }

    fn zero() -> (cell: Self) {
        0
    }

    fn one() -> (cell: Self) {
        1
    }

    fn is_zero(self) -> (zero: bool) {
        self == 0
    }

    fn wrapping_add(self, rhs: Self) -> (cell: Self) {
        proof {
            lemma_wrap_near(self as int + rhs as int, i16::MIN as int, i16::MAX as int);
        }
        i16::wrapping_add(self, rhs)
    }

    fn wrapping_sub(self, rhs: Self) -> (cell: Self) {
        proof {
            lemma_wrap_near(self as int - rhs as int, i16::MIN as int, i16::MAX as int);
        }
        i16::wrapping_sub(self, rhs)
    }

    fn to_byte(self) -> (byte: u8) {
        let byte: u8 = #[verifier::truncate] (self as u8);
        assert(byte as int == (self as int) % 256) by (bit_vector)
            requires
                byte == self as u8,
        ;
        byte
    }

    fn from_byte(byte: u8) -> (cell: Option<Self>) {
        Some(byte as i16)
    }
}

impl Cell for u16 {
    open spec fn value(self) -> int {
        self as int
    }

    open spec fn lowest() -> int {
        u16::MIN as int
    }

    open spec fn highest() -> int {
        u16::MAX as int
    }

    proof fn lemma_value_in_range(self) {
    }

    proof fn lemma_range() {
    }

    fn zero() -> (cell: Self) {
        0
    }

    fn one() -> (cell: Self) {
        1
    }

    fn is_zero(self) -> (zero: bool) {
        self == 0
    }

    fn wrapping_add(self, rhs: Self) -> (cell: Self) {
        proof {
            lemma_wrap_near(self as int + rhs as int, u16::MIN as int, u16::MAX as int);
        }
        u16::wrapping_add(self, rhs)
    }

    fn wrapping_sub(self, rhs: Self) -> (cell: Self) {
        proof {
            lemma_wrap_near(self as int - rhs as int, u16::MIN as int, u16::MAX as int);
        }
        u16::wrapping_sub(self, rhs)
    }

    fn to_byte(self) -> (byte: u8) {
        (self % 256) as u8
    }

    fn from_byte(byte: u8) -> (cell: Option<Self>) {
        Some(byte as u16)
    }
}

impl Cell for i32 {
    open spec fn value(self) -> int {
        self as int
    }

    open spec fn lowest() -> int {
        i32::MIN as int
    }

    open spec fn highest() -> int {
        i32::MAX as int
    }

    proof fn lemma_value_in_range(self) {
    }

    proof fn lemma_range() {
    }

    fn zero() -> (cell: Self) {
        0
    }

    fn one() -> (cell: Self) {
        1
    }

    fn is_zero(self) -> (zero: bool) {
        self == 0
    }

    fn wrapping_add(self, rhs: Self) -> (cell: Self) {
        proof {
            lemma_wrap_near(self as int + rhs as int, i32::MIN as int, i32::MAX as int);
        }
        i32::wrapping_add(self, rhs)
    }

    fn wrapping_sub(self, rhs: Self) -> (cell: Self) {
        proof {
            lemma_wrap_near(self as int - rhs as int, i32::MIN as int, i32::MAX as int);
        }
        i32::wrapping_sub(self, rhs)
    }

    fn to_byte(self) -> (byte: u8) {
        let byte: u8 = #[verifier::truncate] (self as u8);
        assert(byte as int == (self as int) % 256) by (bit_vector)
            requires
                byte == self as u8,
        ;
        byte
    }

    fn from_byte(byte: u8) -> (cell: Option<Self>) {
        Some(byte as i32)
    }
}

impl Cell for u32 {
    open spec fn value(self) -> int {
        self as int
    }

    open spec fn lowest() -> int {
        u32::MIN as int
    }

    open spec fn highest() -> int {
        u32::MAX as int
    }

    proof fn lemma_value_in_range(self) {
    }

    proof fn lemma_range() {
    }

    fn zero() -> (cell: Self) {
        0
    }

    fn one() -> (cell: Self) {
        1
    }

    fn is_zero(self) -> (zero: bool) {
        self == 0
    }

    fn wrapping_add(self, rhs: Self) -> (cell: Self) {
        proof {
            lemma_wrap_near(self as int + rhs as int, u32::MIN as int, u32::MAX as int);
        }
        u32::wrapping_add(self, rhs)
    }

    fn wrapping_sub(self, rhs: Self) -> (cell: Self) {
        proof {
            lemma_wrap_near(self as int - rhs as int, u32::MIN as int, u32::MAX as int);
        }
        u32::wrapping_sub(self, rhs)
    }

    fn to_byte(self) -> (byte: u8) {
        (self % 256) as u8
    }

    fn from_byte(byte: u8) -> (cell: Option<Self>) {
        Some(byte as u32)
    }
}

impl Cell for i64 {
    open spec fn value(self) -> int {
        self as int
    }

    open spec fn lowest() -> int {
        i64::MIN as int
    }

    open spec fn highest() -> int {
        i64::MAX as int
    }

    proof fn lemma_value_in_range(self) {
    }

    proof fn lemma_range() {
    }

    fn zero() -> (cell: Self) {
        0
    }

    fn one() -> (cell: Self) {
        1
    }

    fn is_zero(self) -> (zero: bool) {
        self == 0
    }

    fn wrapping_add(self, rhs: Self) -> (cell: Self) {
        proof {
            lemma_wrap_near(self as int + rhs as int, i64::MIN as int, i64::MAX as int);
        }
        i64::wrapping_add(self, rhs)
    }

    fn wrapping_sub(self, rhs: Self) -> (cell: Self) {
        proof {
            lemma_wrap_near(self as int - rhs as int, i64::MIN as int, i64::MAX as int);
        }
        i64::wrapping_sub(self, rhs)
    }

    fn to_byte(self) -> (byte: u8) {
        let byte: u8 = #[verifier::truncate] (self as u8);
        assert(byte as int == (self as int) % 256) by (bit_vector)
            requires
                byte == self as u8,
        ;
        byte
    }

    fn from_byte(byte: u8) -> (cell: Option<Self>) {
        Some(byte as i64)
    }
}

impl Cell for u64 {
    open spec fn value(self) -> int {
        self as int
    }

    open spec fn lowest() -> int {
        u64::MIN as int
    }

    open spec fn highest() -> int {
        u64::MAX as int
    }

    proof fn lemma_value_in_range(self) {
    }

    proof fn lemma_range() {
    }

    fn zero() -> (cell: Self) {
        0
    }

    fn one() -> (cell: Self) {
        1
    }

    fn is_zero(self) -> (zero: bool) {
        self == 0
    }

    fn wrapping_add(self, rhs: Self) -> (cell: Self) {
        proof {
            lemma_wrap_near(self as int + rhs as int, u64::MIN as int, u64::MAX as int);
        }
        u64::wrapping_add(self, rhs)
    }

    fn wrapping_sub(self, rhs: Self) -> (cell: Self) {
        proof {
            lemma_wrap_near(self as int - rhs as int, u64::MIN as int, u64::MAX as int);
        }
        u64::wrapping_sub(self, rhs)
    }

    fn to_byte(self) -> (byte: u8) {
        (self % 256) as u8
    }

    fn from_byte(byte: u8) -> (cell: Option<Self>) {
        Some(byte as u64)
    }
}

} // verus!
