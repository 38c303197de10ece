//! Decimal numbers in their shortest form.
//!
//! A row holds a decimal number by its raw parts, and holds it reduced: the
//! zeros at the end of the coefficient are gone into the exponent, so that
//! numbers of one value have one packed form. The reduction is that of the
//! decimal arithmetic library; what is checked here is that parts are fit
//! to be handed to it, and that what comes back is fit to be packed.

use crate::datum::{lsu_len, Numeric, NumericView, NUMERIC_MAX_DIGITS};
use dec::{Context, Decimal, OrderedDecimal};
use vstd::prelude::*;

verus! {

/// The number of coefficient units of a number as wide as a row holds.
pub const NUMERIC_DATUM_WIDTH: usize = 13;

/// The greatest size of an exponent that is handed to the reduction.
pub const EXPONENT_LIMIT: i32 = 999_999_999;

/// The raw parts that the reduction of the decimal arithmetic library gives
/// for the raw parts `digits`, `exponent`, `bits` and `lsu` of a number of
/// `NUMERIC_DATUM_WIDTH` coefficient units.
pub uninterp spec fn reduced_parts(digits: u32, exponent: i32, bits: u8, lsu: Seq<u16>) -> (
    u32,
    i32,
    u8,
    Seq<u16>,
);

/// `Context::<Decimal<13>>::reduce`, in the default context, on the number
/// with the raw parts given, between `Decimal::from_raw_parts` and
/// `Decimal::to_raw_parts`: the raw parts of the number in its shortest
/// form. Nothing is claimed of them but that they are those of the library.
/// The parts must name as many digits as the units hold, in units of three
/// decimal digits each, with an exponent that the library's arithmetic
/// takes.
#[verifier::external_body]
fn dec_reduce(digits: u32, exponent: i32, bits: u8, lsu: [u16; 13]) -> (r: (u32, i32, u8, [u16; 13]))
    requires
        1 <= digits <= NUMERIC_MAX_DIGITS,
        -EXPONENT_LIMIT <= exponent <= EXPONENT_LIMIT,
        forall|i: int| 0 <= i < 13 ==> #[trigger] lsu@[i] < 1000,
    ensures
        (r.0, r.1, r.2, r.3@) == reduced_parts(digits, exponent, bits, lsu@),
{
    let mut n = Decimal::<13>::from_raw_parts(digits, exponent, bits, lsu);
    Context::<Decimal<13>>::default().reduce(&mut n);
    n.to_raw_parts()
}

/// Whether the decimal arithmetic library orders the number with the raw
/// parts that begin with `digits` above the number with the raw parts that
/// begin with `other_digits`, both of `NUMERIC_DATUM_WIDTH` coefficient
/// units.
pub uninterp spec fn decimal_above(
    digits: u32,
    exponent: i32,
    bits: u8,
    lsu: Seq<u16>,
    other_digits: u32,
    other_exponent: i32,
    other_bits: u8,
    other_lsu: Seq<u16>,
) -> bool;

/// `>` of `OrderedDecimal<Decimal<13>>`, on the two numbers that
/// `Decimal::from_raw_parts` makes of the raw parts given. That order is
/// by value: both numbers are reduced in the default context and then
/// compared, and a number that is not one stands above all others.
/// Nothing is claimed of the answer but that it is the library's. The
/// parts of each must name as many digits as the units hold, in units of
/// three decimal digits each, with an exponent that the library's
/// arithmetic takes.
#[verifier::external_body]
fn dec_above(l: (u32, i32, u8, [u16; 13]), u: (u32, i32, u8, [u16; 13])) -> (r: bool)
    requires
        1 <= l.0 <= NUMERIC_MAX_DIGITS,
        -EXPONENT_LIMIT <= l.1 <= EXPONENT_LIMIT,
        forall|i: int| 0 <= i < 13 ==> #[trigger] l.3@[i] < 1000,
        1 <= u.0 <= NUMERIC_MAX_DIGITS,
        -EXPONENT_LIMIT <= u.1 <= EXPONENT_LIMIT,
        forall|i: int| 0 <= i < 13 ==> #[trigger] u.3@[i] < 1000,
    ensures
        r == decimal_above(l.0, l.1, l.2, l.3@, u.0, u.1, u.2, u.3@),
{
    let lhs = OrderedDecimal(Decimal::<13>::from_raw_parts(l.0, l.1, l.2, l.3));
    let rhs = OrderedDecimal(Decimal::<13>::from_raw_parts(u.0, u.1, u.2, u.3));
    lhs > rhs
}

/// Every coefficient unit of `n` holds at most three decimal digits.
pub open spec fn units_fit(n: NumericView) -> bool {
    forall|i: int| 0 <= i < n.lsu.len() ==> #[trigger] n.lsu[i] < 1000
}

/// The number `l` stands above the number `u` in the order of decimal
/// numbers by value.
pub open spec fn numeric_above(l: NumericView, u: NumericView) -> bool {
    decimal_above(
        l.digits as u32,
        l.exponent as i32,
        l.bits,
        padded(l.lsu),
        u.digits as u32,
        u.exponent as i32,
        u.bits,
        padded(u.lsu),
    )
}

/// The raw parts `digits`, `exponent` and `lsu` are those of a number that
/// a row can hold: one to `NUMERIC_MAX_DIGITS` digits, an exponent of eight
/// bits, and units for all the digits.
pub open spec fn parts_fit(digits: u32, exponent: i32, lsu: Seq<u16>) -> bool {
    &&& 1 <= digits <= NUMERIC_MAX_DIGITS
    &&& i8::MIN <= exponent <= i8::MAX
    &&& lsu.len() >= lsu_len(digits as u8)
}

/// What a number with raw parts that fit holds.
pub open spec fn parts_view(digits: u32, exponent: i32, bits: u8, lsu: Seq<u16>) -> NumericView {
    NumericView {
        digits: digits as u8,
        exponent: exponent as i8,
        bits,
        lsu: lsu.take(lsu_len(digits as u8) as int),
    }
}

/// `lsu` in `NUMERIC_DATUM_WIDTH` units: cut, or filled up with zeros.
pub open spec fn padded(lsu: Seq<u16>) -> Seq<u16> {
    Seq::new(
        NUMERIC_DATUM_WIDTH as nat,
        |i: int|
            if i < lsu.len() {
                lsu[i]
            } else {
                0u16
            },
    )
}

/// The raw parts `digits`, `exponent` and `lsu` can be handed to the
/// reduction: there are one to `NUMERIC_MAX_DIGITS` digits, units for all of
/// them, no unit of the width of a number is above three digits, and the
/// exponent is within `EXPONENT_LIMIT`.
pub open spec fn reducible(digits: u32, exponent: i32, lsu: Seq<u16>) -> bool {
    &&& 1 <= digits <= NUMERIC_MAX_DIGITS
    &&& -EXPONENT_LIMIT <= exponent <= EXPONENT_LIMIT
    &&& lsu.len() >= lsu_len(digits as u8)
    &&& forall|i: int| 0 <= i < lsu.len() && i < NUMERIC_DATUM_WIDTH ==> #[trigger] lsu[i] < 1000
}

impl Numeric {
    /// Whether every coefficient unit holds at most three decimal digits.
    pub fn has_units_fit(&self) -> (b: bool)
        ensures
            b == units_fit(self@),
    {
        let units = self.coefficient_units();
        let mut i: usize = 0;
        while i < units.len()
            invariant
                i <= units@.len(),
                units@ == self@.lsu,
                forall|k: int| 0 <= k < i ==> #[trigger] units@[k] < 1000,
            decreases units.len() - i,
        {
            if units[i] >= 1000 {
                assert(!(self@.lsu[i as int] < 1000));
                return false;
            }
            i = i + 1;
        }
        true
    }

    /// The coefficient units in the width of a number, filled up with
    /// zeros.
    fn units(&self) -> (r: [u16; 13])
        ensures
            r@ == padded(self@.lsu),
    {
        let held = self.coefficient_units();
        let mut units: [u16; 13] = [0; 13];
        let mut i: usize = 0;
        while i < 13
            invariant
                i <= 13,
                held@ == self@.lsu,
                forall|k: int| 0 <= k < i ==> #[trigger] units@[k] == padded(self@.lsu)[k],
            decreases 13 - i,
        {
            if i < held.len() {
                units[i] = held[i];
            } else {
                units[i] = 0;
            }
            i = i + 1;
        }
        assert(units@ =~= padded(self@.lsu));
        units
    }

    /// Whether this number stands above `other` in the order of decimal
    /// numbers by value.
    pub fn is_above(&self, other: &Numeric) -> (b: bool)
        requires
            self@.wf(),
            units_fit(self@),
            other@.wf(),
            units_fit(other@),
        ensures
            b == numeric_above(self@, other@),
    {
        let l = self.units();
        let u = other.units();
        dec_above(
            (self.digits() as u32, self.exponent() as i32, self.bits(), l),
            (other.digits() as u32, other.exponent() as i32, other.bits(), u),
        )
    }

    /// The number with the raw parts given, as they are, if a row can hold
    /// it. Of `lsu` the units that hold the digits are taken.
    pub(crate) fn from_raw_parts(digits: u32, exponent: i32, bits: u8, lsu: &[u16]) -> (r: Option<
        Numeric,
    >)
        ensures
            match r {
                Some(n) => parts_fit(digits, exponent, lsu@) && n@ == parts_view(
                    digits,
                    exponent,
                    bits,
                    lsu@,
                ) && n@.wf(),
                None => !parts_fit(digits, exponent, lsu@),
            },
    {
        if digits < 1 || digits > 39 || exponent < -128 || exponent > 127 {
            return None;
        }
        let units: usize = (digits as usize + 2) / 3;
        if lsu.len() < units {
            return None;
        }
        let mut taken: Vec<u16> = Vec::new();
        let mut i: usize = 0;
        while i < units
            invariant
                i <= units <= lsu@.len(),
                taken@ == lsu@.take(i as int),
            decreases units - i,
        {
            taken.push(lsu[i]);
            assert(taken@ =~= lsu@.take(i + 1));
            i = i + 1;
        }
        Some(Numeric::from_parts(digits as u8, exponent as i8, bits, taken))
    }

    /// The number with the raw parts given in its shortest form, if the
    /// parts can be reduced and a row can hold what they are reduced to.
    pub fn new(digits: u32, exponent: i32, bits: u8, lsu: &[u16]) -> (r: Option<Numeric>)
        ensures
            match r {
                Some(n) => {
                    let parts = reduced_parts(digits, exponent, bits, padded(lsu@));
                    &&& reducible(digits, exponent, lsu@)
                    &&& parts_fit(parts.0, parts.1, parts.3)
                    &&& n@ == parts_view(parts.0, parts.1, parts.2, parts.3)
                    &&& n@.wf()
                },
                None => {
                    let parts = reduced_parts(digits, exponent, bits, padded(lsu@));
                    !reducible(digits, exponent, lsu@) || !parts_fit(parts.0, parts.1, parts.3)
                },
            },
    {
        if digits < 1 || digits > 39 || lsu.len() < (digits as usize + 2) / 3 || exponent
            < -EXPONENT_LIMIT || exponent > EXPONENT_LIMIT {
            return None;
        }
        let mut units: [u16; 13] = [0; 13];
        let mut i: usize = 0;
        while i < 13
            invariant
                i <= 13,
                forall|k: int|
                    0 <= k < i ==> #[trigger] units@[k] == padded(lsu@)[k] && units@[k] < 1000,
                forall|k: int| 0 <= k < i && k < lsu@.len() ==> #[trigger] lsu@[k] < 1000,
            decreases 13 - i,
        {
            if i < lsu.len() {
                if lsu[i] >= 1000 {
                    return None;
                }
                units[i] = lsu[i];
            } else {
                units[i] = 0;
            }
            i = i + 1;
        }
        assert(units@ =~= padded(lsu@));
        let (d, e, b, l) = dec_reduce(digits, exponent, bits, units);
        Numeric::from_raw_parts(d, e, b, l.as_slice())
    }
}

} // verus!
