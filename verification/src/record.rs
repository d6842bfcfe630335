//! One particle record: a packed bit-field tag, sign-encoded energy and
//! weight, positions and direction cosines, and the optional trailing field
//! of the longer record layout.  The four-byte real-number fields are held
//! as their raw little-endian bit patterns.

use vstd::prelude::*;

use crate::binary32::{
    diff_within, is_finite, lemma_field_mag_bounds, lemma_fields, lemma_magnitude_pattern, mag,
    magnitude_bits, magnitude_pattern, sign_bit_set, spec_bexp, spec_frac, spec_sign, val,
    within_tolerance, with_sign_product,
};
use vstd::arithmetic::power2::lemma_pow2_pos;

verus! {

/// The bit pattern of the absolute tolerance under which two records count
/// as similar: one hundredth, as the comparison has historically used.
pub const SIMILARITY_TOLERANCE: u32 = 0x3C23_D70A;

/// The state of one particle as a file stores it.
#[derive(Clone, Copy, Debug)]
pub struct Record {
    /// The packed bit-field tag: origin flags, region id, crossing and
    /// charge flags at fixed bit positions.
    pub latch: u32,
    /// Bit pattern of the total energy; its sign bit flags the record as
    /// first scored by a primary history.  Read the physical value through
    /// `total_energy` and the flag through
    /// `first_scored_by_primary_history`, so that arithmetic on the raw
    /// pattern cannot corrupt the flag.
    pub total_energy: u32,
    /// Bit pattern of the x position in centimetres.
    pub x_cm: u32,
    /// Bit pattern of the y position in centimetres.
    pub y_cm: u32,
    /// Bit pattern of the x direction cosine.
    pub x_cos: u32,
    /// Bit pattern of the y direction cosine.
    pub y_cos: u32,
    /// Bit pattern of the statistical weight; its sign bit carries the
    /// direction of travel along the third axis.
    pub weight: u32,
    /// Bit pattern of the trailing field, present exactly in the longer
    /// record layout.
    pub zlast: Option<u32>,
}

impl Record {
    /// Whether the record was produced by bremsstrahlung or annihilation.
    pub fn bremsstrahlung_or_annihilation(&self) -> (r: bool)
        ensures
            r == (self.latch & 0x1u32 != 0),
    {
        self.latch & 0x1 != 0
    }

    /// The bit-region part of the tag.
    pub fn bit_region(&self) -> (r: u32)
        ensures
            r == self.latch & 0x00FF_FFFEu32,
    {
        self.latch & 0x00FF_FFFE
    }

    /// The region-number part of the tag.
    pub fn region_number(&self) -> (r: u32)
        ensures
            r == self.latch & 0x0F00_0000u32,
    {
        self.latch & 0x0F00_0000
    }

    /// Bit 29 of the tag.
    pub fn b29(&self) -> (r: bool)
        ensures
            r == (self.latch & 0x2000_0000u32 != 0),
    {
        self.latch & 0x2000_0000 != 0
    }

    /// Whether the particle carries charge (bit 30 of the tag).
    pub fn charged(&self) -> (r: bool)
        ensures
            r == (self.latch & 0x4000_0000u32 != 0),
    {
        self.latch & 0x4000_0000 != 0
    }

    /// Whether the particle crossed the scoring plane more than once
    /// (stored at the same bit position as the charge flag).
    pub fn crossed_multiple(&self) -> (r: bool)
        ensures
            r == (self.latch & 0x4000_0000u32 != 0),
    {
        self.latch & 0x4000_0000 != 0
    }

    /// The magnitude of the statistical weight, as the bit pattern with the
    /// direction flag cleared.
    pub fn get_weight(&self) -> (r: u32)
        ensures
            spec_sign(r) == 0,
            val(r) == mag(self.weight),
            r == self.weight % 0x8000_0000,
    {
        magnitude_bits(self.weight)
    }

    /// Replace the weight's magnitude while carrying the stored direction
    /// flag over onto the new value: the new weight is `new_weight` times
    /// the sign of the old weight.
    pub fn set_weight(&mut self, new_weight: u32)
        ensures
            final(self).weight == with_sign_product_spec(new_weight, old(self).weight),
            mag(final(self).weight) == mag(new_weight),
            *final(self) == (Record { weight: final(self).weight, ..*old(self) }),
    {
        self.weight = with_sign_product(new_weight, self.weight);
        proof {
            crate::binary32::lemma_fields(new_weight);
            crate::binary32::lemma_fields(old(self).weight);
            crate::binary32::lemma_fields(self.weight);
        }
    }

    /// The magnitude of the total energy, as the bit pattern with the
    /// history flag cleared.
    pub fn total_energy(&self) -> (r: u32)
        ensures
            spec_sign(r) == 0,
            val(r) == mag(self.total_energy),
            r == self.total_energy % 0x8000_0000,
    {
        magnitude_bits(self.total_energy)
    }

    /// Whether the particle travels toward positive z (the weight's sign
    /// bit is clear).
    pub fn z_positive(&self) -> (r: bool)
        ensures
            r == (spec_sign(self.weight) == 0),
    {
        !sign_bit_set(self.weight)
    }

    /// Whether the record was first scored by a primary history (the
    /// energy's sign bit is set).
    pub fn first_scored_by_primary_history(&self) -> (r: bool)
        ensures
            r == (spec_sign(self.total_energy) == 1),
    {
        sign_bit_set(self.total_energy)
    }

    /// The same record with fresh position and direction-cosine patterns:
    /// what a geometric transform writes back, leaving the tag, the energy,
    /// the weight and the trailing field untouched.
    pub fn with_geometry(self, x_cm: u32, y_cm: u32, x_cos: u32, y_cos: u32) -> (r: Record)
        ensures
            r == (Record { x_cm, y_cm, x_cos, y_cos, ..self }),
    {
        Record { x_cm, y_cm, x_cos, y_cos, ..self }
    }
}

/// Whether two records describe the same particle: the tag and the
/// trailing field match exactly, and energy magnitude, positions,
/// direction cosines and weight magnitude each agree to within the fixed
/// absolute tolerance.
pub open spec fn record_similar(a: Record, b: Record) -> bool {
    &&& a.latch == b.latch
    &&& a.zlast == b.zlast
    &&& within_tolerance(
        magnitude_pattern(a.total_energy),
        magnitude_pattern(b.total_energy),
        SIMILARITY_TOLERANCE,
    )
    &&& within_tolerance(a.x_cm, b.x_cm, SIMILARITY_TOLERANCE)
    &&& within_tolerance(a.y_cm, b.y_cm, SIMILARITY_TOLERANCE)
    &&& within_tolerance(a.x_cos, b.x_cos, SIMILARITY_TOLERANCE)
    &&& within_tolerance(a.y_cos, b.y_cos, SIMILARITY_TOLERANCE)
    &&& within_tolerance(
        magnitude_pattern(a.weight),
        magnitude_pattern(b.weight),
        SIMILARITY_TOLERANCE,
    )
}

/// Every sized field of the record encodes a finite number.
pub open spec fn record_finite(r: Record) -> bool {
    &&& is_finite(r.total_energy)
    &&& is_finite(r.x_cm)
    &&& is_finite(r.y_cm)
    &&& is_finite(r.x_cos)
    &&& is_finite(r.y_cos)
    &&& is_finite(r.weight)
}

/// The similarity tolerance encodes a positive finite number.
proof fn lemma_tolerance_positive()
    ensures
        is_finite(SIMILARITY_TOLERANCE),
        spec_sign(SIMILARITY_TOLERANCE) == 0,
        val(SIMILARITY_TOLERANCE) > 0,
{
    lemma_fields(SIMILARITY_TOLERANCE);
    lemma_field_mag_bounds(spec_bexp(SIMILARITY_TOLERANCE), spec_frac(SIMILARITY_TOLERANCE));
    lemma_pow2_pos((spec_bexp(SIMILARITY_TOLERANCE) + 22) as nat);
}

/// Every record whose fields are finite numbers is similar to itself:
/// each field differs from itself by less than the positive tolerance.
pub proof fn lemma_record_similar_self(r: Record)
    requires
        record_finite(r),
    ensures
        record_similar(r, r),
{
    lemma_tolerance_positive();
    lemma_magnitude_pattern(r.total_energy);
    lemma_magnitude_pattern(r.weight);
}

impl Record {
    /// Whether this record and another describe the same particle, under
    /// the fixed absolute tolerance.  Any field that is not a finite
    /// number makes the pair dissimilar.
    pub fn similar_to(&self, other: &Record) -> (r: bool)
        ensures
            r == record_similar(*self, *other),
    {
        proof {
            lemma_tolerance_positive();
        }
        self.latch == other.latch && zlast_eq(self.zlast, other.zlast) && diff_within(
            self.total_energy(),
            other.total_energy(),
            SIMILARITY_TOLERANCE,
        ) && diff_within(self.x_cm, other.x_cm, SIMILARITY_TOLERANCE) && diff_within(
            self.y_cm,
            other.y_cm,
            SIMILARITY_TOLERANCE,
        ) && diff_within(self.x_cos, other.x_cos, SIMILARITY_TOLERANCE) && diff_within(
            self.y_cos,
            other.y_cos,
            SIMILARITY_TOLERANCE,
        ) && diff_within(self.get_weight(), other.get_weight(), SIMILARITY_TOLERANCE)
    }
}

/// Whether the stored energy word is a strictly positive number: the sign
/// bit clear, some magnitude, and not a non-number.
pub open spec fn energy_positive(r: Record) -> bool {
    &&& spec_sign(r.total_energy) == 0
    &&& !crate::binary32::is_nan(r.total_energy)
    &&& !(spec_bexp(r.total_energy) == 0 && spec_frac(r.total_energy) == 0)
}

impl Record {
    /// Whether the stored energy is strictly positive — the raw test the
    /// resampling header statistics use.
    pub fn stored_energy_positive(&self) -> (r: bool)
        ensures
            r == energy_positive(*self),
    {
        proof {
            lemma_fields(self.total_energy);
        }
        let e = (self.total_energy / 0x0080_0000) % 0x100;
        let f = self.total_energy % 0x0080_0000;
        self.total_energy < 0x8000_0000 && !(e == 255 && f != 0) && !(e == 0 && f == 0)
    }
}

/// Whether two optional trailing fields hold the same bits.
fn zlast_eq(a: Option<u32>, b: Option<u32>) -> (r: bool)
    ensures
        r == (a == b),
{
    match (a, b) {
        (Some(x), Some(y)) => x == y,
        (None, None) => true,
        _ => false,
    }
}

/// The pattern that `set_weight` stores: the magnitude of `from` under the
/// product of both arguments' signs.
pub open spec fn with_sign_product_spec(from: u32, sign_source: u32) -> u32 {
    if spec_sign(from) == spec_sign(sign_source) {
        (from as int % 0x8000_0000) as u32
    } else {
        (from as int % 0x8000_0000 + 0x8000_0000) as u32
    }
}

} // verus!
