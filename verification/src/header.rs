//! The fixed 25-byte file header: mode tag, counts, energy bounds and
//! source-particle count, together with the merge and similarity logic that
//! the file operations build on.

use vstd::prelude::*;

use crate::binary32::{
    is_nan, lemma_max_bits, lemma_min_bits, max_bits, min_bits, spec_max_bits, spec_min_bits,
    ulps_eq, ulps_eq_spec, val,
};

verus! {

/// The two record layouts a file can carry, named by their five-byte tags.
#[derive(Clone, Copy, Debug, PartialEq, Eq, Structural)]
pub enum Mode {
    /// Tag `MODE0`: 28-byte records without the trailing field.
    Mode0,
    /// Tag `MODE2`: 32-byte records with the trailing field.
    Mode2,
}

impl Mode {
    /// The byte length of one record under this mode.
    pub open spec fn spec_record_size(self) -> int {
        match self {
            Mode::Mode0 => 28,
            Mode::Mode2 => 32,
        }
    }

    /// Whether records of this mode carry the trailing field.
    pub open spec fn spec_uses_zlast(self) -> bool {
        self is Mode2
    }

    /// The five tag bytes that announce this mode at the start of a file.
    pub open spec fn tag_bytes(self) -> Seq<u8> {
        match self {
            Mode::Mode0 => seq![0x4Du8, 0x4Fu8, 0x44u8, 0x45u8, 0x30u8],
            Mode::Mode2 => seq![0x4Du8, 0x4Fu8, 0x44u8, 0x45u8, 0x32u8],
        }
    }

    /// The byte length of one record under this mode.
    pub fn record_size(self) -> (r: u64)
        ensures
            r == self.spec_record_size(),
    {
        match self {
            Mode::Mode0 => 28,
            Mode::Mode2 => 32,
        }
    }

    /// Whether records of this mode carry the trailing field.
    pub fn uses_zlast(self) -> (r: bool)
        ensures
            r == self.spec_uses_zlast(),
    {
        match self {
            Mode::Mode0 => false,
            Mode::Mode2 => true,
        }
    }
}

/// The metadata block at the start of a phase-space file.  The four-byte
/// real-number fields are held as their raw little-endian bit patterns.
#[derive(Clone, Copy, Debug)]
pub struct Header {
    /// The record layout of the file.
    pub mode: Mode,
    /// How many records the file holds.
    pub total_particles: i32,
    /// How many of those records are photons.
    pub total_photons: i32,
    /// Bit pattern of the lowest total energy observed.
    pub min_energy: u32,
    /// Bit pattern of the highest total energy observed.
    pub max_energy: u32,
    /// Bit pattern of the number of particles the source emitted.
    pub total_particles_in_source: u32,
    /// The byte length of one record; fixed by the mode.
    pub record_size: u64,
    /// Whether records carry the trailing field; fixed by the mode.
    pub using_zlast: bool,
}

/// A header produced by merging `a` with `b`: counts sum, the energy bounds
/// widen, and the source count becomes whatever the caller's addition of the
/// two stored source counts yielded.
pub open spec fn spec_merged(a: Header, b: Header, source: u32) -> Header {
    Header {
        mode: a.mode,
        total_particles: (a.total_particles + b.total_particles) as i32,
        total_photons: (a.total_photons + b.total_photons) as i32,
        min_energy: spec_min_bits(a.min_energy, b.min_energy),
        max_energy: spec_max_bits(a.max_energy, b.max_energy),
        total_particles_in_source: source,
        record_size: a.record_size,
        using_zlast: a.using_zlast,
    }
}

impl Header {
    /// The derived fields agree with the mode and the record count is
    /// non-negative.
    pub open spec fn wf(self) -> bool {
        &&& self.record_size == self.mode.spec_record_size()
        &&& self.using_zlast == self.mode.spec_uses_zlast()
        &&& self.total_particles >= 0
    }

    /// The byte length that a file with this header must have: one
    /// record-sized slot for the header, then one per record.
    pub open spec fn spec_expected_size(self) -> int {
        (self.total_particles + 1) * self.record_size
    }

    /// Whether two headers describe the same population: equal modes and
    /// counts, and energy bounds and source counts that agree to within a
    /// few representable steps.
    pub open spec fn similar_spec(self, other: Header) -> bool {
        &&& self.mode == other.mode
        &&& self.total_particles == other.total_particles
        &&& self.total_photons == other.total_photons
        &&& ulps_eq_spec(self.max_energy, other.max_energy, 10)
        &&& ulps_eq_spec(self.min_energy, other.min_energy, 10)
        &&& ulps_eq_spec(self.total_particles_in_source, other.total_particles_in_source, 2)
    }

    /// Whether two headers describe the same population.
    pub fn similar_to(&self, other: &Header) -> (r: bool)
        ensures
            r == self.similar_spec(*other),
    {
        self.mode == other.mode && self.total_particles == other.total_particles
            && self.total_photons == other.total_photons && ulps_eq(
            self.max_energy,
            other.max_energy,
            10,
        ) && ulps_eq(self.min_energy, other.min_energy, 10) && ulps_eq(
            self.total_particles_in_source,
            other.total_particles_in_source,
            2,
        )
    }

    /// Absorb another header of the same mode: counts sum, the energy
    /// bounds widen, and `add_source` (the caller's addition on the stored
    /// four-byte source counts) combines the source fields.
    pub fn merge<F: Fn(u32, u32) -> u32>(&mut self, other: &Header, add_source: &F)
        requires
            old(self).mode == other.mode,
            -0x8000_0000 <= old(self).total_particles + other.total_particles < 0x8000_0000,
            -0x8000_0000 <= old(self).total_photons + other.total_photons < 0x8000_0000,
            call_requires(
                *add_source,
                (old(self).total_particles_in_source, other.total_particles_in_source),
            ),
        ensures
            *final(self) == spec_merged(
                *old(self),
                *other,
                final(self).total_particles_in_source,
            ),
            call_ensures(
                *add_source,
                (old(self).total_particles_in_source, other.total_particles_in_source),
                final(self).total_particles_in_source,
            ),
    {
        self.total_particles = self.total_particles + other.total_particles;
        self.total_photons = self.total_photons + other.total_photons;
        self.min_energy = min_bits(self.min_energy, other.min_energy);
        self.max_energy = max_bits(self.max_energy, other.max_energy);
        self.total_particles_in_source = add_source(
            self.total_particles_in_source,
            other.total_particles_in_source,
        );
    }
}

/// Merging widens the energy bounds: the merged minimum is no higher than
/// either input's and the merged maximum no lower, whenever the four
/// stored bound patterns are numbers.
pub proof fn lemma_merge_widens_bounds(a: Header, b: Header, source: u32)
    requires
        !is_nan(a.min_energy),
        !is_nan(b.min_energy),
        !is_nan(a.max_energy),
        !is_nan(b.max_energy),
    ensures
        val(spec_merged(a, b, source).min_energy) <= val(a.min_energy),
        val(spec_merged(a, b, source).min_energy) <= val(b.min_energy),
        val(spec_merged(a, b, source).max_energy) >= val(a.max_energy),
        val(spec_merged(a, b, source).max_energy) >= val(b.max_energy),
{
    lemma_min_bits(a.min_energy, b.min_energy);
    lemma_max_bits(a.max_energy, b.max_energy);
}

/// Merging a valid header with itself doubles both counts and leaves the
/// energy bounds exactly where they were; the source count becomes whatever
/// the caller's addition yielded.
pub proof fn lemma_merge_with_self(h: Header, source: u32)
    requires
        2 * h.total_particles < 0x8000_0000,
        2 * h.total_photons < 0x8000_0000,
        -0x8000_0000 <= 2 * h.total_particles,
        -0x8000_0000 <= 2 * h.total_photons,
    ensures
        spec_merged(h, h, source).total_particles == 2 * h.total_particles,
        spec_merged(h, h, source).total_photons == 2 * h.total_photons,
        spec_merged(h, h, source).min_energy == h.min_energy,
        spec_merged(h, h, source).max_energy == h.max_energy,
        spec_merged(h, h, source).total_particles_in_source == source,
        spec_merged(h, h, source).mode == h.mode,
{
}

} // verus!
