//! Gameplay modifier flags: a 32-bit-wide set of independent single-bit
//! flags, combined by bitwise OR and tested by bitwise AND.

use vstd::prelude::*;

verus! {

/// One named gameplay modifier. Each modifier occupies a single bit
/// position; modifiers are orthogonal, with no ordering among them.
#[derive(Clone, Copy, PartialEq, Eq, Structural, Debug)]
pub enum ModFlag {
    NoFail,
    Easy,
    Touchscreen,
    Hidden,
    HardRock,
    SuddenDeath,
    DoubleTime,
    Relax,
    HalfTime,
    Nightcore,
    Flashlight,
    Autoplay,
    SpunOut,
    Autopilot,
    Perfect,
    Key4,
    Key5,
    Key6,
    Key7,
    Key8,
    FadeIn,
    Random,
    Cinema,
    TargetPractice,
    Key9,
    KeyCoop,
    Key1,
    Key3,
    Key2,
    ScoreV2,
    Mirror,
}

impl ModFlag {
    /// The single bit this modifier occupies in the 32-bit flag word.
    pub open spec fn spec_bit(self) -> u32 {
        match self {
            ModFlag::NoFail => 0x1,
            ModFlag::Easy => 0x2,
            ModFlag::Touchscreen => 0x4,
            ModFlag::Hidden => 0x8,
            ModFlag::HardRock => 0x10,
            ModFlag::SuddenDeath => 0x20,
            ModFlag::DoubleTime => 0x40,
            ModFlag::Relax => 0x80,
            ModFlag::HalfTime => 0x100,
            ModFlag::Nightcore => 0x200,
            ModFlag::Flashlight => 0x400,
            ModFlag::Autoplay => 0x800,
            ModFlag::SpunOut => 0x1000,
            ModFlag::Autopilot => 0x2000,
            ModFlag::Perfect => 0x4000,
            ModFlag::Key4 => 0x8000,
            ModFlag::Key5 => 0x10000,
            ModFlag::Key6 => 0x20000,
            ModFlag::Key7 => 0x40000,
            ModFlag::Key8 => 0x80000,
            ModFlag::FadeIn => 0x100000,
            ModFlag::Random => 0x200000,
            ModFlag::Cinema => 0x400000,
            ModFlag::TargetPractice => 0x800000,
            ModFlag::Key9 => 0x1000000,
            ModFlag::KeyCoop => 0x2000000,
            ModFlag::Key1 => 0x4000000,
            ModFlag::Key3 => 0x8000000,
            ModFlag::Key2 => 0x10000000,
            ModFlag::ScoreV2 => 0x20000000,
            ModFlag::Mirror => 0x40000000,
        }
    }

    /// The bit for this modifier, as an executable value.
    pub fn bit(self) -> (r: u32)
        ensures
            r == self.spec_bit(),
    {
        match self {
            ModFlag::NoFail => 0x1,
            ModFlag::Easy => 0x2,
            ModFlag::Touchscreen => 0x4,
            ModFlag::Hidden => 0x8,
            ModFlag::HardRock => 0x10,
            ModFlag::SuddenDeath => 0x20,
            ModFlag::DoubleTime => 0x40,
            ModFlag::Relax => 0x80,
            ModFlag::HalfTime => 0x100,
            ModFlag::Nightcore => 0x200,
            ModFlag::Flashlight => 0x400,
            ModFlag::Autoplay => 0x800,
            ModFlag::SpunOut => 0x1000,
            ModFlag::Autopilot => 0x2000,
            ModFlag::Perfect => 0x4000,
            ModFlag::Key4 => 0x8000,
            ModFlag::Key5 => 0x10000,
            ModFlag::Key6 => 0x20000,
            ModFlag::Key7 => 0x40000,
            ModFlag::Key8 => 0x80000,
            ModFlag::FadeIn => 0x100000,
            ModFlag::Random => 0x200000,
            ModFlag::Cinema => 0x400000,
            ModFlag::TargetPractice => 0x800000,
            ModFlag::Key9 => 0x1000000,
            ModFlag::KeyCoop => 0x2000000,
            ModFlag::Key1 => 0x4000000,
            ModFlag::Key3 => 0x8000000,
            ModFlag::Key2 => 0x10000000,
            ModFlag::ScoreV2 => 0x20000000,
            ModFlag::Mirror => 0x40000000,
        }
    }
}

/// A set of gameplay modifiers, stored as a 32-bit flag word exactly as
/// it appears in the replay header.
#[derive(Clone, Copy, PartialEq, Eq, Structural, Debug)]
pub struct ModFlags {
    pub bits: u32,
}

impl ModFlags {
    /// Whether the given modifier is a member of this set.
    pub open spec fn spec_has(self, m: ModFlag) -> bool {
        self.bits & m.spec_bit() != 0
    }

    /// The empty set of modifiers.
    pub fn none() -> (r: Self)
        ensures
            r.bits == 0,
            forall|m: ModFlag| !r.spec_has(m),
    {
        let r = ModFlags { bits: 0 };
        proof {
            assert forall|m: ModFlag| !r.spec_has(m) by {
                assert(0u32 & m.spec_bit() == 0) by (bit_vector);
            }
        }
        r
    }

    /// Builds the set from the raw 32-bit flag word of a replay header.
    pub fn from_bits(bits: u32) -> (r: Self)
        ensures
            r.bits == bits,
    {
        ModFlags { bits }
    }

    /// Membership test: bitwise AND against the modifier's bit.
    pub fn contains(&self, m: ModFlag) -> (r: bool)
        ensures
            r == self.spec_has(m),
    {
        self.bits & m.bit() != 0
    }

    /// Union: bitwise OR of the two flag words.
    pub fn union(self, other: Self) -> (r: Self)
        ensures
            r.bits == self.bits | other.bits,
            forall|m: ModFlag| r.spec_has(m) == (self.spec_has(m) || other.spec_has(m)),
    {
        let r = ModFlags { bits: self.bits | other.bits };
        proof {
            assert forall|m: ModFlag|
                r.spec_has(m) == (self.spec_has(m) || other.spec_has(m)) by {
                let x = self.bits;
                let y = other.bits;
                let z = m.spec_bit();
                assert(((x | y) & z != 0) == ((x & z != 0) || (y & z != 0))) by (bit_vector);
            }
        }
        r
    }
}

} // verus!
