//! Small value types of the game world.
use vstd::prelude::*;

verus! {

/// A block position in world coordinates.
#[derive(Debug, Clone, Copy, PartialEq, Eq, Structural)]
pub struct PositionI {
    pub x: i32,
    pub y: i32,
    pub z: i32,
}

/// A position inside a chunk, three 5-bit coordinates packed in a `u16`:
/// `x` in bits 10..15, `y` in bits 5..10, `z` in bits 0..5.
#[derive(Debug, Clone, Copy, PartialEq, Eq, Structural)]
pub struct Position3I5 {
    inner: u16,
}

/// The packed form of `(x, y, z)`, each taken modulo 32.
pub open spec fn pack_position(x: u16, y: u16, z: u16) -> u16 {
    ((x & 0x1F) << 10u16) | ((y & 0x1F) << 5u16) | (z & 0x1F)
}

impl Position3I5 {
    /// The packed bits.
    pub closed spec fn bits(&self) -> u16 {
        self.inner
    }

    pub fn new(x: u16, y: u16, z: u16) -> (p: Self)
        ensures
            p.bits() == pack_position(x, y, z),
            p.spec_x() == x % 32,
            p.spec_y() == y % 32,
            p.spec_z() == z % 32,
    {
        let p = Self { inner: ((x & 0x1F) << 10u16) | ((y & 0x1F) << 5u16) | (z & 0x1F) };
        proof {
            let v = p.inner;
            assert((v & 0x7C00u16) >> 10u16 == x % 32) by (bit_vector)
                requires
                    v == ((x & 0x1Fu16) << 10u16) | ((y & 0x1Fu16) << 5u16) | (z & 0x1Fu16),
            ;
            assert((v & 0x03E0u16) >> 5u16 == y % 32) by (bit_vector)
                requires
                    v == ((x & 0x1Fu16) << 10u16) | ((y & 0x1Fu16) << 5u16) | (z & 0x1Fu16),
            ;
            assert(v & 0x001Fu16 == z % 32) by (bit_vector)
                requires
                    v == ((x & 0x1Fu16) << 10u16) | ((y & 0x1Fu16) << 5u16) | (z & 0x1Fu16),
            ;
        }
        p
    }

    pub open spec fn spec_x(&self) -> u16 {
        (self.bits() & 0x7C00) >> 10u16
    }

    pub open spec fn spec_y(&self) -> u16 {
        (self.bits() & 0x03E0) >> 5u16
    }

    pub open spec fn spec_z(&self) -> u16 {
        self.bits() & 0x001F
    }

    pub fn x(&self) -> (r: u16)
        ensures
            r == self.spec_x(),
            r < 32,
    {
        let v = self.inner;
        assert((v & 0x7C00u16) >> 10u16 < 32) by (bit_vector);
        (self.inner & 0x7C00) >> 10
    }

    pub fn y(&self) -> (r: u16)
        ensures
            r == self.spec_y(),
            r < 32,
    {
        let v = self.inner;
        assert((v & 0x03E0u16) >> 5u16 < 32) by (bit_vector);
        (self.inner & 0x03E0) >> 5
    }

    pub fn z(&self) -> (r: u16)
        ensures
            r == self.spec_z(),
            r < 32,
    {
        let v = self.inner;
        assert(v & 0x001Fu16 < 32) by (bit_vector);
        self.inner & 0x001F
    }
}

/// Packing coordinates below 32 and reading them back gives them unchanged.
pub proof fn lemma_position_roundtrip(x: u16, y: u16, z: u16, p: Position3I5)
    requires
        x < 32,
        y < 32,
        z < 32,
        p.bits() == pack_position(x, y, z),
    ensures
        p.spec_x() == x,
        p.spec_y() == y,
        p.spec_z() == z,
{
    let v = p.bits();
    assert((v & 0x7C00u16) >> 10u16 == x) by (bit_vector)
        requires
            x < 32,
            v == ((x & 0x1Fu16) << 10u16) | ((y & 0x1Fu16) << 5u16) | (z & 0x1Fu16),
    ;
    assert((v & 0x03E0u16) >> 5u16 == y) by (bit_vector)
        requires
            y < 32,
            v == ((x & 0x1Fu16) << 10u16) | ((y & 0x1Fu16) << 5u16) | (z & 0x1Fu16),
    ;
    assert(v & 0x001Fu16 == z) by (bit_vector)
        requires
            z < 32,
            v == ((x & 0x1Fu16) << 10u16) | ((y & 0x1Fu16) << 5u16) | (z & 0x1Fu16),
    ;
}

/// How a player takes part in the game.
#[derive(Debug, Clone, Copy, PartialEq, Eq, Structural)]
pub enum PlayerGameMode {
    Spectator,
    Survival,
}

impl PlayerGameMode {
    /// The name the game shows for this mode.
    pub fn name(&self) -> (r: &'static str)
        ensures
            *self == PlayerGameMode::Survival ==> r@ == "PlayerGameMode::Survival"@,
            *self == PlayerGameMode::Spectator ==> r@ == "PlayerGameMode::Spectator"@,
    {
        match self {
            PlayerGameMode::Survival => "PlayerGameMode::Survival",
            PlayerGameMode::Spectator => "PlayerGameMode::Spectator",
        }
    }
}

} // verus!
