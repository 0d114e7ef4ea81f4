//! A monster's battle position while it sits in a Monster Zone.

use vstd::prelude::*;

verus! {

/// Attack vs defense, face-up vs face-down: the four combinations.
#[derive(Debug, Clone, Copy, PartialEq, Eq, Structural)]
pub enum Position {
    /// Normal Summon: face-up, ready to attack.
    FaceUpAttack,
    /// Face-down but attacking (only via specific effects).
    FaceDownAttack,
    /// Face-up, defending.
    FaceUpDefense,
    /// Set: hidden, defending.
    FaceDownDefense,
}

impl Default for Position {
    fn default() -> (p: Position)
        ensures
            p == Position::FaceUpAttack,
    {
        Position::FaceUpAttack
    }
}

impl Position {
    /// Whether the position is an attack position.
    pub open spec fn spec_attack(self) -> bool {
        self is FaceUpAttack || self is FaceDownAttack
    }

    /// Whether the position is face-up.
    pub open spec fn spec_face_up(self) -> bool {
        self is FaceUpAttack || self is FaceUpDefense
    }

    /// In an attack position (its ATK is what the Battle Phase uses).
    pub fn is_attack(self) -> (b: bool)
        ensures
            b == self.spec_attack(),
    {
        matches!(self, Position::FaceUpAttack | Position::FaceDownAttack)
    }

    /// In a defense position (its DEF is what the Battle Phase uses).
    pub fn is_defense(self) -> (b: bool)
        ensures
            b == !self.spec_attack(),
    {
        !self.is_attack()
    }

    /// Visible to both players.
    pub fn is_face_up(self) -> (b: bool)
        ensures
            b == self.spec_face_up(),
    {
        matches!(self, Position::FaceUpAttack | Position::FaceUpDefense)
    }

    /// Hidden (set): its identity isn't public.
    pub fn is_face_down(self) -> (b: bool)
        ensures
            b == !self.spec_face_up(),
    {
        !self.is_face_up()
    }
}

} // verus!
