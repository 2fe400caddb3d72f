//! The plain-data parts of a particle: its state and its id.
use vstd::prelude::*;

verus! {

/// How a particle takes part in the simulation.
#[derive(Clone, Copy, PartialEq, Eq, Structural, Debug)]
pub enum State {
    /// Moves and collides.
    Dynamic,
    /// At rest; not moved by the integrator.
    Asleep,
    /// Does not collide; records which particles overlap it.
    Trigger,
    /// Never moves.
    Static,
    /// Removed from the world; its slot may be reused.
    Dead,
}

impl State {
    /// Whether a particle in this state moves and collides.
    pub fn is_dynamic(&self) -> (r: bool)
        ensures
            r == (*self is Dynamic),
    {
        match self {
            State::Dynamic => true,
            _ => false,
        }
    }

    /// Whether a particle in this state is a trigger.
    pub fn is_trigger(&self) -> (r: bool)
        ensures
            r == (*self is Trigger),
    {
        match self {
            State::Trigger => true,
            _ => false,
        }
    }

    /// Whether a particle in this state has been removed.
    pub fn is_dead(&self) -> (r: bool)
        ensures
            r == (*self is Dead),
    {
        match self {
            State::Dead => true,
            _ => false,
        }
    }
}

/// The index of a particle in its world.
#[derive(Clone, Copy, Default, PartialEq, Eq, Structural, Debug)]
pub struct ParticleId {
    pub id: usize,
}

} // verus!
