//! The generators that populate a world, and the state that governs when
//! they run.


pub mod hills;
pub mod noise;
pub mod spheres;

use vstd::prelude::*;
use crate::shared::{entries_resolve, ChunkMapping, Dims, Voxels};
use crate::worlds::hills::Hills;
use crate::worlds::noise::Noise;
use crate::worlds::spheres::Spheres;

verus! {

/// Whether a generator has populated its world since the last reset.
#[derive(Clone, Copy, Debug, PartialEq, Eq, Structural)]
pub enum Population {
    Unpopulated,
    Populated,
}

/// The keys that a generator tells apart.
#[derive(Clone, Copy, Debug, PartialEq, Eq, Structural)]
pub enum Key {
    /// The key that asks for the world to be generated anew.
    X,
    /// Any other key.
    Other,
}

/// What happened to a key.
#[derive(Clone, Copy, Debug, PartialEq, Eq, Structural)]
pub enum KeyState {
    Pressed,
    Released,
}

/// Whether a key event asks for a reset.
pub open spec fn asks_reset(key: Key, state: KeyState) -> bool {
    key == Key::X && state == KeyState::Pressed
}

/// A generator of world content. It populates the world on the first call of
/// `fill_in_voxels` and on the first call after each reset, and leaves the
/// world alone on every other call. It never writes slot 0, and it leaves a
/// world through which rays can be cast, where it found one.
pub trait World {
    /// Whether the generator has populated its world since the last reset.
    spec fn populated(&self) -> bool;

    /// What the generator needs of a world to populate it.
    spec fn ready(&self, chunk_mapping: &ChunkMapping, voxels: &Voxels) -> bool;

    /// What a pass of the generator does to a world of the dimensions
    /// `dims`: it finds the mapping `entries0` and the slots `slots0` and
    /// leaves the mapping `entries` and the slots `slots`, and `after` is
    /// the generator when the pass has ended.
    spec fn populates(
        &self,
        after: &Self,
        dims: Dims,
        entries0: Seq<u32>,
        slots0: Seq<Seq<u32>>,
        entries: Seq<u32>,
        slots: Seq<Seq<u32>>,
    ) -> bool;

    /// Whether `after` is this generator but for whether it has populated
    /// its world.
    spec fn kept(&self, after: &Self) -> bool;

    /// Whether the generator has populated its world since the last reset.
    fn is_populated(&self) -> (b: bool)
        ensures
            b == self.populated(),
    ;

    /// Whether the world is one that the generator can populate.
    fn is_ready(&self, chunk_mapping: &ChunkMapping, voxels: &Voxels) -> (b: bool)
        requires
            voxels.wf(),
        ensures
            b == self.ready(chunk_mapping, voxels),
    ;

    /// Populates the world, unless that was done since the last reset.
    fn fill_in_voxels(&mut self, chunk_mapping: &mut ChunkMapping, voxels: &mut Voxels)
        requires
            old(chunk_mapping).wf(),
            old(voxels).wf(),
            old(chunk_mapping).dims() == old(voxels).dims(),
            old(self).ready(old(chunk_mapping), old(voxels)),
        ensures
            final(self).populated(),
            final(chunk_mapping).wf(),
            final(voxels).wf(),
            final(chunk_mapping).dims() == old(chunk_mapping).dims(),
            final(voxels).dims() == old(voxels).dims(),
            old(self).populated() ==> final(chunk_mapping)@ == old(chunk_mapping)@,
            old(self).populated() ==> final(voxels)@ == old(voxels)@,
            old(self).populated() ==> old(self).kept(final(self)),
            !old(self).populated() ==> old(self).populates(
                final(self),
                old(voxels).dims(),
                old(chunk_mapping)@,
                old(voxels)@,
                final(chunk_mapping)@,
                final(voxels)@,
            ),
            old(voxels).sentinel_intact() ==> final(voxels).sentinel_intact(),
            entries_resolve(old(chunk_mapping)@, old(voxels)@) ==> entries_resolve(
                final(chunk_mapping)@,
                final(voxels)@,
            ),
    ;

    /// The reset: the next call of `fill_in_voxels` populates the world
    /// again.
    fn reset_event(&mut self)
        ensures
            !final(self).populated(),
            old(self).kept(final(self)),
    ;

    /// A key event: a press of `X` is a reset, every other event is passed
    /// over.
    fn keyboard_input(&mut self, key: Key, state: KeyState)
        ensures
            final(self).populated() == (old(self).populated() && !asks_reset(key, state)),
            old(self).kept(final(self)),
    ;
}

/// The generators that a driver chooses from.
pub enum Generator {
    Spheres(Spheres),
    Hills(Hills),
    Noise(Noise),
}

impl World for Generator {
    open spec fn populated(&self) -> bool {
        match self {
            Generator::Spheres(g) => g.populated(),
            Generator::Hills(g) => g.populated(),
            Generator::Noise(g) => g.populated(),
        }
    }

    open spec fn ready(&self, chunk_mapping: &ChunkMapping, voxels: &Voxels) -> bool {
        match self {
            Generator::Spheres(g) => g.ready(chunk_mapping, voxels),
            Generator::Hills(g) => g.ready(chunk_mapping, voxels),
            Generator::Noise(g) => g.ready(chunk_mapping, voxels),
        }
    }

    open spec fn populates(
        &self,
        after: &Generator,
        dims: Dims,
        entries0: Seq<u32>,
        slots0: Seq<Seq<u32>>,
        entries: Seq<u32>,
        slots: Seq<Seq<u32>>,
    ) -> bool {
        match (self, after) {
            (Generator::Spheres(g), Generator::Spheres(h)) => g.populates(
                h,
                dims,
                entries0,
                slots0,
                entries,
                slots,
            ),
            (Generator::Hills(g), Generator::Hills(h)) => g.populates(
                h,
                dims,
                entries0,
                slots0,
                entries,
                slots,
            ),
            (Generator::Noise(g), Generator::Noise(h)) => g.populates(
                h,
                dims,
                entries0,
                slots0,
                entries,
                slots,
            ),
            _ => false,
        }
    }

    open spec fn kept(&self, after: &Generator) -> bool {
        match (self, after) {
            (Generator::Spheres(g), Generator::Spheres(h)) => g.kept(h),
            (Generator::Hills(g), Generator::Hills(h)) => g.kept(h),
            (Generator::Noise(g), Generator::Noise(h)) => g.kept(h),
            _ => false,
        }
    }

    fn is_populated(&self) -> (b: bool) {
        match self {
            Generator::Spheres(g) => g.is_populated(),
            Generator::Hills(g) => g.is_populated(),
            Generator::Noise(g) => g.is_populated(),
        }
    }

    fn is_ready(&self, chunk_mapping: &ChunkMapping, voxels: &Voxels) -> (b: bool) {
        match self {
            Generator::Spheres(g) => g.is_ready(chunk_mapping, voxels),
            Generator::Hills(g) => g.is_ready(chunk_mapping, voxels),
            Generator::Noise(g) => g.is_ready(chunk_mapping, voxels),
        }
    }

    fn fill_in_voxels(&mut self, chunk_mapping: &mut ChunkMapping, voxels: &mut Voxels) {
        match self {
            Generator::Spheres(g) => g.fill_in_voxels(chunk_mapping, voxels),
            Generator::Hills(g) => g.fill_in_voxels(chunk_mapping, voxels),
            Generator::Noise(g) => g.fill_in_voxels(chunk_mapping, voxels),
        }
    }

    fn reset_event(&mut self) {
        match self {
            Generator::Spheres(g) => g.reset_event(),
            Generator::Hills(g) => g.reset_event(),
            Generator::Noise(g) => g.reset_event(),
        }
    }

    fn keyboard_input(&mut self, key: Key, state: KeyState) {
        match self {
            Generator::Spheres(g) => g.keyboard_input(key, state),
            Generator::Hills(g) => g.keyboard_input(key, state),
            Generator::Noise(g) => g.keyboard_input(key, state),
        }
    }
}

} // verus!
