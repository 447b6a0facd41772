//! The generator that leaves the world as it is.

use vstd::prelude::*;
use crate::shared::{ChunkMapping, Dims, Voxels};
use crate::worlds::{Key, KeyState, Population, World};

verus! {

/// A generator that writes nothing.
pub struct Noise {
    time: u32,
    state: Population,
}

impl Noise {
    /// A generator that has not run.
    pub fn new() -> (n: Noise)
        ensures
            !n.populated(),
    {
        Noise { time: 0, state: Population::Unpopulated }
    }
}

impl World for Noise {
    closed spec fn populated(&self) -> bool {
        self.state == Population::Populated
    }

    fn is_populated(&self) -> (b: bool) {
        self.state == Population::Populated
    }

    open spec fn ready(&self, chunk_mapping: &ChunkMapping, voxels: &Voxels) -> bool {
        true
    }

    open spec fn populates(
        &self,
        after: &Noise,
        dims: Dims,
        entries0: Seq<u32>,
        slots0: Seq<Seq<u32>>,
        entries: Seq<u32>,
        slots: Seq<Seq<u32>>,
    ) -> bool {
        entries == entries0 && slots == slots0 && self.kept(after)
    }

    closed spec fn kept(&self, after: &Noise) -> bool {
        after.time == self.time
    }

    fn is_ready(&self, chunk_mapping: &ChunkMapping, voxels: &Voxels) -> (b: bool) {
        true
    }

    fn fill_in_voxels(&mut self, chunk_mapping: &mut ChunkMapping, voxels: &mut Voxels) {
        self.state = Population::Populated;
    }

    fn reset_event(&mut self) {
        self.state = Population::Unpopulated;
    }

    fn keyboard_input(&mut self, key: Key, state: KeyState) {
        if key == Key::X && state == KeyState::Pressed {
            self.reset_event();
        }
    }
}

} // verus!
