use vstd::prelude::*;
use crate::connectivity::connected;
use crate::generator::{generate_level, GenerationError};
use crate::level::Level;
use crate::tile_type::TileType;

verus! {

/// The whole dungeon: its floors ordered by depth, level zero on top.
/// Created once per new game and replaced whole, never patched.
#[derive(Clone, Debug)]
pub struct Dungeon {
    pub levels: Vec<Level>,
}

impl Dungeon {
    /// The invariant of the aggregate: each floor sits at the index that
    /// is its own depth, and every floor is structurally sound.
    pub open spec fn well_formed(self) -> bool {
        forall|i: int|
            0 <= i < self.levels@.len() ==> (#[trigger] self.levels@[i]).depth == i
                && self.levels@[i].well_formed()
    }

    /// The floor at the given depth, if the dungeon goes that deep.
    pub fn get_level(&self, floor: usize) -> (r: Option<&Level>)
        ensures
            floor < self.levels@.len() ==> (r matches Some(l) && *l == self.levels@[floor as int]),
            floor >= self.levels@.len() ==> r is None,
    {
        if floor < self.levels.len() {
            Some(&self.levels[floor])
        } else {
            None
        }
    }

    /// The floor at the given depth, for mutation. The caller checks the
    /// depth first, as the turn loop always knows how deep the dungeon
    /// goes.
    pub fn get_level_mut(&mut self, floor: usize) -> (r: &mut Level)
        requires
            floor < old(self).levels@.len(),
        ensures
            *r == old(self).levels@[floor as int],
            final(self).levels@ == old(self).levels@.update(floor as int, *final(r)),
    {
        &mut self.levels[floor]
    }

    /// Builds a fresh dungeon of `count` floors, each generated and
    /// checked on its own; one bad floor refuses the whole dungeon, and
    /// the new-game flow retries with another seed.
    pub fn generate(
        rng: &mut rltk::RandomNumberGenerator,
        count: usize,
        width: usize,
        height: usize,
    ) -> (r: Result<Dungeon, GenerationError>)
        requires
            16 <= width < 0x8000,
            16 <= height < 0x8000,
        ensures
            r matches Ok(d) ==> {
                &&& d.well_formed()
                &&& d.levels@.len() == count
                &&& forall|i: int|
                    0 <= i < count ==> connected(#[trigger] d.levels@[i]) && (exists|t: int|
                        0 <= t < d.levels@[i].area() && d.levels@[i].tiles@[t] == TileType::Floor)
            },
    {
        let mut levels: Vec<Level> = Vec::new();
        let mut depth: usize = 0;
        while depth < count
            invariant
                depth <= count,
                16 <= width < 0x8000,
                16 <= height < 0x8000,
                levels@.len() == depth,
                forall|i: int|
                    0 <= i < depth ==> (#[trigger] levels@[i]).depth == i
                        && levels@[i].well_formed() && connected(levels@[i]) && (exists|t: int|
                        0 <= t < levels@[i].area() && levels@[i].tiles@[t] == TileType::Floor),
            decreases count - depth,
        {
            match generate_level(rng, depth, width, height) {
                Ok(level) => {
                    levels.push(level);
                },
                Err(e) => {
                    return Err(e);
                },
            }
            depth = depth + 1;
        }
        Ok(Dungeon { levels })
    }
}

} // verus!
