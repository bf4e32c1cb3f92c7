use vstd::prelude::*;

use crate::map::map::in_map;
use crate::transform::position::Position;

verus! {

/// A value for every cell of an `N`×`N` map.
#[derive(Clone, Copy, Debug)]
pub struct ValueMap<const N: usize, T: Sized> {
    values: [[T; N]; N],
}

impl<const N: usize, T: Sized> ValueMap<N, T> {
    /// The value of cell `(x, y)` (meaningful inside the map).
    pub closed spec fn value_at(&self, x: int, y: int) -> T {
        self.values@[x]@[y]
    }

    /// A map holding `fill_with` everywhere.
    pub fn new(fill_with: T) -> (r: Self)
        where
            T: Copy,
        ensures
            forall|x: int, y: int| in_map(N as int, x, y) ==> #[trigger] r.value_at(x, y) == fill_with,
    {
        Self { values: [[fill_with; N]; N] }
    }

    /// The value of cell `position`; `None` outside the map.
    pub fn value(&self, position: Position) -> (r: Option<&T>)
        ensures
            match r {
                Some(v) => in_map(N as int, position.x as int, position.y as int) && *v == self.value_at(
                    position.x as int,
                    position.y as int,
                ),
                None => !in_map(N as int, position.x as int, position.y as int),
            },
    {
        let x = position.x as usize;
        let y = position.y as usize;
        if x >= N || y >= N {
            return None;
        }
        Some(&self.values[x][y])
    }

    /// Mutable access to the value of cell `position`; `None` outside the map. Writing through
    /// the reference changes that value and no other.
    pub fn value_mut(&mut self, position: Position) -> (r: Option<&mut T>)
        ensures
            match r {
                Some(v) => {
                    &&& in_map(N as int, position.x as int, position.y as int)
                    &&& *v == old(self).value_at(position.x as int, position.y as int)
                    &&& forall|x: int, y: int|
                        in_map(N as int, x, y) ==> #[trigger] final(self).value_at(x, y) == if x == position.x && y
                            == position.y {
                            *final(v)
                        } else {
                            old(self).value_at(x, y)
                        }
                },
                None => !in_map(N as int, position.x as int, position.y as int) && *final(self) == *old(self),
            },
    {
        let x = position.x as usize;
        let y = position.y as usize;
        if x >= N || y >= N {
            return None;
        }
        Some(&mut self.values[x][y])
    }
}

} // verus!
