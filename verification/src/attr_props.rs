use crate::direction::Direction;
use vstd::prelude::*;

verus! {

/// What is said of an attribute when it is registered: the orientation it is indexed in,
/// its rank among the attributes (a smaller priority is more important), and the culture
/// whose word table it feeds, if it has one.
#[derive(Clone, Copy, Debug)]
pub struct AttrProps {
    pub culture: Option<u8>,
    pub direction: Direction,
    pub priority: u8,
}

impl AttrProps {
    /// The same properties, with the culture `culture`.
    pub fn culture(self, culture: u8) -> (r: Self)
        ensures
            r == (AttrProps { culture: Some(culture), ..self }),
    {
        AttrProps { culture: Some(culture), direction: self.direction, priority: self.priority }
    }

    /// The same properties, with the orientation `direction`.
    pub fn direction(self, direction: Direction) -> (r: Self)
        ensures
            r == (AttrProps { direction, ..self }),
    {
        AttrProps { culture: self.culture, direction, priority: self.priority }
    }

    /// The same properties, with the priority `priority`.
    pub fn priority(self, priority: u8) -> (r: Self)
        ensures
            r == (AttrProps { priority, ..self }),
    {
        AttrProps { culture: self.culture, direction: self.direction, priority }
    }
}

impl Default for AttrProps {
    /// A forward attribute of priority 0 without a culture.
    fn default() -> (r: Self)
        ensures
            r == (AttrProps { culture: None, direction: Direction::Forward, priority: 0 }),
    {
        AttrProps { culture: None, direction: Direction::Forward, priority: 0 }
    }
}

} // verus!
