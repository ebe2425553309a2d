//! The systems of a save and the objects in them.

use vstd::prelude::*;
use crate::location::is_float_text;

verus! {

/// A place in a system, in the save's units. Each coordinate is kept as the
/// save writes it: the text of a decimal floating-point number.
#[derive(Debug, Clone, PartialEq, Eq)]
pub struct Position {
    pub x: String,
    pub y: String,
}

/// One entity of a system.
#[derive(Debug, Clone, PartialEq, Eq)]
pub struct Object {
    /// The name to show.
    pub name: String,
    /// Whether the save records the entity as a planet.
    pub planet: bool,
    pub pos: Position,
    /// Whether a mission requires the entity.
    pub mission: bool,
}

/// One star system with its objects: the planets first, then the other
/// entities, each group in document order.
#[derive(Debug, Clone, PartialEq, Eq)]
pub struct System {
    pub name: String,
    pub objects: Vec<Object>,
}

pub struct PositionView {
    pub x: Seq<char>,
    pub y: Seq<char>,
}

pub struct ObjectView {
    pub name: Seq<char>,
    pub planet: bool,
    pub pos: PositionView,
    pub mission: bool,
}

pub struct SystemView {
    pub name: Seq<char>,
    pub objects: Seq<ObjectView>,
}

impl PositionView {
    /// Both coordinates are numbers.
    pub open spec fn well_formed(self) -> bool {
        is_float_text(self.x) && is_float_text(self.y)
    }
}

impl ObjectView {
    /// The same object, recorded as a planet or not.
    pub open spec fn with_planet(self, planet: bool) -> ObjectView {
        ObjectView { name: self.name, planet, pos: self.pos, mission: self.mission }
    }
}

impl View for Position {
    type V = PositionView;

    open spec fn view(&self) -> PositionView {
        PositionView { x: self.x@, y: self.y@ }
    }
}

impl View for Object {
    type V = ObjectView;

    open spec fn view(&self) -> ObjectView {
        ObjectView { name: self.name@, planet: self.planet, pos: self.pos@, mission: self.mission }
    }
}

impl View for System {
    type V = SystemView;

    open spec fn view(&self) -> SystemView {
        SystemView { name: self.name@, objects: objects_view(self.objects@) }
    }
}

/// The views of a list of objects.
pub open spec fn objects_view(objects: Seq<Object>) -> Seq<ObjectView> {
    objects.map_values(|o: Object| o@)
}

/// The views of a list of systems.
pub open spec fn systems_view(systems: Seq<System>) -> Seq<SystemView> {
    systems.map_values(|s: System| s@)
}

} // verus!
