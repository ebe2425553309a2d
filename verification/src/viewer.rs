//! What the viewer keeps between frames, and how it changes.
//!
//! The viewer shows one system of the loaded list. A file picker runs
//! beside it, one at a time; when it ends with a path the save at that path
//! is loaded. A load that fails leaves the list as it is and sets a message.

use vstd::prelude::*;
use crate::error::LoadError;
use crate::extract::{load_save, systems_in};
use crate::indices::indices_where;
use crate::model::{Object, ObjectView, System, SystemView, systems_view};
use crate::sorting::is_stable_sort;
use crate::text::{chars_of, contains_chars, lowercase, occurs_in, text_of, to_lowercase};
use crate::xml::xml_nodes;

verus! {

/// The shape that marks an object in the plot.
#[derive(Debug, Clone, Copy, PartialEq, Eq, Structural)]
pub enum Marker {
    Circle,
    Asterisk,
    Cross,
}

/// A planet is drawn as a circle, another object that a mission requires
/// as an asterisk, and any other as a cross.
pub open spec fn marker_for(object: ObjectView) -> Marker {
    if object.planet {
        Marker::Circle
    } else if object.mission {
        Marker::Asterisk
    } else {
        Marker::Cross
    }
}

/// The shape that marks `object`.
pub fn marker_of(object: &Object) -> (marker: Marker)
    ensures
        marker == marker_for(object@),
{
    if object.planet {
        Marker::Circle
    } else if object.mission {
        Marker::Asterisk
    } else {
        Marker::Cross
    }
}

/// A name passes a filter where the filter, in lower case, stands
/// somewhere in the name in lower case.
pub open spec fn passes_filter(name: Seq<char>, filter: Seq<char>) -> bool {
    occurs_in(lowercase(filter), lowercase(name))
}

/// The selection after a list of `len` systems has replaced the old one:
/// kept where it is still in range, else moved to the last system.
pub open spec fn clamped(selected: int, len: int) -> int {
    if selected < len {
        selected
    } else if len == 0 {
        0
    } else {
        len - 1
    }
}

pub struct UiView {
    pub picking: bool,
    pub message: Option<Seq<char>>,
    pub save: Option<Seq<char>>,
    pub systems: Seq<SystemView>,
    pub filter: Seq<char>,
    pub selected: int,
}

impl UiView {
    /// The selection points at a system, or at 0 where there is none.
    pub open spec fn well_formed(self) -> bool {
        0 <= self.selected && (self.selected < self.systems.len() || (self.systems.len() == 0
            && self.selected == 0))
    }

    /// The systems whose names pass the filter, by their places in the list.
    pub open spec fn visible(self) -> Seq<int> {
        indices_where(
            |i: int| passes_filter(self.systems[i].name, self.filter),
            0,
            self.systems.len() as int,
        )
    }
}

/// The viewer's state.
#[derive(Debug)]
pub struct ScanSectorUi {
    picking: bool,
    message: Option<String>,
    save: Option<String>,
    systems: Vec<System>,
    filter: String,
    selected: usize,
}

impl View for ScanSectorUi {
    type V = UiView;

    closed spec fn view(&self) -> UiView {
        UiView {
            picking: self.picking,
            message: text_of(self.message),
            save: text_of(self.save),
            systems: systems_view(self.systems@),
            filter: self.filter@,
            selected: self.selected as int,
        }
    }
}

/// What the viewer holds at the start.
pub open spec fn initial_view() -> UiView {
    UiView {
        picking: false,
        message: None,
        save: None,
        systems: Seq::empty(),
        filter: Seq::empty(),
        selected: 0,
    }
}

impl Default for ScanSectorUi {
    fn default() -> (ui: ScanSectorUi)
        ensures
            ui@ == initial_view(),
    {
        ScanSectorUi::new()
    }
}

impl ScanSectorUi {
    #[verifier::type_invariant]
    pub open spec fn well_formed(self) -> bool {
        self@.well_formed()
    }

    /// The state at the start: nothing loaded, nothing picked, no filter.
    pub fn new() -> (ui: ScanSectorUi)
        ensures
            ui@ == initial_view(),
    {
        let ui = ScanSectorUi {
            picking: false,
            message: None,
            save: None,
            systems: Vec::new(),
            filter: String::new(),
            selected: 0,
        };
        assert(ui@.systems =~= Seq::empty());
        ui
    }

    /// The user asks for the file picker. Returns whether one is to be
    /// started: only where none is running.
    pub fn start_pick(&mut self) -> (start: bool)
        ensures
            start == !old(self)@.picking,
            final(self)@ == (UiView { picking: true, ..old(self)@ }),
    {
        proof {
            use_type_invariant(&*self);
        }
        let start = !self.picking;
        self.picking = true;
        start
    }

    /// The file picker has ended, with the path that the user chose or
    /// with none. Returns the path of the save to load. Where no picker
    /// was running nothing changes.
    pub fn finish_pick(&mut self, chosen: Option<String>) -> (path: Option<String>)
        ensures
            old(self)@.picking ==> final(self)@ == (UiView {
                picking: false,
                save: text_of(chosen),
                ..old(self)@
            }) && text_of(path) == text_of(chosen),
            !old(self)@.picking ==> final(self)@ == old(self)@ && path is None,
    {
        proof {
            use_type_invariant(&*self);
        }
        if !self.picking {
            return None;
        }
        self.picking = false;
        let path = chosen.clone();
        self.save = chosen;
        path
    }

    /// A load has ended. Its systems replace the list, the message goes
    /// and the selection is brought into range; or, where it failed, its
    /// message is set and the rest stays.
    pub fn finish_load(&mut self, loaded: Result<Vec<System>, LoadError>)
        ensures
            match loaded {
                Ok(systems) => final(self)@ == (UiView {
                    systems: systems_view(systems@),
                    message: None,
                    selected: clamped(old(self)@.selected, systems@.len() as int),
                    ..old(self)@
                }),
                Err(e) => final(self)@ == (UiView { message: Some(e.text()), ..old(self)@ }),
            },
    {
        proof {
            use_type_invariant(&*self);
        }
        match loaded {
            Ok(systems) => {
                let len = systems.len();
                let selected = if self.selected < len {
                    self.selected
                } else if len == 0 {
                    0
                } else {
                    len - 1
                };
                self.selected = 0;
                self.systems = systems;
                self.selected = selected;
                self.message = None;
            },
            Err(e) => {
                self.message = Some(e.message());
            },
        }
    }

    /// The save at the picked path has been read, or could not be read; the
    /// error's text says why. What was read is loaded: where it is
    /// well-formed XML its systems, sorted by name, replace the list;
    /// where it is not, or nothing was read, the list stays and a message
    /// is set.
    pub fn load(&mut self, read: Result<String, String>)
        ensures
            match read {
                Ok(text) => match xml_nodes(text@) {
                    Some(doc) => {
                        &&& is_stable_sort(systems_in(doc), final(self)@.systems)
                        &&& final(self)@ == (UiView {
                            systems: final(self)@.systems,
                            message: None,
                            selected: clamped(
                                old(self)@.selected,
                                final(self)@.systems.len() as int,
                            ),
                            ..old(self)@
                        })
                    },
                    None => final(self)@.message is Some && final(self)@ == (UiView {
                        message: final(self)@.message,
                        ..old(self)@
                    }),
                },
                Err(why) => final(self)@ == (UiView { message: Some(why@), ..old(self)@ }),
            },
    {
        match read {
            Ok(text) => self.finish_load(load_save(text.as_str())),
            Err(why) => self.finish_load(Err(LoadError::Io(why))),
        }
    }

    /// Sets the filter.
    pub fn set_filter(&mut self, filter: String)
        ensures
            final(self)@ == (UiView { filter: filter@, ..old(self)@ }),
    {
        proof {
            use_type_invariant(&*self);
        }
        self.filter = filter;
    }

    /// Selects the system at `index`. Returns whether there is one; where
    /// there is none nothing changes.
    pub fn select(&mut self, index: usize) -> (done: bool)
        ensures
            done == (index < old(self)@.systems.len()),
            done ==> final(self)@ == (UiView { selected: index as int, ..old(self)@ }),
            !done ==> final(self)@ == old(self)@,
    {
        proof {
            use_type_invariant(&*self);
        }
        if index < self.systems.len() {
            self.selected = index;
            true
        } else {
            false
        }
    }

    /// Whether a file picker is running.
    pub fn is_picking(&self) -> (picking: bool)
        ensures
            picking == self@.picking,
    {
        self.picking
    }

    /// The message of the last load, if it failed.
    pub fn message(&self) -> (message: &Option<String>)
        ensures
            text_of(*message) == self@.message,
    {
        &self.message
    }

    /// The path that was picked last.
    pub fn save(&self) -> (save: &Option<String>)
        ensures
            text_of(*save) == self@.save,
    {
        &self.save
    }

    /// The loaded systems.
    pub fn systems(&self) -> (systems: &Vec<System>)
        ensures
            systems_view(systems@) == self@.systems,
    {
        &self.systems
    }

    /// The filter.
    pub fn filter(&self) -> (filter: &String)
        ensures
            filter@ == self@.filter,
    {
        &self.filter
    }

    /// The place of the selected system in the list.
    pub fn selected(&self) -> (selected: usize)
        ensures
            selected == self@.selected,
            self@.well_formed(),
    {
        proof {
            use_type_invariant(self);
        }
        self.selected
    }

    /// The selected system: there is one unless the list is empty.
    pub fn current(&self) -> (current: Option<&System>)
        ensures
            match current {
                Some(system) => 0 <= self@.selected < self@.systems.len() && system@
                    == self@.systems[self@.selected],
                None => self@.systems.len() == 0,
            },
    {
        proof {
            use_type_invariant(self);
        }
        if self.systems.len() == 0 {
            None
        } else {
            assert(self@.systems[self.selected as int] == self.systems@[self.selected as int]@);
            Some(&self.systems[self.selected])
        }
    }

    /// The places of the systems that the selection list offers: those
    /// whose names pass the filter, in the order of the list.
    pub fn visible(&self) -> (places: Vec<usize>)
        ensures
            places@.map_values(|i: usize| i as int) == self@.visible(),
    {
        let filter = chars_of(to_lowercase(self.filter.as_str()).as_str());
        let mut places: Vec<usize> = Vec::new();
        let ghost shown = |i: int| passes_filter(self@.systems[i].name, self@.filter);
        let mut i: usize = 0;
        assert(places@.map_values(|i: usize| i as int) =~= indices_where(shown, 0, 0));
        while i < self.systems.len()
            invariant
                i <= self.systems.len(),
                filter@ == lowercase(self@.filter),
                shown == |i: int| passes_filter(self@.systems[i].name, self@.filter),
                places@.map_values(|i: usize| i as int) == indices_where(shown, 0, i as int),
            decreases self.systems.len() - i,
        {
            let ghost held = places@;
            let name = chars_of(to_lowercase(self.systems[i].name.as_str()).as_str());
            assert(self@.systems[i as int] == self.systems@[i as int]@);
            if contains_chars(&name, &filter) {
                places.push(i);
                assert(places@.map_values(|i: usize| i as int) =~= held.map_values(
                    |i: usize| i as int,
                ).push(i as int));
            }
            i += 1;
        }
        places
    }
}

} // verus!
