//! From a parsed document to its systems.
//!
//! A system is a node tagged `Sstm` that has the attribute `bN`, its name.
//! Its objects are the nodes tagged `Plnt` in its subtree, then those tagged
//! `CCEnt`, as far as each gives a location and a name. A node is part of
//! its own subtree.

use vstd::prelude::*;
use crate::error::LoadError;
use crate::indices::{indices_where, lemma_indices_where};
use crate::location::{location_of, parse_vector};
use crate::model::{
    Object, ObjectView, PositionView, System, SystemView, objects_view, systems_view,
};
use crate::payload::{decode_payload, payload_name};
use crate::sorting::{goes_before, is_stable_sort, is_stable_sort_via, sort_systems};
use crate::text::lemma_text_order_total;
use crate::xml::{
    XmlDocument, XmlNodeView, attribute_value, first_tagged, has_tagged, lemma_first_tagged,
    subtree_end, xml_nodes,
};

verus! {

pub open spec fn system_tag() -> Seq<char> {
    "Sstm"@
}

pub open spec fn system_name_attribute() -> Seq<char> {
    "bN"@
}

pub open spec fn planet_tag() -> Seq<char> {
    "Plnt"@
}

pub open spec fn entity_tag() -> Seq<char> {
    "CCEnt"@
}

pub open spec fn location_tag() -> Seq<char> {
    "loc"@
}

pub open spec fn mission_tag() -> Seq<char> {
    "MReq"@
}

pub open spec fn payload_tag() -> Seq<char> {
    "j0"@
}

/// The text of the first node of `lo..hi` with the tag `tag`.
pub open spec fn first_text(doc: Seq<XmlNodeView>, tag: Seq<char>, lo: int, hi: int) -> Option<
    Seq<char>,
> {
    match first_tagged(doc, tag, lo, hi) {
        Some(j) => doc[j].text,
        None => None,
    }
}

/// The location of the entity at node `i`: what the text of the first
/// `loc` node in its subtree gives.
pub open spec fn object_location(doc: Seq<XmlNodeView>, i: int) -> Option<PositionView> {
    match first_text(doc, location_tag(), i, subtree_end(doc, i)) {
        Some(text) => location_of(text),
        None => None,
    }
}

/// The name of the entity at node `i`: what the text of the first `j0`
/// node in its subtree gives.
pub open spec fn object_name(doc: Seq<XmlNodeView>, i: int) -> Option<Seq<char>> {
    match first_text(doc, payload_tag(), i, subtree_end(doc, i)) {
        Some(text) => payload_name(text),
        None => None,
    }
}

/// The object that node `i` gives, not recorded as a planet: none unless
/// it has both a location and a name.
pub open spec fn object_at(doc: Seq<XmlNodeView>, i: int) -> Option<ObjectView> {
    match (object_location(doc, i), object_name(doc, i)) {
        (Some(pos), Some(name)) => Some(
            ObjectView {
                name,
                planet: false,
                pos,
                mission: has_tagged(doc, mission_tag(), i, subtree_end(doc, i)),
            },
        ),
        _ => None,
    }
}

/// Node `j` has the tag `tag` and gives an object.
pub open spec fn is_object(doc: Seq<XmlNodeView>, tag: Seq<char>, j: int) -> bool {
    doc[j].tag == tag && object_at(doc, j) is Some
}

/// The nodes of `lo..hi` that have the tag `tag` and give an object.
pub open spec fn object_nodes(doc: Seq<XmlNodeView>, tag: Seq<char>, lo: int, hi: int) -> Seq<
    int,
> {
    indices_where(|j: int| is_object(doc, tag, j), lo, hi)
}

/// The objects of those nodes, in document order, each recorded as a
/// planet or not as `planet` says.
pub open spec fn objects_tagged(
    doc: Seq<XmlNodeView>,
    tag: Seq<char>,
    planet: bool,
    lo: int,
    hi: int,
) -> Seq<ObjectView> {
    object_nodes(doc, tag, lo, hi).map_values(|j: int| object_at(doc, j)->0.with_planet(planet))
}

/// The objects of the system at node `i`: the planets of its subtree, then
/// its other entities.
pub open spec fn objects_of(doc: Seq<XmlNodeView>, i: int) -> Seq<ObjectView> {
    objects_tagged(doc, planet_tag(), true, i, subtree_end(doc, i)) + objects_tagged(
        doc,
        entity_tag(),
        false,
        i,
        subtree_end(doc, i),
    )
}

/// The name of the system at node `i`, if it has one.
pub open spec fn system_name(doc: Seq<XmlNodeView>, i: int) -> Option<Seq<char>> {
    attribute_value(doc[i].attributes, system_name_attribute(), 0)
}

/// Node `i` is a system: it has the system tag and a name.
pub open spec fn is_system(doc: Seq<XmlNodeView>, i: int) -> bool {
    doc[i].tag == system_tag() && system_name(doc, i) is Some
}

/// The system at node `i`.
pub open spec fn system_at(doc: Seq<XmlNodeView>, i: int) -> SystemView {
    SystemView { name: system_name(doc, i)->0, objects: objects_of(doc, i) }
}

/// The systems among the first `hi` nodes.
pub open spec fn system_nodes(doc: Seq<XmlNodeView>, hi: int) -> Seq<int> {
    indices_where(|i: int| is_system(doc, i), 0, hi)
}

/// The systems that the first `hi` nodes give, in document order.
pub open spec fn systems_before(doc: Seq<XmlNodeView>, hi: int) -> Seq<SystemView> {
    system_nodes(doc, hi).map_values(|i: int| system_at(doc, i))
}

/// The systems of a document, in document order.
pub open spec fn systems_in(doc: Seq<XmlNodeView>) -> Seq<SystemView> {
    systems_before(doc, doc.len() as int)
}

/// The text of the first node of `lo..hi` with the tag `tag`.
fn find_text<'a>(doc: &'a XmlDocument, tag: &str, lo: usize, hi: usize) -> (text: Option<
    &'a String,
>)
    requires
        lo <= hi <= doc@.len(),
    ensures
        match text {
            Some(t) => first_text(doc@, tag@, lo as int, hi as int) == Some(t@),
            None => first_text(doc@, tag@, lo as int, hi as int) is None,
        },
{
    let tag = tag.to_owned();
    match doc.find_tagged(&tag, lo, hi) {
        Some(j) => doc.node(j).text.as_ref(),
        None => None,
    }
}

/// The object that a node gives, not recorded as a planet; nothing where
/// its subtree lacks a location or a name that can be read.
pub fn extract_object(doc: &XmlDocument, node: usize) -> (object: Option<Object>)
    requires
        node < doc@.len(),
    ensures
        match object {
            Some(o) => object_at(doc@, node as int) == Some(o@),
            None => object_at(doc@, node as int) is None,
        },
{
    let end = doc.subtree_end(node);
    let pos = match find_text(doc, "loc", node, end) {
        Some(text) => parse_vector(text.as_str()),
        None => None,
    };
    let marker = "MReq".to_owned();
    let mission = doc.find_tagged(&marker, node, end).is_some();
    proof {
        lemma_first_tagged(doc@, mission_tag(), node as int, end as int);
    }
    let name = match find_text(doc, "j0", node, end) {
        Some(text) => decode_payload(text.as_str()),
        None => None,
    };
    match (pos, name) {
        (Some(pos), Some(name)) => Some(Object { name, planet: false, pos, mission }),
        _ => None,
    }
}

/// Appends to `objects` the objects that the nodes of `lo..hi` with the
/// tag `tag` give, in document order.
fn collect_objects(
    doc: &XmlDocument,
    tag: &str,
    planet: bool,
    lo: usize,
    hi: usize,
    objects: &mut Vec<Object>,
)
    requires
        lo <= hi <= doc@.len(),
    ensures
        objects_view(final(objects)@) == objects_view(old(objects)@) + objects_tagged(
            doc@,
            tag@,
            planet,
            lo as int,
            hi as int,
        ),
{
    let key = tag.to_owned();
    let ghost before = objects_view(objects@);
    let mut j = lo;
    assert(objects_tagged(doc@, tag@, planet, lo as int, lo as int) =~= Seq::empty());
    while j < hi
        invariant
            lo <= j <= hi <= doc@.len(),
            key@ == tag@,
            objects_view(objects@) == before + objects_tagged(
                doc@,
                tag@,
                planet,
                lo as int,
                j as int,
            ),
        decreases hi - j,
    {
        let ghost found = objects_tagged(doc@, tag@, planet, lo as int, j as int);
        let ghost nodes = object_nodes(doc@, tag@, lo as int, j as int);
        let ghost held = objects@;
        if doc.node(j).tag == key {
            match extract_object(doc, j) {
                Some(object) => {
                    let object = Object {
                        name: object.name,
                        planet,
                        pos: object.pos,
                        mission: object.mission,
                    };
                    objects.push(object);
                    proof {
                        assert(is_object(doc@, tag@, j as int));
                        assert(object_nodes(doc@, tag@, lo as int, j + 1) == nodes.push(j as int));
                        assert(objects_tagged(doc@, tag@, planet, lo as int, j + 1) =~= found.push(
                            object@,
                        ));
                        assert(objects_view(objects@) =~= objects_view(held).push(object@));
                    }
                },
                None => {},
            }
        }
        j += 1;
    }
}

/// The system at a node, if the node is a system.
pub fn extract_system(doc: &XmlDocument, node: usize) -> (system: Option<System>)
    requires
        node < doc@.len(),
    ensures
        match system {
            Some(s) => is_system(doc@, node as int) && s@ == system_at(doc@, node as int),
            None => !is_system(doc@, node as int),
        },
{
    let tag = "Sstm".to_owned();
    if doc.node(node).tag != tag {
        return None;
    }
    let name = match doc.node(node).attribute("bN") {
        Some(name) => name,
        None => {
            return None;
        },
    };
    let end = doc.subtree_end(node);
    let mut objects: Vec<Object> = Vec::new();
    collect_objects(doc, "Plnt", true, node, end, &mut objects);
    collect_objects(doc, "CCEnt", false, node, end, &mut objects);
    Some(System { name, objects })
}

/// The systems of a document, in document order.
pub fn extract_systems(doc: &XmlDocument) -> (systems: Vec<System>)
    ensures
        systems_view(systems@) == systems_in(doc@),
{
    let mut systems: Vec<System> = Vec::new();
    let n = doc.len();
    let mut i: usize = 0;
    assert(systems_before(doc@, 0) =~= Seq::empty());
    while i < n
        invariant
            i <= n,
            n == doc@.len(),
            systems_view(systems@) == systems_before(doc@, i as int),
        decreases n - i,
    {
        let ghost found = systems_before(doc@, i as int);
        let ghost nodes = system_nodes(doc@, i as int);
        let ghost held = systems@;
        match extract_system(doc, i) {
            Some(system) => {
                systems.push(system);
                proof {
                    assert(system_nodes(doc@, i + 1) == nodes.push(i as int));
                    assert(systems_before(doc@, i + 1) =~= found.push(system@));
                    assert(systems_view(systems@) =~= systems_view(held).push(system@));
                }
            },
            None => {},
        }
        i += 1;
    }
    systems
}

/// The systems of a document, sorted by name; systems of one name stay in
/// document order.
pub fn systems_of(doc: &XmlDocument) -> (systems: Vec<System>)
    ensures
        is_stable_sort(systems_in(doc@), systems_view(systems@)),
{
    sort_systems(extract_systems(doc))
}

/// The systems of a save, sorted by name, from the save's text. Fails
/// exactly where the text is not well-formed XML; a record that cannot be
/// read is left out.
pub fn load_save(text: &str) -> (loaded: Result<Vec<System>, LoadError>)
    ensures
        match loaded {
            Ok(systems) => xml_nodes(text@) matches Some(doc) && is_stable_sort(
                systems_in(doc),
                systems_view(systems@),
            ),
            Err(e) => xml_nodes(text@) is None && e is Parse,
        },
{
    match XmlDocument::parse(text) {
        Ok(doc) => Ok(systems_of(&doc)),
        Err(e) => Err(e),
    }
}

/// Each system of the sorted list comes from a node of its own that has the
/// system tag and a name, and carries that name; and each such node has
/// its system in the list. A node without the name gives none. The result
/// names, for each place of the list, the node.
pub proof fn lemma_one_system_per_named_node(
    doc: Seq<XmlNodeView>,
    output: Seq<SystemView>,
) -> (origin: Seq<int>)
    requires
        is_stable_sort(systems_in(doc), output),
    ensures
        origin.len() == output.len(),
        forall|k: int|
            0 <= k < output.len() ==> {
                &&& 0 <= #[trigger] origin[k] < doc.len()
                &&& is_system(doc, origin[k])
                &&& output[k] == system_at(doc, origin[k])
                &&& Some(output[k].name) == system_name(doc, origin[k])
            },
        forall|k: int, l: int|
            0 <= k < l < output.len() ==> #[trigger] origin[k] != #[trigger] origin[l],
        forall|i: int|
            0 <= i < doc.len() && is_system(doc, i) ==> exists|k: int|
                0 <= k < output.len() && #[trigger] origin[k] == i,
{
    let input = systems_in(doc);
    let (from, to) = choose|from: Seq<int>, to: Seq<int>|
        is_stable_sort_via(input, output, from, to);
    let pred = |i: int| is_system(doc, i);
    let nodes = system_nodes(doc, doc.len() as int);
    lemma_indices_where(pred, 0, doc.len() as int);
    let origin = Seq::new(output.len(), |k: int| nodes[from[k]]);
    assert forall|k: int| 0 <= k < output.len() implies {
        &&& 0 <= #[trigger] origin[k] < doc.len()
        &&& is_system(doc, origin[k])
        &&& output[k] == system_at(doc, origin[k])
        &&& Some(output[k].name) == system_name(doc, origin[k])
    } by {
        assert(0 <= from[k] < input.len());
        assert(pred(nodes[from[k]]));
    }
    assert forall|k: int, l: int| 0 <= k < l < output.len() implies #[trigger] origin[k]
        != #[trigger] origin[l] by {
        assert(goes_before(output[k].name, from[k], output[l].name, from[l]));
        assert(0 <= from[k] < input.len() && 0 <= from[l] < input.len());
        lemma_text_order_total(output[k].name, output[l].name);
        if from[k] < from[l] {
            assert(nodes[from[k]] < nodes[from[l]]);
        } else if from[l] < from[k] {
            assert(nodes[from[l]] < nodes[from[k]]);
        }
    }
    assert forall|i: int| 0 <= i < doc.len() && is_system(doc, i) implies exists|k: int|
        0 <= k < output.len() && #[trigger] origin[k] == i by {
        assert(pred(i));
        assert(nodes.contains(i));
        let m = choose|m: int| 0 <= m < nodes.len() && nodes[m] == i;
        assert(0 <= to[m] < output.len() && from[to[m]] == m);
        assert(origin[to[m]] == i);
    }
    origin
}

/// In a system's list of objects every planet stands before every object
/// that is no planet.
pub proof fn lemma_planets_first(doc: Seq<XmlNodeView>, i: int)
    ensures
        forall|a: int, b: int|
            0 <= a < objects_of(doc, i).len() && 0 <= b < objects_of(doc, i).len() && (
            #[trigger] objects_of(doc, i)[a]).planet && !(#[trigger] objects_of(doc, i)[b]).planet
                ==> a < b,
{
    let end = subtree_end(doc, i);
    let planets = objects_tagged(doc, planet_tag(), true, i, end);
    let others = objects_tagged(doc, entity_tag(), false, i, end);
    let all = objects_of(doc, i);
    assert forall|a: int, b: int|
        0 <= a < all.len() && 0 <= b < all.len() && (#[trigger] all[a]).planet && !(
        #[trigger] all[b]).planet implies a < b by {
        if a >= planets.len() {
            assert(all[a] == others[a - planets.len()]);
        }
        if b < planets.len() {
            assert(all[b] == planets[b]);
        }
    }
}

/// The objects of a system, planets and others, stand in document order,
/// and each is what its node gives.
pub proof fn lemma_objects_in_document_order(
    doc: Seq<XmlNodeView>,
    tag: Seq<char>,
    planet: bool,
    lo: int,
    hi: int,
)
    ensures
        objects_tagged(doc, tag, planet, lo, hi).len() == object_nodes(doc, tag, lo, hi).len(),
        forall|k: int|
            0 <= k < object_nodes(doc, tag, lo, hi).len() ==> {
                let j = #[trigger] object_nodes(doc, tag, lo, hi)[k];
                &&& lo <= j < hi
                &&& doc[j].tag == tag
                &&& object_at(doc, j) is Some
                &&& objects_tagged(doc, tag, planet, lo, hi)[k] == object_at(doc, j)->0.with_planet(
                    planet,
                )
            },
        forall|k: int, l: int|
            0 <= k < l < object_nodes(doc, tag, lo, hi).len() ==> (#[trigger] object_nodes(
                doc,
                tag,
                lo,
                hi,
            )[k]) < (#[trigger] object_nodes(doc, tag, lo, hi)[l]),
        forall|j: int|
            lo <= j < hi && is_object(doc, tag, j) ==> object_nodes(doc, tag, lo, hi).contains(j),
{
    let pred = |j: int| is_object(doc, tag, j);
    lemma_indices_where(pred, lo, hi);
    assert forall|j: int| lo <= j < hi && is_object(doc, tag, j) implies object_nodes(
        doc,
        tag,
        lo,
        hi,
    ).contains(j) by {
        assert(pred(j));
    }
}

/// Every object of a system has a position made of two numbers.
pub proof fn lemma_positions_are_numbers(doc: Seq<XmlNodeView>, i: int)
    ensures
        forall|k: int|
            0 <= k < objects_of(doc, i).len() ==> (#[trigger] objects_of(
                doc,
                i,
            )[k]).pos.well_formed(),
{
    let end = subtree_end(doc, i);
    let planets = objects_tagged(doc, planet_tag(), true, i, end);
    let others = objects_tagged(doc, entity_tag(), false, i, end);
    lemma_objects_in_document_order(doc, planet_tag(), true, i, end);
    lemma_objects_in_document_order(doc, entity_tag(), false, i, end);
    assert forall|k: int| 0 <= k < objects_of(doc, i).len() implies (#[trigger] objects_of(
        doc,
        i,
    )[k]).pos.well_formed() by {
        if k < planets.len() {
            let j = object_nodes(doc, planet_tag(), i, end)[k];
            assert(objects_of(doc, i)[k] == planets[k]);
        } else {
            let j = object_nodes(doc, entity_tag(), i, end)[k - planets.len()];
            assert(objects_of(doc, i)[k] == others[k - planets.len()]);
        }
    }
}

/// What a node gives is flagged for a mission exactly where the node's
/// subtree, the node included, holds a node with the mission tag; its
/// position is made of two numbers; and it is not recorded as a planet.
pub proof fn lemma_object_fields(doc: Seq<XmlNodeView>, i: int)
    requires
        object_at(doc, i) is Some,
    ensures
        object_at(doc, i)->0.mission <==> exists|j: int|
            i <= j < subtree_end(doc, i) && (#[trigger] doc[j]).tag == mission_tag(),
        object_at(doc, i)->0.pos.well_formed(),
        !object_at(doc, i)->0.planet,
{
}

} // verus!
