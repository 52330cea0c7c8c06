//! Conservative recognition of weight added by painting a glyph twice.

use crate::pdf::{
    document_objects, entry, find, get_dictionary_under, get_number, get_object, dictionary_under, is_spelled,
    lemma_compound_node, looked_up, nodes, number_of, pairs, resolve, resolved, spells, entries_of, Entry, Node,
    PdfObject,
};
use crate::single::{Single, ONE_BITS};
use crate::table::{copy_bytes, first_map, ByteTable};
use crate::text::{ascii_lowered, characters, contains, contains_chars, lower_ascii, same_text};
use crate::unicode::{alphabetic, numeric};
use vstd::prelude::*;

verus! {

broadcast use lemma_compound_node;

/// A colour space in which colours can be compared.
#[derive(Clone, Copy, Debug, PartialEq, Eq, Structural)]
pub enum ColorSpace {
    Gray,
    Rgb,
    Cmyk,
    /// An ICC profile, by its object, with its number of components.
    Icc(u32, u16, usize),
}

impl ColorSpace {
    pub open spec fn spec_components(self) -> int {
        match self {
            ColorSpace::Gray => 1,
            ColorSpace::Rgb => 3,
            ColorSpace::Cmyk => 4,
            ColorSpace::Icc(_, _, n) => n as int,
        }
    }

    pub fn components(self) -> (r: usize)
        ensures
            r == self.spec_components(),
    {
        match self {
            ColorSpace::Gray => 1,
            ColorSpace::Rgb => 3,
            ColorSpace::Cmyk => 4,
            ColorSpace::Icc(_, _, n) => n,
        }
    }
}

/// The device colour space with this name.
pub open spec fn device(name: Seq<u8>) -> Option<ColorSpace> {
    if spells(name, "DeviceGray"@) {
        Some(ColorSpace::Gray)
    } else if spells(name, "DeviceRGB"@) {
        Some(ColorSpace::Rgb)
    } else if spells(name, "DeviceCMYK"@) {
        Some(ColorSpace::Cmyk)
    } else {
        None
    }
}

pub fn device_space(name: &Vec<u8>) -> (r: Option<ColorSpace>)
    ensures
        r == device(name@),
{
    if is_spelled(name, "DeviceGray") {
        Some(ColorSpace::Gray)
    } else if is_spelled(name, "DeviceRGB") {
        Some(ColorSpace::Rgb)
    } else if is_spelled(name, "DeviceCMYK") {
        Some(ColorSpace::Cmyk)
    } else {
        None
    }
}

/// The colour space that an array `[/ICCBased profile]` declares.
pub open spec fn icc_space(objects: Map<(u32, u16), Node>, items: Seq<Node>) -> Option<ColorSpace> {
    match (items[0], items[1]) {
        (Node::Name(name), Node::Reference(number, generation)) => if items.len() == 2 && spells(
            name,
            "ICCBased"@,
        ) {
            match looked_up(objects, (number, generation)) {
                Some(Node::Stream(profile)) => match find(profile, "N"@) {
                    Some(Node::Integer(n)) => if n == 1 || n == 3 || n == 4 {
                        Some(ColorSpace::Icc(number, generation, n as usize))
                    } else {
                        None
                    },
                    _ => None,
                },
                _ => None,
            }
        } else {
            None
        },
        _ => None,
    }
}

/// The comparable colour space that a resource declares.
pub open spec fn space_of(objects: Map<(u32, u16), Node>, node: Node) -> Option<ColorSpace> {
    match resolved(objects, node) {
        Some(Node::Name(name)) => device(name),
        Some(Node::Array(items)) => if items.len() == 2 {
            icc_space(objects, items)
        } else {
            None
        },
        _ => None,
    }
}

fn declared_space(doc: &lopdf::Document, object: &PdfObject) -> (r: Option<ColorSpace>)
    ensures
        r == space_of(document_objects(*doc), object@),
{
    match resolve(doc, object) {
        Some(PdfObject::Name(name)) => device_space(&name),
        Some(PdfObject::Array(items)) => {
            if items.len() != 2 {
                return None;
            }
            assert(nodes(items@)[0] == items@[0]@ && nodes(items@)[1] == items@[1]@);
            match (&items[0], &items[1]) {
                (PdfObject::Name(name), PdfObject::Reference(number, generation)) => {
                    if !is_spelled(name, "ICCBased") {
                        return None;
                    }
                    match get_object(doc, (*number, *generation)) {
                        Some(PdfObject::Stream(profile)) => match entry(&profile, "N") {
                            Some(PdfObject::Integer(n)) => if *n == 1 || *n == 3 || *n == 4 {
                                Some(ColorSpace::Icc(*number, *generation, *n as usize))
                            } else {
                                None
                            },
                            _ => None,
                        },
                        _ => None,
                    }
                },
                _ => None,
            }
        },
        _ => None,
    }
}

/// The number is finite and between 0 and 1.
pub open spec fn unit_range(x: Single) -> bool {
    x.spec_finite() && Single { bits: 0 }.spec_at_most(x) && x.spec_at_most(Single { bits: ONE_BITS })
}

fn in_unit_range(x: Single) -> (r: bool)
    ensures
        r == unit_range(x),
{
    x.is_finite() && Single::zero().at_most(x) && x.at_most(Single::one())
}

/// An entry of a graphics state that changes neither opacity nor blending,
/// masks or stroke geometry: its type, its smoothness, or its overprint mode.
pub open spec fn harmless_entry(objects: Map<(u32, u16), Node>, key: Seq<u8>, value: Node) -> bool {
    match resolved(objects, value) {
        None => false,
        Some(node) => if spells(key, "Type"@) {
            node matches Node::Name(name) && spells(name, "ExtGState"@)
        } else if spells(key, "SM"@) {
            number_of(node) matches Some(n) && unit_range(n)
        } else if spells(key, "OPM"@) {
            node == Node::Integer(0) || node == Node::Integer(1)
        } else {
            false
        },
    }
}

/// A graphics state all of whose entries are harmless.
pub open spec fn harmless_state(objects: Map<(u32, u16), Node>, node: Node) -> bool {
    match resolved(objects, node) {
        Some(Node::Dictionary(entries)) => forall|i: int|
            0 <= i < entries.len() ==> harmless_entry(objects, (#[trigger] entries[i]).0, entries[i].1),
        _ => false,
    }
}

fn is_harmless_entry(doc: &lopdf::Document, key: &Vec<u8>, value: &PdfObject) -> (r: bool)
    ensures
        r == harmless_entry(document_objects(*doc), key@, value@),
{
    match resolve(doc, value) {
        None => false,
        Some(object) => if is_spelled(key, "Type") {
            match &object {
                PdfObject::Name(name) => is_spelled(name, "ExtGState"),
                _ => false,
            }
        } else if is_spelled(key, "SM") {
            match get_number(&object) {
                Some(n) => in_unit_range(n),
                None => false,
            }
        } else if is_spelled(key, "OPM") {
            match &object {
                PdfObject::Integer(n) => *n == 0 || *n == 1,
                _ => false,
            }
        } else {
            false
        },
    }
}

fn is_harmless_state(doc: &lopdf::Document, object: &PdfObject) -> (r: bool)
    ensures
        r == harmless_state(document_objects(*doc), object@),
{
    match resolve(doc, object) {
        Some(PdfObject::Dictionary(entries)) => {
            let mut i: usize = 0;
            while i < entries.len()
                invariant
                    i <= entries@.len(),
                    resolved(document_objects(*doc), object@) == Some(Node::Dictionary(pairs(entries@))),
                    forall|j: int|
                        0 <= j < i ==> harmless_entry(
                            document_objects(*doc),
                            (#[trigger] pairs(entries@)[j]).0,
                            pairs(entries@)[j].1,
                        ),
                decreases entries@.len() - i,
            {
                assert(pairs(entries@)[i as int] == (entries@[i as int].key@, entries@[i as int].value@));
                if !is_harmless_entry(doc, &entries[i].key, &entries[i].value) {
                    proof {
                        let list = pairs(entries@);
                        assert(!harmless_entry(document_objects(*doc), list[i as int].0, list[i as int].1));
                        assert(0 <= i < list.len());
                        assert(resolved(document_objects(*doc), object@)->0->Dictionary_0 == list);
                        assert(!harmless_state(document_objects(*doc), object@));
                    }
                    return false;
                }
                i += 1;
            }
            true
        },
        _ => false,
    }
}

/// What a resource dictionary says about colours and graphics states.
pub struct PaintResources {
    spaces: ByteTable<Option<ColorSpace>>,
    harmless_states: ByteTable<bool>,
}

/// The colour spaces that a resource dictionary declares by name.
pub open spec fn declared_spaces(
    objects: Map<(u32, u16), Node>,
    resources: Seq<(Seq<u8>, Node)>,
) -> Map<Seq<u8>, Option<ColorSpace>> {
    match dictionary_under(objects, resources, "ColorSpace"@) {
        Some(entries) => first_map(space_list(objects, entries)),
        None => Map::empty(),
    }
}

/// Whether each graphics state that a resource dictionary declares is harmless.
pub open spec fn declared_states(
    objects: Map<(u32, u16), Node>,
    resources: Seq<(Seq<u8>, Node)>,
) -> Map<Seq<u8>, bool> {
    match dictionary_under(objects, resources, "ExtGState"@) {
        Some(entries) => first_map(state_list(objects, entries)),
        None => Map::empty(),
    }
}

pub open spec fn space_list(
    objects: Map<(u32, u16), Node>,
    entries: Seq<(Seq<u8>, Node)>,
) -> Seq<(Seq<u8>, Option<ColorSpace>)> {
    Seq::new(entries.len(), |i: int| (entries[i].0, space_of(objects, entries[i].1)))
}

pub open spec fn state_list(
    objects: Map<(u32, u16), Node>,
    entries: Seq<(Seq<u8>, Node)>,
) -> Seq<(Seq<u8>, bool)> {
    Seq::new(entries.len(), |i: int| (entries[i].0, harmless_state(objects, entries[i].1)))
}

/// What the tables of the resources say.
pub struct PaintTables {
    pub spaces: Map<Seq<u8>, Option<ColorSpace>>,
    pub states: Map<Seq<u8>, bool>,
}

/// The tables after a dictionary is added: what they said before stands.
pub open spec fn tables_with(
    before: PaintTables,
    objects: Map<(u32, u16), Node>,
    resources: Seq<(Seq<u8>, Node)>,
) -> PaintTables {
    PaintTables {
        spaces: declared_spaces(objects, resources).union_prefer_right(before.spaces),
        states: declared_states(objects, resources).union_prefer_right(before.states),
    }
}

pub open spec fn empty_tables() -> PaintTables {
    PaintTables { spaces: Map::empty(), states: Map::empty() }
}

impl View for PaintResources {
    type V = PaintTables;

    closed spec fn view(&self) -> PaintTables {
        PaintTables { spaces: self.spaces.map(), states: self.harmless_states.map() }
    }
}

impl PaintResources {
    pub closed spec fn wf(self) -> bool {
        self.spaces.wf() && self.harmless_states.wf()
    }

    /// Resources that declare nothing.
    pub fn new() -> (r: PaintResources)
        ensures
            r.wf(),
            r@ == empty_tables(),
    {
        PaintResources { spaces: ByteTable::new(), harmless_states: ByteTable::new() }
    }

    /// Adds what a resource dictionary declares. A name that is known already
    /// keeps its meaning, so a local name shadows that of a parent.
    pub fn add(&mut self, doc: &lopdf::Document, resources: &Vec<Entry>)
        requires
            old(self).wf(),
        ensures
            final(self).wf(),
            final(self)@ == tables_with(old(self)@, document_objects(*doc), pairs(resources@)),
    {
        let ghost objects = document_objects(*doc);
        let ghost spaces_before = self.spaces.map();
        let ghost states_before = self.harmless_states.map();
        if let Some(spaces) = get_dictionary_under(doc, resources, "ColorSpace") {
            let ghost list = space_list(objects, pairs(spaces@));
            let mut i: usize = 0;
            assert(first_map(list.take(0)).union_prefer_right(spaces_before) =~= spaces_before);
            while i < spaces.len()
                invariant
                    i <= spaces@.len(),
                    objects == document_objects(*doc),
                    list == space_list(objects, pairs(spaces@)),
                    self.wf(),
                    self.harmless_states.map() == states_before,
                    self.spaces.map() == first_map(list.take(i as int)).union_prefer_right(spaces_before),
                decreases spaces@.len() - i,
            {
                proof {
                    assert(pairs(spaces@)[i as int] == (spaces@[i as int].key@, spaces@[i as int].value@));
                    assert(list.take(i + 1).drop_last() =~= list.take(i as int));
                }
                let space = declared_space(doc, &spaces[i].value);
                self.spaces.insert_first(copy_bytes(&spaces[i].key), space);
                assert(self.spaces.map() =~= first_map(list.take(i + 1)).union_prefer_right(spaces_before));
                i += 1;
            }
            assert(list.take(list.len() as int) =~= list);
        } else {
            assert(Map::<Seq<u8>, Option<ColorSpace>>::empty().union_prefer_right(spaces_before) =~= spaces_before);
        }
        let ghost spaces_after = self.spaces.map();
        if let Some(states) = get_dictionary_under(doc, resources, "ExtGState") {
            let ghost list = state_list(objects, pairs(states@));
            let mut i: usize = 0;
            assert(first_map(list.take(0)).union_prefer_right(states_before) =~= states_before);
            while i < states.len()
                invariant
                    i <= states@.len(),
                    objects == document_objects(*doc),
                    list == state_list(objects, pairs(states@)),
                    self.wf(),
                    self.spaces.map() == spaces_after,
                    self.harmless_states.map() == first_map(list.take(i as int)).union_prefer_right(states_before),
                decreases states@.len() - i,
            {
                proof {
                    assert(pairs(states@)[i as int] == (states@[i as int].key@, states@[i as int].value@));
                    assert(list.take(i + 1).drop_last() =~= list.take(i as int));
                }
                let harmless = is_harmless_state(doc, &states[i].value);
                self.harmless_states.insert_first(copy_bytes(&states[i].key), harmless);
                assert(self.harmless_states.map() =~= first_map(list.take(i + 1)).union_prefer_right(states_before));
                i += 1;
            }
            assert(list.take(list.len() as int) =~= list);
        } else {
            assert(Map::<Seq<u8>, bool>::empty().union_prefer_right(states_before) =~= states_before);
        }
    }

    /// The resources of a page: its own dictionary, then those that its page
    /// and the ancestors name by a reference, nearest first.
    pub fn page(doc: &lopdf::Document, page_id: (u32, u16)) -> (r: PaintResources)
        ensures
            r.wf(),
            r@ == page_tables(document_objects(*doc), page_id),
    {
        let mut result = PaintResources::new();
        if let Some((own, inherited)) = page_resources(doc, page_id) {
            if let Some(resources) = own {
                result.add(doc, &resources);
            }
            let ghost base = result@;
            let ghost objects = document_objects(*doc);
            let mut i: usize = 0;
            while i < inherited.len()
                invariant
                    i <= inherited@.len(),
                    result.wf(),
                    objects == document_objects(*doc),
                    result@ == tables_of_references(base, objects, inherited@.take(i as int)),
                decreases inherited@.len() - i,
            {
                assert(inherited@.take(i + 1).drop_last() =~= inherited@.take(i as int));
                if let Some(PdfObject::Dictionary(resources)) = get_object(doc, inherited[i]) {
                    result.add(doc, &resources);
                }
                i += 1;
            }
            assert(inherited@.take(inherited@.len() as int) =~= inherited@);
        }
        result
    }

    /// The resources of a form.
    pub fn form(doc: &lopdf::Document, form: &Vec<Entry>) -> (r: PaintResources)
        ensures
            r.wf(),
            r@ == form_tables(document_objects(*doc), pairs(form@)),
    {
        let mut result = PaintResources::new();
        if let Some(resources) = get_dictionary_under(doc, form, "Resources") {
            result.add(doc, &resources);
        }
        result
    }

    fn space_named(&self, name: &Vec<u8>) -> (r: Option<ColorSpace>)
        requires
            self.wf(),
        ensures
            r == named_space(self@, name@),
    {
        match device_space(name) {
            Some(space) => Some(space),
            None => match self.spaces.get(name) {
                Some(space) => space,
                None => None,
            },
        }
    }

    fn is_known_harmless(&self, name: &Vec<u8>) -> (r: bool)
        requires
            self.wf(),
        ensures
            r == (self@.states.contains_key(name@) && self@.states[name@]),
    {
        match self.harmless_states.get(name) {
            Some(harmless) => harmless,
            None => false,
        }
    }
}

/// The colour space that a name stands for.
pub open spec fn named_space(tables: PaintTables, name: Seq<u8>) -> Option<ColorSpace> {
    match device(name) {
        Some(space) => Some(space),
        None => if tables.spaces.contains_key(name) {
            tables.spaces[name]
        } else {
            None
        },
    }
}

/// The tables of a form with this dictionary.
pub open spec fn form_tables(objects: Map<(u32, u16), Node>, form: Seq<(Seq<u8>, Node)>) -> PaintTables {
    match dictionary_under(objects, form, "Resources"@) {
        Some(resources) => tables_with(empty_tables(), objects, resources),
        None => empty_tables(),
    }
}

/// The most ancestors of a page.
pub const MAX_PAGE_ANCESTORS: usize = 100;

/// The identifiers of the resource dictionaries that a node of the page tree
/// and its ancestors name, from the node up. There are none where an ancestor
/// is missing, comes again or is one too many; `seen` are those met so far.
pub open spec fn resource_ids_from(
    objects: Map<(u32, u16), Node>,
    node: Seq<(Seq<u8>, Node)>,
    seen: Seq<(u32, u16)>,
) -> Option<Seq<(u32, u16)>>
    decreases MAX_PAGE_ANCESTORS - seen.len(),
{
    let own = match find(node, "Resources"@) {
        Some(Node::Reference(number, generation)) => seq![(number, generation)],
        _ => Seq::empty(),
    };
    match find(node, "Parent"@) {
        Some(Node::Reference(number, generation)) => if seen.contains((number, generation)) || seen.len()
            >= MAX_PAGE_ANCESTORS {
            None
        } else {
            match looked_up(objects, (number, generation)) {
                Some(Node::Dictionary(parent)) => match resource_ids_from(
                    objects,
                    parent,
                    seen.push((number, generation)),
                ) {
                    Some(rest) => Some(own + rest),
                    None => None,
                },
                _ => None,
            }
        },
        _ => Some(own),
    }
}

/// The identifiers of the resource dictionaries that a page and its ancestors
/// name, or `None` where the ancestry is broken.
pub open spec fn page_resource_ids(
    objects: Map<(u32, u16), Node>,
    page_id: (u32, u16),
) -> Option<Seq<(u32, u16)>> {
    match looked_up(objects, page_id) {
        Some(Node::Dictionary(page)) => resource_ids_from(objects, page, Seq::empty()),
        _ => Some(Seq::empty()),
    }
}

/// The resource dictionary that a page holds directly.
pub open spec fn own_resources(
    objects: Map<(u32, u16), Node>,
    page_id: (u32, u16),
) -> Option<Seq<(Seq<u8>, Node)>> {
    match looked_up(objects, page_id) {
        Some(Node::Dictionary(page)) => match find(page, "Resources"@) {
            Some(Node::Dictionary(resources)) => Some(resources),
            _ => None,
        },
        _ => None,
    }
}

/// `lopdf::Document::get_page_resources`: the page's own resource dictionary,
/// where it stands in the page itself, and the identifiers of those that the
/// page and its ancestors name by a reference. It fails where the ancestry is
/// broken.
#[verifier::external_body]
fn page_resources(doc: &lopdf::Document, page_id: (u32, u16)) -> (r: Option<
    (Option<Vec<Entry>>, Vec<(u32, u16)>),
>)
    ensures
        match r {
            None => page_resource_ids(document_objects(*doc), page_id) is None,
            Some((own, ids)) => {
                &&& page_resource_ids(document_objects(*doc), page_id) == Some(ids@)
                &&& match own {
                    Some(entries) => own_resources(document_objects(*doc), page_id) == Some(pairs(entries@)),
                    None => own_resources(document_objects(*doc), page_id) is None,
                }
            },
        },
{
    doc.get_page_resources(page_id).ok().map(|(own, ids)| (own.map(entries_of), ids))
}

/// The tables after the dictionaries with these identifiers are added in turn.
/// An identifier of anything else adds nothing.
pub open spec fn tables_of_references(
    before: PaintTables,
    objects: Map<(u32, u16), Node>,
    ids: Seq<(u32, u16)>,
) -> PaintTables
    decreases ids.len(),
{
    if ids.len() == 0 {
        before
    } else {
        let tables = tables_of_references(before, objects, ids.drop_last());
        match looked_up(objects, ids.last()) {
            Some(Node::Dictionary(resources)) => tables_with(tables, objects, resources),
            _ => tables,
        }
    }
}

/// The tables of a page.
pub open spec fn page_tables(objects: Map<(u32, u16), Node>, page_id: (u32, u16)) -> PaintTables {
    match page_resource_ids(objects, page_id) {
        Some(ids) => {
            let base = match own_resources(objects, page_id) {
                Some(resources) => tables_with(empty_tables(), objects, resources),
                None => empty_tables(),
            };
            tables_of_references(base, objects, ids)
        },
        None => empty_tables(),
    }
}

/// A colour with its components; those that the space does not have are 0.
#[derive(Clone, Copy, Debug)]
pub struct Color {
    pub space: ColorSpace,
    pub first: Single,
    pub second: Single,
    pub third: Single,
    pub fourth: Single,
}

impl Color {
    /// The same space and numerically the same components.
    pub open spec fn spec_same(self, other: Color) -> bool {
        &&& self.space == other.space
        &&& self.first.spec_same(other.first) && self.second.spec_same(other.second)
        &&& self.third.spec_same(other.third) && self.fourth.spec_same(other.fourth)
    }

    pub fn same(&self, other: &Color) -> (r: bool)
        ensures
            r == self.spec_same(*other),
    {
        self.space == other.space && self.first.same(other.first) && self.second.same(other.second)
            && self.third.same(other.third) && self.fourth.same(other.fourth)
    }
}

/// The component at `i` of a colour with these operands: 0 past their end,
/// `None` for anything but a number between 0 and 1.
pub open spec fn component(operands: Seq<Node>, i: int) -> Option<Single> {
    if i >= operands.len() {
        Some(Single { bits: 0 })
    } else {
        match number_of(operands[i]) {
            Some(x) => if unit_range(x) {
                Some(x)
            } else {
                None
            },
            None => None,
        }
    }
}

/// The colour that the operands give in a space, if they are as many numbers
/// between 0 and 1 as it has components.
pub open spec fn color_of(space: Option<ColorSpace>, operands: Seq<Node>) -> Option<Color> {
    match space {
        None => None,
        Some(space) => if operands.len() != space.spec_components() || operands.len() > 4 {
            None
        } else {
            match (
                component(operands, 0),
                component(operands, 1),
                component(operands, 2),
                component(operands, 3),
            ) {
                (Some(first), Some(second), Some(third), Some(fourth)) => Some(
                    Color { space, first, second, third, fourth },
                ),
                _ => None,
            }
        },
    }
}

fn read_component(operands: &Vec<PdfObject>, i: usize) -> (r: Option<Single>)
    ensures
        r == component(nodes(operands@), i as int),
{
    if i >= operands.len() {
        Some(Single::zero())
    } else {
        assert(nodes(operands@)[i as int] == operands@[i as int]@);
        match get_number(&operands[i]) {
            Some(x) => if in_unit_range(x) {
                Some(x)
            } else {
                None
            },
            None => None,
        }
    }
}

fn read_color(space: Option<ColorSpace>, operands: &Vec<PdfObject>) -> (r: Option<Color>)
    ensures
        r == color_of(space, nodes(operands@)),
{
    match space {
        None => None,
        Some(space) => {
            if operands.len() != space.components() || operands.len() > 4 {
                return None;
            }
            match (
                read_component(operands, 0),
                read_component(operands, 1),
                read_component(operands, 2),
                read_component(operands, 3),
            ) {
                (Some(first), Some(second), Some(third), Some(fourth)) => Some(
                    Color { space, first, second, third, fourth },
                ),
                _ => None,
            }
        },
    }
}

/// The number that the first operand is.
pub open spec fn first_number(operands: Seq<Node>) -> Option<Single> {
    if operands.len() == 0 {
        None
    } else {
        number_of(operands[0])
    }
}

pub fn read_first_number(operands: &Vec<PdfObject>) -> (r: Option<Single>)
    ensures
        r == first_number(nodes(operands@)),
{
    if operands.len() == 0 {
        None
    } else {
        assert(nodes(operands@)[0] == operands@[0]@);
        get_number(&operands[0])
    }
}

/// The name that the first operand is.
pub open spec fn first_name(operands: Seq<Node>) -> Option<Seq<u8>> {
    if operands.len() == 0 {
        None
    } else {
        match operands[0] {
            Node::Name(name) => Some(name),
            _ => None,
        }
    }
}

pub fn read_first_name(operands: &Vec<PdfObject>) -> (r: Option<&Vec<u8>>)
    ensures
        match r {
            Some(name) => first_name(nodes(operands@)) == Some(name@),
            None => first_name(nodes(operands@)) is None,
        },
{
    if operands.len() == 0 {
        None
    } else {
        assert(nodes(operands@)[0] == operands@[0]@);
        match &operands[0] {
            PdfObject::Name(name) => Some(name),
            _ => None,
        }
    }
}

/// The pattern of the NaN that stands for a missing line width.
pub const MISSING_WIDTH_BITS: u32 = 0x7fc0_0000;

/// `0.01`: the least stroke width that counts, as a fraction of the text size.
pub const LEAST_STROKE_BITS: u32 = 0x3c23_d70a;

/// The part of the graphics state that decides whether text is painted twice.
/// It persists across text objects.
#[derive(Clone, Copy, Debug)]
pub struct TextPaint {
    pub rendering_mode: i32,
    pub fill_space: Option<ColorSpace>,
    pub stroke_space: Option<ColorSpace>,
    pub fill: Option<Color>,
    pub stroke: Option<Color>,
    pub width: Single,
    pub solid: bool,
    pub known_compositing: bool,
}

/// A transformation by its six coefficients.
#[derive(Clone, Copy, Debug, PartialEq, Eq, Structural)]
pub struct Matrix {
    pub a: Single,
    pub b: Single,
    pub c: Single,
    pub d: Single,
    pub e: Single,
    pub f: Single,
}

impl Matrix {
    pub open spec fn spec_finite(self) -> bool {
        &&& self.a.spec_finite() && self.b.spec_finite() && self.c.spec_finite()
        &&& self.d.spec_finite() && self.e.spec_finite() && self.f.spec_finite()
    }

    pub fn is_finite(&self) -> (r: bool)
        ensures
            r == self.spec_finite(),
    {
        self.a.is_finite() && self.b.is_finite() && self.c.is_finite() && self.d.is_finite()
            && self.e.is_finite() && self.f.is_finite()
    }

    pub open spec fn spec_determinant(self) -> Single {
        self.a.spec_times(self.d).spec_minus(self.b.spec_times(self.c))
    }

    pub fn determinant(&self) -> (r: Single)
        ensures
            r == self.spec_determinant(),
    {
        self.a.times(self.d).minus(self.b.times(self.c))
    }

    /// The product of two transformations: this one is applied first.
    pub open spec fn spec_times(self, other: Matrix) -> Matrix {
        Matrix {
            a: self.a.spec_times(other.a).spec_plus(self.b.spec_times(other.c)),
            b: self.a.spec_times(other.b).spec_plus(self.b.spec_times(other.d)),
            c: self.c.spec_times(other.a).spec_plus(self.d.spec_times(other.c)),
            d: self.c.spec_times(other.b).spec_plus(self.d.spec_times(other.d)),
            e: self.e.spec_times(other.a).spec_plus(self.f.spec_times(other.c)).spec_plus(other.e),
            f: self.e.spec_times(other.b).spec_plus(self.f.spec_times(other.d)).spec_plus(other.f),
        }
    }

    pub fn times(&self, other: &Matrix) -> (r: Matrix)
        ensures
            r == self.spec_times(*other),
    {
        Matrix {
            a: self.a.times(other.a).plus(self.b.times(other.c)),
            b: self.a.times(other.b).plus(self.b.times(other.d)),
            c: self.c.times(other.a).plus(self.d.times(other.c)),
            d: self.c.times(other.b).plus(self.d.times(other.d)),
            e: self.e.times(other.a).plus(self.f.times(other.c)).plus(other.e),
            f: self.e.times(other.b).plus(self.f.times(other.d)).plus(other.f),
        }
    }

    /// The transformation with its origin moved up by a rise.
    pub open spec fn spec_raised(self, rise: Single) -> Matrix {
        Matrix {
            e: self.e.spec_plus(rise.spec_times(self.c)),
            f: self.f.spec_plus(rise.spec_times(self.d)),
            ..self
        }
    }

    pub fn raised(&self, rise: Single) -> (r: Matrix)
        ensures
            r == self.spec_raised(rise),
    {
        Matrix { e: self.e.plus(rise.times(self.c)), f: self.f.plus(rise.times(self.d)), ..*self }
    }

    pub open spec fn spec_identity() -> Matrix {
        let zero = Single { bits: 0 };
        let one = Single { bits: ONE_BITS };
        Matrix { a: one, b: zero, c: zero, d: one, e: zero, f: zero }
    }

    pub fn identity() -> (r: Matrix)
        ensures
            r == Matrix::spec_identity(),
    {
        let zero = Single::zero();
        let one = Single::one();
        Matrix { a: one, b: zero, c: zero, d: one, e: zero, f: zero }
    }
}

/// Black in the gray space.
pub open spec fn black() -> Color {
    let zero = Single { bits: 0 };
    Color { space: ColorSpace::Gray, first: zero, second: zero, third: zero, fourth: zero }
}

/// The space that a colour operator sets, if it sets one.
pub open spec fn operator_space(operator: Seq<char>, gray: Seq<char>, rgb: Seq<char>, cmyk: Seq<char>) -> Option<
    ColorSpace,
> {
    if operator == gray {
        Some(ColorSpace::Gray)
    } else if operator == rgb {
        Some(ColorSpace::Rgb)
    } else if operator == cmyk {
        Some(ColorSpace::Cmyk)
    } else {
        None
    }
}

fn read_operator_space(operator: &str, gray: &str, rgb: &str, cmyk: &str) -> (r: Option<ColorSpace>)
    ensures
        r == operator_space(operator@, gray@, rgb@, cmyk@),
{
    if same_text(operator, gray) {
        Some(ColorSpace::Gray)
    } else if same_text(operator, rgb) {
        Some(ColorSpace::Rgb)
    } else if same_text(operator, cmyk) {
        Some(ColorSpace::Cmyk)
    } else {
        None
    }
}

/// The family names of fonts that draw symbols.
pub open spec fn symbol_family(font_name: Seq<char>) -> bool {
    let family = ascii_lowered(font_name);
    contains(family, "wingdings"@) || contains(family, "webdings"@) || contains(family, "zapfdingbats"@)
}

/// The text has a letter or a digit.
pub open spec fn has_alphanumeric(text: Seq<char>) -> bool {
    exists|i: int| 0 <= i < text.len() && (alphabetic(#[trigger] text[i]) || numeric(text[i]))
}

pub fn any_alphanumeric(text: &str) -> (r: bool)
    ensures
        r == has_alphanumeric(text@),
{
    let chars = characters(text);
    let mut i: usize = 0;
    while i < chars.len()
        invariant
            i <= chars@.len(),
            chars@ == text@,
            forall|j: int| 0 <= j < i ==> !alphabetic(#[trigger] text@[j]) && !numeric(text@[j]),
        decreases chars@.len() - i,
    {
        let c: char = chars[i];
        assert(c == text@[i as int]);
        if c.is_alphabetic() || c.is_numeric() {
            return true;
        }
        i += 1;
    }
    false
}

impl TextPaint {
    /// What an operator does to the paint.
    pub open spec fn after(self, operator: Seq<char>, operands: Seq<Node>, tables: PaintTables) -> TextPaint {
        if operator == "Tr"@ {
            match first_number(operands) {
                Some(mode) => TextPaint { rendering_mode: mode.spec_truncated() as i32, ..self },
                None => self,
            }
        } else if operator == "w"@ {
            TextPaint {
                width: match first_number(operands) {
                    Some(width) => width,
                    None => Single { bits: MISSING_WIDTH_BITS },
                },
                ..self
            }
        } else if operator == "d"@ {
            TextPaint {
                solid: operands.len() > 0 && (operands[0] matches Node::Array(dashes) && dashes.len() == 0),
                ..self
            }
        } else if operator == "gs"@ {
            TextPaint {
                known_compositing: self.known_compositing && match first_name(operands) {
                    Some(name) => tables.states.contains_key(name) && tables.states[name],
                    None => false,
                },
                ..self
            }
        } else if operator == "cs"@ || operator == "CS"@ {
            let space = match first_name(operands) {
                Some(name) => named_space(tables, name),
                None => None,
            };
            if operator == "cs"@ {
                TextPaint { fill_space: space, fill: None, ..self }
            } else {
                TextPaint { stroke_space: space, stroke: None, ..self }
            }
        } else if operator_space(operator, "g"@, "rg"@, "k"@) is Some {
            let space = operator_space(operator, "g"@, "rg"@, "k"@);
            TextPaint { fill_space: space, fill: color_of(space, operands), ..self }
        } else if operator_space(operator, "G"@, "RG"@, "K"@) is Some {
            let space = operator_space(operator, "G"@, "RG"@, "K"@);
            TextPaint { stroke_space: space, stroke: color_of(space, operands), ..self }
        } else if operator == "sc"@ || operator == "scn"@ {
            TextPaint { fill: color_of(self.fill_space, operands), ..self }
        } else if operator == "SC"@ || operator == "SCN"@ {
            TextPaint { stroke: color_of(self.stroke_space, operands), ..self }
        } else {
            self
        }
    }

    pub open spec fn spec_default() -> TextPaint {
        TextPaint {
            rendering_mode: 0,
            fill_space: Some(ColorSpace::Gray),
            stroke_space: Some(ColorSpace::Gray),
            fill: Some(black()),
            stroke: Some(black()),
            width: Single { bits: ONE_BITS },
            solid: true,
            known_compositing: true,
        }
    }

    /// Follows one operator of the content stream.
    pub fn observe(&mut self, operator: &str, operands: &Vec<PdfObject>, resources: &PaintResources)
        requires
            resources.wf(),
        ensures
            *final(self) == old(self).after(operator@, nodes(operands@), resources@),
    {
        if same_text(operator, "Tr") {
            if let Some(mode) = read_first_number(operands) {
                self.rendering_mode = mode.truncated();
            }
        } else if same_text(operator, "w") {
            self.width = match read_first_number(operands) {
                Some(width) => width,
                None => Single { bits: MISSING_WIDTH_BITS },
            };
        } else if same_text(operator, "d") {
            self.solid = if operands.len() == 0 {
                false
            } else {
                assert(nodes(operands@)[0] == operands@[0]@);
                match &operands[0] {
                    PdfObject::Array(dashes) => {
                        assert(nodes(dashes@).len() == dashes@.len());
                        dashes.len() == 0
                    },
                    _ => false,
                }
            };
        } else if same_text(operator, "gs") {
            // Smoothness does not change paint, and an overprint mode cannot
            // enable overprinting by itself. What became unknown stays unknown.
            let harmless = match read_first_name(operands) {
                Some(name) => resources.is_known_harmless(name),
                None => false,
            };
            self.known_compositing = self.known_compositing && harmless;
        } else if same_text(operator, "cs") || same_text(operator, "CS") {
            let space = match read_first_name(operands) {
                Some(name) => resources.space_named(name),
                None => None,
            };
            // Wait for an explicit colour: unknown and pattern spaces have none.
            if same_text(operator, "cs") {
                self.fill_space = space;
                self.fill = None;
            } else {
                self.stroke_space = space;
                self.stroke = None;
            }
        } else {
            let fills = read_operator_space(operator, "g", "rg", "k");
            let strokes = read_operator_space(operator, "G", "RG", "K");
            if fills.is_some() {
                self.fill_space = fills;
                self.fill = read_color(fills, operands);
            } else if strokes.is_some() {
                self.stroke_space = strokes;
                self.stroke = read_color(strokes, operands);
            } else if same_text(operator, "sc") || same_text(operator, "scn") {
                self.fill = read_color(self.fill_space, operands);
            } else if same_text(operator, "SC") || same_text(operator, "SCN") {
                self.stroke = read_color(self.stroke_space, operands);
            }
        }
    }

    /// Fill and stroke are known and the same.
    pub open spec fn one_color(self) -> bool {
        self.fill is Some && self.stroke is Some && self.fill->0.spec_same(self.stroke->0)
    }

    /// The number is finite and above 0.
    pub open spec fn positive(x: Single) -> bool {
        x.spec_finite() && Single { bits: 0 }.spec_less(x)
    }

    /// Text painted in this state looks bolder than its font: it is filled and
    /// stroked in one known colour by a solid line that is no hairline, and it
    /// is no drawing of a symbol.
    pub open spec fn bolder(
        self,
        text: Seq<char>,
        rendered_size: Single,
        font_name: Seq<char>,
        ctm: Matrix,
        scale: Single,
    ) -> bool {
        &&& self.rendering_mode == 2 || self.rendering_mode == 6
        &&& !symbol_family(font_name)
        &&& self.known_compositing && self.solid && self.one_color()
        &&& has_alphanumeric(text)
        &&& TextPaint::positive(self.width) && TextPaint::positive(rendered_size)
        &&& ctm.spec_finite()
        &&& ctm.spec_determinant().spec_finite() && !ctm.spec_determinant().spec_zero()
        &&& self.width.spec_times(scale).spec_finite()
        &&& rendered_size.spec_times(Single { bits: LEAST_STROKE_BITS }).spec_at_most(self.width.spec_times(scale))
    }

    fn is_positive(x: Single) -> (r: bool)
        ensures
            r == TextPaint::positive(x),
    {
        x.is_finite() && Single::zero().less(x)
    }

    /// Whether text painted in this state looks bolder than its font. The
    /// scale is the length of the shorter of the transformation's two axes.
    pub fn adds_bold(
        &self,
        text: &str,
        rendered_size: Single,
        font_name: &str,
        ctm: &Matrix,
        scale: Single,
    ) -> (r: bool)
        ensures
            r == self.bolder(text@, rendered_size, font_name@, *ctm, scale),
    {
        // Modes 2 and 6 fill and stroke; 1 and 5 merely outline, 7 only clips.
        if self.rendering_mode != 2 && self.rendering_mode != 6 {
            return false;
        }
        let family = lower_ascii(font_name);
        if contains_chars(&family, &characters("wingdings")) || contains_chars(&family, &characters("webdings"))
            || contains_chars(&family, &characters("zapfdingbats")) {
            return false;
        }
        let one_color = match (&self.fill, &self.stroke) {
            (Some(fill), Some(stroke)) => fill.same(stroke),
            _ => false,
        };
        // Stroke width is in user space, independent of the text matrix. A
        // device hairline or a stroke below a hundredth of the em is no
        // dependable evidence of extra weight.
        let determinant = ctm.determinant();
        let stroke = self.width.times(scale);
        self.known_compositing && self.solid && one_color && any_alphanumeric(text)
            && TextPaint::is_positive(self.width) && TextPaint::is_positive(rendered_size) && ctm.is_finite()
            && determinant.is_finite() && !determinant.is_zero() && stroke.is_finite()
            && rendered_size.times(Single { bits: LEAST_STROKE_BITS }).at_most(stroke)
    }
}

impl Default for TextPaint {
    fn default() -> (r: TextPaint)
        ensures
            r == TextPaint::spec_default(),
    {
        let zero = Single::zero();
        let black = Color { space: ColorSpace::Gray, first: zero, second: zero, third: zero, fourth: zero };
        TextPaint {
            rendering_mode: 0,
            fill_space: Some(ColorSpace::Gray),
            stroke_space: Some(ColorSpace::Gray),
            fill: Some(black),
            stroke: Some(black),
            width: Single::one(),
            solid: true,
            known_compositing: true,
        }
    }
}

/// Compositing that became unknown stays unknown, whatever operator follows.
pub proof fn law_unknown_compositing_is_kept(
    paint: TextPaint,
    operator: Seq<char>,
    operands: Seq<Node>,
    tables: PaintTables,
)
    requires
        !paint.known_compositing,
    ensures
        !paint.after(operator, operands, tables).known_compositing,
{
}

/// A name that the resources know keeps its meaning when more are added.
pub proof fn law_first_meaning_stands(
    tables: PaintTables,
    objects: Map<(u32, u16), Node>,
    resources: Seq<(Seq<u8>, Node)>,
    name: Seq<u8>,
)
    ensures
        tables.spaces.contains_key(name) ==> tables_with(tables, objects, resources).spaces[name]
            == tables.spaces[name],
        tables.states.contains_key(name) ==> tables_with(tables, objects, resources).states[name]
            == tables.states[name],
{
}

} // verus!
