//! Form and image objects: which ones a dictionary names, how far they are
//! expanded, and how the content stream of a form is walked.
//!
//! The walk keeps the graphics and text state and decides what each operator
//! shows. Decoded texts, measured widths and matrix products come from outside.

use crate::extractor::text_paint::Matrix;
use crate::pdf::{
    document_objects, entry, find, get_number, get_object, is_spelled, lemma_compound_node, looked_up, nodes,
    number_of, pairs, spells, copy_entries, Entry, Node, PdfObject,
};
use crate::single::Single;
use crate::table::copy_bytes;
use crate::text::same_text;
use crate::unicode::{lossy, lossy_text};
use vstd::prelude::*;

verus! {

broadcast use lemma_compound_node;

/// How deep forms are expanded.
pub const MAX_FORM_XOBJECT_DEPTH: u8 = 5;

/// The forms that are invoked on one page at most. Depth alone is not enough:
/// where each form invokes the next several times the work grows with its
/// power.
pub const MAX_FORM_XOBJECT_INVOCATIONS: usize = 10_000;

/// The operators that are walked across all forms of one page at most.
pub const MAX_FORM_XOBJECT_OPERATIONS: usize = 1_000_000;

/// Shared budget for the expansion of forms on a page.
#[derive(Clone, Copy, Debug, PartialEq, Eq, Structural)]
pub struct FormWalkBudget {
    pub invocations: usize,
    pub operations: usize,
    pub max_invocations: usize,
    pub max_operations: usize,
    pub truncated: bool,
}

impl FormWalkBudget {
    /// Neither count is above its limit.
    pub open spec fn wf(self) -> bool {
        self.invocations <= self.max_invocations && self.operations <= self.max_operations
    }

    /// One of the limits is reached.
    pub open spec fn spent(self) -> bool {
        self.invocations >= self.max_invocations || self.operations >= self.max_operations
    }

    pub fn new() -> (r: FormWalkBudget)
        ensures
            r.wf(),
            r == (FormWalkBudget {
                invocations: 0,
                operations: 0,
                max_invocations: MAX_FORM_XOBJECT_INVOCATIONS,
                max_operations: MAX_FORM_XOBJECT_OPERATIONS,
                truncated: false,
            }),
    {
        FormWalkBudget::with_limits(MAX_FORM_XOBJECT_INVOCATIONS, MAX_FORM_XOBJECT_OPERATIONS)
    }

    pub fn with_limits(max_invocations: usize, max_operations: usize) -> (r: FormWalkBudget)
        ensures
            r.wf(),
            r == (FormWalkBudget {
                invocations: 0,
                operations: 0,
                max_invocations,
                max_operations,
                truncated: false,
            }),
    {
        FormWalkBudget { invocations: 0, operations: 0, max_invocations, max_operations, truncated: false }
    }

    /// Whether a limit is reached; that one was is remembered.
    pub fn exhausted(&mut self) -> (r: bool)
        ensures
            r == old(self).spent(),
            *final(self) == (FormWalkBudget { truncated: old(self).truncated || r, ..*old(self) }),
    {
        if self.invocations >= self.max_invocations || self.operations >= self.max_operations {
            self.truncated = true;
            true
        } else {
            false
        }
    }

    /// Charges one form, unless a limit is reached.
    pub fn charge_invocation(&mut self) -> (r: bool)
        ensures
            r == !old(self).spent(),
            *final(self) == if r {
                FormWalkBudget { invocations: (old(self).invocations + 1) as usize, ..*old(self) }
            } else {
                FormWalkBudget { truncated: true, ..*old(self) }
            },
            old(self).wf() ==> final(self).wf(),
    {
        if self.exhausted() {
            return false;
        }
        self.invocations = self.invocations + 1;
        true
    }

    /// Charges one operator. Independent of the limit on forms, so that a form
    /// which was admitted can finish its stream.
    pub fn charge_operation(&mut self) -> (r: bool)
        ensures
            r == (old(self).operations < old(self).max_operations),
            *final(self) == if r {
                FormWalkBudget { operations: (old(self).operations + 1) as usize, ..*old(self) }
            } else {
                FormWalkBudget { truncated: true, ..*old(self) }
            },
            old(self).wf() ==> final(self).wf(),
    {
        if self.operations >= self.max_operations {
            self.truncated = true;
            return false;
        }
        self.operations = self.operations + 1;
        true
    }

    pub fn was_truncated(&self) -> (r: bool)
        ensures
            r == self.truncated,
    {
        self.truncated
    }
}

/// An object that a content stream can paint by name.
#[derive(Clone, Copy, Debug, PartialEq, Eq, Structural)]
pub enum XObjectType {
    Image,
    /// A form, by its object.
    Form(u32, u16),
}

/// The painted objects of a resource dictionary, by name.
pub struct XObjectTable {
    names: Vec<String>,
    kinds: Vec<XObjectType>,
}

/// The map that a list of names gives when the last entry for a name stands.
pub open spec fn last_map(list: Seq<(Seq<char>, XObjectType)>) -> Map<Seq<char>, XObjectType>
    decreases list.len(),
{
    if list.len() == 0 {
        Map::empty()
    } else {
        last_map(list.drop_last()).insert(list.last().0, list.last().1)
    }
}

impl XObjectTable {
    pub closed spec fn wf(self) -> bool {
        self.names@.len() == self.kinds@.len()
    }

    pub closed spec fn list(self) -> Seq<(Seq<char>, XObjectType)> {
        Seq::new(self.names@.len(), |i: int| (self.names@[i]@, self.kinds@[i]))
    }

    /// What the table holds.
    pub open spec fn map(self) -> Map<Seq<char>, XObjectType> {
        last_map(self.list())
    }

    pub fn new() -> (r: XObjectTable)
        ensures
            r.wf(),
            r.map() == Map::<Seq<char>, XObjectType>::empty(),
    {
        let r = XObjectTable { names: Vec::new(), kinds: Vec::new() };
        assert(r.list() =~= Seq::empty());
        r
    }

    pub fn insert(&mut self, name: String, kind: XObjectType)
        requires
            old(self).wf(),
        ensures
            final(self).wf(),
            final(self).map() == old(self).map().insert(name@, kind),
    {
        let ghost before = self.list();
        let ghost text = name@;
        self.names.push(name);
        self.kinds.push(kind);
        assert(self.list() =~= before.push((text, kind)));
        assert(self.list().drop_last() =~= before);
    }

    pub fn get(&self, name: &str) -> (r: Option<XObjectType>)
        requires
            self.wf(),
        ensures
            match r {
                Some(kind) => self.map().contains_key(name@) && self.map()[name@] == kind,
                None => !self.map().contains_key(name@),
            },
    {
        let mut n: usize = self.names.len();
        assert(self.list().take(n as int) =~= self.list());
        while n > 0
            invariant
                self.wf(),
                n <= self.names@.len(),
                self.map().contains_key(name@) == last_map(self.list().take(n as int)).contains_key(name@),
                self.map().contains_key(name@) ==> self.map()[name@] == last_map(self.list().take(n as int))[name@],
            decreases n,
        {
            proof {
                assert(self.list().take(n as int).drop_last() =~= self.list().take(n - 1));
                assert(self.list().take(n as int).last() == (self.names@[n - 1]@, self.kinds@[n - 1]));
            }
            if same_text(&self.names[n - 1], name) {
                return Some(self.kinds[n - 1]);
            }
            n -= 1;
        }
        None
    }
}

/// What kind of painted object an entry names: a stream behind a reference
/// whose subtype is image or form.
pub open spec fn xobject_kind(objects: Map<(u32, u16), Node>, value: Node) -> Option<XObjectType> {
    match value {
        Node::Reference(number, generation) => match looked_up(objects, (number, generation)) {
            Some(Node::Stream(stream)) => match find(stream, "Subtype"@) {
                Some(Node::Name(subtype)) => if spells(subtype, "Image"@) {
                    Some(XObjectType::Image)
                } else if spells(subtype, "Form"@) {
                    Some(XObjectType::Form(number, generation))
                } else {
                    None
                },
                _ => None,
            },
            _ => None,
        },
        _ => None,
    }
}

fn read_xobject_kind(doc: &lopdf::Document, value: &PdfObject) -> (r: Option<XObjectType>)
    ensures
        r == xobject_kind(document_objects(*doc), value@),
{
    match value {
        PdfObject::Reference(number, generation) => match get_object(doc, (*number, *generation)) {
            Some(PdfObject::Stream(stream)) => match entry(&stream, "Subtype") {
                Some(PdfObject::Name(subtype)) => if is_spelled(subtype, "Image") {
                    Some(XObjectType::Image)
                } else if is_spelled(subtype, "Form") {
                    Some(XObjectType::Form(*number, *generation))
                } else {
                    None
                },
                _ => None,
            },
            _ => None,
        },
        _ => None,
    }
}

/// A table with the painted objects among a dictionary's entries added.
pub open spec fn with_xobjects(
    before: Map<Seq<char>, XObjectType>,
    objects: Map<(u32, u16), Node>,
    entries: Seq<(Seq<u8>, Node)>,
) -> Map<Seq<char>, XObjectType>
    decreases entries.len(),
{
    if entries.len() == 0 {
        before
    } else {
        let map = with_xobjects(before, objects, entries.drop_last());
        match xobject_kind(objects, entries.last().1) {
            Some(kind) => map.insert(lossy(entries.last().0), kind),
            None => map,
        }
    }
}

/// The dictionary that an entry holds: itself, or the one behind its reference.
pub open spec fn held_dictionary(
    objects: Map<(u32, u16), Node>,
    entries: Seq<(Seq<u8>, Node)>,
    key: Seq<char>,
) -> Option<Seq<(Seq<u8>, Node)>> {
    match find(entries, key) {
        Some(Node::Reference(number, generation)) => match looked_up(objects, (number, generation)) {
            Some(Node::Dictionary(inner)) => Some(inner),
            _ => None,
        },
        Some(Node::Dictionary(inner)) => Some(inner),
        _ => None,
    }
}

fn read_held_dictionary(doc: &lopdf::Document, entries: &Vec<Entry>, key: &str) -> (r: Option<Vec<Entry>>)
    ensures
        match r {
            Some(inner) => held_dictionary(document_objects(*doc), pairs(entries@), key@) == Some(pairs(inner@)),
            None => held_dictionary(document_objects(*doc), pairs(entries@), key@) is None,
        },
{
    match entry(entries, key) {
        Some(PdfObject::Reference(number, generation)) => match get_object(doc, (*number, *generation)) {
            Some(PdfObject::Dictionary(inner)) => Some(inner),
            _ => None,
        },
        Some(PdfObject::Dictionary(inner)) => Some(copy_entries(inner)),
        _ => None,
    }
}

/// The painted objects that a resource dictionary names.
pub open spec fn resource_xobjects(
    objects: Map<(u32, u16), Node>,
    resources: Option<Seq<(Seq<u8>, Node)>>,
) -> Map<Seq<char>, XObjectType> {
    match resources {
        Some(resources) => match held_dictionary(objects, resources, "XObject"@) {
            Some(entries) => with_xobjects(Map::empty(), objects, entries),
            None => Map::empty(),
        },
        None => Map::empty(),
    }
}

/// Adds the painted objects that a resource dictionary names.
pub fn collect_xobjects_from_dict(doc: &lopdf::Document, resources: &Vec<Entry>, xobjects: &mut XObjectTable)
    requires
        old(xobjects).wf(),
    ensures
        final(xobjects).wf(),
        final(xobjects).map() == match held_dictionary(document_objects(*doc), pairs(resources@), "XObject"@) {
            Some(entries) => with_xobjects(old(xobjects).map(), document_objects(*doc), entries),
            None => old(xobjects).map(),
        },
{
    if let Some(entries) = read_held_dictionary(doc, resources, "XObject") {
        let ghost list = pairs(entries@);
        let ghost before = xobjects.map();
        let mut i: usize = 0;
        while i < entries.len()
            invariant
                i <= entries@.len(),
                list == pairs(entries@),
                xobjects.wf(),
                xobjects.map() == with_xobjects(before, document_objects(*doc), list.take(i as int)),
            decreases entries@.len() - i,
        {
            proof {
                assert(list.take(i + 1).drop_last() =~= list.take(i as int));
                assert(list.take(i + 1).last() == (entries@[i as int].key@, entries@[i as int].value@));
            }
            if let Some(kind) = read_xobject_kind(doc, &entries[i].value) {
                xobjects.insert(lossy_text(&entries[i].key), kind);
            }
            i += 1;
        }
        assert(list.take(list.len() as int) =~= list);
    }
}

/// The painted objects of a page's own resources.
pub fn get_page_xobjects(doc: &lopdf::Document, page_id: (u32, u16)) -> (r: XObjectTable)
    ensures
        r.wf(),
        r.map() == match looked_up(document_objects(*doc), page_id) {
            Some(Node::Dictionary(page)) => resource_xobjects(
                document_objects(*doc),
                held_dictionary(document_objects(*doc), page, "Resources"@),
            ),
            _ => Map::empty(),
        },
{
    let mut xobjects = XObjectTable::new();
    if let Some(PdfObject::Dictionary(page)) = get_object(doc, page_id) {
        if let Some(resources) = read_held_dictionary(doc, &page, "Resources") {
            collect_xobjects_from_dict(doc, &resources, &mut xobjects);
        }
    }
    xobjects
}

/// The painted objects of a form's resources.
pub fn get_form_xobjects(doc: &lopdf::Document, form: &Vec<Entry>) -> (r: XObjectTable)
    ensures
        r.wf(),
        r.map() == resource_xobjects(
            document_objects(*doc),
            held_dictionary(document_objects(*doc), pairs(form@), "Resources"@),
        ),
{
    let mut xobjects = XObjectTable::new();
    if let Some(resources) = read_held_dictionary(doc, form, "Resources") {
        collect_xobjects_from_dict(doc, &resources, &mut xobjects);
    }
    xobjects
}

/// A font of a form, by its name in the resources.
pub struct FormFont {
    pub name: Vec<u8>,
    pub dictionary: Vec<Entry>,
}

pub open spec fn font_views(fonts: Seq<FormFont>) -> Seq<(Seq<u8>, Seq<(Seq<u8>, Node)>)> {
    Seq::new(fonts.len(), |i: int| (fonts[i].name@, pairs(fonts[i].dictionary@)))
}

/// The dictionary that a font entry gives directly or by a reference.
pub open spec fn font_dictionary(objects: Map<(u32, u16), Node>, value: Node) -> Option<Seq<(Seq<u8>, Node)>> {
    match value {
        Node::Reference(number, generation) => match looked_up(objects, (number, generation)) {
            Some(Node::Dictionary(font)) => Some(font),
            _ => None,
        },
        Node::Dictionary(font) => Some(font),
        _ => None,
    }
}

/// The fonts among a dictionary's entries, in order.
pub open spec fn listed_fonts(
    objects: Map<(u32, u16), Node>,
    entries: Seq<(Seq<u8>, Node)>,
) -> Seq<(Seq<u8>, Seq<(Seq<u8>, Node)>)>
    decreases entries.len(),
{
    if entries.len() == 0 {
        Seq::empty()
    } else {
        let before = listed_fonts(objects, entries.drop_last());
        match font_dictionary(objects, entries.last().1) {
            Some(font) => before.push((entries.last().0, font)),
            None => before,
        }
    }
}

/// The fonts of a form's resources.
pub open spec fn form_fonts(
    objects: Map<(u32, u16), Node>,
    form: Seq<(Seq<u8>, Node)>,
) -> Seq<(Seq<u8>, Seq<(Seq<u8>, Node)>)> {
    match held_dictionary(objects, form, "Resources"@) {
        Some(resources) => match held_dictionary(objects, resources, "Font"@) {
            Some(entries) => listed_fonts(objects, entries),
            None => Seq::empty(),
        },
        None => Seq::empty(),
    }
}

/// The fonts of a form's resources, in the order of the dictionary.
pub fn get_form_fonts(doc: &lopdf::Document, form: &Vec<Entry>) -> (r: Vec<FormFont>)
    ensures
        font_views(r@) == form_fonts(document_objects(*doc), pairs(form@)),
{
    let mut fonts: Vec<FormFont> = Vec::new();
    assert(font_views(fonts@) =~= Seq::empty());
    let resources = match read_held_dictionary(doc, form, "Resources") {
        Some(resources) => resources,
        None => {
            return fonts;
        },
    };
    let entries = match read_held_dictionary(doc, &resources, "Font") {
        Some(entries) => entries,
        None => {
            return fonts;
        },
    };
    let ghost list = pairs(entries@);
    let ghost objects = document_objects(*doc);
    let mut i: usize = 0;
    assert(font_views(fonts@) =~= listed_fonts(objects, list.take(0)));
    while i < entries.len()
        invariant
            i <= entries@.len(),
            list == pairs(entries@),
            objects == document_objects(*doc),
            font_views(fonts@) == listed_fonts(objects, list.take(i as int)),
        decreases entries@.len() - i,
    {
        proof {
            assert(list.take(i + 1).drop_last() =~= list.take(i as int));
            assert(list.take(i + 1).last() == (entries@[i as int].key@, entries@[i as int].value@));
        }
        let ghost before = font_views(fonts@);
        let dictionary = match &entries[i].value {
            PdfObject::Reference(number, generation) => match get_object(doc, (*number, *generation)) {
                Some(PdfObject::Dictionary(font)) => Some(font),
                _ => None,
            },
            PdfObject::Dictionary(font) => Some(copy_entries(font)),
            _ => None,
        };
        if let Some(dictionary) = dictionary {
            let ghost pair = (entries@[i as int].key@, pairs(dictionary@));
            fonts.push(FormFont { name: copy_bytes(&entries[i].key), dictionary });
            assert(font_views(fonts@) =~= before.push(pair));
        }
        i += 1;
    }
    assert(list.take(list.len() as int) =~= list);
    fonts
}

/// An ordinary text font, whose stroke weight can be inferred. An unknown font
/// may draw its glyphs by arbitrary content.
pub open spec fn ordinary_font(font: Seq<(Seq<u8>, Node)>) -> bool {
    find(font, "Subtype"@) matches Some(Node::Name(subtype)) && (spells(subtype, "Type0"@) || spells(
        subtype,
        "Type1"@,
    ) || spells(subtype, "MMType1"@) || spells(subtype, "TrueType"@))
}

pub fn is_ordinary_font(font: &Vec<Entry>) -> (r: bool)
    ensures
        r == ordinary_font(pairs(font@)),
{
    match entry(font, "Subtype") {
        Some(PdfObject::Name(subtype)) => is_spelled(subtype, "Type0") || is_spelled(subtype, "Type1") || is_spelled(
            subtype,
            "MMType1",
        ) || is_spelled(subtype, "TrueType"),
        _ => false,
    }
}

/// Where the character map of a font comes from.
#[derive(Clone, Copy, Debug, PartialEq, Eq, Structural)]
pub enum CMapSource {
    /// The map of an object, by its number.
    Object(u32),
    /// A stream in the font dictionary itself.
    Inline,
    /// The map that the font's encoding gives.
    Encoding,
    /// There is none.
    Missing,
}

/// A font's own map stands before the one of its encoding, and that before the
/// one of its embedded program. An own map that is neither a reference nor a
/// stream gives none.
pub open spec fn map_source(
    font: Seq<(Seq<u8>, Node)>,
    encoding_gives_map: bool,
    font_program: Option<u32>,
) -> CMapSource {
    match find(font, "ToUnicode"@) {
        Some(Node::Reference(number, _)) => CMapSource::Object(number),
        Some(Node::Stream(_)) => CMapSource::Inline,
        Some(_) => CMapSource::Missing,
        None => if encoding_gives_map {
            CMapSource::Encoding
        } else {
            match font_program {
                Some(number) => CMapSource::Object(number),
                None => CMapSource::Missing,
            }
        },
    }
}

pub fn cmap_source(font: &Vec<Entry>, encoding_gives_map: bool, font_program: Option<u32>) -> (r: CMapSource)
    ensures
        r == map_source(pairs(font@), encoding_gives_map, font_program),
{
    match entry(font, "ToUnicode") {
        Some(PdfObject::Reference(number, _)) => CMapSource::Object(*number),
        Some(PdfObject::Stream(_)) => CMapSource::Inline,
        Some(_) => CMapSource::Missing,
        None => if encoding_gives_map {
            CMapSource::Encoding
        } else {
            match font_program {
                Some(number) => CMapSource::Object(number),
                None => CMapSource::Missing,
            }
        },
    }
}

/// The number at a position, or another one where there is none.
pub open spec fn number_or(operands: Seq<Node>, i: int, otherwise: Single) -> Single {
    match number_of(operands[i]) {
        Some(x) => x,
        None => otherwise,
    }
}

pub fn read_number_or(operands: &Vec<PdfObject>, i: usize, otherwise: Single) -> (r: Single)
    requires
        i < operands@.len(),
    ensures
        r == number_or(nodes(operands@), i as int, otherwise),
{
    assert(nodes(operands@)[i as int] == operands@[i as int]@);
    match get_number(&operands[i]) {
        Some(x) => x,
        None => otherwise,
    }
}

/// The matrix of six operands; one that is no number is taken from the other
/// matrix.
pub open spec fn matrix_or(operands: Seq<Node>, otherwise: Matrix) -> Matrix {
    Matrix {
        a: number_or(operands, 0, otherwise.a),
        b: number_or(operands, 1, otherwise.b),
        c: number_or(operands, 2, otherwise.c),
        d: number_or(operands, 3, otherwise.d),
        e: number_or(operands, 4, otherwise.e),
        f: number_or(operands, 5, otherwise.f),
    }
}

pub fn read_matrix_or(operands: &Vec<PdfObject>, otherwise: Matrix) -> (r: Matrix)
    requires
        operands@.len() >= 6,
    ensures
        r == matrix_or(nodes(operands@), otherwise),
{
    Matrix {
        a: read_number_or(operands, 0, otherwise.a),
        b: read_number_or(operands, 1, otherwise.b),
        c: read_number_or(operands, 2, otherwise.c),
        d: read_number_or(operands, 3, otherwise.d),
        e: read_number_or(operands, 4, otherwise.e),
        f: read_number_or(operands, 5, otherwise.f),
    }
}

pub open spec fn zero_matrix() -> Matrix {
    let zero = Single { bits: 0 };
    Matrix { a: zero, b: zero, c: zero, d: zero, e: zero, f: zero }
}

/// The matrix of a form: the identity unless its dictionary holds an array of
/// at least six items.
pub open spec fn own_matrix(form: Seq<(Seq<u8>, Node)>) -> Matrix {
    match find(form, "Matrix"@) {
        Some(Node::Array(items)) => if items.len() >= 6 {
            matrix_or(items, Matrix::spec_identity())
        } else {
            Matrix::spec_identity()
        },
        _ => Matrix::spec_identity(),
    }
}

pub fn form_matrix(form: &Vec<Entry>) -> (r: Matrix)
    ensures
        r == own_matrix(pairs(form@)),
{
    match entry(form, "Matrix") {
        Some(PdfObject::Array(items)) => if items.len() >= 6 {
            read_matrix_or(items, Matrix::identity())
        } else {
            Matrix::identity()
        },
        _ => Matrix::identity(),
    }
}

} // verus!
