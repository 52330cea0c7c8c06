//! PDF objects as plain values, and the lookups that `lopdf` makes in a document.

use crate::single::Single;
use crate::table::copy_bytes;
use crate::text::characters;
use crate::unicode::code_point;
use lopdf::Object;
use vstd::prelude::*;

verus! {

/// An object of a PDF file.
#[derive(Debug)]
pub enum PdfObject {
    Null,
    Boolean(bool),
    Integer(i64),
    Real(Single),
    Name(Vec<u8>),
    Text(Vec<u8>),
    Array(Vec<PdfObject>),
    Dictionary(Vec<Entry>),
    /// A stream, by its dictionary.
    Stream(Vec<Entry>),
    Reference(u32, u16),
}

/// An entry of a dictionary. A dictionary holds each key once.
#[derive(Debug)]
pub struct Entry {
    pub key: Vec<u8>,
    pub value: PdfObject,
}

/// What a [`PdfObject`] is, without its representation.
pub enum Node {
    Null,
    Boolean(bool),
    Integer(i64),
    Real(Single),
    Name(Seq<u8>),
    Text(Seq<u8>),
    Array(Seq<Node>),
    Dictionary(Seq<(Seq<u8>, Node)>),
    Stream(Seq<(Seq<u8>, Node)>),
    Reference(u32, u16),
}

pub open spec fn node_of(object: PdfObject) -> Node
    decreases object,
{
    match object {
        PdfObject::Null => Node::Null,
        PdfObject::Boolean(b) => Node::Boolean(b),
        PdfObject::Integer(n) => Node::Integer(n),
        PdfObject::Real(x) => Node::Real(x),
        PdfObject::Name(name) => Node::Name(name@),
        PdfObject::Text(text) => Node::Text(text@),
        PdfObject::Array(items) => Node::Array(
            Seq::new(
                items@.len(),
                |i: int|
                    if 0 <= i < items@.len() {
                        node_of(items@[i])
                    } else {
                        Node::Null
                    },
            ),
        ),
        PdfObject::Dictionary(entries) => Node::Dictionary(
            Seq::new(
                entries@.len(),
                |i: int|
                    if 0 <= i < entries@.len() {
                        (entries@[i].key@, node_of(entries@[i].value))
                    } else {
                        (Seq::empty(), Node::Null)
                    },
            ),
        ),
        PdfObject::Stream(entries) => Node::Stream(
            Seq::new(
                entries@.len(),
                |i: int|
                    if 0 <= i < entries@.len() {
                        (entries@[i].key@, node_of(entries@[i].value))
                    } else {
                        (Seq::empty(), Node::Null)
                    },
            ),
        ),
        PdfObject::Reference(number, generation) => Node::Reference(number, generation),
    }
}

impl View for PdfObject {
    type V = Node;

    open spec fn view(&self) -> Node {
        node_of(*self)
    }
}

/// The nodes of a list of objects.
pub open spec fn nodes(items: Seq<PdfObject>) -> Seq<Node> {
    Seq::new(items.len(), |i: int| items[i]@)
}

/// The keys and nodes of a dictionary's entries.
pub open spec fn pairs(entries: Seq<Entry>) -> Seq<(Seq<u8>, Node)> {
    Seq::new(entries.len(), |i: int| (entries[i].key@, entries[i].value@))
}

/// The node of a compound object is made of the nodes of its parts.
pub broadcast proof fn lemma_compound_node(object: PdfObject)
    ensures
        object matches PdfObject::Array(items) ==> #[trigger] node_of(object) == Node::Array(nodes(items@)),
        object matches PdfObject::Dictionary(entries) ==> node_of(object) == Node::Dictionary(pairs(entries@)),
        object matches PdfObject::Stream(entries) ==> node_of(object) == Node::Stream(pairs(entries@)),
{
    match object {
        PdfObject::Array(items) => {
            assert(node_of(object)->Array_0 =~= nodes(items@));
        },
        PdfObject::Dictionary(entries) => {
            assert(node_of(object)->Dictionary_0 =~= pairs(entries@));
        },
        PdfObject::Stream(entries) => {
            assert(node_of(object)->Stream_0 =~= pairs(entries@));
        },
        _ => {},
    }
}

/// The bytes spell the text, one byte for each character.
pub open spec fn spells(bytes: Seq<u8>, text: Seq<char>) -> bool {
    &&& bytes.len() == text.len()
    &&& forall|i: int| 0 <= i < bytes.len() ==> bytes[i] as int == text[i] as int
}

/// The value of the first entry whose key is spelled `key`.
pub open spec fn find(entries: Seq<(Seq<u8>, Node)>, key: Seq<char>) -> Option<Node>
    decreases entries.len(),
{
    if entries.len() == 0 {
        None
    } else if spells(entries[0].0, key) {
        Some(entries[0].1)
    } else {
        find(entries.drop_first(), key)
    }
}

/// What lies behind the object `id`: references are followed, `left` at most.
pub open spec fn followed(objects: Map<(u32, u16), Node>, id: (u32, u16), left: nat) -> Option<Node>
    decreases left,
{
    if !objects.contains_key(id) {
        None
    } else {
        match objects[id] {
            Node::Reference(number, generation) => if left == 0 {
                None
            } else {
                followed(objects, (number, generation), (left - 1) as nat)
            },
            node => Some(node),
        }
    }
}

/// The references that one lookup follows at most.
pub const REFERENCE_LIMIT: u32 = 128;

/// What a lookup of the object `id` finds.
pub open spec fn looked_up(objects: Map<(u32, u16), Node>, id: (u32, u16)) -> Option<Node> {
    followed(objects, id, REFERENCE_LIMIT as nat)
}

#[verifier::external_type_specification]
#[verifier::external_body]
pub struct ExDocument(lopdf::Document);

#[verifier::external_type_specification]
#[verifier::external_body]
pub struct ExObject(lopdf::Object);

#[verifier::external_type_specification]
#[verifier::external_body]
pub struct ExDictionary(lopdf::Dictionary);

/// The objects that a document holds, by their number and generation.
pub uninterp spec fn document_objects(doc: lopdf::Document) -> Map<(u32, u16), Node>;

/// The tree that an object of `lopdf` holds.
pub uninterp spec fn object_node(object: lopdf::Object) -> Node;

/// The entries that a dictionary of `lopdf` holds, in the order of insertion.
pub uninterp spec fn dictionary_entries(dictionary: lopdf::Dictionary) -> Seq<(Seq<u8>, Node)>;

/// `lopdf::Document::get_object`: the object with this identifier. References
/// are followed, and more than the limit of them is an error, as is a missing
/// object.
#[verifier::external_body]
fn document_get<'a>(doc: &'a lopdf::Document, id: (u32, u16)) -> (r: Option<&'a lopdf::Object>)
    ensures
        r is Some <==> looked_up(document_objects(*doc), id) is Some,
        r is Some ==> Some(object_node(*r->0)) == looked_up(document_objects(*doc), id),
{
    doc.get_object(id).ok()
}

/// The variants and fields of `lopdf::Object`, taken over one for one. A stream
/// keeps its dictionary.
#[verifier::external_body]
pub fn object_of(object: &lopdf::Object) -> (r: PdfObject)
    ensures
        r@ == object_node(*object),
{
    match object {
        Object::Null => PdfObject::Null,
        Object::Boolean(b) => PdfObject::Boolean(*b),
        Object::Integer(n) => PdfObject::Integer(*n),
        Object::Real(x) => PdfObject::Real(Single { bits: x.to_bits() }),
        Object::Name(name) => PdfObject::Name(name.clone()),
        Object::String(text, _) => PdfObject::Text(text.clone()),
        Object::Array(items) => PdfObject::Array(items.iter().map(object_of).collect()),
        Object::Dictionary(d) => PdfObject::Dictionary(entries_of(d)),
        Object::Stream(stream) => PdfObject::Stream(entries_of(&stream.dict)),
        Object::Reference(id) => PdfObject::Reference(id.0, id.1),
    }
}

/// `lopdf::Dictionary::iter`: the entries in the order of insertion, taken over
/// one for one.
#[verifier::external_body]
pub fn entries_of(dictionary: &lopdf::Dictionary) -> (r: Vec<Entry>)
    ensures
        pairs(r@) == dictionary_entries(*dictionary),
{
    dictionary.iter().map(|(key, value)| Entry { key: key.clone(), value: object_of(value) }).collect()
}

/// The object with this identifier, with references followed.
pub fn get_object(doc: &lopdf::Document, id: (u32, u16)) -> (r: Option<PdfObject>)
    ensures
        match r {
            Some(object) => looked_up(document_objects(*doc), id) == Some(object@),
            None => looked_up(document_objects(*doc), id) is None,
        },
{
    match document_get(doc, id) {
        Some(object) => Some(object_of(object)),
        None => None,
    }
}

/// Whether the bytes spell the text.
pub fn is_spelled(bytes: &Vec<u8>, text: &str) -> (r: bool)
    ensures
        r == spells(bytes@, text@),
{
    let chars = characters(text);
    if bytes.len() != chars.len() {
        return false;
    }
    let mut i: usize = 0;
    while i < chars.len()
        invariant
            i <= chars@.len(),
            chars@ == text@,
            bytes@.len() == chars@.len(),
            forall|j: int| 0 <= j < i ==> bytes@[j] as int == text@[j] as int,
        decreases chars@.len() - i,
    {
        if bytes[i] as u32 != code_point(chars[i]) {
            return false;
        }
        i += 1;
    }
    true
}

/// The value of the entry whose key is spelled `key`.
pub fn entry<'a>(entries: &'a Vec<Entry>, key: &str) -> (r: Option<&'a PdfObject>)
    ensures
        match r {
            Some(object) => find(pairs(entries@), key@) == Some(object@),
            None => find(pairs(entries@), key@) is None,
        },
{
    let mut i: usize = 0;
    assert(pairs(entries@).skip(0) =~= pairs(entries@));
    while i < entries.len()
        invariant
            i <= entries@.len(),
            find(pairs(entries@), key@) == find(pairs(entries@).skip(i as int), key@),
        decreases entries@.len() - i,
    {
        let ghost rest = pairs(entries@).skip(i as int);
        assert(rest[0] == (entries@[i as int].key@, entries@[i as int].value@));
        if is_spelled(&entries[i].key, key) {
            return Some(&entries[i].value);
        }
        assert(rest.drop_first() =~= pairs(entries@).skip(i + 1));
        i += 1;
    }
    None
}

/// A copy of an object.
pub fn copy_object(object: &PdfObject) -> (r: PdfObject)
    ensures
        r@ == object@,
    decreases object,
{
    broadcast use lemma_compound_node;

    match object {
        PdfObject::Null => PdfObject::Null,
        PdfObject::Boolean(b) => PdfObject::Boolean(*b),
        PdfObject::Integer(n) => PdfObject::Integer(*n),
        PdfObject::Real(x) => PdfObject::Real(*x),
        PdfObject::Name(name) => PdfObject::Name(copy_bytes(name)),
        PdfObject::Text(text) => PdfObject::Text(copy_bytes(text)),
        PdfObject::Array(items) => PdfObject::Array(copy_items(items)),
        PdfObject::Dictionary(entries) => PdfObject::Dictionary(copy_entries(entries)),
        PdfObject::Stream(entries) => PdfObject::Stream(copy_entries(entries)),
        PdfObject::Reference(number, generation) => PdfObject::Reference(*number, *generation),
    }
}

/// A copy of a list of objects.
pub fn copy_items(items: &Vec<PdfObject>) -> (r: Vec<PdfObject>)
    ensures
        nodes(r@) == nodes(items@),
    decreases items,
{
    let mut out: Vec<PdfObject> = Vec::new();
    let mut i: usize = 0;
    while i < items.len()
        invariant
            i <= items@.len(),
            out@.len() == i,
            forall|j: int| 0 <= j < i ==> (#[trigger] out@[j])@ == items@[j]@,
        decreases items@.len() - i,
    {
        assert(decreases_to!(items => items@));
        assert(decreases_to!(items@ => items@[i as int]));
        out.push(copy_object(&items[i]));
        i += 1;
    }
    assert(nodes(out@) =~= nodes(items@));
    out
}

/// A copy of a dictionary's entries.
pub fn copy_entries(entries: &Vec<Entry>) -> (r: Vec<Entry>)
    ensures
        pairs(r@) == pairs(entries@),
    decreases entries,
{
    let mut out: Vec<Entry> = Vec::new();
    let mut i: usize = 0;
    while i < entries.len()
        invariant
            i <= entries@.len(),
            out@.len() == i,
            forall|j: int|
                0 <= j < i ==> (#[trigger] out@[j]).key@ == entries@[j].key@ && out@[j].value@ == entries@[j].value@,
        decreases entries@.len() - i,
    {
        let item = &entries[i];
        assert(decreases_to!(entries => entries@));
        assert(decreases_to!(entries@ => entries@[i as int]));
        assert(decreases_to!(entries@[i as int] => entries@[i as int].value));
        out.push(Entry { key: copy_bytes(&item.key), value: copy_object(&item.value) });
        i += 1;
    }
    assert(pairs(out@) =~= pairs(entries@));
    out
}

/// What an object stands for: itself, or what its reference leads to.
pub open spec fn resolved(objects: Map<(u32, u16), Node>, node: Node) -> Option<Node> {
    match node {
        Node::Reference(number, generation) => looked_up(objects, (number, generation)),
        _ => Some(node),
    }
}

/// What an object stands for.
pub fn resolve(doc: &lopdf::Document, object: &PdfObject) -> (r: Option<PdfObject>)
    ensures
        match r {
            Some(target) => resolved(document_objects(*doc), object@) == Some(target@),
            None => resolved(document_objects(*doc), object@) is None,
        },
{
    match object {
        PdfObject::Reference(number, generation) => get_object(doc, (*number, *generation)),
        other => Some(copy_object(other)),
    }
}

/// The entries of a dictionary that an entry holds directly or by a reference.
pub open spec fn dictionary_under(
    objects: Map<(u32, u16), Node>,
    entries: Seq<(Seq<u8>, Node)>,
    key: Seq<char>,
) -> Option<Seq<(Seq<u8>, Node)>> {
    match find(entries, key) {
        Some(node) => match resolved(objects, node) {
            Some(Node::Dictionary(inner)) => Some(inner),
            _ => None,
        },
        None => None,
    }
}

pub fn get_dictionary_under(doc: &lopdf::Document, entries: &Vec<Entry>, key: &str) -> (r: Option<Vec<Entry>>)
    ensures
        match r {
            Some(inner) => dictionary_under(document_objects(*doc), pairs(entries@), key@) == Some(pairs(inner@)),
            None => dictionary_under(document_objects(*doc), pairs(entries@), key@) is None,
        },
{
    broadcast use lemma_compound_node;

    match entry(entries, key) {
        Some(object) => match resolve(doc, object) {
            Some(PdfObject::Dictionary(inner)) => Some(inner),
            _ => None,
        },
        None => None,
    }
}

/// The number that an object is, if it is one.
pub open spec fn number_of(node: Node) -> Option<Single> {
    match node {
        Node::Integer(n) => Some(Single::spec_from_integer(n)),
        Node::Real(x) => Some(x),
        _ => None,
    }
}

pub fn get_number(object: &PdfObject) -> (r: Option<Single>)
    ensures
        r == number_of(object@),
{
    match object {
        PdfObject::Integer(n) => Some(Single::from_integer(*n)),
        PdfObject::Real(x) => Some(*x),
        _ => None,
    }
}

} // verus!
