//! PDF documents as the `lopdf` crate holds them, and what they mean.
//!
//! The crate's types are opaque. What a value of one of them holds is named by
//! `document_value`, `dictionary_value`, `object_value`, `stream_dict` and
//! `stream_content`; everything else in this library is stated over those names.

use lopdf::{Dictionary, Document, Object, Stream};
use vstd::prelude::*;
use vstd::string::StringSliceAdditionalSpecFns;

verus! {

/// A PDF document as `lopdf` holds it in memory.
#[verifier::external_type_specification]
#[verifier::external_body]
pub struct ExDocument(lopdf::Document);

/// A PDF object as `lopdf` holds it in memory.
#[verifier::external_type_specification]
#[verifier::external_body]
pub struct ExObject(lopdf::Object);

/// A PDF dictionary as `lopdf` holds it in memory.
#[verifier::external_type_specification]
#[verifier::external_body]
pub struct ExDictionary(lopdf::Dictionary);

/// A PDF stream as `lopdf` holds it in memory.
#[verifier::external_type_specification]
#[verifier::external_body]
pub struct ExStream(lopdf::Stream);

/// The number and generation of an indirect object.
pub type ObjectId = (u32, u16);

/// What an object is, down to the last nested value.
#[verifier::ext_equal]
pub enum PdfValue {
    Null,
    Boolean(bool),
    Integer(i64),
    /// A real number, by the bits of its single-precision form.
    Real(u32),
    Name(Seq<u8>),
    /// A string: whether it is written in hexadecimal, and its bytes.
    Text(bool, Seq<u8>),
    Array(Seq<PdfValue>),
    Dictionary(Seq<(Seq<u8>, PdfValue)>),
    Stream(Seq<(Seq<u8>, PdfValue)>, Seq<u8>),
    Reference(ObjectId),
}

/// What a document holds: its indirect objects, the trailer, and what its
/// written form takes besides those.
#[verifier::ext_equal]
pub struct DocumentValue {
    pub objects: Map<ObjectId, PdfValue>,
    pub trailer: Seq<(Seq<u8>, PdfValue)>,
    /// The highest object number in use.
    pub max_id: u32,
    pub version: Seq<char>,
    pub binary_mark: Seq<u8>,
    /// Whether the cross-reference is written as a stream and not as a table.
    pub stream_cross_reference: bool,
}

/// What the object holds.
pub uninterp spec fn object_value(object: Object) -> PdfValue;

/// The dictionary's entries, in the order in which it keeps them.
pub uninterp spec fn dictionary_value(dict: Dictionary) -> Seq<(Seq<u8>, PdfValue)>;

/// The stream's dictionary.
pub uninterp spec fn stream_dict(stream: Stream) -> Seq<(Seq<u8>, PdfValue)>;

/// The stream's bytes, as they stand in the file.
pub uninterp spec fn stream_content(stream: Stream) -> Seq<u8>;

/// What the document holds.
pub uninterp spec fn document_value(doc: Document) -> DocumentValue;

/// An object, one level deep.
pub enum ObjectRef<'a> {
    Null,
    Boolean(bool),
    Integer(i64),
    Real,
    Name(&'a Vec<u8>),
    Text,
    Array(&'a Vec<Object>),
    Dictionary(&'a Dictionary),
    Stream(&'a Stream),
    Reference(ObjectId),
}

impl<'a> ObjectRef<'a> {
    /// Whether this is the outermost level of `value`.
    pub open spec fn shows(self, value: PdfValue) -> bool {
        match self {
            ObjectRef::Null => value is Null,
            ObjectRef::Boolean(b) => value == PdfValue::Boolean(b),
            ObjectRef::Integer(i) => value == PdfValue::Integer(i),
            ObjectRef::Real => value is Real,
            ObjectRef::Name(n) => value == PdfValue::Name(n@),
            ObjectRef::Text => value is Text,
            ObjectRef::Array(items) => value == PdfValue::Array(
                items@.map_values(|o: Object| object_value(o)),
            ),
            ObjectRef::Dictionary(d) => value == PdfValue::Dictionary(dictionary_value(*d)),
            ObjectRef::Stream(s) => value == PdfValue::Stream(stream_dict(*s), stream_content(*s)),
            ObjectRef::Reference(id) => value == PdfValue::Reference(id),
        }
    }
}

/// Tells the variants of `lopdf::Object` apart. The result shows the outermost
/// level of the object and borrows what lies below it.
#[verifier::external_body]
pub(crate) fn look<'a>(object: &'a Object) -> (r: ObjectRef<'a>)
    ensures
        r.shows(object_value(*object)),
{
    match object {
        Object::Null => ObjectRef::Null,
        Object::Boolean(b) => ObjectRef::Boolean(*b),
        Object::Integer(i) => ObjectRef::Integer(*i),
        Object::Real(_) => ObjectRef::Real,
        Object::Name(n) => ObjectRef::Name(n),
        Object::String(_, _) => ObjectRef::Text,
        Object::Array(items) => ObjectRef::Array(items),
        Object::Dictionary(d) => ObjectRef::Dictionary(d),
        Object::Stream(s) => ObjectRef::Stream(s),
        Object::Reference(id) => ObjectRef::Reference(*id),
    }
}

/// The value that `entries` holds under `key`, if any.
pub open spec fn entry(entries: Seq<(Seq<u8>, PdfValue)>, key: Seq<u8>) -> Option<PdfValue>
    decreases entries.len(),
{
    if entries.len() == 0 {
        None
    } else if entries[0].0 == key {
        Some(entries[0].1)
    } else {
        entry(entries.drop_first(), key)
    }
}

/// `Dictionary::get`: the object under `key`, or `None` where the dictionary has
/// no such key.
#[verifier::external_body]
pub(crate) fn get<'a>(dict: &'a Dictionary, key: &[u8]) -> (r: Option<&'a Object>)
    ensures
        match r {
            Some(object) => entry(dictionary_value(*dict), key@) == Some(object_value(*object)),
            None => entry(dictionary_value(*dict), key@) is None,
        },
{
    dict.get(key).ok()
}

/// `Dictionary::iter`: the objects of all entries, in the order in which the
/// dictionary keeps them.
#[verifier::external_body]
pub(crate) fn entry_objects<'a>(dict: &'a Dictionary) -> (r: Vec<&'a Object>)
    ensures
        r@.len() == dictionary_value(*dict).len(),
        forall|i: int|
            0 <= i < r@.len() ==> object_value(*#[trigger] r@[i]) == dictionary_value(*dict)[i].1,
{
    dict.iter().map(|entry| entry.1).collect()
}

/// The public fields `dict` and `content` of a `lopdf::Stream`.
#[verifier::external_body]
pub(crate) fn stream_parts<'a>(stream: &'a Stream) -> (r: (&'a Dictionary, &'a Vec<u8>))
    ensures
        dictionary_value(*r.0) == stream_dict(*stream),
        r.1@ == stream_content(*stream),
{
    (&stream.dict, &stream.content)
}

/// How many references in a row `lopdf` follows before it gives up.
pub const REFERENCE_LIMIT: usize = 128;

/// What `value` stands for once references have been followed, at most `limit`
/// of them: `None` where one leads nowhere or where too many follow each other.
pub open spec fn dereferenced(
    objects: Map<ObjectId, PdfValue>,
    value: PdfValue,
    limit: nat,
) -> Option<PdfValue>
    decreases limit,
{
    match value {
        PdfValue::Reference(id) => if limit == 0 || !objects.contains_key(id) {
            None
        } else {
            dereferenced(objects, objects[id], (limit - 1) as nat)
        },
        _ => Some(value),
    }
}

/// `Dictionary::get_deref`: the object under `key`, references followed; `None`
/// where there is no such key, or where a reference leads nowhere or too many
/// follow each other.
#[verifier::external_body]
pub(crate) fn get_deref<'a>(dict: &'a Dictionary, key: &[u8], doc: &'a Document) -> (r: Option<
    &'a Object,
>)
    ensures
        match entry(dictionary_value(*dict), key@) {
            Some(value) => match dereferenced(
                document_value(*doc).objects,
                value,
                REFERENCE_LIMIT as nat,
            ) {
                Some(found) => r matches Some(object) && object_value(*object) == found,
                None => r is None,
            },
            None => r is None,
        },
{
    dict.get_deref(key, doc).ok()
}

/// The object that `id` leads to.
pub open spec fn object_at(objects: Map<ObjectId, PdfValue>, id: ObjectId) -> Option<PdfValue> {
    if objects.contains_key(id) {
        dereferenced(objects, objects[id], REFERENCE_LIMIT as nat)
    } else {
        None
    }
}

/// `Document::get_object`: the object with the given id, references followed;
/// `None` where there is none or where too many references follow each other.
#[verifier::external_body]
pub(crate) fn get_object<'a>(doc: &'a Document, id: ObjectId) -> (r: Option<&'a Object>)
    ensures
        match r {
            Some(object) => object_at(document_value(*doc).objects, id) == Some(
                object_value(*object),
            ),
            None => object_at(document_value(*doc).objects, id) is None,
        },
{
    doc.get_object(id).ok()
}

/// The dictionary that `id` leads to.
pub open spec fn dictionary_at(objects: Map<ObjectId, PdfValue>, id: ObjectId) -> Option<
    Seq<(Seq<u8>, PdfValue)>,
> {
    match object_at(objects, id) {
        Some(PdfValue::Dictionary(d)) => Some(d),
        _ => None,
    }
}

/// The dictionary with the given id, references followed.
pub(crate) fn get_dictionary<'a>(doc: &'a Document, id: ObjectId) -> (r: Option<&'a Dictionary>)
    ensures
        match r {
            Some(d) => dictionary_at(document_value(*doc).objects, id) == Some(
                dictionary_value(*d),
            ),
            None => dictionary_at(document_value(*doc).objects, id) is None,
        },
{
    match get_object(doc, id) {
        Some(object) => match look(object) {
            ObjectRef::Dictionary(d) => Some(d),
            _ => None,
        },
        None => None,
    }
}

/// The public field `objects` of a `lopdf::Document`, looked up by id: the
/// object itself, references not followed.
#[verifier::external_body]
pub(crate) fn stored_object<'a>(doc: &'a Document, id: ObjectId) -> (r: Option<&'a Object>)
    ensures
        match r {
            Some(object) => document_value(*doc).objects.contains_key(id)
                && document_value(*doc).objects[id] == object_value(*object),
            None => !document_value(*doc).objects.contains_key(id),
        },
{
    doc.objects.get(&id)
}

/// The public field `trailer` of a `lopdf::Document`.
#[verifier::external_body]
pub(crate) fn trailer<'a>(doc: &'a Document) -> (r: &'a Dictionary)
    ensures
        dictionary_value(*r) == document_value(*doc).trailer,
{
    &doc.trailer
}

/// The ids under which the public field `objects` of a `lopdf::Document` holds
/// its objects, each of them once.
#[verifier::external_body]
pub(crate) fn object_ids(doc: &Document) -> (r: Vec<ObjectId>)
    ensures
        r@.no_duplicates(),
        r@.to_set() == document_value(*doc).objects.dom(),
{
    doc.objects.keys().copied().collect()
}

/// The public field `max_id` of a `lopdf::Document`.
#[verifier::external_body]
pub(crate) fn max_id(doc: &Document) -> (r: u32)
    ensures
        r == document_value(*doc).max_id,
{
    doc.max_id
}

/// The public field `binary_mark` of a `lopdf::Document`.
#[verifier::external_body]
pub(crate) fn binary_mark<'a>(doc: &'a Document) -> (r: &'a Vec<u8>)
    ensures
        r@ == document_value(*doc).binary_mark,
{
    &doc.binary_mark
}

/// The public field `cross_reference_type` in the public field `reference_table` of a
/// `lopdf::Document`: whether it is that of a stream.
#[verifier::external_body]
pub(crate) fn has_stream_cross_reference(doc: &Document) -> (r: bool)
    ensures
        r == document_value(*doc).stream_cross_reference,
{
    match doc.reference_table.cross_reference_type {
        lopdf::xref::XrefType::CrossReferenceStream => true,
        lopdf::xref::XrefType::CrossReferenceTable => false,
    }
}

/// `Document::clone`: another document that holds the same.
#[verifier::external_body]
pub(crate) fn duplicate(doc: &Document) -> (r: Document)
    ensures
        document_value(r) == document_value(*doc),
{
    doc.clone()
}

/// The number and the id of each page, in the order of the pages.
pub uninterp spec fn pages(value: DocumentValue) -> Seq<(u32, ObjectId)>;

/// The ids of the pages, in the order of the pages.
pub open spec fn page_ids(value: DocumentValue) -> Seq<ObjectId> {
    pages(value).map_values(|page: (u32, ObjectId)| page.1)
}

/// The catalog that the trailer names.
pub open spec fn catalog_id(value: DocumentValue) -> Option<ObjectId> {
    match entry(value.trailer, "Root".spec_bytes()) {
        Some(PdfValue::Reference(id)) => Some(id),
        _ => None,
    }
}

/// The root of the page tree that the catalog names.
pub open spec fn root_id(value: DocumentValue) -> Option<ObjectId> {
    match catalog_id(value) {
        Some(catalog) => match dictionary_at(value.objects, catalog) {
            Some(d) => match entry(d, "Pages".spec_bytes()) {
                Some(PdfValue::Reference(id)) => Some(id),
                _ => None,
            },
            None => None,
        },
        None => None,
    }
}

/// The kids that the dictionary at `id` lists.
pub open spec fn kids(value: DocumentValue, id: ObjectId) -> Seq<PdfValue> {
    match dictionary_at(value.objects, id) {
        Some(d) => match entry(d, "Kids".spec_bytes()) {
            Some(list) => match dereferenced(value.objects, list, REFERENCE_LIMIT as nat) {
                Some(PdfValue::Array(items)) => items,
                _ => seq![],
            },
            None => seq![],
        },
        None => seq![],
    }
}

/// The number of pages that the dictionary at `id` claims to have below it, where it
/// is of the type of a node of the page tree.
pub open spec fn claim(value: DocumentValue, id: ObjectId) -> Option<int> {
    match dictionary_at(value.objects, id) {
        Some(d) => if entry(d, "Type".spec_bytes()) == Some(PdfValue::Name("Pages".spec_bytes())) {
            match entry(d, "Count".spec_bytes()) {
                Some(count) => match dereferenced(value.objects, count, REFERENCE_LIMIT as nat) {
                    Some(PdfValue::Integer(n)) => Some(n as int),
                    _ => Some(0),
                },
                None => Some(0),
            }
        } else {
            None
        },
        None => None,
    }
}

/// Whether `nodes` holds all nodes that a walk down the page tree comes to: the root,
/// and each kid of one of its members that is of the type of a node.
pub open spec fn holds_nodes(value: DocumentValue, nodes: Set<ObjectId>) -> bool {
    &&& root_id(value) matches Some(root) ==> nodes.contains(root)
    &&& forall|id: ObjectId, i: int|
        nodes.contains(id) && 0 <= i < kids(value, id).len() ==> match #[trigger] kids(
            value,
            id,
        )[i] {
            PdfValue::Reference(kid) => claim(value, kid) is Some ==> nodes.contains(kid),
            _ => true,
        }
}

/// The number of pages for which room is made where `kid` is listed: as many as a node
/// claims, and one for anything else.
pub open spec fn room_for(value: DocumentValue, kid: PdfValue) -> int {
    match kid {
        PdfValue::Reference(id) => match claim(value, id) {
            Some(n) => if n > 0 {
                n
            } else {
                0
            },
            None => 1,
        },
        _ => 1,
    }
}

/// The number of pages for which room is made for a list of kids.
pub open spec fn room_for_all(value: DocumentValue, list: Seq<PdfValue>) -> int
    decreases list.len(),
{
    if list.len() == 0 {
        0
    } else {
        room_for_all(value, list.drop_last()) + room_for(value, list.last())
    }
}

/// How many bytes are set aside for each page that a node claims: room is made at up to
/// 257 levels of the page tree at once, with up to 16 bytes for a page, and as much is
/// left for the pages themselves.
pub const ROOM_BYTES: usize = 8192;

/// How many pages the kids of a node can claim together, where a `Vec` holds at most
/// `isize::MAX` bytes.
pub open spec fn room_limit() -> int {
    isize::MAX as int / ROOM_BYTES as int
}

/// Whether the kids of none of the nodes claim too many pages.
pub open spec fn claims_bounded(value: DocumentValue, nodes: Set<ObjectId>) -> bool {
    forall|id: ObjectId|
        nodes.contains(id) ==> room_for_all(value, #[trigger] kids(value, id)) <= room_limit()
}

/// Whether of the nodes that a walk down the page tree comes to, none has kids that claim
/// more pages together than a `Vec` has room for.
pub open spec fn claims_in_range(value: DocumentValue) -> bool {
    exists|nodes: Set<ObjectId>| #[trigger]
        holds_nodes(value, nodes) && claims_bounded(value, nodes)
}

/// How deep `lopdf` goes down a page tree.
pub const PAGE_TREE_DEPTH: usize = 256;

/// Whether `rank` shows the nodes to form a tree that is not too deep: every kid of a
/// node is a dictionary of its own, other than the catalog, and ranks below the node.
pub open spec fn ranked(
    value: DocumentValue,
    nodes: Set<ObjectId>,
    rank: Map<ObjectId, nat>,
) -> bool {
    forall|id: ObjectId, i: int|
        nodes.contains(id) && 0 <= i < kids(value, id).len() ==> match #[trigger] kids(
            value,
            id,
        )[i] {
            PdfValue::Reference(kid) => {
                &&& value.objects.contains_key(kid)
                &&& value.objects[kid] is Dictionary
                &&& catalog_id(value) != Some(kid)
                &&& rank[kid] < rank[id]
                &&& rank[id] <= PAGE_TREE_DEPTH
            },
            _ => false,
        }
}

/// Whether no kid is listed twice by the nodes.
pub open spec fn listed_once(value: DocumentValue, nodes: Set<ObjectId>) -> bool {
    forall|a: ObjectId, i: int, b: ObjectId, j: int|
        nodes.contains(a) && nodes.contains(b) && 0 <= i < kids(value, a).len() && 0 <= j < kids(
            value,
            b,
        ).len() && #[trigger] kids(value, a)[i] == #[trigger] kids(value, b)[j] ==> a == b && i
            == j
}

/// Whether the document has a page tree as a document should: the catalog and the
/// root are dictionaries, the nodes that a walk from the root comes to form a tree that
/// is not too deep, none of them lists a kid that has been listed, and there are enough
/// page numbers.
pub open spec fn plain_tree(value: DocumentValue) -> bool {
    &&& value.objects.dom().len() <= u32::MAX
    &&& catalog_id(value) matches Some(id) ==> value.objects.contains_key(id)
        && value.objects[id] is Dictionary
    &&& root_id(value) matches Some(id) ==> value.objects.contains_key(id)
        && value.objects[id] is Dictionary
    &&& exists|nodes: Set<ObjectId>, rank: Map<ObjectId, nat>|
        holds_nodes(value, nodes) && #[trigger] ranked(value, nodes, rank) && listed_once(
            value,
            nodes,
        )
}

/// `Document::get_pages`: number and id of each page, in ascending order of the
/// numbers, which count from 1 as long as there are enough of them. `lopdf` collects
/// them into a `Vec` first, and its iterator promises as many as the kids of the page
/// tree claim. More than a `Vec` has room for would be a panic, so the claims have to be
/// in range.
#[verifier::external_body]
pub(crate) fn get_pages(doc: &Document) -> (r: Vec<(u32, ObjectId)>)
    requires
        claims_in_range(document_value(*doc)),
    ensures
        r@ == pages(document_value(*doc)),
        document_value(*doc).objects.dom().len() <= u32::MAX ==> forall|i: int|
            0 <= i < r@.len() ==> (#[trigger] r@[i]).0 == i + 1,
{
    doc.get_pages().into_iter().collect()
}

/// The page that a document's pages list under `number`.
pub open spec fn page_with(pages: Seq<(u32, ObjectId)>, number: u32) -> Option<ObjectId>
    decreases pages.len(),
{
    if pages.len() == 0 {
        None
    } else if pages[0].0 == number {
        Some(pages[0].1)
    } else {
        page_with(pages.drop_first(), number)
    }
}

/// The object that a dictionary names as its parent in the page tree.
pub open spec fn parent(value: PdfValue) -> Option<ObjectId> {
    match value {
        PdfValue::Dictionary(d) => match entry(d, "Parent".spec_bytes()) {
            Some(PdfValue::Reference(id)) => Some(id),
            _ => None,
        },
        _ => None,
    }
}

/// Whether the way from `id` up the page tree comes to an end after at most
/// `steps` steps, where the pages in `gone` are in it no more.
pub open spec fn ends_within(
    objects: Map<ObjectId, PdfValue>,
    gone: Set<ObjectId>,
    id: ObjectId,
    steps: nat,
) -> bool
    decreases steps,
{
    if gone.contains(id) || !objects.contains_key(id) {
        true
    } else {
        match parent(objects[id]) {
            Some(up) => steps > 0 && ends_within(objects, gone, up, (steps - 1) as nat),
            None => true,
        }
    }
}

/// The objects that the way from `id` up the page tree passes, at most `steps` of them
/// after the first.
pub open spec fn way_up(
    objects: Map<ObjectId, PdfValue>,
    gone: Set<ObjectId>,
    id: ObjectId,
    steps: nat,
) -> Seq<ObjectId>
    decreases steps,
{
    if gone.contains(id) || !objects.contains_key(id) {
        seq![]
    } else {
        match parent(objects[id]) {
            Some(up) => if steps > 0 {
                seq![id] + way_up(objects, gone, up, (steps - 1) as nat)
            } else {
                seq![id]
            },
            None => seq![id],
        }
    }
}

/// The pages that have been taken out once those with the first `count` of
/// `numbers` have.
pub open spec fn gone_after(value: DocumentValue, numbers: Seq<u32>, count: int) -> Set<ObjectId> {
    Set::new(
        |id: ObjectId|
            exists|j: int|
                0 <= j < count && page_with(pages(value), #[trigger] numbers[j]) == Some(id),
    )
}

/// Where the way up the page tree begins for the page with the number at `k`: at its
/// parent; nowhere where there is no such page, or where it was taken out before.
pub open spec fn way_start(value: DocumentValue, numbers: Seq<u32>, k: int) -> Option<ObjectId> {
    match page_with(pages(value), numbers[k]) {
        Some(id) => if value.objects.contains_key(id) && !gone_after(value, numbers, k).contains(
            id,
        ) {
            parent(value.objects[id])
        } else {
            None
        },
        None => None,
    }
}

/// The objects passed on the ways up the page tree for the first `count` of `numbers`.
pub open spec fn passed(value: DocumentValue, numbers: Seq<u32>, count: int) -> Seq<ObjectId>
    decreases count,
{
    if count <= 0 {
        seq![]
    } else {
        passed(value, numbers, count - 1) + match way_start(value, numbers, count - 1) {
            Some(up) => way_up(
                value.objects,
                gone_after(value, numbers, count),
                up,
                value.objects.dom().len(),
            ),
            None => seq![],
        }
    }
}

/// How often `id` stands in `ids`.
pub open spec fn times(ids: Seq<ObjectId>, id: ObjectId) -> nat
    decreases ids.len(),
{
    if ids.len() == 0 {
        0
    } else {
        times(ids.drop_last(), id) + if ids.last() == id {
            1nat
        } else {
            0nat
        }
    }
}

/// Whether the page count of a node of the page tree can be counted down `often` times.
pub open spec fn can_count_down(value: PdfValue, often: nat) -> bool {
    match value {
        PdfValue::Dictionary(d) => match entry(d, "Count".spec_bytes()) {
            Some(PdfValue::Integer(count)) => count - often >= i64::MIN,
            _ => true,
        },
        _ => true,
    }
}

/// Whether the pages with the given numbers can be taken out of the document,
/// one after the other: the way from each of them up the page tree comes to an
/// end before it has passed more objects than there are, and each page count can be
/// counted down as often as its object is passed.
pub open spec fn deletable(value: DocumentValue, numbers: Seq<u32>) -> bool {
    &&& claims_in_range(value)
    &&& forall|k: int|
        0 <= k < numbers.len() ==> match #[trigger] way_start(value, numbers, k) {
            Some(up) => ends_within(
                value.objects,
                gone_after(value, numbers, k + 1),
                up,
                value.objects.dom().len(),
            ),
            None => true,
        }
    &&& forall|id: ObjectId| #[trigger]
        value.objects.contains_key(id) ==> can_count_down(
            value.objects[id],
            times(passed(value, numbers, numbers.len() as int), id),
        )
}

/// What is left once the pages with the given numbers have been taken out.
pub uninterp spec fn pages_deleted(value: DocumentValue, numbers: Seq<u32>) -> DocumentValue;

/// The ids of the pages but for those with the given numbers.
pub open spec fn remaining_ids(value: DocumentValue, numbers: Seq<u32>) -> Seq<ObjectId> {
    pages(value).filter(|page: (u32, ObjectId)| !numbers.contains(page.0)).map_values(
        |page: (u32, ObjectId)| page.1,
    )
}

/// `Document::delete_pages`: takes the pages with the given numbers out of the
/// document. For each of them `lopdf` walks up the page tree and counts every
/// `/Count` on the way down by one: it loops forever on a way that has no end,
/// and overflows at the least count that there is.
///
/// It takes the page's object and every reference to it out. Where the page tree
/// is plain it stays so, and the other pages are left in their order. Of other
/// documents nothing is said: there a page may take others along with it.
#[verifier::external_body]
pub(crate) fn delete_pages(doc: &mut Document, numbers: &[u32])
    requires
        deletable(document_value(*old(doc)), numbers@),
    ensures
        document_value(*final(doc)) == pages_deleted(document_value(*old(doc)), numbers@),
        plain_tree(document_value(*old(doc))) ==> plain_tree(document_value(*final(doc)))
            && page_ids(document_value(*final(doc))) == remaining_ids(
            document_value(*old(doc)),
            numbers@,
        ),
{
    doc.delete_pages(numbers);
}

/// What is left once everything that the trailer does not lead to has been taken
/// out.
pub uninterp spec fn pruned(value: DocumentValue) -> DocumentValue;

/// `Document::prune_objects`: takes out every object that the trailer does not lead to.
/// What it leaves is all led to, so that it would leave the same again. A plain page
/// tree stays as it is, since the trailer leads to all of it. Of other documents
/// nothing is said: `lopdf` looks at no more kids than there are objects, so that fewer
/// objects may mean fewer pages.
#[verifier::external_body]
pub(crate) fn prune_objects(doc: &mut Document)
    ensures
        document_value(*final(doc)) == pruned(document_value(*old(doc))),
        pruned(document_value(*final(doc))) == document_value(*final(doc)),
        plain_tree(document_value(*old(doc))) ==> plain_tree(document_value(*final(doc)))
            && page_ids(document_value(*final(doc))) == page_ids(document_value(*old(doc))),
{
    doc.prune_objects();
}

/// The written form of a document, and what the document holds after an attempt to
/// write it.
pub uninterp spec fn saving(value: DocumentValue) -> (Seq<u8>, DocumentValue);

/// Whether the document's binary mark can be written: it has no byte below 128.
pub open spec fn valid_mark(value: DocumentValue) -> bool {
    forall|i: int| 0 <= i < value.binary_mark.len() ==> #[trigger] value.binary_mark[i] >= 128
}

/// Whether there are object numbers left for what writing adds: a cross-reference that is
/// written as a stream is an object, and the number after the last one is written down.
pub open spec fn has_numbers_left(value: DocumentValue) -> bool {
    &&& value.max_id < u32::MAX
    &&& value.stream_cross_reference && valid_mark(value) ==> value.max_id < u32::MAX - 1
}

/// `Document::save_to` into memory: the written form of the document. There is
/// none exactly where a byte of the binary mark is below 128, which is found before
/// anything is numbered. `lopdf` overflows where there are no object numbers left.
#[verifier::external_body]
pub(crate) fn save_to(doc: &mut Document) -> (r: Option<Vec<u8>>)
    requires
        has_numbers_left(document_value(*old(doc))),
    ensures
        document_value(*final(doc)) == saving(document_value(*old(doc))).1,
        match r {
            Some(bytes) => valid_mark(document_value(*old(doc))) && bytes@ == saving(
                document_value(*old(doc)),
            ).0,
            None => !valid_mark(document_value(*old(doc))),
        },
{
    let mut bytes = Vec::new();
    match doc.save_to(&mut bytes) {
        Ok(()) => Some(bytes),
        Err(_) => None,
    }
}

} // verus!
