//! Taking pages out of a document and writing it, with every condition under
//! which `lopdf` would loop, panic or overflow tested beforehand.

use std::collections::{HashMap, HashSet};

use lopdf::{Document, Object};
use vstd::prelude::*;
use vstd::string::StringSliceAdditionalSpecFns;

use crate::pdf::{
    binary_mark, can_count_down, catalog_id, claim, claims_bounded, claims_in_range, deletable,
    delete_pages, document_value, ends_within, get, get_deref, get_dictionary, get_pages,
    gone_after, has_numbers_left, has_stream_cross_reference, holds_nodes, kids, look, max_id,
    object_ids, object_value, page_ids, page_with, pages, pages_deleted, parent, passed, plain_tree,
    prune_objects, pruned, remaining_ids, room_for_all, room_limit, root_id, save_to, saving,
    stored_object, times, trailer, valid_mark, way_start, way_up, DocumentValue, ObjectId,
    ObjectRef, PdfValue, ROOM_BYTES,
};
use crate::text::same_bytes;

verus! {

broadcast use vstd::std_specs::hash::group_hash_axioms;

/// Why a document could not be split.
#[derive(Clone, Copy, Debug, PartialEq, Eq, Structural)]
pub enum SplitError {
    /// The document has no pages.
    NoPages,
    /// Chunks of no pages were asked for.
    ZeroPagesPerChunk,
    /// The page tree claims too many pages, leads round in a circle on the way up, has
    /// a count that cannot be counted down, or loses pages other than those taken out.
    BrokenPageTree,
    /// There are no object numbers left for what writing adds.
    TooManyObjects,
    /// The document's binary mark cannot be written.
    InvalidBinaryMark,
}

impl SplitError {
    /// The error as a text.
    pub open spec fn text(self) -> Seq<char> {
        match self {
            SplitError::NoPages => "PDF has no pages"@,
            SplitError::ZeroPagesPerChunk => "pages_per_chunk must be greater than 0"@,
            SplitError::BrokenPageTree => "PDF has a broken page tree"@,
            SplitError::TooManyObjects => "PDF has too many objects"@,
            SplitError::InvalidBinaryMark => "Invalid binary mark"@,
        }
    }

    /// The error as a text.
    pub fn message(&self) -> (r: &'static str)
        ensures
            r@ == self.text(),
    {
        match self {
            SplitError::NoPages => "PDF has no pages",
            SplitError::ZeroPagesPerChunk => "pages_per_chunk must be greater than 0",
            SplitError::BrokenPageTree => "PDF has a broken page tree",
            SplitError::TooManyObjects => "PDF has too many objects",
            SplitError::InvalidBinaryMark => "Invalid binary mark",
        }
    }
}

/// One number for each object id.
pub open spec fn id_key(id: ObjectId) -> u64 {
    (id.0 * 65536 + id.1) as u64
}

/// One number for each object id.
pub(crate) fn key_of(id: ObjectId) -> (key: u64)
    ensures
        key == id_key(id),
{
    id.0 as u64 * 65536 + id.1 as u64
}

/// The id of the object that a reference leads to; `None` where there is no reference.
fn referred(object: Option<&Object>) -> (r: Option<ObjectId>)
    ensures
        r == match object {
            Some(o) => match object_value(*o) {
                PdfValue::Reference(id) => Some(id),
                _ => None,
            },
            None => None,
        },
{
    match object {
        Some(o) => match look(o) {
            ObjectRef::Reference(id) => Some(id),
            _ => None,
        },
        None => None,
    }
}

/// The root of the page tree that the catalog names.
fn root_of(doc: &Document) -> (r: Option<ObjectId>)
    ensures
        r == root_id(document_value(*doc)),
{
    let catalog = match referred(get(trailer(doc), "Root".as_bytes())) {
        Some(id) => id,
        None => return None,
    };
    assert(catalog_id(document_value(*doc)) == Some(catalog));
    match get_dictionary(doc, catalog) {
        Some(dict) => referred(get(dict, "Pages".as_bytes())),
        None => None,
    }
}

/// The kids that the dictionary at `id` lists, where it lists any.
fn kids_of<'a>(doc: &'a Document, id: ObjectId) -> (r: Option<&'a Vec<Object>>)
    ensures
        match r {
            Some(items) => kids(document_value(*doc), id) == items@.map_values(
                |o: Object| object_value(o),
            ),
            None => kids(document_value(*doc), id).len() == 0,
        },
{
    let dict = match get_dictionary(doc, id) {
        Some(dict) => dict,
        None => return None,
    };
    match get_deref(dict, "Kids".as_bytes(), doc) {
        Some(list) => match look(list) {
            ObjectRef::Array(items) => Some(items),
            _ => None,
        },
        None => None,
    }
}

/// The number of pages that the dictionary at `id` claims to have below it, where it
/// is of the type of a node of the page tree.
fn claim_of(doc: &Document, id: ObjectId) -> (r: Option<i64>)
    ensures
        match r {
            Some(n) => claim(document_value(*doc), id) == Some(n as int),
            None => claim(document_value(*doc), id) is None,
        },
{
    let dict = match get_dictionary(doc, id) {
        Some(dict) => dict,
        None => return None,
    };
    let is_node = match get(dict, "Type".as_bytes()) {
        Some(kind) => match look(kind) {
            ObjectRef::Name(name) => same_bytes(name.as_slice(), "Pages".as_bytes()),
            _ => false,
        },
        None => false,
    };
    if !is_node {
        return None;
    }
    match get_deref(dict, "Count".as_bytes(), doc) {
        Some(count) => match look(count) {
            ObjectRef::Integer(n) => Some(n),
            _ => Some(0),
        },
        None => Some(0),
    }
}

/// What holds of a walk down the page tree: the nodes that it has come to are distinct,
/// and among all sets that hold the nodes of the tree there is none without them.
spec fn walks(value: DocumentValue, queue: Seq<ObjectId>, seen: Set<u64>) -> bool {
    &&& queue.no_duplicates()
    &&& forall|id: ObjectId| seen.contains(#[trigger] id_key(id)) <==> queue.contains(id)
    &&& forall|j: int|
        0 <= j < queue.len() ==> root_id(value) == Some(#[trigger] queue[j])
            || value.objects.contains_key(queue[j])
    &&& forall|nodes: Set<ObjectId>, j: int|
        #![trigger holds_nodes(value, nodes), queue[j]]
        holds_nodes(value, nodes) && 0 <= j < queue.len() ==> nodes.contains(queue[j])
}

/// Whether those of the first `count` kids of a node that are nodes are among those that
/// a walk has come to.
spec fn kids_done(value: DocumentValue, queue: Seq<ObjectId>, id: ObjectId, count: int) -> bool {
    forall|i: int|
        0 <= i < count ==> match #[trigger] kids(value, id)[i] {
            PdfValue::Reference(kid) => claim(value, kid) is Some ==> queue.contains(kid),
            _ => true,
        }
}

/// The number of pages for which room is made for a list of kids.
fn room_of(doc: &Document, items: &Vec<Object>) -> (room: u128)
    ensures
        room == room_for_all(
            document_value(*doc),
            items@.map_values(|o: Object| object_value(o)),
        ),
{
    let ghost value = document_value(*doc);
    let ghost list = items@.map_values(|o: Object| object_value(o));
    let mut room: u128 = 0;
    let mut i: usize = 0;
    assert(list.take(0) =~= seq![]);
    while i < items.len()
        invariant
            i <= items@.len(),
            value == document_value(*doc),
            list == items@.map_values(|o: Object| object_value(o)),
            room <= i * 0x7fff_ffff_ffff_ffff,
            room == room_for_all(value, list.take(i as int)),
        decreases items.len() - i,
    {
        assert(list.take(i + 1).drop_last() =~= list.take(i as int));
        assert(list.take(i + 1).last() == object_value(items@[i as int]));
        let more: i64 = match referred(Some(&items[i])) {
            Some(kid) => match claim_of(doc, kid) {
                Some(n) => if n > 0 {
                    n
                } else {
                    0
                },
                None => 1,
            },
            None => 1,
        };
        room = room + more as u128;
        i += 1;
    }
    assert(list.take(i as int) =~= list);
    room
}

/// A walk comes to no more nodes than there are objects, and the root.
proof fn lemma_walk_is_short(value: DocumentValue, queue: Seq<ObjectId>, ids: Seq<ObjectId>)
    requires
        queue.no_duplicates(),
        forall|j: int|
            0 <= j < queue.len() ==> root_id(value) == Some(#[trigger] queue[j])
                || value.objects.contains_key(queue[j]),
        ids.to_set() == value.objects.dom(),
    ensures
        queue.len() <= ids.len() + 1,
{
    let all = match root_id(value) {
        Some(root) => ids.push(root),
        None => ids,
    };
    ids.lemma_cardinality_of_set();
    all.lemma_cardinality_of_set();
    queue.unique_seq_to_set();
    assert forall|id: ObjectId| queue.to_set().contains(id) implies all.to_set().contains(id) by {
        let j = choose|j: int| 0 <= j < queue.len() && queue[j] == id;
        assert(queue[j] == id);
        if value.objects.contains_key(id) {
            assert(ids.to_set().contains(id));
            let k = choose|k: int| 0 <= k < ids.len() && ids[k] == id;
            assert(all[k] == id);
        } else {
            assert(all.last() == id);
        }
    }
    vstd::seq_lib::seq_to_set_is_finite(all);
    vstd::set_lib::lemma_len_subset(queue.to_set(), all.to_set());
}

/// Walks on to the kids of a node; whether they do not claim too many pages.
fn visit_kids(doc: &Document, id: ObjectId, queue: &mut Vec<ObjectId>, seen: &mut HashSet<u64>) -> (ok:
    bool)
    requires
        walks(document_value(*doc), old(queue)@, old(seen)@),
        old(queue)@.contains(id),
    ensures
        walks(document_value(*doc), final(queue)@, final(seen)@),
        old(queue)@.is_prefix_of(final(queue)@),
        ok ==> kids_done(
            document_value(*doc),
            final(queue)@,
            id,
            kids(document_value(*doc), id).len() as int,
        ) && room_for_all(document_value(*doc), kids(document_value(*doc), id)) <= room_limit(),
        !ok ==> !claims_in_range(document_value(*doc)),
{
    let ghost value = document_value(*doc);
    let items = match kids_of(doc, id) {
        Some(items) => items,
        None => return true,
    };
    if room_of(doc, items) > isize::MAX as u128 / ROOM_BYTES as u128 {
        proof {
            lemma_claim_too_large(value, queue@, id);
        }
        return false;
    }
    let ghost start = queue@;
    let mut i: usize = 0;
    while i < items.len()
        invariant
            i <= items@.len(),
            value == document_value(*doc),
            kids(value, id) == items@.map_values(|o: Object| object_value(o)),
            start == old(queue)@,
            start.contains(id),
            start.is_prefix_of(queue@),
            walks(value, queue@, seen@),
            kids_done(value, queue@, id, i as int),
        decreases items.len() - i,
    {
        let ghost before = queue@;
        assert(kids(value, id)[i as int] == object_value(items@[i as int]));
        assert(before.contains(id)) by {
            let j = choose|j: int| 0 <= j < start.len() && start[j] == id;
            assert(before[j] == id);
        }
        match referred(Some(&items[i])) {
            Some(kid) => match claim_of(doc, kid) {
                Some(_) => {
                    let ghost known = seen@;
                    if seen.insert(key_of(kid)) {
                        queue.push(kid);
                        proof {
                            lemma_walk_goes_on(value, before, known, id, i as int);
                        }
                    } else {
                        assert(seen@ =~= known);
                    }
                    assert(queue@.contains(kid)) by {
                        if queue@.len() > before.len() {
                            assert(queue@.last() == kid);
                        }
                    }
                },
                None => {},
            },
            None => {},
        }
        assert(kids_done(value, queue@, id, i + 1)) by {
            assert forall|m: int| 0 <= m < i + 1 implies match #[trigger] kids(value, id)[m] {
                PdfValue::Reference(kid) => claim(value, kid) is Some ==> queue@.contains(kid),
                _ => true,
            } by {
                match kids(value, id)[m] {
                    PdfValue::Reference(kid) => {
                        if m < i && claim(value, kid) is Some {
                            let j = choose|j: int| 0 <= j < before.len() && before[j] == kid;
                            assert(queue@[j] == kid);
                        }
                    },
                    _ => {},
                }
            }
        }
        i += 1;
    }
    true
}

/// Where the kids of a node that the walk comes to claim too many pages, the claims are
/// not in range.
proof fn lemma_claim_too_large(value: DocumentValue, queue: Seq<ObjectId>, id: ObjectId)
    requires
        forall|nodes: Set<ObjectId>, j: int|
            #![trigger holds_nodes(value, nodes), queue[j]]
            holds_nodes(value, nodes) && 0 <= j < queue.len() ==> nodes.contains(queue[j]),
        queue.contains(id),
        room_for_all(value, kids(value, id)) > room_limit(),
    ensures
        !claims_in_range(value),
{
    if claims_in_range(value) {
        let nodes = choose|nodes: Set<ObjectId>| #[trigger]
            holds_nodes(value, nodes) && claims_bounded(value, nodes);
        let j = choose|j: int| 0 <= j < queue.len() && queue[j] == id;
        assert(nodes.contains(queue[j]));
    }
}

/// What holds of a walk, after it has come to one more node.
proof fn lemma_walk_goes_on(
    value: DocumentValue,
    queue: Seq<ObjectId>,
    seen: Set<u64>,
    id: ObjectId,
    i: int,
)
    requires
        walks(value, queue, seen),
        queue.contains(id),
        0 <= i < kids(value, id).len(),
        kids(value, id)[i] matches PdfValue::Reference(kid) && claim(value, kid) is Some
            && !seen.contains(id_key(kid)),
    ensures
        walks(
            value,
            queue.push(kids(value, id)[i]->Reference_0),
            seen.insert(id_key(kids(value, id)[i]->Reference_0)),
        ),
{
    let kid = kids(value, id)[i]->Reference_0;
    let longer = queue.push(kid);
    let more = seen.insert(id_key(kid));
    assert(!queue.contains(kid));
    assert forall|other: ObjectId| more.contains(#[trigger] id_key(other)) <==> longer.contains(
        other,
    ) by {
        assert(seen.contains(id_key(other)) <==> queue.contains(other));
        if queue.contains(other) {
            let j = choose|j: int| 0 <= j < queue.len() && queue[j] == other;
            assert(longer[j] == other);
        }
        if other == kid {
            assert(longer.last() == other);
        }
        if longer.contains(other) && other != kid {
            let j = choose|j: int| 0 <= j < longer.len() && longer[j] == other;
            assert(queue[j] == other);
        }
    }
    assert forall|j: int| 0 <= j < longer.len() implies root_id(value) == Some(
        #[trigger] longer[j],
    ) || value.objects.contains_key(longer[j]) by {
        if j < queue.len() {
            assert(longer[j] == queue[j]);
        }
    }
    let at = choose|at: int| 0 <= at < queue.len() && queue[at] == id;
    assert forall|nodes: Set<ObjectId>, j: int|
        #![trigger holds_nodes(value, nodes), longer[j]]
        holds_nodes(value, nodes) && 0 <= j < longer.len() implies nodes.contains(longer[j]) by {
        if j < queue.len() {
            assert(longer[j] == queue[j]);
        } else {
            assert(nodes.contains(queue[at]));
        }
    }
}

/// Whether of the nodes that a walk down the page tree comes to, none has kids that claim
/// too many pages together.
fn test_claims(doc: &Document) -> (ok: bool)
    ensures
        ok == claims_in_range(document_value(*doc)),
{
    let ghost value = document_value(*doc);
    let ids = object_ids(doc);
    let mut queue: Vec<ObjectId> = Vec::new();
    let mut seen: HashSet<u64> = HashSet::new();
    match root_of(doc) {
        Some(root) => {
            queue.push(root);
            seen.insert(key_of(root));
            assert(queue@[0] == root);
        },
        None => {},
    }
    let mut i: usize = 0;
    while i < queue.len()
        invariant
            i <= queue@.len(),
            value == document_value(*doc),
            ids@.to_set() == value.objects.dom(),
            root_id(value) matches Some(root) ==> queue@.contains(root),
            walks(value, queue@, seen@),
            forall|j: int|
                0 <= j < i ==> kids_done(
                    value,
                    queue@,
                    #[trigger] queue@[j],
                    kids(value, queue@[j]).len() as int,
                ) && room_for_all(value, kids(value, queue@[j])) <= room_limit(),
        decreases ids@.len() + 1 - i,
    {
        proof {
            lemma_walk_is_short(value, queue@, ids@);
        }
        let ghost before = queue@;
        let id = queue[i];
        if !visit_kids(doc, id, &mut queue, &mut seen) {
            return false;
        }
        proof {
            assert forall|other: ObjectId| before.contains(other) implies queue@.contains(other) by {
                let j = choose|j: int| 0 <= j < before.len() && before[j] == other;
                assert(queue@[j] == other);
            }
            assert forall|j: int| 0 <= j < i + 1 implies kids_done(
                value,
                queue@,
                #[trigger] queue@[j],
                kids(value, queue@[j]).len() as int,
            ) && room_for_all(value, kids(value, queue@[j])) <= room_limit() by {
                assert(queue@[j] == before[j]);
                if j < i {
                    assert(kids_done(value, before, before[j], kids(value, before[j]).len() as int));
                }
            }
        }
        i += 1;
    }
    proof {
        let nodes = queue@.to_set();
        assert forall|id: ObjectId, m: int|
            nodes.contains(id) && 0 <= m < kids(value, id).len() implies match #[trigger] kids(
            value,
            id,
        )[m] {
            PdfValue::Reference(kid) => claim(value, kid) is Some ==> nodes.contains(kid),
            _ => true,
        } by {
            let j = choose|j: int| 0 <= j < queue@.len() && queue@[j] == id;
            assert(kids_done(value, queue@, queue@[j], kids(value, queue@[j]).len() as int));
        }
        assert(holds_nodes(value, nodes));
        assert forall|id: ObjectId| nodes.contains(id) implies room_for_all(
            value,
            #[trigger] kids(value, id),
        ) <= room_limit() by {
            let j = choose|j: int| 0 <= j < queue@.len() && queue@[j] == id;
            assert(kids_done(value, queue@, queue@[j], kids(value, queue@[j]).len() as int));
        }
        assert(claims_bounded(value, nodes));
    }
    true
}

/// The page listed under `number`.
fn find_page(list: &Vec<(u32, ObjectId)>, number: u32) -> (found: Option<ObjectId>)
    ensures
        found == page_with(list@, number),
{
    let mut i: usize = 0;
    assert(list@.skip(0) =~= list@);
    while i < list.len()
        invariant
            i <= list.len(),
            page_with(list@, number) == page_with(list@.skip(i as int), number),
        decreases list.len() - i,
    {
        if list[i].0 == number {
            return Some(list[i].1);
        }
        assert(list@.skip(i as int).drop_first() =~= list@.skip(i + 1));
        i += 1;
    }
    None
}

/// The parent that an object names in the page tree; `None` where there is no such
/// object.
fn step_up(doc: &Document, id: ObjectId) -> (r: Option<Option<ObjectId>>)
    ensures
        r == if document_value(*doc).objects.contains_key(id) {
            Some(parent(document_value(*doc).objects[id]))
        } else {
            None
        },
{
    let object = match stored_object(doc, id) {
        Some(object) => object,
        None => return None,
    };
    match look(object) {
        ObjectRef::Dictionary(d) => Some(referred(get(d, "Parent".as_bytes()))),
        _ => Some(None),
    }
}

/// Whether the page count of an object can be counted down `often` times.
fn has_room(doc: &Document, id: ObjectId, often: usize) -> (room: bool)
    ensures
        room == (document_value(*doc).objects.contains_key(id) ==> can_count_down(
            document_value(*doc).objects[id],
            often as nat,
        )),
{
    let object = match stored_object(doc, id) {
        Some(object) => object,
        None => return true,
    };
    let dict = match look(object) {
        ObjectRef::Dictionary(d) => d,
        _ => return true,
    };
    match get(dict, "Count".as_bytes()) {
        Some(count) => match look(count) {
            ObjectRef::Integer(n) => n as i128 - often as i128 >= i64::MIN as i128,
            _ => true,
        },
        None => true,
    }
}

/// Goes up the page tree from `start`, and adds the objects that it passes to those
/// passed before; whether the way comes to an end.
fn walk_up(
    doc: &Document,
    gone: &HashSet<u64>,
    start: ObjectId,
    steps: usize,
    way: &mut Vec<ObjectId>,
    Ghost(gone_ids): Ghost<Set<ObjectId>>,
) -> (ok: bool)
    requires
        forall|id: ObjectId| gone@.contains(#[trigger] id_key(id)) <==> gone_ids.contains(id),
    ensures
        ok == ends_within(document_value(*doc).objects, gone_ids, start, steps as nat),
        ok ==> final(way)@ == old(way)@ + way_up(
            document_value(*doc).objects,
            gone_ids,
            start,
            steps as nat,
        ),
{
    let ghost objects = document_value(*doc).objects;
    let ghost all = way@ + way_up(objects, gone_ids, start, steps as nat);
    let mut id = start;
    let mut left: usize = steps;
    loop
        invariant
            objects == document_value(*doc).objects,
            forall|id: ObjectId| gone@.contains(#[trigger] id_key(id)) <==> gone_ids.contains(id),
            ends_within(objects, gone_ids, start, steps as nat) == ends_within(
                objects,
                gone_ids,
                id,
                left as nat,
            ),
            all == old(way)@ + way_up(objects, gone_ids, start, steps as nat),
            all =~= way@ + way_up(objects, gone_ids, id, left as nat),
        decreases left,
    {
        if gone.contains(&key_of(id)) {
            return true;
        }
        match step_up(doc, id) {
            Some(up) => {
                way.push(id);
                match up {
                    Some(next) => {
                        if left == 0 {
                            return false;
                        }
                        id = next;
                        left -= 1;
                    },
                    None => return true,
                }
            },
            None => return true,
        }
    }
}

/// Whether each page count can be counted down as often as its object is passed.
fn test_counts(doc: &Document, way: &Vec<ObjectId>) -> (ok: bool)
    ensures
        ok == forall|id: ObjectId| #[trigger]
            document_value(*doc).objects.contains_key(id) ==> can_count_down(
                document_value(*doc).objects[id],
                times(way@, id),
            ),
{
    let ghost objects = document_value(*doc).objects;
    let mut counts: HashMap<u64, usize> = HashMap::new();
    let mut i: usize = 0;
    assert(way@.take(0) =~= seq![]);
    while i < way.len()
        invariant
            i <= way@.len(),
            objects == document_value(*doc).objects,
            forall|id: ObjectId|
                times(way@.take(i as int), id) == if counts@.contains_key(#[trigger] id_key(id)) {
                    counts@[id_key(id)] as nat
                } else {
                    0
                },
            forall|key: u64| #[trigger] counts@.contains_key(key) ==> counts@[key] <= i,
            forall|id: ObjectId| #[trigger]
                objects.contains_key(id) ==> can_count_down(
                    objects[id],
                    times(way@.take(i as int), id),
                ),
        decreases way.len() - i,
    {
        let id = way[i];
        let key: u64 = key_of(id);
        let before: usize = match counts.get(&key) {
            Some(count) => *count,
            None => 0,
        };
        let ghost known = counts@;
        assert(way@.take(i + 1).drop_last() =~= way@.take(i as int));
        assert(times(way@.take(i as int), id) == before) by {
            assert(id_key(id) == key);
        }
        if !has_room(doc, id, before + 1) {
            proof {
                lemma_times_grow(way@, i + 1, id);
            }
            return false;
        }
        counts.insert(key, before + 1);
        assert forall|other: ObjectId|
            times(way@.take(i + 1), other) == if counts@.contains_key(#[trigger] id_key(other)) {
                counts@[id_key(other)] as nat
            } else {
                0
            } by {
            assert(times(way@.take(i as int), other) == if known.contains_key(id_key(other)) {
                known[id_key(other)] as nat
            } else {
                0
            });
            if other != id {
                assert(id_key(other) != key);
            }
        }
        i += 1;
    }
    assert(way@.take(i as int) =~= way@);
    true
}

/// The beginning of a sequence holds an id at most as often as all of it.
proof fn lemma_times_grow(ids: Seq<ObjectId>, count: int, id: ObjectId)
    requires
        0 <= count <= ids.len(),
    ensures
        times(ids.take(count), id) <= times(ids, id),
    decreases ids.len(),
{
    if count < ids.len() {
        lemma_times_grow(ids.drop_last(), count, id);
        assert(ids.drop_last().take(count) =~= ids.take(count));
    } else {
        assert(ids.take(count) =~= ids);
    }
}

/// Whether the pages with the given numbers can be taken out of the document.
fn test_deletable(doc: &Document, numbers: &[u32]) -> (ok: bool)
    ensures
        ok == deletable(document_value(*doc), numbers@),
{
    if !test_claims(doc) {
        return false;
    }
    let ghost value = document_value(*doc);
    let list = get_pages(doc);
    let ids = object_ids(doc);
    proof {
        ids@.unique_seq_to_set();
    }
    let mut gone: HashSet<u64> = HashSet::new();
    let mut way: Vec<ObjectId> = Vec::new();
    let mut k: usize = 0;
    while k < numbers.len()
        invariant
            k <= numbers.len(),
            value == document_value(*doc),
            list@ == pages(value),
            claims_in_range(value),
            ids@.len() == value.objects.dom().len(),
            way@ == passed(value, numbers@, k as int),
            forall|id: ObjectId| gone@.contains(#[trigger] id_key(id)) <==> gone_after(
                value,
                numbers@,
                k as int,
            ).contains(id),
            forall|j: int|
                0 <= j < k ==> match #[trigger] way_start(value, numbers@, j) {
                    Some(up) => ends_within(
                        value.objects,
                        gone_after(value, numbers@, j + 1),
                        up,
                        value.objects.dom().len(),
                    ),
                    None => true,
                },
        decreases numbers.len() - k,
    {
        let ghost before = gone@;
        let ghost passed_before = way@;
        match find_page(&list, numbers[k]) {
            Some(id) => {
                assert(before.contains(id_key(id)) <==> gone_after(
                    value,
                    numbers@,
                    k as int,
                ).contains(id));
                let fresh = gone.insert(key_of(id));
                proof {
                    lemma_gone_grows(value, numbers@, k as int, before, gone@);
                }
                let start = if fresh {
                    step_up(doc, id)
                } else {
                    None
                };
                match start {
                    Some(Some(up)) => {
                        assert(way_start(value, numbers@, k as int) == Some(up));
                        if !walk_up(
                            doc,
                            &gone,
                            up,
                            ids.len(),
                            &mut way,
                            Ghost(gone_after(value, numbers@, k + 1)),
                        ) {
                            return false;
                        }
                    },
                    _ => {
                        assert(way_start(value, numbers@, k as int) is None);
                        assert(passed_before + Seq::<ObjectId>::empty() =~= passed_before);
                    },
                }
            },
            None => {
                proof {
                    lemma_gone_grows(value, numbers@, k as int, before, gone@);
                }
                assert(way_start(value, numbers@, k as int) is None);
                assert(passed_before + Seq::<ObjectId>::empty() =~= passed_before);
            },
        }
        k += 1;
    }
    test_counts(doc, &way)
}

/// The keys of the pages that are gone, after one more.
proof fn lemma_gone_grows(
    value: DocumentValue,
    numbers: Seq<u32>,
    k: int,
    before: Set<u64>,
    after: Set<u64>,
)
    requires
        0 <= k < numbers.len(),
        forall|id: ObjectId| before.contains(#[trigger] id_key(id)) <==> gone_after(
            value,
            numbers,
            k,
        ).contains(id),
        after == match page_with(pages(value), numbers[k]) {
            Some(id) => before.insert(id_key(id)),
            None => before,
        },
    ensures
        forall|id: ObjectId| after.contains(#[trigger] id_key(id)) <==> gone_after(
            value,
            numbers,
            k + 1,
        ).contains(id),
{
    assert forall|id: ObjectId| after.contains(#[trigger] id_key(id)) <==> gone_after(
        value,
        numbers,
        k + 1,
    ).contains(id) by {
        assert(before.contains(id_key(id)) <==> gone_after(value, numbers, k).contains(id));
        assert(page_with(pages(value), numbers[k]) == page_with(pages(value), numbers[k]));
        if gone_after(value, numbers, k + 1).contains(id) {
            let j = choose|j: int|
                0 <= j < k + 1 && page_with(pages(value), #[trigger] numbers[j]) == Some(id);
            if j < k {
                assert(gone_after(value, numbers, k).contains(id));
            }
        }
    }
}

/// The pages of a document.
pub open spec fn page_list(value: DocumentValue) -> Result<Seq<(u32, ObjectId)>, SplitError> {
    if claims_in_range(value) {
        Ok(pages(value))
    } else {
        Err(SplitError::BrokenPageTree)
    }
}

/// Whether the numbers of the listed pages count from 1.
pub open spec fn numbered(list: Seq<(u32, ObjectId)>) -> bool {
    forall|i: int| 0 <= i < list.len() ==> (#[trigger] list[i]).0 == i + 1
}

/// The number and the id of each page of the document.
pub(crate) fn list_pages(doc: &Document) -> (r: Result<Vec<(u32, ObjectId)>, SplitError>)
    ensures
        match r {
            Ok(list) => page_list(document_value(*doc)) == Ok::<_, SplitError>(list@) && (
            document_value(*doc).objects.dom().len() <= u32::MAX ==> numbered(list@)),
            Err(e) => page_list(document_value(*doc)) == Err::<Seq<(u32, ObjectId)>, _>(e),
        },
{
    if test_claims(doc) {
        Ok(get_pages(doc))
    } else {
        Err(SplitError::BrokenPageTree)
    }
}

/// How many pages the document has.
pub fn page_count(doc: &Document) -> (r: Result<usize, SplitError>)
    ensures
        match r {
            Ok(count) => page_list(document_value(*doc)) is Ok && count == pages(
                document_value(*doc),
            ).len(),
            Err(e) => page_list(document_value(*doc)) == Err::<Seq<(u32, ObjectId)>, _>(e),
        },
{
    match list_pages(doc) {
        Ok(list) => Ok(list.len()),
        Err(e) => Err(e),
    }
}

/// The document without the pages with the given numbers, and without what only
/// they lead to.
pub open spec fn without_pages(value: DocumentValue, numbers: Seq<u32>) -> Result<
    DocumentValue,
    SplitError,
> {
    if deletable(value, numbers) {
        Ok(pruned(pages_deleted(value, numbers)))
    } else {
        Err(SplitError::BrokenPageTree)
    }
}

/// Takes the pages with the given numbers out of the document, and what only they
/// lead to, so that pruning finds nothing more to take out. Where that is not possible the
/// document stays as it is.
pub(crate) fn remove_pages(doc: &mut Document, numbers: &[u32]) -> (r: Result<(), SplitError>)
    ensures
        match r {
            Ok(()) => without_pages(document_value(*old(doc)), numbers@) == Ok::<_, SplitError>(
                document_value(*final(doc)),
            ) && pruned(document_value(*final(doc))) == document_value(*final(doc)) && (plain_tree(
                document_value(*old(doc)),
            ) ==> plain_tree(document_value(*final(doc))) && page_ids(document_value(*final(doc)))
                == remaining_ids(document_value(*old(doc)), numbers@)),
            Err(e) => without_pages(document_value(*old(doc)), numbers@) == Err::<
                DocumentValue,
                _,
            >(e) && *final(doc) == *old(doc),
        },
{
    if !test_deletable(doc, numbers) {
        return Err(SplitError::BrokenPageTree);
    }
    delete_pages(doc, numbers);
    prune_objects(doc);
    Ok(())
}

/// The written form of a document.
pub open spec fn written(value: DocumentValue) -> Result<Seq<u8>, SplitError> {
    if !has_numbers_left(value) {
        Err(SplitError::TooManyObjects)
    } else if !valid_mark(value) {
        Err(SplitError::InvalidBinaryMark)
    } else {
        Ok(saving(value).0)
    }
}

/// What a document holds after an attempt to write it.
pub open spec fn after_writing(value: DocumentValue) -> DocumentValue {
    if !has_numbers_left(value) {
        value
    } else {
        saving(value).1
    }
}

/// Whether the document's binary mark can be written.
fn test_mark(doc: &Document) -> (ok: bool)
    ensures
        ok == valid_mark(document_value(*doc)),
{
    let mark = binary_mark(doc);
    let mut i: usize = 0;
    while i < mark.len()
        invariant
            i <= mark@.len(),
            mark@ == document_value(*doc).binary_mark,
            forall|j: int| 0 <= j < i ==> #[trigger] mark@[j] >= 128,
        decreases mark.len() - i,
    {
        if mark[i] < 128 {
            return false;
        }
        i += 1;
    }
    true
}

/// Whether there are object numbers left for what writing adds.
fn test_numbers(doc: &Document) -> (ok: bool)
    ensures
        ok == has_numbers_left(document_value(*doc)),
{
    let highest: u32 = max_id(doc);
    if highest == u32::MAX {
        return false;
    }
    highest < u32::MAX - 1 || !has_stream_cross_reference(doc) || !test_mark(doc)
}

/// Writes the document into memory, which may number an object of its own.
pub(crate) fn write_document(doc: &mut Document) -> (r: Result<Vec<u8>, SplitError>)
    ensures
        document_value(*final(doc)) == after_writing(document_value(*old(doc))),
        match r {
            Ok(bytes) => written(document_value(*old(doc))) == Ok::<_, SplitError>(bytes@),
            Err(e) => written(document_value(*old(doc))) == Err::<Seq<u8>, _>(e),
        },
{
    if !test_numbers(doc) {
        return Err(SplitError::TooManyObjects);
    }
    match save_to(doc) {
        Some(bytes) => Ok(bytes),
        None => Err(SplitError::InvalidBinaryMark),
    }
}

} // verus!
