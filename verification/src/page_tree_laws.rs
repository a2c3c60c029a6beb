//! Which documents can be taken apart.

use vstd::prelude::*;
use vstd::string::StringSliceAdditionalSpecFns;

use crate::page_tree::{page_list, without_pages, SplitError};
use crate::pdf::{
    can_count_down, claim, claims_bounded, claims_in_range, deletable, ends_within, entry,
    gone_after, holds_nodes, kids, pages, pages_deleted, parent, passed, pruned, room_for,
    room_for_all, room_limit, times, way_start, way_up, DocumentValue, ObjectId, PdfValue,
};

verus! {

/// Whether the way up the page tree always leads to a lower level, and no object is on a higher
/// one than there are objects.
pub open spec fn rises(objects: Map<ObjectId, PdfValue>, level: spec_fn(ObjectId) -> nat) -> bool {
    forall|id: ObjectId| #[trigger]
        objects.contains_key(id) ==> level(id) <= objects.dom().len() && (match objects[id] {
            PdfValue::Dictionary(d) => match entry(d, "Parent".spec_bytes()) {
                Some(PdfValue::Reference(up)) => level(up) < level(id),
                _ => true,
            },
            _ => true,
        })
}

/// A way up that rises comes to an end.
proof fn lemma_way_ends(
    objects: Map<ObjectId, PdfValue>,
    gone: Set<ObjectId>,
    level: spec_fn(ObjectId) -> nat,
    id: ObjectId,
    steps: nat,
)
    requires
        rises(objects, level),
        level(id) <= steps,
    ensures
        ends_within(objects, gone, id, steps),
    decreases steps,
{
    if objects.contains_key(id) && !gone.contains(id) {
        match parent(objects[id]) {
            Some(up) => lemma_way_ends(objects, gone, level, up, (steps - 1) as nat),
            None => {},
        }
    }
}

/// How often an object stands in two runs of objects.
proof fn lemma_times_concat(a: Seq<ObjectId>, b: Seq<ObjectId>, id: ObjectId)
    ensures
        times(a + b, id) == times(a, id) + times(b, id),
    decreases b.len(),
{
    if b.len() > 0 {
        lemma_times_concat(a, b.drop_last(), id);
        assert((a + b).drop_last() =~= a + b.drop_last());
    } else {
        assert(a + b =~= a);
    }
}

/// A way up that rises passes no object twice, and none on a higher level than where it begins.
proof fn lemma_way_passes_once(
    objects: Map<ObjectId, PdfValue>,
    gone: Set<ObjectId>,
    level: spec_fn(ObjectId) -> nat,
    from: ObjectId,
    steps: nat,
    id: ObjectId,
)
    requires
        rises(objects, level),
    ensures
        times(way_up(objects, gone, from, steps), id) <= 1,
        level(id) > level(from) ==> times(way_up(objects, gone, from, steps), id) == 0,
    decreases steps,
{
    reveal_with_fuel(times, 2);
    if objects.contains_key(from) && !gone.contains(from) {
        assert(seq![from].drop_last() =~= seq![]);
        match parent(objects[from]) {
            Some(up) => if steps > 0 {
                let rest = way_up(objects, gone, up, (steps - 1) as nat);
                lemma_way_passes_once(objects, gone, level, up, (steps - 1) as nat, id);
                lemma_times_concat(seq![from], rest, id);
            },
            None => {},
        }
    }
}

/// An object is passed at most once for each page.
proof fn lemma_passed_at_most(
    value: DocumentValue,
    level: spec_fn(ObjectId) -> nat,
    numbers: Seq<u32>,
    count: int,
    id: ObjectId,
)
    requires
        rises(value.objects, level),
        0 <= count <= numbers.len(),
    ensures
        times(passed(value, numbers, count), id) <= count,
    decreases count,
{
    if count > 0 {
        lemma_passed_at_most(value, level, numbers, count - 1, id);
        let before = passed(value, numbers, count - 1);
        match way_start(value, numbers, count - 1) {
            Some(up) => {
                let gone = gone_after(value, numbers, count);
                let steps = value.objects.dom().len();
                lemma_way_passes_once(value.objects, gone, level, up, steps, id);
                lemma_times_concat(before, way_up(value.objects, gone, up, steps), id);
            },
            None => {
                lemma_times_concat(before, seq![], id);
            },
        }
    }
}

/// Any pages can be taken out of a document whose page tree leads up without turning round and
/// whose page counts do not run out below the least number that there is. What is left is what
/// deleting the pages and then pruning gives.
pub proof fn law_sound_documents_can_be_taken_apart(
    value: DocumentValue,
    numbers: Seq<u32>,
    level: spec_fn(ObjectId) -> nat,
)
    requires
        claims_in_range(value),
        rises(value.objects, level),
        forall|id: ObjectId| #[trigger]
            value.objects.contains_key(id) ==> match value.objects[id] {
                PdfValue::Dictionary(d) => match entry(d, "Count".spec_bytes()) {
                    Some(PdfValue::Integer(count)) => count - numbers.len()
                        >= -0x8000_0000_0000_0000,
                    _ => true,
                },
                _ => true,
            },
    ensures
        deletable(value, numbers),
        without_pages(value, numbers) == Ok::<_, SplitError>(pruned(pages_deleted(value, numbers))),
{
    assert forall|k: int| 0 <= k < numbers.len() implies match #[trigger] way_start(
        value,
        numbers,
        k,
    ) {
        Some(up) => ends_within(
            value.objects,
            gone_after(value, numbers, k + 1),
            up,
            value.objects.dom().len(),
        ),
        None => true,
    } by {
        match way_start(value, numbers, k) {
            Some(up) => lemma_way_ends(
                value.objects,
                gone_after(value, numbers, k + 1),
                level,
                up,
                value.objects.dom().len(),
            ),
            None => {},
        }
    }
    assert forall|id: ObjectId| #[trigger] value.objects.contains_key(id) implies can_count_down(
        value.objects[id],
        times(passed(value, numbers, numbers.len() as int), id),
    ) by {
        lemma_passed_at_most(value, level, numbers, numbers.len() as int, id);
    }
}

/// The kids of a node make room for at most as many pages as each of them at most does.
proof fn lemma_room(value: DocumentValue, list: Seq<PdfValue>, most: int)
    requires
        most >= 1,
        forall|i: int|
            0 <= i < list.len() ==> (#[trigger] list[i] matches PdfValue::Reference(kid) ==> (claim(
                value,
                kid,
            ) matches Some(n) ==> n <= most)),
    ensures
        room_for_all(value, list) <= list.len() * most,
    decreases list.len(),
{
    if list.len() > 0 {
        let front = list.drop_last();
        assert forall|i: int| 0 <= i < front.len() implies (
        #[trigger] front[i] matches PdfValue::Reference(kid) ==> (claim(value, kid) matches Some(n)
            ==> n <= most)) by {
            assert(front[i] == list[i]);
        }
        lemma_room(value, front, most);
        assert(list[list.len() - 1] == list.last());
        assert(room_for(value, list.last()) <= most);
        assert(front.len() * most + most == list.len() * most) by (nonlinear_arith)
            requires
                front.len() + 1 == list.len(),
        ;
    }
}

/// The pages of a document can be listed, on every machine, where no node of its page tree has
/// so many kids, or kids that claim so many pages each, that they could claim 262144 together.
pub proof fn law_ordinary_documents_can_be_listed(value: DocumentValue, longest: int, most: int)
    requires
        most >= 1,
        longest * most < 262144,
        forall|id: ObjectId|
            (#[trigger] kids(value, id)).len() <= longest && forall|i: int|
                0 <= i < kids(value, id).len() ==> (#[trigger] kids(
                    value,
                    id,
                )[i] matches PdfValue::Reference(kid) ==> (claim(value, kid) matches Some(n) ==> n
                    <= most)),
    ensures
        page_list(value) == Ok::<_, SplitError>(pages(value)),
{
    let all = Set::<ObjectId>::full();
    assert(262143 <= room_limit());
    assert forall|id: ObjectId| all.contains(id) implies room_for_all(
        value,
        #[trigger] kids(value, id),
    ) <= room_limit() by {
        let list = kids(value, id);
        lemma_room(value, list, most);
        assert(list.len() * most <= longest * most) by (nonlinear_arith)
            requires
                list.len() <= longest,
                most >= 1,
        ;
    }
    assert(holds_nodes(value, all));
    assert(claims_bounded(value, all));
}

} // verus!
