//! Extracting pages of a document into a document of their own.

use std::collections::HashSet;

use lopdf::Document;
use vstd::prelude::*;

use crate::chunks::indices;
use crate::page_tree::{
    list_pages, numbered, page_list, remove_pages, without_pages, write_document, written,
    SplitError,
};
use crate::pdf::{
    document_value, duplicate, page_ids, pages, plain_tree, prune_objects, pruned, remaining_ids,
    saving, DocumentValue, ObjectId,
};

verus! {

broadcast use vstd::std_specs::hash::group_hash_axioms;

/// The numbers of the pages at the given indices.
pub open spec fn kept_numbers(list: Seq<(u32, ObjectId)>, page_indices: Seq<usize>) -> Set<u32> {
    Set::new(
        |number: u32|
            exists|k: int|
                0 <= k < page_indices.len() && list[#[trigger] page_indices[k] as int].0 == number,
    )
}

/// The numbers of all other pages, in their order.
pub open spec fn dropped_numbers(list: Seq<(u32, ObjectId)>, page_indices: Seq<usize>) -> Seq<u32> {
    list.map_values(|page: (u32, ObjectId)| page.0).filter(
        |number: u32| !kept_numbers(list, page_indices).contains(number),
    )
}

/// The document cut down to the pages at the given indices.
pub open spec fn cut_down(value: DocumentValue, page_indices: Seq<usize>) -> Result<
    DocumentValue,
    SplitError,
> {
    match page_list(value) {
        Ok(list) => {
            let dropped = dropped_numbers(list, page_indices);
            if dropped.len() == 0 {
                Ok(pruned(value))
            } else {
                without_pages(value, dropped)
            }
        },
        Err(e) => Err(e),
    }
}

/// The document cut down to the pages at the given indices, in its written form.
pub open spec fn extraction(value: DocumentValue, page_indices: Seq<usize>) -> Result<
    Seq<u8>,
    SplitError,
> {
    match cut_down(value, page_indices) {
        Ok(rest) => written(rest),
        Err(e) => Err(e),
    }
}

/// Whether `index` is one of the given indices.
pub open spec fn is_among(page_indices: Seq<usize>, index: int) -> bool {
    exists|k: int| 0 <= k < page_indices.len() && #[trigger] page_indices[k] == index
}

/// The ids at the given indices, each of them once and in the order of `ids`.
pub open spec fn ids_at(ids: Seq<ObjectId>, page_indices: Seq<usize>) -> Seq<ObjectId>
    decreases ids.len(),
{
    if ids.len() == 0 {
        seq![]
    } else {
        let rest = ids_at(ids.drop_last(), page_indices);
        if is_among(page_indices, ids.len() - 1) {
            rest.push(ids.last())
        } else {
            rest
        }
    }
}

/// Whether the document cut down to the pages from `start` up to but without
/// `end` has just those pages, in their order.
pub open spec fn holds_pages(value: DocumentValue, start: int, end: int) -> bool {
    cut_down(value, indices(start, end)) matches Ok(rest) && page_ids(rest) == page_ids(
        value,
    ).subrange(start, end)
}

/// What is extracted depends on which indices are given, and not on their order or on how
/// often each of them is.
pub proof fn law_indices_count_once_in_any_order(
    value: DocumentValue,
    a: Seq<usize>,
    b: Seq<usize>,
)
    requires
        forall|index: int| #[trigger] is_among(a, index) <==> is_among(b, index),
    ensures
        cut_down(value, a) == cut_down(value, b),
        extraction(value, a) == extraction(value, b),
{
    let list = pages(value);
    lemma_kept_by_index(list, a, b);
    lemma_kept_by_index(list, b, a);
    assert(kept_numbers(list, a) =~= kept_numbers(list, b));
}

/// What is kept for some indices is kept for more.
proof fn lemma_kept_by_index(list: Seq<(u32, ObjectId)>, fewer: Seq<usize>, more: Seq<usize>)
    requires
        forall|index: int| #[trigger] is_among(fewer, index) ==> is_among(more, index),
    ensures
        forall|number: u32|
            kept_numbers(list, fewer).contains(number) ==> #[trigger] kept_numbers(
                list,
                more,
            ).contains(number),
{
    assert forall|number: u32| kept_numbers(list, fewer).contains(number) implies #[trigger]
        kept_numbers(list, more).contains(number) by {
        let k = choose|k: int|
            0 <= k < fewer.len() && list[#[trigger] fewer[k] as int].0 == number;
        assert(is_among(fewer, fewer[k] as int));
        let j = choose|j: int| 0 <= j < more.len() && #[trigger] more[j] == fewer[k] as int;
        assert(list[more[j] as int].0 == number);
    }
}

/// Extracts the pages at the given indices and writes them as a document of their own,
/// one that pruning finds nothing to take out of. Where the page tree is plain, that
/// document has just those pages.
pub fn extract_pages_to_bytes(source: &Document, page_indices: &[usize]) -> (r: Result<
    Vec<u8>,
    SplitError,
>)
    requires
        forall|k: int|
            0 <= k < page_indices@.len() ==> #[trigger] page_indices@[k] < pages(
                document_value(*source),
            ).len(),
    ensures
        match r {
            Ok(bytes) => extraction(document_value(*source), page_indices@) == Ok::<
                _,
                SplitError,
            >(bytes@),
            Err(e) => extraction(document_value(*source), page_indices@) == Err::<Seq<u8>, _>(e),
        },
        r matches Ok(bytes) ==> (cut_down(document_value(*source), page_indices@) matches Ok(rest)
            && saving(rest).0 == bytes@ && pruned(rest) == rest),
        plain_tree(document_value(*source)) && r is Ok ==> (cut_down(
            document_value(*source),
            page_indices@,
        ) matches Ok(rest) && page_ids(rest) == ids_at(
            page_ids(document_value(*source)),
            page_indices@,
        )),
{
    let list = match list_pages(source) {
        Ok(list) => list,
        Err(e) => return Err(e),
    };
    let mut keep: HashSet<u32> = HashSet::new();
    let mut k: usize = 0;
    assert(keep@ =~= kept_numbers(list@, page_indices@.take(0)));
    while k < page_indices.len()
        invariant
            k <= page_indices@.len(),
            keep@ == kept_numbers(list@, page_indices@.take(k as int)),
            forall|k: int|
                0 <= k < page_indices@.len() ==> #[trigger] page_indices@[k] < list@.len(),
        decreases page_indices.len() - k,
    {
        let number: u32 = list[page_indices[k]].0;
        keep.insert(number);
        proof {
            lemma_kept_grows(list@, page_indices@, k as int);
        }
        k += 1;
    }
    assert(page_indices@.take(k as int) =~= page_indices@);

    let ghost numbers = list@.map_values(|page: (u32, ObjectId)| page.0);
    let ghost dropped = |number: u32| !kept_numbers(list@, page_indices@).contains(number);
    let mut to_delete: Vec<u32> = Vec::new();
    let mut i: usize = 0;
    proof {
        reveal(Seq::filter);
    }
    while i < list.len()
        invariant
            i <= list@.len(),
            keep@ == kept_numbers(list@, page_indices@),
            numbers == list@.map_values(|page: (u32, ObjectId)| page.0),
            dropped == (|number: u32| !kept_numbers(list@, page_indices@).contains(number)),
            to_delete@ == numbers.take(i as int).filter(dropped),
        decreases list.len() - i,
    {
        let number: u32 = list[i].0;
        proof {
            reveal(Seq::filter);
            assert(numbers.take(i + 1).drop_last() =~= numbers.take(i as int));
            assert(numbers.take(i + 1).last() == number);
        }
        if !keep.contains(&number) {
            to_delete.push(number);
        }
        i += 1;
    }
    assert(numbers.take(i as int) =~= numbers);

    proof {
        if plain_tree(document_value(*source)) {
            lemma_kept_ids(document_value(*source), page_indices@);
        }
    }
    let mut doc = duplicate(source);
    if to_delete.len() > 0 {
        match remove_pages(&mut doc, to_delete.as_slice()) {
            Ok(()) => {},
            Err(e) => return Err(e),
        }
    } else {
        prune_objects(&mut doc);
    }
    write_document(&mut doc)
}

/// The numbers of the kept pages, after one more index.
proof fn lemma_kept_grows(list: Seq<(u32, ObjectId)>, page_indices: Seq<usize>, k: int)
    requires
        0 <= k < page_indices.len(),
    ensures
        kept_numbers(list, page_indices.take(k + 1)) == kept_numbers(
            list,
            page_indices.take(k),
        ).insert(list[page_indices[k] as int].0),
{
    let before = page_indices.take(k);
    let after = page_indices.take(k + 1);
    assert forall|number: u32|
        kept_numbers(list, after).contains(number) <==> kept_numbers(list, before).insert(
            list[page_indices[k] as int].0,
        ).contains(number) by {
        if kept_numbers(list, after).contains(number) {
            let j = choose|j: int|
                0 <= j < after.len() && list[#[trigger] after[j] as int].0 == number;
            if j < k {
                assert(before[j] == after[j]);
            }
        }
        if kept_numbers(list, before).contains(number) {
            let j = choose|j: int|
                0 <= j < before.len() && list[#[trigger] before[j] as int].0 == number;
            assert(after[j] == before[j]);
        }
        assert(after[k] == page_indices[k]);
    }
    assert(kept_numbers(list, after) =~= kept_numbers(list, before).insert(
        list[page_indices[k] as int].0,
    ));
}

/// The pages that are kept, by a filter and by their indices.
pub(crate) proof fn lemma_kept_by_number(
    list: Seq<(u32, ObjectId)>,
    page_indices: Seq<usize>,
    keep: spec_fn((u32, ObjectId)) -> bool,
)
    requires
        forall|i: int|
            0 <= i < list.len() ==> keep(#[trigger] list[i]) == is_among(page_indices, i),
    ensures
        list.filter(keep).map_values(|page: (u32, ObjectId)| page.1) == ids_at(
            list.map_values(|page: (u32, ObjectId)| page.1),
            page_indices,
        ),
    decreases list.len(),
{
    let id = |page: (u32, ObjectId)| page.1;
    reveal(Seq::filter);
    if list.len() > 0 {
        let front = list.drop_last();
        assert forall|i: int| 0 <= i < front.len() implies keep(#[trigger] front[i])
            == is_among(page_indices, i) by {
            assert(front[i] == list[i]);
        }
        lemma_kept_by_number(front, page_indices, keep);
        assert(list.map_values(id).drop_last() =~= front.map_values(id));
        assert(keep(list[list.len() - 1]) == is_among(page_indices, list.len() - 1));
        assert(list.filter(keep).map_values(id) =~= if keep(list.last()) {
            front.filter(keep).map_values(id).push(list.last().1)
        } else {
            front.filter(keep).map_values(id)
        });
    } else {
        assert(list.filter(keep).map_values(id) =~= seq![]);
        assert(list.map_values(id) =~= seq![]);
    }
}

/// Without the dropped pages, the pages at the given indices are left.
proof fn lemma_kept_ids(value: DocumentValue, page_indices: Seq<usize>)
    requires
        numbered(pages(value)),
        forall|k: int|
            0 <= k < page_indices.len() ==> #[trigger] page_indices[k] < pages(value).len(),
    ensures
        remaining_ids(value, dropped_numbers(pages(value), page_indices)) == ids_at(
            page_ids(value),
            page_indices,
        ),
        dropped_numbers(pages(value), page_indices).len() == 0 ==> page_ids(value) == ids_at(
            page_ids(value),
            page_indices,
        ),
{
    let list = pages(value);
    let numbers = list.map_values(|page: (u32, ObjectId)| page.0);
    let unwanted = |number: u32| !kept_numbers(list, page_indices).contains(number);
    let dropped = dropped_numbers(list, page_indices);
    let keep = |page: (u32, ObjectId)| !dropped.contains(page.0);
    assert forall|i: int| 0 <= i < list.len() implies keep(#[trigger] list[i])
        == is_among(page_indices, i) by {
        broadcast use vstd::seq_lib::group_filter_ensures;

        if kept_numbers(list, page_indices).contains(list[i].0) {
            let k = choose|k: int|
                0 <= k < page_indices.len() && list[#[trigger] page_indices[k] as int].0
                    == list[i].0;
            assert(list[page_indices[k] as int].0 == page_indices[k] + 1);
            assert(page_indices[k] == i);
            if dropped.contains(list[i].0) {
                let j = choose|j: int| 0 <= j < dropped.len() && dropped[j] == list[i].0;
                assert(unwanted(dropped[j]));
            }
        } else {
            assert(numbers[i] == list[i].0);
            assert(numbers.contains(list[i].0));
            assert(unwanted(list[i].0));
            assert(dropped.contains(list[i].0));
            if is_among(page_indices, i) {
                let k = choose|k: int| 0 <= k < page_indices.len() && page_indices[k] == i;
                assert(list[page_indices[k] as int].0 == list[i].0);
            }
        }
    }
    lemma_kept_by_number(list, page_indices, keep);
    assert(remaining_ids(value, dropped) == list.filter(keep).map_values(
        |page: (u32, ObjectId)| page.1,
    ));
    if dropped.len() == 0 {
        lemma_all_kept(list, keep);
    }
}

/// A filter that takes all of a sequence leaves it as it is.
proof fn lemma_all_kept<A>(s: Seq<A>, keep: spec_fn(A) -> bool)
    requires
        forall|i: int| 0 <= i < s.len() ==> keep(#[trigger] s[i]),
    ensures
        s.filter(keep) == s,
    decreases s.len(),
{
    reveal(Seq::filter);
    if s.len() > 0 {
        assert forall|i: int| 0 <= i < s.drop_last().len() implies keep(
            #[trigger] s.drop_last()[i],
        ) by {
            assert(s.drop_last()[i] == s[i]);
        }
        lemma_all_kept(s.drop_last(), keep);
        assert(s.drop_last().push(s.last()) =~= s);
    } else {
        assert(s.filter(keep) =~= s);
    }
}

/// The ids at consecutive indices.
pub(crate) proof fn lemma_ids_in_range(ids: Seq<ObjectId>, start: int, end: int)
    requires
        0 <= start <= end <= usize::MAX,
    ensures
        ids_at(ids, indices(start, end)) == ids.subrange(
            if start < ids.len() {
                start
            } else {
                ids.len() as int
            },
            if end < ids.len() {
                end
            } else {
                ids.len() as int
            },
        ),
    decreases ids.len(),
{
    if ids.len() > 0 {
        let last = ids.len() - 1;
        let range = indices(start, end);
        lemma_ids_in_range(ids.drop_last(), start, end);
        if start <= last < end {
            assert(range[last - start] == last);
            assert(is_among(range, last));
        }
    }
}

/// Of indices that are given in order, each once, the ids are those at the first, the second and
/// so on.
pub proof fn law_ids_are_taken_by_their_indices(ids: Seq<ObjectId>, page_indices: Seq<usize>)
    requires
        forall|j: int, k: int|
            0 <= j < k < page_indices.len() ==> page_indices[j] < page_indices[k],
        forall|k: int| 0 <= k < page_indices.len() ==> #[trigger] page_indices[k] < ids.len(),
    ensures
        ids_at(ids, page_indices) == Seq::new(
            page_indices.len(),
            |k: int| ids[page_indices[k] as int],
        ),
    decreases ids.len(),
{
    let expected = Seq::new(page_indices.len(), |k: int| ids[page_indices[k] as int]);
    if ids.len() == 0 {
        if page_indices.len() > 0 {
            assert(page_indices[0] < ids.len());
        }
        assert(ids_at(ids, page_indices) =~= expected);
    } else {
        let front = ids.drop_last();
        let n = page_indices.len() as int;
        if is_among(page_indices, ids.len() - 1) {
            let k = choose|k: int|
                0 <= k < page_indices.len() && #[trigger] page_indices[k] == ids.len() - 1;
            if k < n - 1 {
                assert(page_indices[n - 1] < ids.len());
            }
            assert(k == n - 1);
            let fewer = page_indices.drop_last();
            law_ids_are_taken_by_their_indices(front, fewer);
            lemma_ids_at_same(front, page_indices, fewer);
            assert(ids_at(ids, page_indices) =~= expected);
        } else {
            assert forall|k: int| 0 <= k < n implies #[trigger] page_indices[k] < front.len() by {
                if page_indices[k] == ids.len() - 1 {
                    assert(is_among(page_indices, ids.len() - 1));
                }
            }
            law_ids_are_taken_by_their_indices(front, page_indices);
            assert(ids_at(ids, page_indices) =~= expected);
        }
    }
}

/// The ids at some indices, where these differ only past the ids.
proof fn lemma_ids_at_same(ids: Seq<ObjectId>, a: Seq<usize>, b: Seq<usize>)
    requires
        a.len() > 0,
        b == a.drop_last(),
        a.last() >= ids.len(),
    ensures
        ids_at(ids, a) == ids_at(ids, b),
    decreases ids.len(),
{
    if ids.len() > 0 {
        lemma_ids_at_same(ids.drop_last(), a, b);
        let i = ids.len() - 1;
        if is_among(a, i) {
            let k = choose|k: int| 0 <= k < a.len() && #[trigger] a[k] == i;
            assert(b[k] == i);
        }
        if is_among(b, i) {
            let k = choose|k: int| 0 <= k < b.len() && #[trigger] b[k] == i;
            assert(a[k] == i);
        }
    }
}

} // verus!
