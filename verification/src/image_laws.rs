//! What holds of every extraction of images.

use vstd::prelude::*;
use vstd::string::StringSliceAdditionalSpecFns;

use crate::image_scan::{
    entries_events, entry_event, image_of, page_events, page_xobjects, pages_events, ImageEventView,
    ImageExtractionView, ImageScanView, ImageStepView,
};
use crate::pdf::{entry, object_at, ObjectId, PdfValue};

verus! {

/// The object that an event is about.
pub open spec fn event_id(event: ImageEventView) -> ObjectId {
    match event {
        ImageEventView::Image { id, .. } => id,
        ImageEventView::Skipped { id, .. } => id,
    }
}

/// How many of the events are about images that are written.
pub open spec fn image_count(events: Seq<ImageEventView>) -> nat
    decreases events.len(),
{
    if events.len() == 0 {
        0
    } else {
        image_count(events.drop_last()) + if events.last() is Image {
            1nat
        } else {
            0nat
        }
    }
}

/// Whether no two events are about the same object, and the images that are
/// written are numbered one after the other from `first` on.
pub open spec fn orderly(events: Seq<ImageEventView>, first: int) -> bool {
    &&& forall|i: int, j: int|
        0 <= i < j < events.len() ==> event_id(#[trigger] events[i]) != event_id(
            #[trigger] events[j],
        )
    &&& forall|i: int|
        0 <= i < events.len() ==> (#[trigger] events[i] matches ImageEventView::Image {
            number,
            ..
        } ==> number == first + image_count(events.take(i)))
}

/// What holds of the events of some entries: they are in order, they are about
/// objects that had not been looked at before and have been now, and the search
/// counts the images among them.
spec fn entries_hold(
    scan: ImageScanView,
    events: Seq<ImageEventView>,
    after: ImageScanView,
) -> bool {
    &&& orderly(events, scan.count + 1)
    &&& after.count == scan.count + image_count(events)
    &&& scan.seen.subset_of(after.seen)
    &&& forall|i: int|
        0 <= i < events.len() ==> !scan.seen.contains(event_id(#[trigger] events[i]))
            && after.seen.contains(event_id(events[i]))
}

/// The events of some entries are in order.
proof fn lemma_entries(
    objects: Map<ObjectId, PdfValue>,
    scan: ImageScanView,
    entries: Seq<(Seq<u8>, PdfValue)>,
)
    ensures
        entries_hold(
            scan,
            entries_events(objects, scan, entries).0,
            entries_events(objects, scan, entries).1,
        ),
    decreases entries.len(),
{
    if entries.len() > 0 {
        lemma_entries(objects, scan, entries.drop_last());
        let (events, before) = entries_events(objects, scan, entries.drop_last());
        let (all, after) = entries_events(objects, scan, entries);
        let value = entries.last().1;
        match entry_event(objects, before, value) {
            Some(event) => {
                assert(all == events.push(event));
                assert(all.drop_last() =~= events);
                assert(after.seen == before.seen.insert(event_id(event)));
                assert forall|i: int| 0 <= i < all.len() implies (
                #[trigger] all[i] matches ImageEventView::Image { number, .. } ==> number
                    == scan.count + 1 + image_count(all.take(i))) by {
                    if i < events.len() {
                        assert(all[i] == events[i]);
                        assert(all.take(i) =~= events.take(i));
                    } else {
                        assert(all.take(i) =~= events);
                    }
                }
            },
            None => {},
        }
    }
}

/// Two runs of events that are each in order, the second about other objects and
/// numbered from where the first ends, are in order together.
proof fn lemma_orderly_concat(a: Seq<ImageEventView>, b: Seq<ImageEventView>, first: int)
    requires
        orderly(a, first),
        orderly(b, first + image_count(a)),
        forall|i: int, j: int|
            0 <= i < a.len() && 0 <= j < b.len() ==> event_id(#[trigger] a[i]) != event_id(
                #[trigger] b[j],
            ),
    ensures
        orderly(a + b, first),
        image_count(a + b) == image_count(a) + image_count(b),
{
    let all = a + b;
    assert forall|i: int| 0 <= i < all.len() implies (
    #[trigger] all[i] matches ImageEventView::Image { number, .. } ==> number == first
        + image_count(all.take(i))) by {
        if i < a.len() {
            assert(all[i] == a[i]);
            assert(all.take(i) =~= a.take(i));
        } else {
            assert(all[i] == b[i - a.len()]);
            assert(all.take(i) =~= a + b.take(i - a.len()));
            lemma_image_count_concat(a, b.take(i - a.len()));
        }
    }
    lemma_image_count_concat(a, b);
}

/// The images of two runs of events together.
proof fn lemma_image_count_concat(a: Seq<ImageEventView>, b: Seq<ImageEventView>)
    ensures
        image_count(a + b) == image_count(a) + image_count(b),
    decreases b.len(),
{
    if b.len() > 0 {
        lemma_image_count_concat(a, b.drop_last());
        assert((a + b).drop_last() =~= a + b.drop_last());
    } else {
        assert(a + b =~= a);
    }
}

/// The events of some pages are in order, and about objects that have been looked
/// at.
proof fn lemma_pages(objects: Map<ObjectId, PdfValue>, list: Seq<(u32, ObjectId)>)
    ensures
        orderly(pages_events(objects, list).0, 1),
        pages_events(objects, list).1.count == image_count(pages_events(objects, list).0),
        forall|i: int|
            #![trigger pages_events(objects, list).0[i]]
            0 <= i < pages_events(objects, list).0.len() ==> pages_events(
                objects,
                list,
            ).1.seen.contains(event_id(pages_events(objects, list).0[i])),
    decreases list.len(),
{
    if list.len() > 0 {
        lemma_pages(objects, list.drop_last());
        let (events, scan) = pages_events(objects, list.drop_last());
        let page = list.last().1;
        let (more, after) = page_events(objects, scan, page);
        match page_xobjects(objects, page) {
            Some(entries) => lemma_entries(objects, scan, entries),
            None => {},
        }
        assert(entries_hold(scan, more, after));
        assert forall|i: int, j: int| 0 <= i < events.len() && 0 <= j < more.len() implies event_id(
            #[trigger] events[i],
        ) != event_id(#[trigger] more[j]) by {
            assert(scan.seen.contains(event_id(events[i])));
            assert(!scan.seen.contains(event_id(more[j])));
        }
        lemma_orderly_concat(events, more, 1);
        let all = events + more;
        assert forall|i: int| #![trigger all[i]] 0 <= i < all.len() implies after.seen.contains(
            event_id(all[i]),
        ) by {
            if i < events.len() {
                assert(all[i] == events[i]);
                assert(scan.seen.contains(event_id(events[i])));
            } else {
                assert(all[i] == more[i - events.len()]);
            }
        }
    }
}

/// An image is dealt with once, however many pages use it and however often they
/// do, and the images that are written are numbered 1, 2, 3 and so on, in the order
/// in which they are found.
pub proof fn law_images_are_distinct_and_numbered(
    objects: Map<ObjectId, PdfValue>,
    list: Seq<(u32, ObjectId)>,
)
    ensures
        orderly(pages_events(objects, list).0, 1),
{
    lemma_pages(objects, list);
}

/// What becomes of images when an extraction is taken page by page, stopped or not
/// as `stops` says at each of them.
pub open spec fn image_run(extraction: ImageExtractionView, stops: Seq<bool>) -> Seq<
    ImageEventView,
>
    decreases stops.len(),
{
    if stops.len() == 0 {
        seq![]
    } else {
        let (next, step) = extraction.step(stops[0]);
        match step {
            ImageStepView::Page(events) => events + image_run(next, stops.drop_first()),
            _ => image_run(next, stops.drop_first()),
        }
    }
}

/// The events of an extraction up to some page.
spec fn events_upto(extraction: ImageExtractionView, page: int) -> Seq<ImageEventView> {
    pages_events(extraction.objects, extraction.list.take(page)).0
}

/// Stopping an extraction keeps what it has found, and changes none of it: what
/// becomes of the images of any run is the beginning of what becomes of those of the
/// whole document.
pub proof fn law_stopping_keeps_the_images_so_far(
    extraction: ImageExtractionView,
    stops: Seq<bool>,
)
    requires
        extraction.wf(),
        extraction.next == 0,
    ensures
        image_run(extraction, stops).is_prefix_of(
            pages_events(extraction.objects, extraction.list).0,
        ),
{
    lemma_run_is_prefix(extraction, stops);
    assert(extraction.list.take(extraction.list.len() as int) =~= extraction.list);
    assert(events_upto(extraction, 0) =~= seq![]);
    assert(events_upto(extraction, 0) + image_run(extraction, stops) =~= image_run(
        extraction,
        stops,
    ));
}

/// What has been found and what a run finds is the beginning of all there is to
/// find.
proof fn lemma_run_is_prefix(extraction: ImageExtractionView, stops: Seq<bool>)
    requires
        extraction.wf(),
    ensures
        (events_upto(extraction, extraction.next) + image_run(extraction, stops)).is_prefix_of(
            events_upto(extraction, extraction.list.len() as int),
        ),
    decreases stops.len(),
{
    let before = events_upto(extraction, extraction.next);
    if stops.len() == 0 {
        lemma_upto_grows(extraction, extraction.next);
        assert(before + seq![] =~= before);
    } else {
        let (next, step) = extraction.step(stops[0]);
        let upto = extraction.list.take(extraction.next + 1);
        match step {
            ImageStepView::Page(events) => {
                assert(upto.drop_last() =~= extraction.list.take(extraction.next));
                assert(upto.last() == extraction.list[extraction.next]);
                lemma_run_is_prefix(next, stops.drop_first());
                assert(before + (events + image_run(next, stops.drop_first())) =~= (before
                    + events) + image_run(next, stops.drop_first()));
            },
            _ => {
                lemma_run_is_prefix(next, stops.drop_first());
            },
        }
    }
}

/// The events up to a page are the beginning of all of them.
proof fn lemma_upto_grows(extraction: ImageExtractionView, page: int)
    requires
        0 <= page <= extraction.list.len(),
    ensures
        events_upto(extraction, page).is_prefix_of(
            events_upto(extraction, extraction.list.len() as int),
        ),
    decreases extraction.list.len() - page,
{
    if page < extraction.list.len() {
        lemma_upto_grows(extraction, page + 1);
        let upto = extraction.list.take(page + 1);
        assert(upto.drop_last() =~= extraction.list.take(page));
        let a = events_upto(extraction, page);
        let b = events_upto(extraction, page + 1);
        assert(b.subrange(0, a.len() as int) =~= a);
        let all = events_upto(extraction, extraction.list.len() as int);
        assert(all.subrange(0, a.len() as int) =~= all.subrange(0, b.len() as int).subrange(
            0,
            a.len() as int,
        ));
    }
}

/// Whether an object is an image.
pub open spec fn is_image_object(objects: Map<ObjectId, PdfValue>, id: ObjectId) -> bool {
    object_at(objects, id) matches Some(PdfValue::Stream(d, _)) && entry(
        d,
        "Subtype".spec_bytes(),
    ) == Some(PdfValue::Name("Image".spec_bytes()))
}

/// Whether an event says of an image what its file holds, or else why it has none.
pub open spec fn tells_truly(objects: Map<ObjectId, PdfValue>, event: ImageEventView) -> bool {
    &&& is_image_object(objects, event_id(event))
    &&& object_at(objects, event_id(event)) matches Some(PdfValue::Stream(d, content)) && match (
        event,
        image_of(objects, d, content),
    ) {
        (ImageEventView::Image { format, bytes, .. }, Ok(file)) => format == file.0 && bytes
            == file.1,
        (ImageEventView::Skipped { reason, .. }, Err(why)) => reason == why,
        _ => false,
    }
}

/// Whether an object is referred to by one of the entries.
pub open spec fn refers(entries: Seq<(Seq<u8>, PdfValue)>, id: ObjectId) -> bool {
    exists|k: int| 0 <= k < entries.len() && #[trigger] entries[k].1 == PdfValue::Reference(id)
}

/// Whether a page uses an object.
pub open spec fn uses(objects: Map<ObjectId, PdfValue>, page: ObjectId, id: ObjectId) -> bool {
    page_xobjects(objects, page) matches Some(entries) && refers(entries, id)
}

/// Whether one of the listed pages uses an object.
pub open spec fn is_used(
    objects: Map<ObjectId, PdfValue>,
    list: Seq<(u32, ObjectId)>,
    id: ObjectId,
) -> bool {
    exists|p: int| 0 <= p < list.len() && #[trigger] uses(objects, list[p].1, id)
}

/// Whether one of the events is about an object.
pub open spec fn is_told(events: Seq<ImageEventView>, id: ObjectId) -> bool {
    exists|i: int| 0 <= i < events.len() && event_id(#[trigger] events[i]) == id
}

/// Going on adds to what is referred to.
proof fn lemma_refers(entries: Seq<(Seq<u8>, PdfValue)>, id: ObjectId)
    requires
        entries.len() > 0,
    ensures
        refers(entries, id) <==> refers(entries.drop_last(), id) || entries.last().1
            == PdfValue::Reference(id),
{
    let front = entries.drop_last();
    if refers(entries, id) {
        let k = choose|k: int|
            0 <= k < entries.len() && #[trigger] entries[k].1 == PdfValue::Reference(id);
        if k < front.len() {
            assert(front[k].1 == PdfValue::Reference(id));
        }
    }
    if refers(front, id) {
        let k = choose|k: int|
            0 <= k < front.len() && #[trigger] front[k].1 == PdfValue::Reference(id);
        assert(entries[k].1 == PdfValue::Reference(id));
    }
    if entries.last().1 == PdfValue::Reference(id) {
        assert(entries[entries.len() - 1].1 == PdfValue::Reference(id));
    }
}

/// What is told of stays told of.
proof fn lemma_told_stays(a: Seq<ImageEventView>, b: Seq<ImageEventView>, id: ObjectId)
    ensures
        is_told(a + b, id) <==> is_told(a, id) || is_told(b, id),
{
    let all = a + b;
    if is_told(a, id) {
        let i = choose|i: int| 0 <= i < a.len() && event_id(#[trigger] a[i]) == id;
        assert(event_id(all[i]) == id);
    }
    if is_told(b, id) {
        let i = choose|i: int| 0 <= i < b.len() && event_id(#[trigger] b[i]) == id;
        assert(event_id(all[a.len() + i]) == id);
    }
    if is_told(all, id) {
        let i = choose|i: int| 0 <= i < all.len() && event_id(#[trigger] all[i]) == id;
        if i < a.len() {
            assert(event_id(a[i]) == id);
        } else {
            assert(event_id(b[i - a.len()]) == id);
        }
    }
}

/// The events of some entries tell of the images among their objects that had not been looked
/// at before, and of nothing else.
proof fn lemma_entries_are_told(
    objects: Map<ObjectId, PdfValue>,
    scan: ImageScanView,
    entries: Seq<(Seq<u8>, PdfValue)>,
)
    ensures
        ({
            let (events, after) = entries_events(objects, scan, entries);
            &&& forall|i: int|
                0 <= i < events.len() ==> tells_truly(objects, #[trigger] events[i]) && refers(
                    entries,
                    event_id(events[i]),
                )
            &&& forall|id: ObjectId|
                refers(entries, id) && is_image_object(objects, id) && !scan.seen.contains(id)
                    ==> #[trigger] is_told(events, id)
            &&& forall|id: ObjectId| #[trigger]
                after.seen.contains(id) <==> scan.seen.contains(id) || refers(entries, id)
        }),
    decreases entries.len(),
{
    let (all, after) = entries_events(objects, scan, entries);
    if entries.len() > 0 {
        let front = entries.drop_last();
        lemma_entries_are_told(objects, scan, front);
        let (events, before) = entries_events(objects, scan, front);
        let value = entries.last().1;
        let more = match entry_event(objects, before, value) {
            Some(event) => seq![event],
            None => seq![],
        };
        assert(all =~= events + more);
        assert forall|i: int| 0 <= i < all.len() implies tells_truly(objects, #[trigger] all[i])
            && refers(entries, event_id(all[i])) by {
            lemma_refers(entries, event_id(all[i]));
            if i < events.len() {
                assert(all[i] == events[i]);
            }
        }
        assert forall|id: ObjectId|
            refers(entries, id) && is_image_object(objects, id) && !scan.seen.contains(
                id,
            ) implies #[trigger] is_told(all, id) by {
            lemma_refers(entries, id);
            lemma_told_stays(events, more, id);
            if !refers(front, id) {
                assert(!before.seen.contains(id));
                assert(more.len() == 1);
                assert(event_id(more[0]) == id);
            } else {
                assert(is_told(events, id));
            }
        }
        assert forall|id: ObjectId| #[trigger]
            after.seen.contains(id) <==> scan.seen.contains(id) || refers(entries, id) by {
            lemma_refers(entries, id);
            assert(before.seen.contains(id) <==> scan.seen.contains(id) || refers(front, id));
        }
    }
}

/// Every image that a page uses is told of, and nothing but images that pages use is. Of each it
/// is told what its file holds, or else why it has none.
pub proof fn law_every_image_is_told(objects: Map<ObjectId, PdfValue>, list: Seq<(u32, ObjectId)>)
    ensures
        ({
            let events = pages_events(objects, list).0;
            &&& forall|id: ObjectId| #[trigger]
                is_told(events, id) <==> is_used(objects, list, id) && is_image_object(objects, id)
            &&& forall|i: int|
                0 <= i < events.len() ==> tells_truly(objects, #[trigger] events[i])
        }),
{
    lemma_pages_are_told(objects, list);
}

/// The events of some pages tell of the images that they use, and of nothing else.
proof fn lemma_pages_are_told(objects: Map<ObjectId, PdfValue>, list: Seq<(u32, ObjectId)>)
    ensures
        ({
            let (events, scan) = pages_events(objects, list);
            &&& forall|id: ObjectId| #[trigger]
                is_told(events, id) <==> is_used(objects, list, id) && is_image_object(objects, id)
            &&& forall|i: int|
                0 <= i < events.len() ==> tells_truly(objects, #[trigger] events[i])
            &&& forall|id: ObjectId| #[trigger]
                scan.seen.contains(id) <==> is_used(objects, list, id)
        }),
    decreases list.len(),
{
    if list.len() > 0 {
        let front = list.drop_last();
        lemma_pages_are_told(objects, front);
        let (events, scan) = pages_events(objects, front);
        let page = list.last().1;
        let (more, after) = page_events(objects, scan, page);
        let entries = match page_xobjects(objects, page) {
            Some(entries) => entries,
            None => seq![],
        };
        assert(entries_events(objects, scan, entries) == (more, after));
        lemma_entries_are_told(objects, scan, entries);
        let all = events + more;
        assert forall|id: ObjectId|
            is_used(objects, list, id) <==> is_used(objects, front, id) || refers(
                entries,
                id,
            ) by {
            if is_used(objects, list, id) {
                let p = choose|p: int|
                    0 <= p < list.len() && #[trigger] uses(objects, list[p].1, id);
                if p < front.len() {
                    assert(uses(objects, front[p].1, id));
                }
            }
            if is_used(objects, front, id) {
                let p = choose|p: int|
                    0 <= p < front.len() && #[trigger] uses(objects, front[p].1, id);
                assert(uses(objects, list[p].1, id));
            }
            if refers(entries, id) {
                assert(uses(objects, list[list.len() - 1].1, id));
            }
        }
        assert forall|id: ObjectId| #[trigger]
            is_told(all, id) <==> is_used(objects, list, id) && is_image_object(objects, id) by {
            lemma_told_stays(events, more, id);
            assert(is_told(events, id) <==> is_used(objects, front, id) && is_image_object(
                objects,
                id,
            ));
            assert(scan.seen.contains(id) <==> is_used(objects, front, id));
            if is_told(more, id) {
                let i = choose|i: int| 0 <= i < more.len() && event_id(#[trigger] more[i]) == id;
                assert(tells_truly(objects, more[i]));
            }
        }
        assert forall|i: int| 0 <= i < all.len() implies tells_truly(
            objects,
            #[trigger] all[i],
        ) by {
            if i < events.len() {
                assert(all[i] == events[i]);
            } else {
                assert(all[i] == more[i - events.len()]);
            }
        }
    }
}

/// Images are told of in the order of the pages: what is told of the first pages comes first in
/// what is told of all of them.
pub proof fn law_images_come_page_by_page(
    objects: Map<ObjectId, PdfValue>,
    list: Seq<(u32, ObjectId)>,
    pages: int,
)
    requires
        0 <= pages <= list.len(),
    ensures
        pages_events(objects, list.take(pages)).0.is_prefix_of(pages_events(objects, list).0),
    decreases list.len(),
{
    if pages == list.len() {
        assert(list.take(pages) =~= list);
    } else {
        let front = list.drop_last();
        law_images_come_page_by_page(objects, front, pages);
        assert(front.take(pages) =~= list.take(pages));
        let a = pages_events(objects, front).0;
        let all = pages_events(objects, list).0;
        let first = pages_events(objects, list.take(pages)).0;
        assert(all.subrange(0, first.len() as int) =~= a.subrange(0, first.len() as int));
    }
}

/// An extraction that has been halted finds nothing.
proof fn lemma_halted_finds_nothing(extraction: ImageExtractionView, stops: Seq<bool>)
    requires
        extraction.halted,
    ensures
        image_run(extraction, stops) == Seq::<ImageEventView>::empty(),
    decreases stops.len(),
{
    if stops.len() > 0 {
        lemma_halted_finds_nothing(extraction, stops.drop_first());
    }
}

/// An extraction that is told to stop does so at the next step, unless all pages have been gone
/// through, and finds nothing more. One that is not goes through one page after the other.
pub proof fn law_extractions_stop_at_the_next_step(
    extraction: ImageExtractionView,
    later: Seq<bool>,
)
    requires
        extraction.wf(),
    ensures
        extraction.step(true).1 is Finished <==> extraction.step(false).1 is Finished,
        extraction.step(true).1 is Stopped || extraction.step(true).1 is Finished,
        extraction.step(true).1 is Stopped ==> image_run(extraction.step(true).0, later) == Seq::<
            ImageEventView,
        >::empty(),
        !extraction.halted && extraction.next < extraction.list.len() ==> {
            let upto = pages_events(extraction.objects, extraction.list.take(extraction.next)).0;
            let one_more = extraction.list.take(extraction.next + 1);
            &&& extraction.step(false).1 matches ImageStepView::Page(events) && upto + events
                == pages_events(extraction.objects, one_more).0
            &&& extraction.step(false).0.next == extraction.next + 1
        },
{
    if extraction.step(true).1 is Stopped {
        lemma_halted_finds_nothing(extraction.step(true).0, later);
    }
    if extraction.next < extraction.list.len() {
        let one_more = extraction.list.take(extraction.next + 1);
        assert(one_more.drop_last() =~= extraction.list.take(extraction.next));
        assert(one_more.last() == extraction.list[extraction.next]);
    }
}

/// Going on adds to the images as far as there are any.
proof fn lemma_image_count_between(events: Seq<ImageEventView>, i: int, j: int)
    requires
        0 <= i <= j <= events.len(),
        forall|k: int| i <= k < j ==> !(#[trigger] events[k] is Image),
    ensures
        image_count(events.take(j)) == image_count(events.take(i)),
    decreases j - i,
{
    if i < j {
        lemma_image_count_between(events, i, j - 1);
        assert(events.take(j).drop_last() =~= events.take(j - 1));
        assert(!(events[j - 1] is Image));
    }
}

/// The first image that is written has the number 1, the next one after an image has the number
/// after its own, and no two events are about the same object.
pub proof fn law_image_numbers_follow_one_another(
    objects: Map<ObjectId, PdfValue>,
    list: Seq<(u32, ObjectId)>,
    i: int,
    j: int,
)
    requires
        -1 <= i < j < pages_events(objects, list).0.len(),
        forall|k: int| i < k < j ==> !(#[trigger] pages_events(objects, list).0[k] is Image),
    ensures
        ({
            let events = pages_events(objects, list).0;
            &&& i == -1 ==> (events[j] matches ImageEventView::Image { number, .. } ==> number == 1)
            &&& i >= 0 ==> event_id(events[i]) != event_id(events[j])
            &&& i >= 0 && events[i] is Image && events[j] is Image ==> events[j]->number
                == events[i]->number + 1
        }),
{
    let events = pages_events(objects, list).0;
    lemma_pages(objects, list);
    lemma_image_count_between(events, i + 1, j);
    if i >= 0 {
        assert(events.take(i + 1).drop_last() =~= events.take(i));
        assert(events.take(i + 1).last() == events[i]);
        assert(event_id(events[i]) != event_id(events[j]));
    } else {
        assert(events.take(0) =~= seq![]);
    }
    assert(events[j] == events[j]);
}

} // verus!
