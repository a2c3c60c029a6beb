//! Going through a document for its images.

use std::collections::HashSet;

use lopdf::{Document, Object, Stream};
use vstd::prelude::*;
use vstd::string::StringSliceAdditionalSpecFns;

use crate::codecs::{data_view, inflate, inflated};
use crate::images::{
    ccitt_tiff, decode_flate_to_jpeg, dict_entry_as_dict, entry_dict, filter_chain,
    flate_jpeg, is_image, is_image_xobject, read_filter_chain, views, wrap_ccitt_in_tiff,
    ImageError, ImageErrorView, ImageFormat,
};
use crate::page_tree::{id_key, key_of, list_pages, page_list, SplitError};
use crate::pdf::{
    dictionary_at, dictionary_value, document_value, entry_objects, get_dictionary, get_object,
    look, object_at, object_value, stream_content, stream_dict, stream_parts, ObjectId, ObjectRef,
    PdfValue,
};
use crate::text::{copy_bytes, same_bytes};

verus! {

broadcast use vstd::std_specs::hash::group_hash_axioms;

/// Why an image is left out.
#[derive(Debug)]
pub enum SkipReason {
    /// The image has no filter, so its format is not known.
    NoFilter,
    /// The fax-encoded image could not be wrapped.
    CcittFailed(ImageError),
    /// The compressed image could not be converted.
    FlateFailed(ImageError),
    /// The image has this filter, which is not supported.
    UnsupportedFilter(Vec<u8>),
    /// The image has these filters, which are not supported together.
    UnsupportedFilters(Vec<Vec<u8>>),
}

/// Why an image is left out.
#[verifier::ext_equal]
pub enum SkipReasonView {
    NoFilter,
    CcittFailed(ImageErrorView),
    FlateFailed(ImageErrorView),
    UnsupportedFilter(Seq<u8>),
    UnsupportedFilters(Seq<Seq<u8>>),
}

impl View for SkipReason {
    type V = SkipReasonView;

    open spec fn view(&self) -> SkipReasonView {
        match self {
            SkipReason::NoFilter => SkipReasonView::NoFilter,
            SkipReason::CcittFailed(e) => SkipReasonView::CcittFailed(e@),
            SkipReason::FlateFailed(e) => SkipReasonView::FlateFailed(e@),
            SkipReason::UnsupportedFilter(name) => SkipReasonView::UnsupportedFilter(name@),
            SkipReason::UnsupportedFilters(chain) => SkipReasonView::UnsupportedFilters(
                views(chain@),
            ),
        }
    }
}

/// What becomes of an image.
pub enum ImageEvent {
    /// It is written to the file with this number.
    Image { id: ObjectId, number: usize, format: ImageFormat, bytes: Vec<u8> },
    /// It is left out.
    Skipped { id: ObjectId, reason: SkipReason },
}

/// What becomes of an image.
#[verifier::ext_equal]
pub enum ImageEventView {
    Image { id: ObjectId, number: int, format: ImageFormat, bytes: Seq<u8> },
    Skipped { id: ObjectId, reason: SkipReasonView },
}

impl View for ImageEvent {
    type V = ImageEventView;

    open spec fn view(&self) -> ImageEventView {
        match self {
            ImageEvent::Image { id, number, format, bytes } => ImageEventView::Image {
                id: *id,
                number: *number as int,
                format: *format,
                bytes: bytes@,
            },
            ImageEvent::Skipped { id, reason } => ImageEventView::Skipped {
                id: *id,
                reason: reason@,
            },
        }
    }
}

/// The JPEG file that a chain of two filters holds in compressed form, if any:
/// decompressing has to succeed and to give something.
pub open spec fn deflated_jpeg(
    chain: Seq<Seq<u8>>,
    data: Result<Seq<u8>, Seq<char>>,
) -> Option<Seq<u8>> {
    if chain == seq!["FlateDecode".spec_bytes(), "DCTDecode".spec_bytes()] {
        match data {
            Ok(bytes) => if bytes.len() > 0 {
                Some(bytes)
            } else {
                None
            },
            Err(_) => None,
        }
    } else {
        None
    }
}

/// What the file of an image holds, and its kind.
pub open spec fn image_of(
    objects: Map<ObjectId, PdfValue>,
    d: Seq<(Seq<u8>, PdfValue)>,
    content: Seq<u8>,
) -> Result<(ImageFormat, Seq<u8>), SkipReasonView> {
    let chain = filter_chain(d);
    match deflated_jpeg(chain, inflated(content)) {
        Some(bytes) => Ok((ImageFormat::Jpg, bytes)),
        None => if chain.len() == 0 {
            Err(SkipReasonView::NoFilter)
        } else if chain.len() > 1 {
            Err(SkipReasonView::UnsupportedFilters(chain))
        } else if chain[0] == "DCTDecode".spec_bytes() {
            Ok((ImageFormat::Jpg, content))
        } else if chain[0] == "JPXDecode".spec_bytes() {
            Ok((ImageFormat::Jp2, content))
        } else if chain[0] == "CCITTFaxDecode".spec_bytes() {
            match ccitt_tiff(objects, d, content) {
                Ok(file) => Ok((ImageFormat::Tif, file)),
                Err(e) => Err(SkipReasonView::CcittFailed(e)),
            }
        } else if chain[0] == "FlateDecode".spec_bytes() {
            match flate_jpeg(objects, d, content) {
                Ok(file) => Ok((ImageFormat::Jpg, file)),
                Err(e) => Err(SkipReasonView::FlateFailed(e)),
            }
        } else {
            Err(SkipReasonView::UnsupportedFilter(chain[0]))
        },
    }
}

/// Whether a chain is that of a JPEG file in compressed form.
fn is_deflated_jpeg(chain: &Vec<Vec<u8>>) -> (r: bool)
    ensures
        r == (views(chain@) == seq!["FlateDecode".spec_bytes(), "DCTDecode".spec_bytes()]),
{
    let ghost expected = seq!["FlateDecode".spec_bytes(), "DCTDecode".spec_bytes()];
    assert(views(chain@).len() == chain@.len());
    if chain.len() != 2 {
        assert(expected.len() == 2);
        return false;
    }
    assert(views(chain@)[0] == chain@[0]@);
    assert(views(chain@)[1] == chain@[1]@);
    let same = same_bytes(chain[0].as_slice(), "FlateDecode".as_bytes()) && same_bytes(
        chain[1].as_slice(),
        "DCTDecode".as_bytes(),
    );
    assert(same ==> views(chain@) =~= expected);
    same
}

/// The bytes to write for a chain that may be that of a JPEG file in compressed
/// form, given what decompressing gives.
pub fn choose_deflated_jpeg(chain: &Vec<Vec<u8>>, data: Result<Vec<u8>, String>) -> (r: Option<
    Vec<u8>,
>)
    ensures
        match r {
            Some(bytes) => deflated_jpeg(views(chain@), data_view(data)) == Some(bytes@),
            None => deflated_jpeg(views(chain@), data_view(data)) is None,
        },
{
    if !is_deflated_jpeg(chain) {
        return None;
    }
    match data {
        Ok(bytes) => if bytes.len() > 0 {
            Some(bytes)
        } else {
            None
        },
        Err(_) => None,
    }
}

/// Whether a result is the one described.
pub open spec fn image_agrees(
    r: Result<(ImageFormat, Vec<u8>), SkipReason>,
    described: Result<(ImageFormat, Seq<u8>), SkipReasonView>,
) -> bool {
    match r {
        Ok((format, bytes)) => described == Ok::<_, SkipReasonView>((format, bytes@)),
        Err(reason) => described == Err::<(ImageFormat, Seq<u8>), _>(reason@),
    }
}

/// The file for an image. A JPEG or JPEG 2000 stream is taken as it is, fax-encoded
/// data is wrapped, and compressed pixels are encoded anew.
pub fn read_image(doc: &Document, stream: &Stream) -> (r: Result<
    (ImageFormat, Vec<u8>),
    SkipReason,
>)
    ensures
        image_agrees(
            r,
            image_of(
                document_value(*doc).objects,
                stream_dict(*stream),
                stream_content(*stream),
            ),
        ),
{
    let (dict, content) = stream_parts(stream);
    let chain = read_filter_chain(dict);
    if is_deflated_jpeg(&chain) {
        match choose_deflated_jpeg(&chain, inflate(content.as_slice())) {
            Some(bytes) => return Ok((ImageFormat::Jpg, bytes)),
            None => {},
        }
    }
    if chain.len() == 0 {
        return Err(SkipReason::NoFilter);
    }
    if chain.len() > 1 {
        return Err(SkipReason::UnsupportedFilters(chain));
    }
    let name = copy_bytes(&chain[0]);
    assert(views(chain@)[0] == name@);
    if same_bytes(name.as_slice(), "DCTDecode".as_bytes()) {
        Ok((ImageFormat::Jpg, copy_bytes(content)))
    } else if same_bytes(name.as_slice(), "JPXDecode".as_bytes()) {
        Ok((ImageFormat::Jp2, copy_bytes(content)))
    } else if same_bytes(name.as_slice(), "CCITTFaxDecode".as_bytes()) {
        match wrap_ccitt_in_tiff(doc, stream) {
            Ok(file) => Ok((ImageFormat::Tif, file)),
            Err(e) => Err(SkipReason::CcittFailed(e)),
        }
    } else if same_bytes(name.as_slice(), "FlateDecode".as_bytes()) {
        match decode_flate_to_jpeg(doc, stream) {
            Ok(file) => Ok((ImageFormat::Jpg, file)),
            Err(e) => Err(SkipReason::FlateFailed(e)),
        }
    } else {
        Err(SkipReason::UnsupportedFilter(name))
    }
}

/// Where a search for images stands: the objects that have been looked at, and
/// how many images have been found.
#[verifier::ext_equal]
pub struct ImageScanView {
    pub seen: Set<ObjectId>,
    pub count: int,
}

/// What the object of an entry adds: nothing where it is no reference, has been
/// looked at before or is no image, and else what becomes of the image.
pub open spec fn entry_event(
    objects: Map<ObjectId, PdfValue>,
    scan: ImageScanView,
    value: PdfValue,
) -> Option<ImageEventView> {
    match value {
        PdfValue::Reference(id) => if scan.seen.contains(id) {
            None
        } else {
            match object_at(objects, id) {
                Some(PdfValue::Stream(d, content)) => if is_image(d) {
                    match image_of(objects, d, content) {
                        Ok((format, bytes)) => Some(
                            ImageEventView::Image { id, number: scan.count + 1, format, bytes },
                        ),
                        Err(reason) => Some(ImageEventView::Skipped { id, reason }),
                    }
                } else {
                    None
                },
                _ => None,
            }
        },
        _ => None,
    }
}

/// Where the search stands after the object of an entry.
pub open spec fn after_entry(
    objects: Map<ObjectId, PdfValue>,
    scan: ImageScanView,
    value: PdfValue,
) -> ImageScanView {
    ImageScanView {
        seen: match value {
            PdfValue::Reference(id) => scan.seen.insert(id),
            _ => scan.seen,
        },
        count: match entry_event(objects, scan, value) {
            Some(ImageEventView::Image { number, .. }) => number,
            _ => scan.count,
        },
    }
}

/// What becomes of the images among the objects of some entries, in their order,
/// and where the search stands after them.
pub open spec fn entries_events(
    objects: Map<ObjectId, PdfValue>,
    scan: ImageScanView,
    entries: Seq<(Seq<u8>, PdfValue)>,
) -> (Seq<ImageEventView>, ImageScanView)
    decreases entries.len(),
{
    if entries.len() == 0 {
        (seq![], scan)
    } else {
        let (events, before) = entries_events(objects, scan, entries.drop_last());
        let value = entries.last().1;
        (
            match entry_event(objects, before, value) {
                Some(event) => events.push(event),
                None => events,
            },
            after_entry(objects, before, value),
        )
    }
}

/// The external objects that a page uses.
pub open spec fn page_xobjects(objects: Map<ObjectId, PdfValue>, page: ObjectId) -> Option<
    Seq<(Seq<u8>, PdfValue)>,
> {
    match dictionary_at(objects, page) {
        Some(d) => match entry_dict(objects, d, "Resources".spec_bytes()) {
            Some(resources) => entry_dict(objects, resources, "XObject".spec_bytes()),
            None => None,
        },
        None => None,
    }
}

/// What becomes of the images of a page, and where the search stands after it.
pub open spec fn page_events(
    objects: Map<ObjectId, PdfValue>,
    scan: ImageScanView,
    page: ObjectId,
) -> (Seq<ImageEventView>, ImageScanView) {
    match page_xobjects(objects, page) {
        Some(entries) => entries_events(objects, scan, entries),
        None => (seq![], scan),
    }
}

/// A search for images that is under way.
pub struct ImageScan {
    seen: HashSet<u64>,
    count: usize,
}

impl View for ImageScan {
    type V = ImageScanView;

    closed spec fn view(&self) -> ImageScanView {
        ImageScanView {
            seen: Set::new(|id: ObjectId| self.seen@.contains(id_key(id))),
            count: self.count as int,
        }
    }
}

/// What is told of each event.
pub open spec fn event_views(events: Seq<ImageEvent>) -> Seq<ImageEventView> {
    events.map_values(|event: ImageEvent| event@)
}

impl ImageScan {
    /// What holds of a search at every step: no more images have been found than
    /// objects have been looked at.
    pub closed spec fn wf(self) -> bool {
        &&& self.seen@.finite()
        &&& self.count <= self.seen@.len()
    }

    /// A search that is to begin.
    pub fn new() -> (scan: Self)
        ensures
            scan.wf(),
            scan@ == (ImageScanView { seen: Set::empty(), count: 0 }),
    {
        let scan = ImageScan { seen: HashSet::new(), count: 0 };
        assert(scan@.seen =~= Set::empty());
        scan
    }

    /// Looks at the object of an entry.
    fn look_at(&mut self, doc: &Document, object: &Object) -> (event: Option<ImageEvent>)
        requires
            old(self).wf(),
        ensures
            final(self).wf(),
            final(self)@ == after_entry(
                document_value(*doc).objects,
                old(self)@,
                object_value(*object),
            ),
            match event {
                Some(e) => entry_event(
                    document_value(*doc).objects,
                    old(self)@,
                    object_value(*object),
                ) == Some(e@),
                None => entry_event(
                    document_value(*doc).objects,
                    old(self)@,
                    object_value(*object),
                ) is None,
            },
    {
        let ghost before = *self;
        let id = match look(object) {
            ObjectRef::Reference(id) => id,
            _ => return None,
        };
        let fresh = self.seen.insert(key_of(id));
        assert(self@.seen =~= before@.seen.insert(id));
        if !fresh {
            assert(before@.seen.contains(id));
            return None;
        }
        let target = match get_object(doc, id) {
            Some(target) => target,
            None => return None,
        };
        let stream = match look(target) {
            ObjectRef::Stream(stream) => stream,
            _ => return None,
        };
        if !is_image_xobject(stream_parts(stream).0) {
            return None;
        }
        match read_image(doc, stream) {
            Ok((format, bytes)) => {
                let looked_at: usize = self.seen.len();
                assert(self.count < looked_at);
                self.count = self.count + 1;
                assert(self@.seen =~= before@.seen.insert(id));
                Some(ImageEvent::Image { id, number: self.count, format, bytes })
            },
            Err(reason) => Some(ImageEvent::Skipped { id, reason }),
        }
    }

    /// Looks at the objects that a page uses, and tells what becomes of the images
    /// among them. An image that several pages use, or that is used several times,
    /// counts once.
    pub fn scan_page(&mut self, doc: &Document, page: ObjectId) -> (events: Vec<ImageEvent>)
        requires
            old(self).wf(),
        ensures
            final(self).wf(),
            (event_views(events@), final(self)@) == page_events(
                document_value(*doc).objects,
                old(self)@,
                page,
            ),
    {
        let ghost objects = document_value(*doc).objects;
        let ghost start = self@;
        let mut events: Vec<ImageEvent> = Vec::new();
        assert(event_views(events@) =~= seq![]);
        let dict = match get_dictionary(doc, page) {
            Some(dict) => dict,
            None => return events,
        };
        let resources = match dict_entry_as_dict(doc, dict, "Resources".as_bytes()) {
            Some(resources) => resources,
            None => return events,
        };
        let xobjects = match dict_entry_as_dict(doc, resources, "XObject".as_bytes()) {
            Some(xobjects) => xobjects,
            None => return events,
        };
        let ghost entries = dictionary_value(*xobjects);
        let values = entry_objects(xobjects);
        let mut i: usize = 0;
        assert(entries.take(0) =~= seq![]);
        while i < values.len()
            invariant
                i <= values@.len(),
                self.wf(),
                objects == document_value(*doc).objects,
                values@.len() == entries.len(),
                forall|j: int|
                    0 <= j < values@.len() ==> object_value(*#[trigger] values@[j])
                        == entries[j].1,
                (event_views(events@), self@) == entries_events(
                    objects,
                    start,
                    entries.take(i as int),
                ),
            decreases values.len() - i,
        {
            proof {
                assert(entries.take(i + 1).drop_last() =~= entries.take(i as int));
                assert(entries.take(i + 1).last() == entries[i as int]);
                assert(object_value(*values@[i as int]) == entries[i as int].1);
            }
            let ghost before = event_views(events@);
            match self.look_at(doc, values[i]) {
                Some(event) => {
                    events.push(event);
                    assert(event_views(events@) =~= before.push(event@));
                },
                None => {},
            }
            i += 1;
        }
        assert(entries.take(i as int) =~= entries);
        events
    }
}

/// What becomes of the images of some pages, in their order, and where the search
/// stands after them.
pub open spec fn pages_events(
    objects: Map<ObjectId, PdfValue>,
    list: Seq<(u32, ObjectId)>,
) -> (Seq<ImageEventView>, ImageScanView)
    decreases list.len(),
{
    if list.len() == 0 {
        (seq![], ImageScanView { seen: Set::empty(), count: 0 })
    } else {
        let (events, scan) = pages_events(objects, list.drop_last());
        let (more, after) = page_events(objects, scan, list.last().1);
        (events + more, after)
    }
}

/// What a step of an extraction came to.
pub enum ImageStep {
    /// The extraction was stopped; it takes no further steps.
    Stopped,
    /// A page has been gone through, and this becomes of its images.
    Page(Vec<ImageEvent>),
    /// There is nothing left to do.
    Finished,
}

/// What a step of an extraction came to.
#[verifier::ext_equal]
pub enum ImageStepView {
    Stopped,
    Page(Seq<ImageEventView>),
    Finished,
}

impl View for ImageStep {
    type V = ImageStepView;

    open spec fn view(&self) -> ImageStepView {
        match self {
            ImageStep::Stopped => ImageStepView::Stopped,
            ImageStep::Page(events) => ImageStepView::Page(event_views(events@)),
            ImageStep::Finished => ImageStepView::Finished,
        }
    }
}

/// An extraction of images that is under way. Whoever runs it takes it page by page
/// and tells it at each page whether the task has been stopped.
pub struct ImageExtraction {
    source: Document,
    list: Vec<(u32, ObjectId)>,
    next: usize,
    scan: ImageScan,
    halted: bool,
}

/// Where an extraction of images stands.
#[verifier::ext_equal]
pub struct ImageExtractionView {
    pub objects: Map<ObjectId, PdfValue>,
    /// The pages of the document.
    pub list: Seq<(u32, ObjectId)>,
    /// How many of them have been gone through.
    pub next: int,
    pub scan: ImageScanView,
    /// Whether the extraction was stopped.
    pub halted: bool,
}

impl ImageExtractionView {
    /// What holds of an extraction at every step.
    pub open spec fn wf(self) -> bool {
        &&& 0 <= self.next <= self.list.len()
        &&& self.scan == pages_events(self.objects, self.list.take(self.next)).1
    }

    /// The next step: where it leads and what it comes to.
    pub open spec fn step(self, stopped: bool) -> (ImageExtractionView, ImageStepView) {
        if self.halted || self.next >= self.list.len() {
            (self, ImageStepView::Finished)
        } else if stopped {
            (ImageExtractionView { halted: true, ..self }, ImageStepView::Stopped)
        } else {
            let (events, scan) = page_events(self.objects, self.scan, self.list[self.next].1);
            (
                ImageExtractionView { next: self.next + 1, scan, ..self },
                ImageStepView::Page(events),
            )
        }
    }
}

impl View for ImageExtraction {
    type V = ImageExtractionView;

    closed spec fn view(&self) -> ImageExtractionView {
        ImageExtractionView {
            objects: document_value(self.source).objects,
            list: self.list@,
            next: self.next as int,
            scan: self.scan@,
            halted: self.halted,
        }
    }
}

impl ImageExtraction {
    /// What holds of an extraction at every step.
    pub closed spec fn wf(self) -> bool {
        &&& self.scan.wf()
        &&& self@.wf()
    }

    /// An extraction of the images of the document.
    pub fn new(source: Document) -> (r: Result<ImageExtraction, SplitError>)
        ensures
            match page_list(document_value(source)) {
                Ok(list) => if list.len() == 0 {
                    r == Err::<ImageExtraction, _>(SplitError::NoPages)
                } else {
                    r matches Ok(extraction) && extraction.wf() && extraction@ == (
                    ImageExtractionView {
                        objects: document_value(source).objects,
                        list,
                        next: 0,
                        scan: ImageScanView { seen: Set::empty(), count: 0 },
                        halted: false,
                    })
                },
                Err(e) => r == Err::<ImageExtraction, _>(e),
            },
    {
        let list = match list_pages(&source) {
            Ok(list) => list,
            Err(e) => return Err(e),
        };
        if list.len() == 0 {
            return Err(SplitError::NoPages);
        }
        let extraction = ImageExtraction {
            source,
            list,
            next: 0,
            scan: ImageScan::new(),
            halted: false,
        };
        Ok(extraction)
    }

    /// How many pages the document has.
    pub fn total_pages(&self) -> (total: usize)
        ensures
            total == self@.list.len(),
    {
        self.list.len()
    }

    /// How many pages have been gone through.
    pub fn pages_done(&self) -> (done: usize)
        ensures
            done == self@.next,
    {
        self.next
    }

    /// Goes through the next page, unless the task has been stopped.
    pub fn advance(&mut self, stopped: bool) -> (step: ImageStep)
        requires
            old(self).wf(),
        ensures
            final(self).wf(),
            (final(self)@, step@) == old(self)@.step(stopped),
    {
        if self.halted || self.next >= self.list.len() {
            return ImageStep::Finished;
        }
        if stopped {
            self.halted = true;
            return ImageStep::Stopped;
        }
        let page = self.list[self.next].1;
        let events = self.scan.scan_page(&self.source, page);
        proof {
            let upto = self.list@.take(self.next + 1);
            assert(upto.drop_last() =~= self.list@.take(self.next as int));
            assert(upto.last() == self.list@[self.next as int]);
        }
        self.next = self.next + 1;
        ImageStep::Page(events)
    }
}

/// Goes through the whole document, and tells what becomes of its images.
pub fn extract_images(source: &Document) -> (r: Result<Vec<ImageEvent>, SplitError>)
    ensures
        match page_list(document_value(*source)) {
            Ok(list) => if list.len() == 0 {
                r == Err::<Vec<ImageEvent>, _>(SplitError::NoPages)
            } else {
                r matches Ok(events) && event_views(events@) == pages_events(
                    document_value(*source).objects,
                    list,
                ).0
            },
            Err(e) => r == Err::<Vec<ImageEvent>, _>(e),
        },
{
    let list = match list_pages(source) {
        Ok(list) => list,
        Err(e) => return Err(e),
    };
    if list.len() == 0 {
        return Err(SplitError::NoPages);
    }
    let mut scan = ImageScan::new();
    let mut events: Vec<ImageEvent> = Vec::new();
    let mut i: usize = 0;
    assert(event_views(events@) =~= seq![]);
    assert(list@.take(0) =~= seq![]);
    while i < list.len()
        invariant
            i <= list@.len(),
            scan.wf(),
            (event_views(events@), scan@) == pages_events(
                document_value(*source).objects,
                list@.take(i as int),
            ),
        decreases list.len() - i,
    {
        proof {
            assert(list@.take(i + 1).drop_last() =~= list@.take(i as int));
            assert(list@.take(i + 1).last() == list@[i as int]);
        }
        let ghost before = events@;
        let mut more = scan.scan_page(source, list[i].1);
        let ghost added = more@;
        events.append(&mut more);
        assert(event_views(events@) =~= event_views(before) + event_views(added));
        i += 1;
    }
    assert(list@.take(i as int) =~= list@);
    Ok(events)
}

/// A result agrees with a description exactly if both are files of the same format and the same
/// bytes, or both are the same reason for having none.
pub proof fn law_agreeing_images_are_the_same(
    r: Result<(ImageFormat, Vec<u8>), SkipReason>,
    described: Result<(ImageFormat, Seq<u8>), SkipReasonView>,
)
    ensures
        image_agrees(r, described) <==> match (r, described) {
            (Ok(file), Ok(same)) => file.0 == same.0 && file.1@ == same.1,
            (Err(reason), Err(same)) => reason@ == same,
            _ => false,
        },
{
}

/// The events are described one by one, each with its object, its number, its format and its
/// bytes.
pub proof fn law_events_are_described_one_by_one(events: Seq<ImageEvent>, i: int)
    requires
        0 <= i < events.len(),
    ensures
        event_views(events).len() == events.len(),
        events[i] matches ImageEvent::Image { id, number, format, bytes } ==> event_views(
            events,
        )[i] == (ImageEventView::Image { id, number: number as int, format, bytes: bytes@ }),
        events[i] matches ImageEvent::Skipped { id, reason } ==> event_views(events)[i] == (
        ImageEventView::Skipped { id, reason: reason@ }),
{
}

} // verus!
