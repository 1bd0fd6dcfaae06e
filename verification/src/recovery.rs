//! Opening a store over the files of a directory: which files are segments,
//! in which order they are read, and what reading them rebuilds.

use vstd::prelude::*;
use vstd::hash_map::StringHashMap;
use crate::codec::{decode_record, document_record, frame_at, Reading, Record, RecordView};
use crate::errors::KvStoreError;
use crate::segment::{parse_segment_file_name, segment_number};
use crate::model::{
    holds_in, lemma_reachable_step, meter_add, reachable, ActionView, RecordLocation, StoreModel,
};

verus! {

/// A file of the data directory, as it was found.
#[derive(Debug)]
pub struct SegmentFile {
    /// The name of the file, without the directory.
    pub name: String,
    /// When the file was last modified, in nanoseconds since the epoch.
    pub modified: u128,
    /// The bytes of the file.
    pub contents: Vec<u8>,
}

/// A segment as it was found: its number, when it was last modified, and
/// its bytes.
pub ghost struct SegmentImage {
    pub id: u64,
    pub modified: u128,
    pub bytes: Seq<u8>,
}

/// The numbers of the segments, in order.
pub open spec fn image_ids(images: Seq<SegmentImage>) -> Seq<u64> {
    images.map_values(|image: SegmentImage| image.id)
}

/// The segment that a file holds, where its name is that of the segment
/// `id`.
pub open spec fn image_of(file: SegmentFile, id: u64) -> SegmentImage {
    SegmentImage { id, modified: file.modified, bytes: file.contents@ }
}

/// The segments among the files, in the order of the files: the files with
/// the name of a segment, the first of those that share a name.
pub open spec fn selected(files: Seq<SegmentFile>) -> Seq<SegmentImage>
    decreases files.len(),
{
    if files.len() == 0 {
        Seq::empty()
    } else {
        let front = selected(files.drop_last());
        match segment_number(files.last().name@) {
            Some(id) => if image_ids(front).contains(id) {
                front
            } else {
                front.push(image_of(files.last(), id))
            },
            None => front,
        }
    }
}

/// `sorted` with `image` put behind the last segment that was not modified
/// later than it.
pub open spec fn placed_by_time(sorted: Seq<SegmentImage>, image: SegmentImage) -> Seq<
    SegmentImage,
>
    decreases sorted.len(),
{
    if sorted.len() == 0 {
        seq![image]
    } else if sorted.last().modified <= image.modified {
        sorted.push(image)
    } else {
        placed_by_time(sorted.drop_last(), image).push(sorted.last())
    }
}

/// The segments in the order of their modification times, oldest first;
/// segments modified at the same time keep their order.
pub open spec fn ordered(images: Seq<SegmentImage>) -> Seq<SegmentImage>
    decreases images.len(),
{
    if images.len() == 0 {
        Seq::empty()
    } else {
        placed_by_time(ordered(images.drop_last()), images.last())
    }
}

/// No segment comes before one that was modified earlier.
pub open spec fn ascending(images: Seq<SegmentImage>) -> bool {
    forall|i: int, j: int|
        0 <= i <= j < images.len() ==> (#[trigger] images[i]).modified <= (
        #[trigger] images[j]).modified
}

/// Where [`placed_by_time`] puts a segment: at the place behind which every
/// segment was modified later, and before which the nearest was not.
pub proof fn lemma_placed_by_time(sorted: Seq<SegmentImage>, image: SegmentImage, at: int)
    requires
        0 <= at <= sorted.len(),
        forall|j: int| at <= j < sorted.len() ==> (#[trigger] sorted[j]).modified > image.modified,
        at > 0 ==> sorted[at - 1].modified <= image.modified,
    ensures
        placed_by_time(sorted, image) == sorted.insert(at, image),
    decreases sorted.len(),
{
    if sorted.len() == 0 {
        assert(sorted.insert(at, image) =~= seq![image]);
    } else if at == sorted.len() {
        assert(sorted.insert(at, image) =~= sorted.push(image));
    } else {
        assert(sorted.last() == sorted[sorted.len() - 1]);
        let front = sorted.drop_last();
        assert forall|j: int| at <= j < front.len() implies (#[trigger] front[j]).modified
            > image.modified by {
            assert(front[j] == sorted[j]);
        }
        if at > 0 {
            assert(front[at - 1] == sorted[at - 1]);
        }
        lemma_placed_by_time(front, image, at);
        assert(front.insert(at, image).push(sorted.last()) =~= sorted.insert(at, image));
    }
}

/// A place as [`lemma_placed_by_time`] asks for always exists.
pub proof fn lemma_place_exists(sorted: Seq<SegmentImage>, image: SegmentImage) -> (at: int)
    ensures
        0 <= at <= sorted.len(),
        placed_by_time(sorted, image) == sorted.insert(at, image),
        forall|j: int| at <= j < sorted.len() ==> (#[trigger] sorted[j]).modified > image.modified,
        at > 0 ==> sorted[at - 1].modified <= image.modified,
    decreases sorted.len(),
{
    if sorted.len() == 0 {
        lemma_placed_by_time(sorted, image, 0);
        0
    } else if sorted.last().modified <= image.modified {
        lemma_placed_by_time(sorted, image, sorted.len() as int);
        sorted.len() as int
    } else {
        let front = sorted.drop_last();
        let at = lemma_place_exists(front, image);
        assert forall|j: int| at <= j < sorted.len() implies (#[trigger] sorted[j]).modified
            > image.modified by {
            if j < front.len() {
                assert(front[j] == sorted[j]);
            }
        }
        if at > 0 {
            assert(front[at - 1] == sorted[at - 1]);
        }
        lemma_placed_by_time(sorted, image, at);
        at
    }
}

/// Ordering keeps the segments, each once, and puts them in ascending order
/// of modification time.
pub proof fn lemma_ordered(images: Seq<SegmentImage>)
    ensures
        ascending(ordered(images)),
        ordered(images).to_multiset() == images.to_multiset(),
        ordered(images).len() == images.len(),
    decreases images.len(),
{
    broadcast use vstd::seq_lib::group_to_multiset_ensures;

    if images.len() == 0 {
        assert(images =~= Seq::empty());
    } else {
        let front = images.drop_last();
        let last = images.last();
        lemma_ordered(front);
        let sorted = ordered(front);
        let at = lemma_place_exists(sorted, last);
        let result = sorted.insert(at, last);
        assert(ascending(result)) by {
            assert forall|i: int, j: int| 0 <= i <= j < result.len() implies (
            #[trigger] result[i]).modified <= (#[trigger] result[j]).modified by {
                if i < at && j > at {
                    assert(result[i] == sorted[i]);
                    assert(result[j] == sorted[j - 1]);
                } else if i < at && j < at {
                    assert(result[i] == sorted[i] && result[j] == sorted[j]);
                } else if i > at {
                    assert(result[i] == sorted[i - 1] && result[j] == sorted[j - 1]);
                } else if i < at && j == at {
                    assert(result[i] == sorted[i]);
                    assert(sorted[i].modified <= sorted[at - 1].modified);
                } else if i == at && j > at {
                    assert(result[j] == sorted[j - 1]);
                }
            }
        }
        assert(images =~= front.push(last));
        vstd::seq_lib::to_multiset_insert(sorted, at, last);
    }
}

/// A file that holds a segment: the number of the segment, when the file
/// was last modified, and the position of the file among the files.
#[derive(Clone, Copy, Debug)]
pub struct Candidate {
    pub id: u64,
    pub modified: u128,
    pub position: usize,
}

/// The segment that a candidate stands for.
pub open spec fn candidate_image(files: Seq<SegmentFile>, candidate: Candidate) -> SegmentImage {
    SegmentImage {
        id: candidate.id,
        modified: candidate.modified,
        bytes: files[candidate.position as int].contents@,
    }
}

/// The segments that the candidates stand for, in order.
pub open spec fn candidate_images(files: Seq<SegmentFile>, candidates: Seq<Candidate>) -> Seq<
    SegmentImage,
> {
    candidates.map_values(|c: Candidate| candidate_image(files, c))
}

/// Whether one of the candidates has the number `id`.
fn has_id(candidates: &Vec<Candidate>, id: u64, Ghost(files): Ghost<Seq<SegmentFile>>) -> (r: bool)
    ensures
        r == image_ids(candidate_images(files, candidates@)).contains(id),
{
    let ghost ids = image_ids(candidate_images(files, candidates@));
    let mut i: usize = 0;
    while i < candidates.len()
        invariant
            i <= candidates@.len(),
            ids == image_ids(candidate_images(files, candidates@)),
            forall|j: int| 0 <= j < i ==> ids[j] != id,
        decreases candidates@.len() - i,
    {
        if candidates[i].id == id {
            assert(ids[i as int] == id);
            return true;
        }
        i += 1;
    }
    false
}

/// Picks the segments among the files.
pub fn select_segments(files: &Vec<SegmentFile>) -> (r: Vec<Candidate>)
    ensures
        candidate_images(files@, r@) == selected(files@),
        forall|i: int| 0 <= i < r@.len() ==> (#[trigger] r@[i]).position < files@.len(),
        image_ids(selected(files@)).no_duplicates(),
{
    let mut candidates: Vec<Candidate> = Vec::new();
    let mut i: usize = 0;
    assert(files@.take(0) =~= Seq::empty());
    assert(candidate_images(files@, candidates@) =~= Seq::empty());
    while i < files.len()
        invariant
            i <= files@.len(),
            candidate_images(files@, candidates@) == selected(files@.take(i as int)),
            forall|j: int|
                0 <= j < candidates@.len() ==> (#[trigger] candidates@[j]).position < files@.len(),
            image_ids(selected(files@.take(i as int))).no_duplicates(),
        decreases files@.len() - i,
    {
        let ghost front = selected(files@.take(i as int));
        assert(files@.take(i + 1).drop_last() =~= files@.take(i as int));
        assert(files@.take(i + 1).last() == files@[i as int]);
        match parse_segment_file_name(files[i].name.as_str()) {
            Some(id) => {
                if !has_id(&candidates, id, Ghost(files@)) {
                    let candidate = Candidate { id, modified: files[i].modified, position: i };
                    candidates.push(candidate);
                    assert(candidate_images(files@, candidates@) =~= front.push(
                        image_of(files@[i as int], id),
                    ));
                    assert(image_ids(front.push(image_of(files@[i as int], id))) =~= image_ids(
                        front,
                    ).push(id));
                }
            },
            None => {},
        }
        i += 1;
    }
    assert(files@.take(i as int) =~= files@);
    candidates
}

/// Puts the candidates in the order of their modification times, oldest
/// first; candidates modified at the same time keep their order.
pub(crate) fn order_segments(
    candidates: Vec<Candidate>,
    Ghost(files): Ghost<Seq<SegmentFile>>,
) -> (r: Vec<Candidate>)
    ensures
        candidate_images(files, r@) == ordered(candidate_images(files, candidates@)),
        forall|j: int| 0 <= j < r@.len() ==> candidates@.contains(#[trigger] r@[j]),
{
    let mut sorted: Vec<Candidate> = Vec::new();
    let mut i: usize = 0;
    assert(candidates@.take(0) =~= Seq::empty());
    assert(candidate_images(files, candidates@.take(0)) =~= Seq::empty());
    assert(candidate_images(files, sorted@) =~= Seq::empty());
    while i < candidates.len()
        invariant
            i <= candidates@.len(),
            candidate_images(files, sorted@) == ordered(
                candidate_images(files, candidates@.take(i as int)),
            ),
            forall|j: int| 0 <= j < sorted@.len() ==> candidates@.contains(#[trigger] sorted@[j]),
        decreases candidates@.len() - i,
    {
        let candidate = candidates[i];
        let mut at: usize = sorted.len();
        while at > 0 && sorted[at - 1].modified > candidate.modified
            invariant
                at <= sorted@.len(),
                forall|j: int|
                    at <= j < sorted@.len() ==> (#[trigger] sorted@[j]).modified
                        > candidate.modified,
            decreases at,
        {
            at -= 1;
        }
        let ghost before = sorted@;
        let ghost images = candidate_images(files, before);
        let ghost image = candidate_image(files, candidate);
        proof {
            assert forall|j: int| at <= j < images.len() implies (#[trigger] images[j]).modified
                > image.modified by {
                assert(before[j].modified > candidate.modified);
            }
            lemma_placed_by_time(images, image, at as int);
            let taken = candidate_images(files, candidates@.take(i + 1));
            assert(taken.drop_last() =~= candidate_images(files, candidates@.take(i as int)));
            assert(taken.last() == image);
        }
        sorted.insert(at, candidate);
        proof {
            assert(candidate_images(files, sorted@) =~= images.insert(at as int, image));
            assert forall|j: int| 0 <= j < sorted@.len() implies candidates@.contains(
                #[trigger] sorted@[j],
            ) by {
                if j < at {
                    assert(sorted@[j] == before[j]);
                } else if j == at {
                    assert(candidates@[i as int] == sorted@[j]);
                } else {
                    assert(sorted@[j] == before[j - 1]);
                }
            }
        }
        i += 1;
    }
    assert(candidates@.take(i as int) =~= candidates@);
    sorted
}

/// What reading the segments rebuilds: the index, and the bytes known to be
/// wasted.
pub ghost struct Rebuilt {
    pub index: Map<Seq<char>, RecordLocation>,
    pub meter: u64,
}

/// What has been rebuilt once one more record, found at `location`, has been
/// read: a record that sets a key points the index at itself and wastes the
/// record that the index pointed at before; a deletion takes the key out of
/// the index.
pub open spec fn replayed_record(
    rebuilt: Rebuilt,
    record: RecordView,
    location: RecordLocation,
) -> Rebuilt {
    match record {
        RecordView::Put(key, _) => Rebuilt {
            index: rebuilt.index.insert(key, location),
            meter: if rebuilt.index.contains_key(key) {
                meter_add(rebuilt.meter, rebuilt.index[key].size)
            } else {
                rebuilt.meter
            },
        },
        RecordView::Delete(key) => Rebuilt {
            index: rebuilt.index.remove(key),
            meter: rebuilt.meter,
        },
    }
}

/// What has been rebuilt once the segment `id` has been read from `from`
/// on, frame after frame up to the first place where no frame stands; or
/// `None` where a document that stands for no record is met.
pub open spec fn replayed_segment(rebuilt: Rebuilt, id: u64, bytes: Seq<u8>, from: int) -> Option<
    Rebuilt,
>
    decreases bytes.len() - from,
{
    match frame_at(bytes, from) {
        None => Some(rebuilt),
        Some((document, taken)) => match document_record(document) {
            None => None,
            Some(record) => replayed_segment(
                replayed_record(
                    rebuilt,
                    record,
                    RecordLocation { segment: id, offset: from as u64, size: taken as u64 },
                ),
                id,
                bytes,
                from + taken,
            ),
        },
    }
}

/// What reading the segments one after the other rebuilds.
pub open spec fn replayed(images: Seq<SegmentImage>) -> Option<Rebuilt>
    decreases images.len(),
{
    if images.len() == 0 {
        Some(Rebuilt { index: Map::empty(), meter: 0 })
    } else {
        match replayed(images.drop_last()) {
            None => None,
            Some(rebuilt) => replayed_segment(rebuilt, images.last().id, images.last().bytes, 0),
        }
    }
}

/// Nothing has been rebuilt yet.
pub open spec fn nothing_rebuilt() -> Rebuilt {
    Rebuilt { index: Map::empty(), meter: 0 }
}

/// What has been rebuilt once the listed segments, with the contents that
/// `storage` gives them, have been read one after the other on top of
/// `start`.
pub open spec fn replayed_from(start: Rebuilt, storage: Map<u64, Seq<u8>>, ids: Seq<u64>) -> Option<
    Rebuilt,
>
    decreases ids.len(),
{
    if ids.len() == 0 {
        Some(start)
    } else {
        match replayed_from(start, storage, ids.drop_last()) {
            None => None,
            Some(rebuilt) => replayed_segment(rebuilt, ids.last(), storage[ids.last()], 0),
        }
    }
}

/// Where reading `bytes` frame after frame, from `from` on, stops.
pub open spec fn clean_len(bytes: Seq<u8>, from: int) -> int
    decreases bytes.len() - from,
{
    match frame_at(bytes, from) {
        None => from,
        Some((_, taken)) => clean_len(bytes, from + taken),
    }
}

/// The contents of the segments, by number.
pub open spec fn image_storage(images: Seq<SegmentImage>) -> Map<u64, Seq<u8>>
    decreases images.len(),
{
    if images.len() == 0 {
        Map::empty()
    } else {
        image_storage(images.drop_last()).insert(images.last().id, images.last().bytes)
    }
}

/// The highest of the numbers, or zero where there is none.
pub open spec fn highest(ids: Seq<u64>) -> u64
    decreases ids.len(),
{
    if ids.len() == 0 {
        0
    } else if ids.last() > highest(ids.drop_last()) {
        ids.last()
    } else {
        highest(ids.drop_last())
    }
}

/// The state of a store opened over `files`, with the actions that prepare
/// the stored segments for it; `None` where a segment holds a document that
/// stands for no record, or a segment has the highest number that there is,
/// so that no counter lies above it.
///
/// The segments among the files are read in the order of their modification
/// times, and the youngest is the active one. Where it ends in bytes that
/// are no frame, it is cut down to the frames before them. Where there is
/// no segment, the segment `0` is created. The counter is one above the
/// highest number of a segment.
pub open spec fn opened(files: Seq<SegmentFile>) -> Option<(StoreModel, Seq<ActionView>)> {
    let images = ordered(selected(files));
    let ids = image_ids(images);
    match replayed(images) {
        None => None,
        Some(rebuilt) => if images.len() == 0 {
            Some(
                (
                    StoreModel {
                        index: rebuilt.index,
                        segments: seq![0u64],
                        active_len: 0,
                        counter: 1,
                        meter: rebuilt.meter,
                        storage: Map::empty().insert(0u64, Seq::empty()),
                    },
                    seq![ActionView::CreateSegment(0)],
                ),
            )
        } else if highest(ids) == u64::MAX {
            None
        } else {
            let last = images.last();
            let clean = clean_len(last.bytes, 0);
            Some(
                (
                    StoreModel {
                        index: rebuilt.index,
                        segments: ids,
                        active_len: clean as u64,
                        counter: (highest(ids) + 1) as u64,
                        meter: rebuilt.meter,
                        storage: image_storage(images).insert(last.id, last.bytes.take(clean)),
                    },
                    if clean == last.bytes.len() {
                        Seq::empty()
                    } else {
                        seq![ActionView::Truncate(last.id, clean as u64)]
                    },
                ),
            )
        },
    }
}

/// The kind of failure with which opening a store over `files` fails:
/// `DecoderError` where a segment holds a document that stands for no
/// record, and `SerializationError` where the segments can be read and one
/// of them has the highest number that there is.
pub open spec fn open_fails_with(files: Seq<SegmentFile>, error: KvStoreError) -> bool {
    match replayed(ordered(selected(files))) {
        None => error is DecoderError,
        Some(_) => error is SerializationError,
    }
}

/// Every entry of the index stands where the index says.
pub open spec fn entries_hold(
    storage: Map<u64, Seq<u8>>,
    index: Map<Seq<char>, RecordLocation>,
) -> bool {
    forall|key: Seq<char>| #[trigger] index.contains_key(key) ==> holds_in(storage, key, index[key])
}

/// Reading stops at a place that reading arrives at.
pub proof fn lemma_clean_len(bytes: Seq<u8>, from: int)
    requires
        0 <= from <= bytes.len(),
    ensures
        from <= clean_len(bytes, from) <= bytes.len(),
        reachable(bytes, from, clean_len(bytes, from)),
        frame_at(bytes, clean_len(bytes, from)) is None,
    decreases bytes.len() - from,
{
    match frame_at(bytes, from) {
        None => {},
        Some((_, taken)) => {
            lemma_clean_len(bytes, from + taken);
        },
    }
}

/// Reads the segment `id`, whose contents are `bytes`, into the index and
/// the meter. Returns where reading stopped.
///
/// Fails with `DecoderError` where a document that stands for no record is
/// met.
pub(crate) fn replay_segment(
    index: &mut StringHashMap<RecordLocation>,
    meter: &mut u64,
    id: u64,
    bytes: &[u8],
    Ghost(storage): Ghost<Map<u64, Seq<u8>>>,
) -> (r: Result<usize, KvStoreError>)
    requires
        storage.contains_key(id),
        storage[id] == bytes@,
        entries_hold(storage, old(index)@),
    ensures
        match r {
            Ok(end) => {
                &&& replayed_segment(
                    Rebuilt { index: old(index)@, meter: *old(meter) },
                    id,
                    bytes@,
                    0,
                ) == Some(Rebuilt { index: final(index)@, meter: *final(meter) })
                &&& end == clean_len(bytes@, 0)
                &&& entries_hold(storage, final(index)@)
            },
            Err(error) => {
                &&& error is DecoderError
                &&& replayed_segment(
                    Rebuilt { index: old(index)@, meter: *old(meter) },
                    id,
                    bytes@,
                    0,
                ) is None
            },
        },
{
    let length = bytes.len();
    let mut offset: usize = 0;
    let ghost start = Rebuilt { index: index@, meter: *meter };
    loop
        invariant
            length == bytes@.len(),
            offset <= length,
            start == (Rebuilt { index: old(index)@, meter: *old(meter) }),
            storage.contains_key(id),
            storage[id] == bytes@,
            entries_hold(storage, index@),
            reachable(bytes@, 0, offset as int),
            clean_len(bytes@, 0) == clean_len(bytes@, offset as int),
            replayed_segment(start, id, bytes@, 0) == replayed_segment(
                Rebuilt { index: index@, meter: *meter },
                id,
                bytes@,
                offset as int,
            ),
        decreases length - offset,
    {
        let (record, size) = match decode_record(bytes, offset) {
            Reading::Entry(record, size) => (record, size),
            Reading::Foreign => {
                return Err(KvStoreError::DecoderError("Stored bytes hold no record".to_owned()));
            },
            Reading::Unreadable(_) => {
                return Ok(offset);
            },
        };
        assert(0 < size <= length - offset);
        let location = RecordLocation { segment: id, offset: offset as u64, size: size as u64 };
        proof {
            lemma_reachable_step(bytes@, 0, offset as int);
        }
        let ghost before = index@;
        match record {
            Record::Put(key, _) => {
                match index.get(key.as_str()) {
                    Some(previous) => {
                        *meter = meter.saturating_add(previous.size);
                    },
                    None => {},
                }
                assert(holds_in(storage, key@, location));
                index.insert(key, location);
            },
            Record::Delete(key) => {
                index.remove(key.as_str());
            },
        }
        assert forall|k: Seq<char>| #[trigger] index@.contains_key(k) implies holds_in(
            storage,
            k,
            index@[k],
        ) by {
            if index@[k] != location {
                assert(before.contains_key(k));
            }
        }
        offset = offset + size;
    }
}

/// Where reading some of the segments meets a document that stands for no
/// record, reading all of them does.
pub proof fn lemma_replayed_prefix(images: Seq<SegmentImage>, count: int)
    requires
        0 <= count <= images.len(),
        replayed(images.take(count)) is None,
    ensures
        replayed(images) is None,
    decreases images.len() - count,
{
    if count == images.len() {
        assert(images.take(count) =~= images);
    } else {
        assert(images.take(count + 1).drop_last() =~= images.take(count));
        lemma_replayed_prefix(images, count + 1);
    }
}

/// No number is above the highest.
pub proof fn lemma_highest(ids: Seq<u64>)
    ensures
        forall|i: int| 0 <= i < ids.len() ==> #[trigger] ids[i] <= highest(ids),
    decreases ids.len(),
{
    if ids.len() > 0 {
        lemma_highest(ids.drop_last());
        assert forall|i: int| 0 <= i < ids.len() implies #[trigger] ids[i] <= highest(ids) by {
            if i < ids.len() - 1 {
                assert(ids.drop_last()[i] == ids[i]);
            }
        }
    }
}

/// The highest of some numbers is one of them.
pub proof fn lemma_highest_member(ids: Seq<u64>)
    requires
        ids.len() >= 1,
    ensures
        ids.contains(highest(ids)),
    decreases ids.len(),
{
    let front = ids.drop_last();
    assert(ids[ids.len() - 1] == ids.last());
    if front.len() >= 1 {
        lemma_highest_member(front);
        if !(ids.last() > highest(front)) {
            let i = choose|i: int| 0 <= i < front.len() && front[i] == highest(front);
            assert(ids[i] == highest(front));
        }
    } else {
        assert(highest(front) == 0);
        if !(ids.last() > 0) {
            assert(ids[0] == 0);
        }
    }
}

/// Ordering segments whose numbers differ gives segments whose numbers
/// differ.
pub proof fn lemma_ordered_ids(images: Seq<SegmentImage>)
    requires
        image_ids(images).no_duplicates(),
    ensures
        image_ids(ordered(images)).no_duplicates(),
        forall|id: u64| image_ids(ordered(images)).contains(id) <==> image_ids(images).contains(id),
    decreases images.len(),
{
    if images.len() > 0 {
        let front = images.drop_last();
        let last = images.last();
        assert(image_ids(front) =~= image_ids(images).drop_last());
        lemma_ordered_ids(front);
        let sorted = ordered(front);
        let at = lemma_place_exists(sorted, last);
        let result = sorted.insert(at, last);
        let ids = image_ids(sorted);
        assert(image_ids(result) =~= ids.insert(at, last.id));
        assert(!image_ids(front).contains(last.id)) by {
            if image_ids(front).contains(last.id) {
                let i = choose|i: int| 0 <= i < front.len() && image_ids(front)[i] == last.id;
                assert(image_ids(images)[i] == image_ids(images)[images.len() - 1]);
            }
        }
        assert(!ids.contains(last.id));
        assert forall|i: int, j: int|
            0 <= i < result.len() && 0 <= j < result.len() && i != j implies image_ids(result)[i]
            != image_ids(result)[j] by {
            let a = if i < at {
                i
            } else {
                i - 1
            };
            let b = if j < at {
                j
            } else {
                j - 1
            };
            if i != at && j != at {
                assert(image_ids(result)[i] == ids[a]);
                assert(image_ids(result)[j] == ids[b]);
            } else if i == at {
                assert(image_ids(result)[j] == ids[b]);
            } else {
                assert(image_ids(result)[i] == ids[a]);
            }
        }
        assert forall|id: u64| image_ids(result).contains(id) <==> image_ids(images).contains(
            id,
        ) by {
            if image_ids(result).contains(id) {
                let i = choose|i: int| 0 <= i < result.len() && image_ids(result)[i] == id;
                if i == at {
                    assert(image_ids(images)[images.len() - 1] == id);
                } else {
                    let a = if i < at {
                        i
                    } else {
                        i - 1
                    };
                    assert(ids[a] == id);
                    assert(image_ids(front).contains(id));
                    let k = choose|k: int| 0 <= k < front.len() && image_ids(front)[k] == id;
                    assert(image_ids(images)[k] == id);
                }
            }
            if image_ids(images).contains(id) {
                let k = choose|k: int| 0 <= k < images.len() && image_ids(images)[k] == id;
                if k == images.len() - 1 {
                    assert(image_ids(result)[at] == id);
                } else {
                    assert(image_ids(front)[k] == id);
                    assert(image_ids(front).contains(id));
                    assert(ids.contains(id));
                    let a = choose|a: int| 0 <= a < ids.len() && ids[a] == id;
                    let i = if a < at {
                        a
                    } else {
                        a + 1
                    };
                    assert(image_ids(result)[i] == id);
                }
            }
        }
    }
}

/// Entries that stand where the index says still do once the contents of
/// one more segment are known.
pub proof fn lemma_entries_hold_insert(
    storage: Map<u64, Seq<u8>>,
    index: Map<Seq<char>, RecordLocation>,
    id: u64,
    bytes: Seq<u8>,
)
    requires
        entries_hold(storage, index),
        !storage.contains_key(id),
    ensures
        entries_hold(storage.insert(id, bytes), index),
{
    assert forall|key: Seq<char>| #[trigger] index.contains_key(key) implies holds_in(
        storage.insert(id, bytes),
        key,
        index[key],
    ) by {
        assert(holds_in(storage, key, index[key]));
    }
}

} // verus!
