//! How what reading the segments rebuilds changes as the log grows and as
//! its oldest segment is dropped.

use vstd::prelude::*;
use crate::codec::{document_record, frame_at, lemma_frame_at_extend, RecordView};
use crate::model::{holds_in, lemma_frame_at_end, lemma_reachable_step, reachable, RecordLocation};
use crate::recovery::{
    clean_len, image_ids, image_storage, lemma_clean_len, nothing_rebuilt, replayed,
    replayed_from, replayed_record, replayed_segment, Rebuilt, SegmentImage,
};

verus! {

/// What has been rebuilt once one more record has been read, if anything had
/// been.
pub open spec fn and_then_record(
    rebuilt: Option<Rebuilt>,
    record: RecordView,
    location: RecordLocation,
) -> Option<Rebuilt> {
    match rebuilt {
        Some(r) => Some(replayed_record(r, record, location)),
        None => None,
    }
}

/// Reading a run of frames with the frame of one more record behind it
/// rebuilds what reading the run rebuilds, and then reads the record.
pub proof fn lemma_segment_append(
    rebuilt: Rebuilt,
    id: u64,
    before: Seq<u8>,
    frame: Seq<u8>,
    record: RecordView,
    from: int,
)
    requires
        0 <= from <= before.len(),
        before.len() + frame.len() <= u64::MAX,
        reachable(before, from, before.len() as int),
        frame_at(frame, 0) matches Some((document, taken)) && taken == frame.len()
            && document_record(document) == Some(record),
    ensures
        replayed_segment(rebuilt, id, before + frame, from) == and_then_record(
            replayed_segment(rebuilt, id, before, from),
            record,
            RecordLocation {
                segment: id,
                offset: before.len() as u64,
                size: frame.len() as u64,
            },
        ),
    decreases before.len() - from,
{
    let whole = before + frame;
    if from < before.len() {
        let (document, taken) = frame_at(before, from)->0;
        lemma_frame_at_extend(before, from, frame);
        match document_record(document) {
            None => {},
            Some(found) => {
                let next = replayed_record(
                    rebuilt,
                    found,
                    RecordLocation { segment: id, offset: from as u64, size: taken as u64 },
                );
                lemma_segment_append(next, id, before, frame, record, from + taken);
            },
        }
    } else {
        lemma_frame_at_end(before, frame);
        assert(frame_at(before, from) is None) by {
            if frame_at(before, from) is Some {
                assert((frame_at(before, from)->0).1 > 0);
            }
        }
        let end = whole.len() as int;
        assert(frame_at(whole, end) is None) by {
            if frame_at(whole, end) is Some {
                assert((frame_at(whole, end)->0).1 > 0);
            }
        }
        let location = RecordLocation {
            segment: id,
            offset: before.len() as u64,
            size: frame.len() as u64,
        };
        let next = replayed_record(rebuilt, record, location);
        assert(replayed_segment(rebuilt, id, before, from) == Some(rebuilt));
        assert(frame_at(whole, from) == frame_at(frame, 0));
        assert(replayed_segment(next, id, whole, end) == Some(next));
        assert(replayed_segment(rebuilt, id, whole, from) == replayed_segment(
            next,
            id,
            whole,
            from + frame.len(),
        ));
    }
}

/// What reading the listed segments rebuilds depends on the contents of the
/// listed segments alone.
pub proof fn lemma_replayed_agree(
    start: Rebuilt,
    one: Map<u64, Seq<u8>>,
    other: Map<u64, Seq<u8>>,
    ids: Seq<u64>,
)
    requires
        forall|i: int| 0 <= i < ids.len() ==> one[#[trigger] ids[i]] == other[ids[i]],
    ensures
        replayed_from(start, one, ids) == replayed_from(start, other, ids),
    decreases ids.len(),
{
    if ids.len() > 0 {
        let front = ids.drop_last();
        assert forall|i: int| 0 <= i < front.len() implies one[#[trigger] front[i]] == other[front[i]] by {
            assert(front[i] == ids[i]);
        }
        lemma_replayed_agree(start, one, other, front);
        assert(ids.last() == ids[ids.len() - 1]);
    }
}

/// Reading a list of segments is reading the first and then the others.
pub proof fn lemma_replayed_first(start: Rebuilt, storage: Map<u64, Seq<u8>>, ids: Seq<u64>)
    requires
        ids.len() >= 1,
    ensures
        replayed_from(start, storage, ids) == match replayed_segment(
            start,
            ids[0],
            storage[ids[0]],
            0,
        ) {
            Some(first) => replayed_from(first, storage, ids.drop_first()),
            None => None,
        },
    decreases ids.len(),
{
    if ids.len() == 1 {
        assert(ids.drop_last() =~= Seq::<u64>::empty());
        assert(ids.drop_first() =~= Seq::<u64>::empty());
    } else {
        let front = ids.drop_last();
        lemma_replayed_first(start, storage, front);
        assert(front.drop_first() =~= ids.drop_first().drop_last());
        assert(front[0] == ids[0]);
        assert(ids.drop_first().last() == ids.last());
        match replayed_segment(start, ids[0], storage[ids[0]], 0) {
            Some(first) => {},
            None => {
                lemma_replayed_none(start, storage, ids);
            },
        }
    }
}

/// Where reading the first segment fails, reading the list fails.
proof fn lemma_replayed_none(start: Rebuilt, storage: Map<u64, Seq<u8>>, ids: Seq<u64>)
    requires
        ids.len() >= 1,
        replayed_segment(start, ids[0], storage[ids[0]], 0) is None,
    ensures
        replayed_from(start, storage, ids) is None,
    decreases ids.len(),
{
    if ids.len() == 1 {
        assert(ids.drop_last() =~= Seq::<u64>::empty());
    } else {
        assert(ids.drop_last()[0] == ids[0]);
        lemma_replayed_none(start, storage, ids.drop_last());
    }
}

/// A new, empty segment at the end of the list changes nothing of what
/// reading the segments rebuilds.
pub proof fn lemma_replayed_push_empty(
    start: Rebuilt,
    storage: Map<u64, Seq<u8>>,
    ids: Seq<u64>,
    id: u64,
)
    requires
        !ids.contains(id),
    ensures
        replayed_from(start, storage.insert(id, Seq::empty()), ids.push(id)) == replayed_from(
            start,
            storage,
            ids,
        ),
{
    let longer = ids.push(id);
    let grown = storage.insert(id, Seq::empty());
    assert(longer.drop_last() =~= ids);
    assert forall|i: int| 0 <= i < ids.len() implies storage[#[trigger] ids[i]] == grown[ids[i]] by {
        assert(ids.contains(ids[i]));
    }
    lemma_replayed_agree(start, storage, grown, ids);
    let empty = Seq::<u8>::empty();
    assert(frame_at(empty, 0) is None) by {
        if frame_at(empty, 0) is Some {
            assert((frame_at(empty, 0)->0).1 > 0);
        }
    }
}

/// Every entry of `larger` that `smaller` lacks points into the segment
/// `segment`, and the two agree on every other entry.
pub open spec fn shadows(
    larger: Map<Seq<char>, RecordLocation>,
    smaller: Map<Seq<char>, RecordLocation>,
    segment: u64,
) -> bool {
    forall|key: Seq<char>|
        {
            &&& #[trigger] smaller.contains_key(key) ==> larger.contains_key(key) && larger[key]
                == smaller[key]
            &&& #[trigger] larger.contains_key(key) && !smaller.contains_key(key)
                ==> larger[key].segment == segment
        }
}

/// Reading one more record keeps two indexes as [`shadows`] says.
pub proof fn lemma_record_shadows(
    larger: Rebuilt,
    smaller: Rebuilt,
    segment: u64,
    record: RecordView,
    location: RecordLocation,
)
    requires
        shadows(larger.index, smaller.index, segment),
    ensures
        shadows(
            replayed_record(larger, record, location).index,
            replayed_record(smaller, record, location).index,
            segment,
        ),
{
    let a = replayed_record(larger, record, location).index;
    let b = replayed_record(smaller, record, location).index;
    assert forall|key: Seq<char>|
        {
            &&& #[trigger] b.contains_key(key) ==> a.contains_key(key) && a[key] == b[key]
            &&& #[trigger] a.contains_key(key) && !b.contains_key(key) ==> a[key].segment
                == segment
        } by {
        match record {
            RecordView::Put(k, _) => {
                if key != k {
                    assert(b.contains_key(key) == smaller.index.contains_key(key));
                    assert(a.contains_key(key) == larger.index.contains_key(key));
                }
            },
            RecordView::Delete(k) => {
                if key != k {
                    assert(b.contains_key(key) == smaller.index.contains_key(key));
                    assert(a.contains_key(key) == larger.index.contains_key(key));
                }
            },
        }
    }
}

/// Reading one more segment keeps two indexes as [`shadows`] says, and fails
/// for both or for neither.
pub proof fn lemma_segment_shadows(
    larger: Rebuilt,
    smaller: Rebuilt,
    segment: u64,
    id: u64,
    bytes: Seq<u8>,
    from: int,
)
    requires
        shadows(larger.index, smaller.index, segment),
    ensures
        match (
            replayed_segment(larger, id, bytes, from),
            replayed_segment(smaller, id, bytes, from),
        ) {
            (Some(a), Some(b)) => shadows(a.index, b.index, segment),
            (None, None) => true,
            _ => false,
        },
    decreases bytes.len() - from,
{
    match frame_at(bytes, from) {
        None => {},
        Some((document, taken)) => match document_record(document) {
            None => {},
            Some(record) => {
                let location = RecordLocation {
                    segment: id,
                    offset: from as u64,
                    size: taken as u64,
                };
                let a = replayed_record(larger, record, location);
                let b = replayed_record(smaller, record, location);
                lemma_record_shadows(larger, smaller, segment, record, location);
                lemma_segment_shadows(a, b, segment, id, bytes, from + taken);
            },
        },
    }
}

/// Reading a list of segments keeps two indexes as [`shadows`] says, and
/// fails for both or for neither.
pub proof fn lemma_replayed_shadows(
    larger: Rebuilt,
    smaller: Rebuilt,
    segment: u64,
    storage: Map<u64, Seq<u8>>,
    ids: Seq<u64>,
)
    requires
        shadows(larger.index, smaller.index, segment),
    ensures
        match (replayed_from(larger, storage, ids), replayed_from(smaller, storage, ids)) {
            (Some(a), Some(b)) => shadows(a.index, b.index, segment),
            (None, None) => true,
            _ => false,
        },
    decreases ids.len(),
{
    if ids.len() > 0 {
        lemma_replayed_shadows(larger, smaller, segment, storage, ids.drop_last());
        match (
            replayed_from(larger, storage, ids.drop_last()),
            replayed_from(smaller, storage, ids.drop_last()),
        ) {
            (Some(a), Some(b)) => {
                lemma_segment_shadows(a, b, segment, ids.last(), storage[ids.last()], 0);
            },
            _ => {},
        }
    }
}

/// Reading a segment puts into the index entries that point into that
/// segment only.
pub proof fn lemma_segment_entries(rebuilt: Rebuilt, id: u64, bytes: Seq<u8>, from: int)
    requires
        forall|key: Seq<char>| #[trigger]
            rebuilt.index.contains_key(key) ==> rebuilt.index[key].segment == id,
    ensures
        replayed_segment(rebuilt, id, bytes, from) matches Some(after) ==> forall|key: Seq<char>| #[trigger]
            after.index.contains_key(key) ==> after.index[key].segment == id,
    decreases bytes.len() - from,
{
    match frame_at(bytes, from) {
        None => {},
        Some((document, taken)) => match document_record(document) {
            None => {},
            Some(record) => {
                let location = RecordLocation {
                    segment: id,
                    offset: from as u64,
                    size: taken as u64,
                };
                lemma_segment_entries(
                    replayed_record(rebuilt, record, location),
                    id,
                    bytes,
                    from + taken,
                );
            },
        },
    }
}

/// Where no entry of the rebuilt index points into the first segment,
/// reading the other segments alone rebuilds the same index.
pub proof fn lemma_drop_first(storage: Map<u64, Seq<u8>>, ids: Seq<u64>)
    requires
        ids.len() >= 1,
        ids.no_duplicates(),
        replayed_from(nothing_rebuilt(), storage, ids) matches Some(rebuilt) && forall|
            key: Seq<char>,
        | #[trigger]
            rebuilt.index.contains_key(key) ==> rebuilt.index[key].segment != ids[0],
    ensures
        replayed_from(nothing_rebuilt(), storage.remove(ids[0]), ids.drop_first()) matches Some(
            rest,
        ) && rest.index == replayed_from(nothing_rebuilt(), storage, ids)->0.index,
{
    let first_id = ids[0];
    let others = ids.drop_first();
    let whole = replayed_from(nothing_rebuilt(), storage, ids)->0;
    lemma_replayed_first(nothing_rebuilt(), storage, ids);
    let first = replayed_segment(nothing_rebuilt(), first_id, storage[first_id], 0)->0;
    lemma_segment_entries(nothing_rebuilt(), first_id, storage[first_id], 0);
    assert(shadows(first.index, nothing_rebuilt().index, first_id));
    lemma_replayed_shadows(first, nothing_rebuilt(), first_id, storage, others);
    assert forall|i: int| 0 <= i < others.len() implies storage[#[trigger] others[i]]
        == storage.remove(first_id)[others[i]] by {
        assert(others[i] == ids[i + 1]);
    }
    lemma_replayed_agree(nothing_rebuilt(), storage, storage.remove(first_id), others);
    let rest = replayed_from(nothing_rebuilt(), storage, others)->0;
    assert(rest.index =~= whole.index);
}

/// Reading the segments found in a directory is reading them by number out
/// of the contents that were found.
pub proof fn lemma_replayed_images(images: Seq<SegmentImage>)
    requires
        image_ids(images).no_duplicates(),
    ensures
        replayed(images) == replayed_from(
            nothing_rebuilt(),
            image_storage(images),
            image_ids(images),
        ),
        forall|i: int|
            0 <= i < images.len() ==> image_storage(images)[(#[trigger] images[i]).id]
                == images[i].bytes,
    decreases images.len(),
{
    if images.len() > 0 {
        let front = images.drop_last();
        let last = images.last();
        assert(image_ids(front) =~= image_ids(images).drop_last());
        lemma_replayed_images(front);
        assert forall|i: int| 0 <= i < images.len() implies image_storage(images)[(
        #[trigger] images[i]).id] == images[i].bytes by {
            if i < images.len() - 1 {
                assert(front[i] == images[i]);
                assert(image_ids(images)[i] != image_ids(images)[images.len() - 1]);
            }
        }
        assert forall|i: int| 0 <= i < front.len() implies image_storage(front)[
        #[trigger] image_ids(front)[i]] == image_storage(images)[image_ids(front)[i]] by {
            assert(image_ids(images)[i] != image_ids(images)[images.len() - 1]);
        }
        lemma_replayed_agree(
            nothing_rebuilt(),
            image_storage(front),
            image_storage(images),
            image_ids(front),
        );
        assert(image_ids(images).last() == last.id);
    }
}

/// A frame that ends within the first `len` bytes is found there when the
/// bytes behind them are cut off.
pub proof fn lemma_frame_at_truncate(bytes: Seq<u8>, start: int, len: int)
    requires
        frame_at(bytes, start) matches Some((_, taken)) && start + taken <= len <= bytes.len(),
    ensures
        frame_at(bytes.take(len), start) == frame_at(bytes, start),
{
    let (document, taken) = frame_at(bytes, start)->0;
    let frame = bytes.subrange(start, start + taken);
    let rest = bytes.subrange(start + taken, len);
    assert(bytes.take(len).skip(start) =~= frame + rest);
    assert(bytes.take(len).subrange(start, start + taken) =~= frame);
}

/// What can be arrived at within the first `len` bytes still can be when
/// the bytes behind them are cut off.
pub proof fn lemma_reachable_truncate(bytes: Seq<u8>, from: int, target: int, len: int)
    requires
        reachable(bytes, from, target),
        0 <= from,
        target <= len <= bytes.len(),
    ensures
        reachable(bytes.take(len), from, target),
    decreases bytes.len() - from,
{
    if from < target {
        let taken = (frame_at(bytes, from)->0).1;
        lemma_reachable_within(bytes, from + taken, target);
        lemma_frame_at_truncate(bytes, from, len);
        lemma_reachable_truncate(bytes, from + taken, target, len);
    }
}

/// Reading arrives only at places that are not behind it.
pub proof fn lemma_reachable_within(bytes: Seq<u8>, from: int, target: int)
    requires
        reachable(bytes, from, target),
    ensures
        from <= target,
{
}

/// Reading stops no earlier than any place that it arrives at.
pub proof fn lemma_reachable_clean(bytes: Seq<u8>, from: int, target: int)
    requires
        0 <= from <= bytes.len(),
        reachable(bytes, from, target),
    ensures
        target <= clean_len(bytes, from),
    decreases bytes.len() - from,
{
    lemma_clean_len(bytes, from);
    if from < target {
        let taken = (frame_at(bytes, from)->0).1;
        lemma_reachable_clean(bytes, from + taken, target);
    }
}

/// Reading a segment that is cut down to where reading it stops rebuilds
/// the same.
pub proof fn lemma_segment_truncate(rebuilt: Rebuilt, id: u64, bytes: Seq<u8>, from: int)
    requires
        0 <= from <= bytes.len(),
        reachable(bytes, 0, from),
    ensures
        replayed_segment(rebuilt, id, bytes.take(clean_len(bytes, 0)), from) == replayed_segment(
            rebuilt,
            id,
            bytes,
            from,
        ),
        clean_len(bytes, from) == clean_len(bytes, 0),
    decreases bytes.len() - from,
{
    let len = clean_len(bytes, 0);
    lemma_clean_len(bytes, 0);
    lemma_clean_len(bytes, from);
    match frame_at(bytes, from) {
        None => {
            lemma_reachable_clean(bytes, 0, from);
            lemma_clean_path(bytes, 0, from);
            let cut = bytes.take(len);
            assert(frame_at(cut, from) is None) by {
                if frame_at(cut, from) is Some {
                    assert((frame_at(cut, from)->0).1 > 0);
                }
            }
        },
        Some((document, taken)) => {
            lemma_reachable_step(bytes, 0, from);
            lemma_reachable_clean(bytes, 0, from + taken);
            lemma_frame_at_truncate(bytes, from, len);
            match document_record(document) {
                None => {
                    lemma_clean_path(bytes, 0, from);
                },
                Some(record) => {
                    let location = RecordLocation {
                        segment: id,
                        offset: from as u64,
                        size: taken as u64,
                    };
                    lemma_segment_truncate(
                        replayed_record(rebuilt, record, location),
                        id,
                        bytes,
                        from + taken,
                    );
                },
            }
        },
    }
}

/// Reading that goes on from a place that it arrives at stops where it
/// would have stopped.
pub proof fn lemma_clean_path(bytes: Seq<u8>, from: int, target: int)
    requires
        reachable(bytes, from, target),
    ensures
        clean_len(bytes, target) == clean_len(bytes, from),
    decreases bytes.len() - from,
{
    if from < target {
        let taken = (frame_at(bytes, from)->0).1;
        lemma_clean_path(bytes, from + taken, target);
    }
}

/// An entry that stands where the index says still does when the bytes of
/// a segment behind where reading it stops are cut off.
pub proof fn lemma_holds_truncate(
    storage: Map<u64, Seq<u8>>,
    key: Seq<char>,
    location: RecordLocation,
    id: u64,
)
    requires
        holds_in(storage, key, location),
        storage.contains_key(id),
    ensures
        holds_in(storage.insert(id, storage[id].take(clean_len(storage[id], 0))), key, location),
{
    if location.segment == id {
        let bytes = storage[id];
        let len = clean_len(bytes, 0);
        lemma_clean_len(bytes, 0);
        lemma_reachable_step(bytes, 0, location.offset as int);
        lemma_reachable_clean(bytes, 0, location.offset + location.size);
        lemma_reachable_truncate(bytes, 0, location.offset as int, len);
        lemma_frame_at_truncate(bytes, location.offset as int, len);
    }
}

/// Reading the segments again rebuilds the same when the last of them is cut
/// down to where reading it stops.
pub proof fn lemma_truncated_reread(storage: Map<u64, Seq<u8>>, ids: Seq<u64>)
    requires
        ids.len() >= 1,
        ids.no_duplicates(),
    ensures
        replayed_from(
            nothing_rebuilt(),
            storage.insert(ids.last(), storage[ids.last()].take(clean_len(storage[ids.last()], 0))),
            ids,
        ) == replayed_from(nothing_rebuilt(), storage, ids),
{
    let last = ids.last();
    let bytes = storage[last];
    let cut = storage.insert(last, bytes.take(clean_len(bytes, 0)));
    let front = ids.drop_last();
    assert forall|i: int| 0 <= i < front.len() implies storage[#[trigger] front[i]] == cut[front[i]] by {
        assert(front[i] == ids[i]);
        assert(ids[i] != ids[ids.len() - 1]);
    }
    lemma_replayed_agree(nothing_rebuilt(), storage, cut, front);
    match replayed_from(nothing_rebuilt(), storage, front) {
        Some(rebuilt) => {
            lemma_segment_truncate(rebuilt, last, bytes, 0);
        },
        None => {},
    }
}

} // verus!
