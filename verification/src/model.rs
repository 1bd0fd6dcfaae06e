//! The state of the storage engine as a mathematical value: the index, the
//! list of segments and their contents, with the steps that the engine takes
//! on it and what the steps preserve.

use vstd::prelude::*;
use crate::codec::{
    document_record, frame_at, frame_record, lemma_frame_at_extend, record_fits, record_frame,
    RecordView,
};
use crate::errors::KvStoreError;
use crate::recovery::{nothing_rebuilt, replayed_from};
use crate::replay::{and_then_record, lemma_drop_first, lemma_replayed_agree, lemma_segment_append};

verus! {

/// Compaction is due once more than this many bytes are known to be wasted.
pub const COMPACT_AFTER_BYTE_SIZE: u64 = 2048;

/// A segment longer than this receives no further record.
pub const MAX_FILE_SIZE: u64 = 20480;

/// Where a record is stored: the number of its segment, the offset of its
/// frame in the segment, and the length of the frame in bytes.
#[derive(Clone, Copy, Debug, PartialEq, Eq, Structural)]
pub struct RecordLocation {
    pub segment: u64,
    pub offset: u64,
    pub size: u64,
}

/// One change to the stored segments.
#[derive(Debug)]
pub enum StorageAction {
    /// Create the segment, empty; it becomes the one that is appended to.
    CreateSegment(u64),
    /// Append the bytes to the segment and flush them.
    Append(u64, Vec<u8>),
    /// Delete the segment.
    RemoveSegment(u64),
    /// Cut the segment down to the given length in bytes.
    Truncate(u64, u64),
}

/// What a [`StorageAction`] asks for, with the bytes as a mathematical
/// sequence.
pub ghost enum ActionView {
    CreateSegment(u64),
    Append(u64, Seq<u8>),
    RemoveSegment(u64),
    Truncate(u64, u64),
}

impl View for StorageAction {
    type V = ActionView;

    open spec fn view(&self) -> ActionView {
        match *self {
            StorageAction::CreateSegment(id) => ActionView::CreateSegment(id),
            StorageAction::Append(id, bytes) => ActionView::Append(id, bytes@),
            StorageAction::RemoveSegment(id) => ActionView::RemoveSegment(id),
            StorageAction::Truncate(id, len) => ActionView::Truncate(id, len),
        }
    }
}

/// The views of a list of actions, in order.
pub open spec fn actions_view(actions: Seq<StorageAction>) -> Seq<ActionView> {
    actions.map_values(|a: StorageAction| a@)
}

/// The stored segments after one action.
pub open spec fn apply_action(storage: Map<u64, Seq<u8>>, action: ActionView) -> Map<
    u64,
    Seq<u8>,
> {
    match action {
        ActionView::CreateSegment(id) => storage.insert(id, Seq::empty()),
        ActionView::Append(id, bytes) => storage.insert(id, storage[id] + bytes),
        ActionView::RemoveSegment(id) => storage.remove(id),
        ActionView::Truncate(id, len) => storage.insert(id, storage[id].take(len as int)),
    }
}

/// The stored segments after a list of actions, carried out in order.
pub open spec fn apply_actions(storage: Map<u64, Seq<u8>>, actions: Seq<ActionView>) -> Map<
    u64,
    Seq<u8>,
>
    decreases actions.len(),
{
    if actions.len() == 0 {
        storage
    } else {
        apply_action(apply_actions(storage, actions.drop_last()), actions.last())
    }
}

/// The state of the engine.
pub ghost struct StoreModel {
    /// The place of the latest record of each key that has a value.
    pub index: Map<Seq<char>, RecordLocation>,
    /// The numbers of the segments, oldest first; the last one is active.
    pub segments: Seq<u64>,
    /// The length of the active segment in bytes.
    pub active_len: u64,
    /// The number that the next segment receives; it lies above the number
    /// of every segment.
    pub counter: u64,
    /// The bytes known to be wasted since the last compaction.
    pub meter: u64,
    /// The contents of each segment.
    pub storage: Map<u64, Seq<u8>>,
}

impl StoreModel {
    /// The segment that records are appended to.
    pub open spec fn active(self) -> u64 {
        self.segments.last()
    }

    /// There is a segment, no segment occurs twice, the counter lies above
    /// the number of every segment, and the contents of exactly the listed
    /// segments are known.
    pub open spec fn wf(self) -> bool {
        &&& self.segments.len() >= 1
        &&& self.segments.no_duplicates()
        &&& forall|i: int| 0 <= i < self.segments.len() ==> #[trigger] self.segments[i]
            < self.counter
        &&& forall|id: u64| self.storage.contains_key(id) <==> self.segments.contains(id)
        &&& self.active_len == self.storage[self.active()].len()
    }

    /// The active segment is full: the next record opens a new segment.
    pub open spec fn rotation_due(self) -> bool {
        self.active_len > MAX_FILE_SIZE
    }

    /// The state once a new, empty segment has been opened: the segment
    /// receives the number that the counter holds, and the counter moves on.
    pub open spec fn rotated(self) -> StoreModel {
        let id = self.counter;
        StoreModel {
            segments: self.segments.push(id),
            active_len: 0,
            counter: (self.counter + 1) as u64,
            storage: self.storage.insert(id, Seq::empty()),
            ..self
        }
    }

    /// The state that is ready to take a frame: with a new segment where
    /// the active one is full.
    pub open spec fn prepared(self) -> StoreModel {
        if self.rotation_due() {
            self.rotated()
        } else {
            self
        }
    }

    /// Whether `frame` can be placed: a new segment can be numbered where
    /// one is due, and the end of the frame has an offset.
    pub open spec fn can_place(self, frame: Seq<u8>) -> bool {
        &&& self.rotation_due() ==> self.counter < u64::MAX
        &&& self.prepared().active_len + frame.len() <= u64::MAX
    }

    /// Where `frame` is placed: at the end of the active segment, after
    /// rotation where it is due.
    pub open spec fn place_of(self, frame: Seq<u8>) -> RecordLocation {
        RecordLocation {
            segment: self.prepared().active(),
            offset: self.prepared().active_len,
            size: frame.len() as u64,
        }
    }

    /// The state once `frame` has been placed.
    pub open spec fn placed(self, frame: Seq<u8>) -> StoreModel {
        let p = self.prepared();
        StoreModel {
            active_len: (p.active_len + frame.len()) as u64,
            storage: p.storage.insert(p.active(), p.storage[p.active()] + frame),
            ..p
        }
    }

    /// The actions that place `frame`.
    pub open spec fn place_actions(self, frame: Seq<u8>) -> Seq<ActionView> {
        if self.rotation_due() {
            seq![
                ActionView::CreateSegment(self.prepared().active()),
                ActionView::Append(self.prepared().active(), frame),
            ]
        } else {
            seq![ActionView::Append(self.active(), frame)]
        }
    }
}

/// Reading frame after frame from `from` on arrives at `target`.
pub open spec fn reachable(bytes: Seq<u8>, from: int, target: int) -> bool
    decreases bytes.len() - from,
{
    if from == target {
        true
    } else if from > target {
        false
    } else {
        match frame_at(bytes, from) {
            Some((_, taken)) => reachable(bytes, from + taken, target),
            None => false,
        }
    }
}

/// The meter after `size` more bytes are known to be wasted; it stops at
/// the largest number it can hold.
pub open spec fn meter_add(meter: u64, size: u64) -> u64 {
    if meter + size > u64::MAX {
        u64::MAX
    } else {
        (meter + size) as u64
    }
}

/// The meter after `size` bytes have been reclaimed; it stops at zero.
pub open spec fn meter_sub(meter: u64, size: nat) -> u64 {
    if meter < size {
        0
    } else {
        (meter - size) as u64
    }
}

/// The record of `key` stands at `location` in the stored segments: the
/// location can be arrived at by reading its segment from the start, and
/// holds a frame of that length that sets the key.
pub open spec fn holds_in(
    storage: Map<u64, Seq<u8>>,
    key: Seq<char>,
    location: RecordLocation,
) -> bool {
    &&& storage.contains_key(location.segment)
    &&& reachable(storage[location.segment], 0, location.offset as int)
    &&& frame_at(storage[location.segment], location.offset as int) matches Some((document, size))
    &&& size == location.size
    &&& document_record(document) matches Some(RecordView::Put(k, _))
    &&& k == key
}

impl StoreModel {
    /// The record of `key` stands at `location`.
    pub open spec fn holds(self, key: Seq<char>, location: RecordLocation) -> bool {
        holds_in(self.storage, key, location)
    }

    /// What reading the segments again, oldest first, rebuilds.
    pub open spec fn reread(self) -> Option<crate::recovery::Rebuilt> {
        replayed_from(nothing_rebuilt(), self.storage, self.segments)
    }

    /// The index agrees with the stored segments: every entry stands where
    /// the index says, the active segment is a run of frames with nothing
    /// after them, and reading the segments again rebuilds this very index.
    pub open spec fn consistent(self) -> bool {
        &&& forall|key: Seq<char>| #[trigger]
            self.index.contains_key(key) ==> self.holds(key, self.index[key])
        &&& reachable(self.storage[self.active()], 0, self.active_len as int)
        &&& self.reread() matches Some(rebuilt) && rebuilt.index == self.index
    }

    /// The bytes stored at `location`.
    pub open spec fn stored(self, location: RecordLocation) -> Seq<u8> {
        self.storage[location.segment].subrange(
            location.offset as int,
            location.offset + location.size,
        )
    }

    /// The value that the record at `location` sets.
    pub open spec fn value_at(self, location: RecordLocation) -> Seq<char> {
        match frame_at(self.storage[location.segment], location.offset as int) {
            Some((document, _)) => match document_record(document) {
                Some(RecordView::Put(_, value)) => value,
                _ => Seq::empty(),
            },
            None => Seq::empty(),
        }
    }

    /// What the store holds: the value of each key that has one.
    pub open spec fn contents(self) -> Map<Seq<char>, Seq<char>> {
        Map::new(
            |key: Seq<char>| self.index.contains_key(key),
            |key: Seq<char>| self.value_at(self.index[key]),
        )
    }

    /// The meter once the record of `key`, if it has one, is wasted.
    pub open spec fn meter_after(self, key: Seq<char>) -> u64 {
        if self.index.contains_key(key) {
            meter_add(self.meter, self.index[key].size)
        } else {
            self.meter
        }
    }

    /// The state once `frame` has been placed and the index points at it
    /// for `key`.
    pub open spec fn pointed(self, key: Seq<char>, frame: Seq<u8>) -> StoreModel {
        StoreModel { index: self.index.insert(key, self.place_of(frame)), ..self.placed(frame) }
    }

    /// The state once `key` has been set by the record in `frame`.
    pub open spec fn after_set(self, key: Seq<char>, frame: Seq<u8>) -> StoreModel {
        StoreModel { meter: self.meter_after(key), ..self.pointed(key, frame) }
    }

    /// The state once `key` has been removed by the record in `frame`.
    pub open spec fn after_remove(self, key: Seq<char>, frame: Seq<u8>) -> StoreModel {
        StoreModel {
            index: self.index.remove(key),
            meter: self.meter_after(key),
            ..self.placed(frame)
        }
    }
}

/// Reading on from a place that was arrived at arrives at the end of the
/// frame found there.
pub proof fn lemma_reachable_step(bytes: Seq<u8>, from: int, target: int)
    requires
        reachable(bytes, from, target),
        frame_at(bytes, target) is Some,
    ensures
        reachable(bytes, from, target + (frame_at(bytes, target)->0).1),
    decreases bytes.len() - from,
{
    if from != target {
        let taken = (frame_at(bytes, from)->0).1;
        lemma_reachable_step(bytes, from + taken, target);
    } else {
        let taken = (frame_at(bytes, from)->0).1;
        assert(reachable(bytes, from + taken, target + taken));
    }
}

/// What can be arrived at stays so when bytes are written after it.
pub proof fn lemma_reachable_extend(bytes: Seq<u8>, from: int, target: int, more: Seq<u8>)
    requires
        reachable(bytes, from, target),
    ensures
        reachable(bytes + more, from, target),
    decreases bytes.len() - from,
{
    if from != target {
        let taken = (frame_at(bytes, from)->0).1;
        lemma_frame_at_extend(bytes, from, more);
        lemma_reachable_extend(bytes, from + taken, target, more);
    }
}

/// A frame written at the end of some bytes is found there.
pub proof fn lemma_frame_at_end(bytes: Seq<u8>, frame: Seq<u8>)
    requires
        frame_at(frame, 0) is Some,
        (frame_at(frame, 0)->0).1 == frame.len(),
    ensures
        frame_at(bytes + frame, bytes.len() as int) == frame_at(frame, 0),
{
    assert((bytes + frame).skip(bytes.len() as int) =~= frame);
    assert(frame.skip(0) =~= frame);
    assert((bytes + frame).subrange(bytes.len() as int, (bytes.len() + frame.len()) as int) =~= frame);
    assert(frame.subrange(0, frame.len() as int) =~= frame);
}

/// Reading the segments again after the frame of a record has been placed
/// rebuilds what it rebuilt before, and then reads the record.
proof fn lemma_placed_reread(m: StoreModel, frame: Seq<u8>, record: RecordView)
    requires
        m.wf(),
        reachable(m.storage[m.active()], 0, m.active_len as int),
        m.can_place(frame),
        frame_record(frame) == Some(record),
    ensures
        m.placed(frame).reread() == and_then_record(m.reread(), record, m.place_of(frame)),
{
    let p = m.prepared();
    let a = p.active();
    let before = p.storage[a];
    let after = m.placed(frame);
    let start = nothing_rebuilt();
    assert(p.segments.drop_last() =~= if m.rotation_due() {
        m.segments
    } else {
        m.segments.drop_last()
    });
    assert(p.reread() == m.reread() && reachable(before, 0, before.len() as int)
        && p.active_len == before.len() && p.segments.no_duplicates()) by {
        if m.rotation_due() {
            let id = m.counter;
            assert(!m.segments.contains(id));
            lemma_replayed_agree(start, m.storage, p.storage, m.segments);
            let empty = Seq::<u8>::empty();
            assert(p.storage[id] == empty);
            assert(frame_at(empty, 0) is None) by {
                if frame_at(empty, 0) is Some {
                    assert((frame_at(empty, 0)->0).1 > 0);
                }
            }
        }
    }
    let front = p.segments.drop_last();
    assert forall|i: int| 0 <= i < front.len() implies p.storage[#[trigger] front[i]]
        == after.storage[front[i]] by {
        assert(front[i] == p.segments[i]);
        assert(p.segments[i] != p.segments[p.segments.len() - 1]);
    }
    lemma_replayed_agree(start, p.storage, after.storage, front);
    assert(after.storage[a] == before + frame);
    assert(after.segments == p.segments);
    match replayed_from(start, p.storage, front) {
        Some(rebuilt) => {
            lemma_segment_append(rebuilt, a, before, frame, record, 0);
        },
        None => {},
    }
}

/// Placing the frame of a record keeps every entry of the index where it
/// stands, and the frame is found at its place.
pub proof fn lemma_placed(m: StoreModel, frame: Seq<u8>, record: RecordView)
    requires
        m.wf(),
        m.consistent(),
        m.can_place(frame),
        frame_record(frame) == Some(record),
    ensures
        m.placed(frame).wf(),
        reachable(
            m.placed(frame).storage[m.placed(frame).active()],
            0,
            m.placed(frame).active_len as int,
        ),
        forall|key: Seq<char>, location: RecordLocation|
            m.holds(key, location) ==> #[trigger] m.placed(frame).holds(key, location)
                && m.placed(frame).value_at(location) == m.value_at(location),
        reachable(m.placed(frame).storage[m.place_of(frame).segment], 0, m.place_of(frame).offset as int),
        frame_at(m.placed(frame).storage[m.place_of(frame).segment], m.place_of(frame).offset as int)
            == frame_at(frame, 0),
        document_record((frame_at(frame, 0)->0).0) == Some(record),
        (frame_at(frame, 0)->0).1 == frame.len(),
        m.placed(frame).reread() == and_then_record(m.reread(), record, m.place_of(frame)),
{
    let p = m.prepared();
    let a = p.active();
    let before = p.storage[a];
    let after = m.placed(frame);
    lemma_placed_reread(m, frame, record);
    assert(p.segments[p.segments.len() - 1] == a);
    assert(p.wf() && reachable(before, 0, p.active_len as int)) by {
        if m.rotation_due() {
            let id = m.counter;
            assert(!m.segments.contains(id));
            assert forall|k: u64| p.storage.contains_key(k) <==> p.segments.contains(k) by {
                if k != id && m.segments.contains(k) {
                    let i = choose|i: int| 0 <= i < m.segments.len() && m.segments[i] == k;
                    assert(p.segments[i] == k);
                }
            }
        }
    }
    lemma_frame_at_end(before, frame);
    lemma_reachable_extend(before, 0, before.len() as int, frame);
    lemma_reachable_step(before + frame, 0, before.len() as int);
    assert(after.storage[a] == before + frame);
    assert(p.segments.contains(a));
    assert(p.storage.contains_key(a));
    assert forall|key: Seq<char>, location: RecordLocation| m.holds(key, location) implies (
    #[trigger] after.holds(key, location)) && after.value_at(location) == m.value_at(
        location,
    ) by {
        assert(m.segments.contains(location.segment));
        if location.segment == a {
            assert(!m.rotation_due());
            lemma_reachable_extend(before, 0, location.offset as int, frame);
            lemma_frame_at_extend(before, location.offset as int, frame);
        } else {
            assert(after.storage[location.segment] == m.storage[location.segment]);
        }
    }
}

/// The key that a record names.
pub open spec fn record_key(record: RecordView) -> Seq<char> {
    match record {
        RecordView::Put(key, _) => key,
        RecordView::Delete(key) => key,
    }
}

/// The record found at `offset` in `segment` is the live copy of its key:
/// it sets a key, and the index points at this very place for that key.
pub open spec fn is_live(
    index: Map<Seq<char>, RecordLocation>,
    segment: u64,
    offset: int,
    record: RecordView,
) -> bool {
    &&& record is Put
    &&& index.contains_key(record_key(record))
    &&& index[record_key(record)].segment == segment
    &&& index[record_key(record)].offset == offset
}

/// What reading a segment for compaction comes to.
pub ghost enum Survey {
    /// The live records of the segment, in order; each can be written.
    Live(Seq<RecordView>),
    /// A document that stands for no record was found first.
    Foreign,
    /// A live record that has no frame, a string of it being too long for a
    /// document, was found first.
    Unwritable(RecordView),
}

/// `survey` with `records` put in front of the live records it holds.
pub open spec fn survey_after(records: Seq<RecordView>, survey: Survey) -> Survey {
    match survey {
        Survey::Live(rest) => Survey::Live(records + rest),
        other => other,
    }
}

/// Reads the frames of `bytes` from `from` on, up to the first place where
/// no frame stands, and picks the live records.
pub open spec fn survey(
    index: Map<Seq<char>, RecordLocation>,
    segment: u64,
    bytes: Seq<u8>,
    from: int,
) -> Survey
    decreases bytes.len() - from,
{
    match frame_at(bytes, from) {
        None => Survey::Live(Seq::empty()),
        Some((document, taken)) => match document_record(document) {
            None => Survey::Foreign,
            Some(record) => if is_live(index, segment, from, record) {
                if record_frame(record) is None {
                    Survey::Unwritable(record)
                } else {
                    survey_after(seq![record], survey(index, segment, bytes, from + taken))
                }
            } else {
                survey(index, segment, bytes, from + taken)
            },
        },
    }
}

/// The bytes of the frames of `bytes`, from `from` on, that hold no live
/// record.
pub open spec fn obsolete_bytes(
    index: Map<Seq<char>, RecordLocation>,
    segment: u64,
    bytes: Seq<u8>,
    from: int,
) -> nat
    decreases bytes.len() - from,
{
    match frame_at(bytes, from) {
        None => 0,
        Some((document, taken)) => match document_record(document) {
            None => 0,
            Some(record) => if is_live(index, segment, from, record) {
                obsolete_bytes(index, segment, bytes, from + taken)
            } else {
                taken + obsolete_bytes(index, segment, bytes, from + taken)
            },
        },
    }
}

impl StoreModel {
    /// Compaction has something to do: enough bytes are wasted, and there
    /// is a segment besides the active one.
    pub open spec fn compaction_due(self) -> bool {
        self.meter > COMPACT_AFTER_BYTE_SIZE && self.segments.len() > 1
    }

    /// The oldest segment.
    pub open spec fn oldest(self) -> u64 {
        self.segments[0]
    }

    /// The state once a live record has been written again at the end of
    /// the log and the index points at the new copy.
    pub open spec fn after_move(self, record: RecordView) -> StoreModel {
        self.pointed(record_key(record), record_frame(record)->0)
    }

    /// The state once the records have been moved to the end of the log,
    /// one after the other.
    pub open spec fn moved(self, records: Seq<RecordView>) -> StoreModel
        decreases records.len(),
    {
        if records.len() == 0 {
            self
        } else {
            self.moved(records.drop_last()).after_move(records.last())
        }
    }

    /// The actions that move the records to the end of the log.
    pub open spec fn move_actions(self, records: Seq<RecordView>) -> Seq<ActionView>
        decreases records.len(),
    {
        if records.len() == 0 {
            Seq::empty()
        } else {
            self.move_actions(records.drop_last()) + self.moved(
                records.drop_last(),
            ).place_actions(record_frame(records.last())->0)
        }
    }

    /// There is room to move the records: a segment number for each, should
    /// each open a new segment, and an offset for the end of each frame.
    pub open spec fn can_move(self, records: Seq<RecordView>) -> bool {
        &&& self.counter + records.len() <= u64::MAX
        &&& forall|i: int|
            0 <= i < records.len() ==> (#[trigger] record_frame(records[i])) is Some
                && (record_frame(records[i])->0).len() <= u64::MAX - MAX_FILE_SIZE
    }

    /// The state once the oldest segment, whose contents are `bytes`, has
    /// been compacted: its live records moved, the segment dropped, and the
    /// meter lowered by the bytes of its other records.
    pub open spec fn compacted(self, bytes: Seq<u8>) -> StoreModel {
        let lives = survey(self.index, self.oldest(), bytes, 0)->Live_0;
        let obsolete = obsolete_bytes(self.index, self.oldest(), bytes, 0);
        let s = self.moved(lives);
        StoreModel {
            segments: s.segments.drop_first(),
            storage: s.storage.remove(self.oldest()),
            meter: meter_sub(self.meter, obsolete),
            ..s
        }
    }
}

/// The kind of failure with which compacting the oldest segment, whose
/// contents are `bytes`, fails in state `m`.
pub open spec fn compaction_fails_with(m: StoreModel, bytes: Seq<u8>, error: KvStoreError) -> bool {
    match survey(m.index, m.oldest(), bytes, 0) {
        Survey::Foreign => error is DecoderError,
        Survey::Unwritable(record) => error is SerializationError && !record_fits(record),
        Survey::Live(records) => error is SerializationError && !m.can_move(records),
    }
}

/// One operation on the store that succeeds.
pub ghost enum Operation {
    /// A key is set to a value.
    Put(Seq<char>, Seq<char>),
    /// A key that has a value is removed.
    Remove(Seq<char>),
    /// The oldest segment is compacted.
    Compact,
}

/// `after` is the state that the operation leaves where it is carried out
/// in the state `before`.
pub open spec fn step(before: StoreModel, after: StoreModel, operation: Operation) -> bool {
    match operation {
        Operation::Put(key, value) => exists|frame: Seq<u8>|
            {
                &&& #[trigger] frame_record(frame) == Some(RecordView::Put(key, value))
                &&& before.can_place(frame)
                &&& after == before.after_set(key, frame)
            },
        Operation::Remove(key) => before.index.contains_key(key) && exists|frame: Seq<u8>|
            {
                &&& #[trigger] frame_record(frame) == Some(RecordView::Delete(key))
                &&& before.can_place(frame)
                &&& after == before.after_remove(key, frame)
            },
        Operation::Compact => {
            let bytes = before.storage[before.oldest()];
            &&& before.compaction_due()
            &&& survey(before.index, before.oldest(), bytes, 0) matches Survey::Live(records)
            &&& before.can_move(records)
            &&& faithful(records)
            &&& after == before.compacted(bytes)
        },
    }
}

/// While the live records of the oldest segment are being moved, with
/// `done` of them moved so far: the index agrees with the stored segments,
/// the store holds what it held, and whatever the index still places in the
/// oldest segment is among the records yet to be moved.
pub open spec fn compacting(
    before: StoreModel,
    current: StoreModel,
    records: Seq<RecordView>,
    done: int,
) -> bool {
    &&& current.consistent()
    &&& current.contents() == before.contents()
    &&& forall|k: Seq<char>| #[trigger]
        current.index.contains_key(k) && current.index[k].segment == before.oldest()
            ==> exists|j: int|
            done <= j < records.len() && record_key(#[trigger] records[j]) == k
    &&& forall|j: int|
        0 <= j < records.len() ==> before.contents().contains_key(
            record_key(#[trigger] records[j]),
        ) && before.contents()[record_key(records[j])] == records[j]->Put_1
}

/// Before any record has been moved, the state is as [`compacting`] says.
pub proof fn lemma_compacting_start(before: StoreModel, oldest: Seq<u8>)
    requires
        before.wf(),
        before.consistent(),
        oldest == before.storage[before.oldest()],
        survey(before.index, before.oldest(), oldest, 0) is Live,
    ensures
        compacting(
            before,
            before,
            survey(before.index, before.oldest(), oldest, 0)->Live_0,
            0,
        ),
{
    let segment = before.oldest();
    let records = survey(before.index, segment, oldest, 0)->Live_0;
    lemma_survey_sound(before.index, segment, oldest, 0);
    assert forall|k: Seq<char>| #[trigger]
        before.index.contains_key(k) && before.index[k].segment == segment implies exists|j: int|
        0 <= j < records.len() && record_key(#[trigger] records[j]) == k by {
        assert(before.holds(k, before.index[k]));
        lemma_survey_covers(before.index, segment, oldest, 0, k);
    }
    assert forall|j: int| 0 <= j < records.len() implies before.contents().contains_key(
        record_key(#[trigger] records[j]),
    ) && before.contents()[record_key(records[j])] == records[j]->Put_1 by {
        let r = records[j];
        assert(before.index.contains_key(record_key(r)));
    }
}

/// Moving the next live record keeps the state as [`compacting`] says.
pub proof fn lemma_compacting_step(
    before: StoreModel,
    current: StoreModel,
    records: Seq<RecordView>,
    done: int,
)
    requires
        before.wf(),
        current.wf(),
        current.segments.len() > 1,
        current.segments[0] == before.oldest(),
        compacting(before, current, records, done),
        0 <= done < records.len(),
        records[done] is Put,
        record_frame(records[done]) is Some,
        frame_record(record_frame(records[done])->0) == Some(records[done]),
        current.can_place(record_frame(records[done])->0),
        current.index.dom() == before.index.dom(),
    ensures
        compacting(before, current.after_move(records[done]), records, done + 1),
        current.after_move(records[done]).index.dom() == before.index.dom(),
{
    let record = records[done];
    let key = record_key(record);
    let value = record->Put_1;
    let frame = record_frame(record)->0;
    let after = current.after_move(record);
    let segment = before.oldest();
    assert(record == RecordView::Put(key, value));
    lemma_pointed(current, key, value, frame);
    assert(before.contents().contains_key(key));
    assert(current.contents().insert(key, value) =~= current.contents());
    assert(before.index.contains_key(key));
    assert(after.index.dom() =~= before.index.dom());
    assert(current.prepared().active() != segment) by {
        if current.rotation_due() {
            assert(current.segments[0] < current.counter);
        } else {
            assert(current.segments[current.segments.len() - 1] != current.segments[0]);
        }
    }
    assert forall|k: Seq<char>| #[trigger]
        after.index.contains_key(k) && after.index[k].segment == segment implies exists|j: int|
        done + 1 <= j < records.len() && record_key(#[trigger] records[j]) == k by {
        assert(k != key);
        assert(current.index.contains_key(k) && current.index[k].segment == segment);
        let j = choose|j: int| done <= j < records.len() && record_key(#[trigger] records[j]) == k;
        assert(j != done);
    }
}

/// Carrying out two lists of actions one after the other is carrying out
/// the one list that they make.
pub proof fn lemma_apply_actions_concat(
    storage: Map<u64, Seq<u8>>,
    first: Seq<ActionView>,
    second: Seq<ActionView>,
)
    ensures
        apply_actions(storage, first + second) == apply_actions(
            apply_actions(storage, first),
            second,
        ),
    decreases second.len(),
{
    if second.len() == 0 {
        assert(first + second =~= first);
    } else {
        assert((first + second).drop_last() =~= first + second.drop_last());
        lemma_apply_actions_concat(storage, first, second.drop_last());
    }
}

/// The actions that place a frame bring the stored segments to what the
/// state holds of them once the frame is placed.
pub proof fn lemma_place_actions(m: StoreModel, frame: Seq<u8>)
    ensures
        apply_actions(m.storage, m.place_actions(frame)) == m.placed(frame).storage,
{
    reveal_with_fuel(apply_actions, 3);
    let steps = m.place_actions(frame);
    if m.rotation_due() {
        assert(steps.drop_last() =~= seq![ActionView::CreateSegment(m.prepared().active())]);
        assert(steps.drop_last().drop_last() =~= Seq::<ActionView>::empty());
        assert(m.prepared().segments[m.prepared().segments.len() - 1] == m.prepared().active());
    } else {
        assert(steps.drop_last() =~= Seq::<ActionView>::empty());
    }
}

/// The actions that move records bring the stored segments to what the
/// state holds of them once the records are moved.
pub proof fn lemma_move_actions(m: StoreModel, records: Seq<RecordView>)
    ensures
        apply_actions(m.storage, m.move_actions(records)) == m.moved(records).storage,
    decreases records.len(),
{
    if records.len() > 0 {
        let front = records.drop_last();
        lemma_move_actions(m, front);
        let frame = record_frame(records.last())->0;
        lemma_place_actions(m.moved(front), frame);
        lemma_apply_actions_concat(
            m.storage,
            m.move_actions(front),
            m.moved(front).place_actions(frame),
        );
    }
}

/// The actions of a compaction bring the stored segments to what the state
/// holds of them once the oldest segment is compacted.
pub proof fn lemma_compact_actions(m: StoreModel, bytes: Seq<u8>)
    requires
        survey(m.index, m.oldest(), bytes, 0) is Live,
    ensures
        apply_actions(
            m.storage,
            m.move_actions(survey(m.index, m.oldest(), bytes, 0)->Live_0).push(
                ActionView::RemoveSegment(m.oldest()),
            ),
        ) == m.compacted(bytes).storage,
{
    let records = survey(m.index, m.oldest(), bytes, 0)->Live_0;
    lemma_move_actions(m, records);
    let steps = m.move_actions(records).push(ActionView::RemoveSegment(m.oldest()));
    assert(steps.drop_last() =~= m.move_actions(records));
}

/// Placing a frame keeps the state well formed; it keeps the segments that
/// were there, in their order, and opens at most one more.
pub proof fn lemma_placed_wf(m: StoreModel, frame: Seq<u8>)
    requires
        m.wf(),
        m.can_place(frame),
    ensures
        m.placed(frame).wf(),
        m.placed(frame).segments.len() >= m.segments.len(),
        m.placed(frame).segments.len() <= m.segments.len() + 1,
        m.placed(frame).segments[0] == m.segments[0],
        m.placed(frame).segments.take(m.segments.len() as int) == m.segments,
        m.placed(frame).counter <= m.counter + 1,
        m.placed(frame).meter == m.meter,
        m.placed(frame).index == m.index,
        m.segments.len() > 1 ==> m.place_of(frame).segment != m.segments[0],
{
    let p = m.prepared();
    let a = p.active();
    let after = m.placed(frame);
    assert(p.segments[p.segments.len() - 1] == a);
    assert(p.wf()) by {
        if m.rotation_due() {
            let id = m.counter;
            assert(!m.segments.contains(id));
            assert forall|k: u64| p.storage.contains_key(k) <==> p.segments.contains(k) by {
                if k != id && m.segments.contains(k) {
                    let i = choose|i: int| 0 <= i < m.segments.len() && m.segments[i] == k;
                    assert(p.segments[i] == k);
                }
            }
        }
    }
    assert(p.segments.contains(a));
    assert(p.storage.contains_key(a));
    assert(p.segments[0] == m.segments[0]);
    assert(p.segments.take(m.segments.len() as int) =~= m.segments);
    if m.segments.len() > 1 {
        if m.rotation_due() {
            assert(m.segments[0] < m.counter);
        } else {
            assert(m.segments[m.segments.len() - 1] != m.segments[0]);
        }
    }
}

/// The frame written for each of the records holds that record, and each
/// record sets a key.
pub open spec fn faithful(records: Seq<RecordView>) -> bool {
    forall|j: int|
        0 <= j < records.len() ==> {
            &&& (#[trigger] records[j]) is Put
            &&& record_frame(records[j]) matches Some(frame) && frame_record(frame) == Some(
                records[j],
            )
        }
}

/// Moving the first `count` of the live records of the oldest segment keeps
/// the state well formed and leaves room for the next, and keeps the state
/// as [`compacting`] says where it was so at the start.
pub proof fn lemma_moved(before: StoreModel, records: Seq<RecordView>, count: int)
    requires
        before.wf(),
        before.segments.len() > 1,
        before.can_move(records),
        faithful(records),
        0 <= count <= records.len(),
    ensures
        ({
            let current = before.moved(records.take(count));
            &&& current.wf()
            &&& current.counter <= before.counter + count
            &&& current.segments.len() >= before.segments.len()
            &&& current.segments[0] == before.oldest()
            &&& current.segments.take(before.segments.len() as int) == before.segments
            &&& current.meter == before.meter
            &&& count < records.len() ==> current.can_place(record_frame(records[count])->0)
            &&& compacting(before, before, records, 0) ==> compacting(
                before,
                current,
                records,
                count,
            ) && current.index.dom() == before.index.dom()
        }),
    decreases count,
{
    if count == 0 {
        assert(records.take(0) =~= Seq::<RecordView>::empty());
        assert(before.segments.take(before.segments.len() as int) =~= before.segments);
    } else {
        lemma_moved(before, records, count - 1);
        let previous = before.moved(records.take(count - 1));
        let record = records[count - 1];
        let frame = record_frame(record)->0;
        assert(records.take(count).drop_last() =~= records.take(count - 1));
        assert(records.take(count).last() == record);
        let current = previous.after_move(record);
        assert(current == before.moved(records.take(count)));
        lemma_placed_wf(previous, frame);
        assert(current.segments.take(before.segments.len() as int) =~= previous.segments.take(
            previous.segments.len() as int,
        ).take(before.segments.len() as int));
        if compacting(before, before, records, 0) {
            lemma_compacting_step(before, previous, records, count - 1);
        }
    }
}

/// Compacting the oldest segment keeps the state well formed. Where the
/// index agreed with the stored segments and the bytes read are those of the
/// oldest segment, it still agrees, and the store holds what it held.
pub proof fn lemma_compacted(m: StoreModel, bytes: Seq<u8>)
    requires
        m.wf(),
        m.compaction_due(),
        survey(m.index, m.oldest(), bytes, 0) matches Survey::Live(records) && m.can_move(records)
            && faithful(records),
    ensures
        m.compacted(bytes).wf(),
        !m.compacted(bytes).segments.contains(m.oldest()),
        forall|i: int|
            1 <= i < m.segments.len() ==> m.compacted(bytes).segments[i - 1]
                == #[trigger] m.segments[i],
        m.consistent() && bytes == m.storage[m.oldest()] ==> m.compacted(bytes).consistent()
            && m.compacted(bytes).contents() == m.contents(),
{
    let segment = m.oldest();
    let records = survey(m.index, segment, bytes, 0)->Live_0;
    let honest = m.consistent() && bytes == m.storage[segment];
    if honest {
        lemma_compacting_start(m, bytes);
    }
    lemma_moved(m, records, records.len() as int);
    assert(records.take(records.len() as int) =~= records);
    let moved = m.moved(records);
    let after = m.compacted(bytes);
    assert(after.segments =~= moved.segments.drop_first());
    assert forall|id: u64| after.storage.contains_key(id) <==> after.segments.contains(id) by {
        if after.segments.contains(id) {
            let i = choose|i: int| 0 <= i < after.segments.len() && after.segments[i] == id;
            assert(moved.segments[i + 1] == id);
        }
        if moved.segments.contains(id) && id != segment {
            let i = choose|i: int| 0 <= i < moved.segments.len() && moved.segments[i] == id;
            assert(after.segments[i - 1] == id);
        }
    }
    assert(after.active() == moved.active());
    assert(moved.segments[moved.segments.len() - 1] != moved.segments[0]);
    assert forall|i: int| 1 <= i < m.segments.len() implies after.segments[i - 1]
        == #[trigger] m.segments[i] by {
        assert(moved.segments.take(m.segments.len() as int)[i] == moved.segments[i]);
    }
    assert(!after.segments.contains(segment)) by {
        if after.segments.contains(segment) {
            let i = choose|i: int| 0 <= i < after.segments.len() && after.segments[i] == segment;
            assert(moved.segments[i + 1] == moved.segments[0]);
        }
    }
    if honest {
        assert forall|k: Seq<char>| #[trigger] after.index.contains_key(k) implies after.holds(
            k,
            after.index[k],
        ) by {
            assert(moved.index.contains_key(k));
            assert(moved.holds(k, moved.index[k]));
        }
        assert(after.contents() =~= moved.contents());
        lemma_drop_first(moved.storage, moved.segments);
    }
}

/// Each live record that a survey finds is the record that the index points
/// at for its key, and can be written.
pub proof fn lemma_survey_sound(
    index: Map<Seq<char>, RecordLocation>,
    segment: u64,
    bytes: Seq<u8>,
    from: int,
)
    requires
        survey(index, segment, bytes, from) is Live,
    ensures
        forall|j: int|
            0 <= j < (survey(index, segment, bytes, from)->Live_0).len() ==> {
                let r = #[trigger] (survey(index, segment, bytes, from)->Live_0)[j];
                &&& r is Put
                &&& record_frame(r) is Some
                &&& index.contains_key(record_key(r))
                &&& index[record_key(r)].segment == segment
                &&& frame_at(bytes, index[record_key(r)].offset as int) matches Some((document, _))
                &&& document_record(document) == Some(r)
            },
    decreases bytes.len() - from,
{
    match frame_at(bytes, from) {
        None => {},
        Some((document, taken)) => {
            let record = document_record(document)->0;
            lemma_survey_sound(index, segment, bytes, from + taken);
        },
    }
}

/// A survey finds the record of every key that the index places in the
/// segment, where that place can be arrived at and holds a record of the
/// key.
pub proof fn lemma_survey_covers(
    index: Map<Seq<char>, RecordLocation>,
    segment: u64,
    bytes: Seq<u8>,
    from: int,
    key: Seq<char>,
)
    requires
        survey(index, segment, bytes, from) is Live,
        index.contains_key(key),
        index[key].segment == segment,
        reachable(bytes, from, index[key].offset as int),
        frame_at(bytes, index[key].offset as int) matches Some((document, _))
            && document_record(document) matches Some(RecordView::Put(k, _)) && k == key,
    ensures
        exists|j: int|
            0 <= j < (survey(index, segment, bytes, from)->Live_0).len() && record_key(
                #[trigger] (survey(index, segment, bytes, from)->Live_0)[j],
            ) == key,
    decreases bytes.len() - from,
{
    let records = survey(index, segment, bytes, from)->Live_0;
    let (document, taken) = frame_at(bytes, from)->0;
    let record = document_record(document)->0;
    let rest = survey(index, segment, bytes, from + taken)->Live_0;
    if from == index[key].offset {
        assert(is_live(index, segment, from, record));
        assert(records =~= seq![record] + rest);
        assert(record_key(records[0]) == key);
    } else {
        lemma_survey_covers(index, segment, bytes, from + taken, key);
        let j = choose|j: int| 0 <= j < rest.len() && record_key(#[trigger] rest[j]) == key;
        if is_live(index, segment, from, record) {
            assert(records =~= seq![record] + rest);
            assert(records[j + 1] == rest[j]);
        } else {
            assert(records == rest);
        }
    }
}

/// Placing the frame of a record that sets a key, and pointing the index at
/// it, keeps the index in agreement with the stored segments, and gives the
/// key its value while every other key keeps its own.
pub proof fn lemma_pointed(m: StoreModel, key: Seq<char>, value: Seq<char>, frame: Seq<u8>)
    requires
        m.wf(),
        m.consistent(),
        m.can_place(frame),
        frame_record(frame) == Some(RecordView::Put(key, value)),
    ensures
        m.pointed(key, frame).wf(),
        m.pointed(key, frame).consistent(),
        m.pointed(key, frame).contents() == m.contents().insert(key, value),
        forall|k: Seq<char>, location: RecordLocation|
            m.holds(k, location) ==> #[trigger] m.pointed(key, frame).holds(k, location),
{
    lemma_placed(m, frame, RecordView::Put(key, value));
    let after = m.pointed(key, frame);
    let placed = m.placed(frame);
    let location = m.place_of(frame);
    assert(after.storage == placed.storage);
    assert(after.reread() == placed.reread());
    assert(after.reread()->0.index =~= after.index);
    assert(placed.storage.contains_key(location.segment)) by {
        assert(placed.segments[placed.segments.len() - 1] == location.segment);
    }
    assert(after.holds(key, location));
    assert forall|k: Seq<char>| #[trigger] after.index.contains_key(k) implies after.holds(
        k,
        after.index[k],
    ) by {
        if k != key {
            assert(m.index.contains_key(k));
            assert(m.holds(k, m.index[k]));
            assert(placed.holds(k, m.index[k]));
        }
    }
    assert(after.contents() =~= m.contents().insert(key, value)) by {
        assert forall|k: Seq<char>| after.contents().contains_key(k) implies after.contents()[k]
            == m.contents().insert(key, value)[k] by {
            if k != key {
                assert(m.index.contains_key(k));
                assert(m.holds(k, m.index[k]));
                assert(placed.holds(k, m.index[k]));
            }
        }
    }
    assert forall|k: Seq<char>, l: RecordLocation| m.holds(k, l) implies #[trigger] after.holds(
        k,
        l,
    ) by {
        assert(placed.holds(k, l));
    }
}

/// Setting a key keeps the index in agreement with the stored segments, and
/// gives the key its value while every other key keeps its own.
pub proof fn lemma_after_set(m: StoreModel, key: Seq<char>, value: Seq<char>, frame: Seq<u8>)
    requires
        m.wf(),
        m.consistent(),
        m.can_place(frame),
        frame_record(frame) == Some(RecordView::Put(key, value)),
    ensures
        m.after_set(key, frame).wf(),
        m.after_set(key, frame).consistent(),
        m.after_set(key, frame).contents() == m.contents().insert(key, value),
{
    lemma_pointed(m, key, value, frame);
    let pointed = m.pointed(key, frame);
    let after = m.after_set(key, frame);
    assert(after.reread() == pointed.reread());
    assert forall|k: Seq<char>| #[trigger] after.index.contains_key(k) implies after.holds(
        k,
        after.index[k],
    ) by {
        assert(pointed.index.contains_key(k));
        assert(pointed.holds(k, pointed.index[k]));
    }
    assert(after.contents() =~= pointed.contents());
}

/// Removing a key keeps the index in agreement with the stored segments,
/// and takes the key away while every other key keeps its value.
pub proof fn lemma_after_remove(m: StoreModel, key: Seq<char>, frame: Seq<u8>)
    requires
        m.wf(),
        m.consistent(),
        m.can_place(frame),
        frame_record(frame) == Some(RecordView::Delete(key)),
    ensures
        m.after_remove(key, frame).wf(),
        m.after_remove(key, frame).consistent(),
        m.after_remove(key, frame).contents() == m.contents().remove(key),
{
    lemma_placed(m, frame, RecordView::Delete(key));
    let after = m.after_remove(key, frame);
    let placed = m.placed(frame);
    assert(after.storage == placed.storage);
    assert(after.reread() == placed.reread());
    assert(after.reread()->0.index =~= after.index);
    assert forall|k: Seq<char>| #[trigger] after.index.contains_key(k) implies after.holds(
        k,
        after.index[k],
    ) by {
        assert(m.index.contains_key(k));
        assert(m.holds(k, m.index[k]));
        assert(placed.holds(k, m.index[k]));
    }
    assert(after.contents() =~= m.contents().remove(key)) by {
        assert forall|k: Seq<char>| after.contents().contains_key(k) implies after.contents()[k]
            == m.contents().remove(key)[k] by {
            assert(m.index.contains_key(k));
            assert(m.holds(k, m.index[k]));
            assert(placed.holds(k, m.index[k]));
        }
    }
}

/// What getting `key` comes to in state `m`: nothing where the index has no
/// entry for the key, and otherwise what reading the bytes stored at its
/// place yields; the outer `None` is a failure to read them.
pub open spec fn lookup(m: StoreModel, key: Seq<char>) -> Option<Option<Seq<char>>> {
    match m.index.get(key) {
        None => Some(None),
        Some(location) => value_read(m.stored(location)),
    }
}

/// The failure with which writing `record` fails in state `m`: it is a
/// `SerializationError`, and comes where the record has no frame, its
/// strings being too long, or the frame cannot be placed.
pub open spec fn write_fails_with(m: StoreModel, record: RecordView, error: KvStoreError) -> bool {
    &&& error is SerializationError
    &&& match record_frame(record) {
        Some(frame) => !m.can_place(frame),
        None => !record_fits(record),
    }
}

/// What reading the frame of a located record yields: the value of a record
/// that sets one, nothing for a deletion, and a failure where the bytes
/// start with no frame of a record.
pub open spec fn value_read(bytes: Seq<u8>) -> Option<Option<Seq<char>>> {
    match frame_at(bytes, 0) {
        Some((document, _)) => match document_record(document) {
            Some(RecordView::Put(_, value)) => Some(Some(value)),
            Some(RecordView::Delete(_)) => Some(None),
            None => None,
        },
        None => None,
    }
}

} // verus!
