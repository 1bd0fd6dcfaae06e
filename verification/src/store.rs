//! The storage engine: an index from keys to the places of their latest
//! records, kept over a list of append-only segments.
//!
//! The engine holds no file. Each operation changes the index and hands back
//! the [`StorageAction`]s that bring the stored segments up to date; what an
//! operation needs to know of the stored bytes is handed to it. The engine
//! keeps, as ghost state, the contents that the segments have once its
//! actions are carried out in order.

use vstd::prelude::*;
use vstd::hash_map::StringHashMap;
use crate::codec::{
    decode_record, encode_record, frame_record, record_fits, record_frame, Reading, Record,
    RecordView,
};
use crate::errors::KvStoreError;
use crate::model::{
    actions_view, apply_actions, compaction_fails_with, faithful, holds_in, is_live,
    lemma_after_remove, lemma_after_set, lemma_compact_actions, lemma_compacted, lemma_moved,
    lemma_place_actions, lookup, obsolete_bytes, record_key, step, survey, survey_after, value_read,
    write_fails_with, ActionView, Operation, RecordLocation, StorageAction, StoreModel, Survey,
    COMPACT_AFTER_BYTE_SIZE, MAX_FILE_SIZE,
};
use crate::recovery::{
    candidate_images, clean_len, entries_hold, highest, image_ids, image_storage, lemma_clean_len,
    lemma_entries_hold_insert, lemma_highest, lemma_ordered_ids, lemma_replayed_prefix,
    nothing_rebuilt, open_fails_with, opened, order_segments, ordered, replay_segment, replayed, select_segments,
    selected, Rebuilt, SegmentFile,
};
use crate::replay::{
    lemma_holds_truncate, lemma_reachable_truncate, lemma_replayed_images,
    lemma_replayed_push_empty, lemma_truncated_reread,
};

verus! {

/// A live record that is to be moved: its key, and its frame written anew.
pub struct Survivor {
    pub key: String,
    pub frame: Vec<u8>,
}

/// The survivors are the records, each with its key and its frame.
pub open spec fn survivors_of(survivors: Seq<Survivor>, records: Seq<RecordView>) -> bool {
    &&& survivors.len() == records.len()
    &&& forall|i: int|
        0 <= i < records.len() ==> {
            &&& (#[trigger] records[i]) is Put
            &&& survivors[i].key@ == record_key(records[i])
            &&& record_frame(records[i]) == Some(survivors[i].frame@)
            &&& frame_record(survivors[i].frame@) == Some(records[i])
        }
}

/// The state of the engine. See [`StoreModel`] for what it holds.
pub struct SharedKvStore {
    log_index: StringHashMap<RecordLocation>,
    log_file_paths: Vec<u64>,
    active_len: u64,
    log_file_counter: u64,
    bytes_for_compaction: u64,
    storage: Ghost<Map<u64, Seq<u8>>>,
}

impl View for SharedKvStore {
    type V = StoreModel;

    closed spec fn view(&self) -> StoreModel {
        StoreModel {
            index: self.log_index@,
            segments: self.log_file_paths@,
            active_len: self.active_len,
            counter: self.log_file_counter,
            meter: self.bytes_for_compaction,
            storage: self.storage@,
        }
    }
}

impl SharedKvStore {
    /// The state is well formed.
    pub open spec fn wf(&self) -> bool {
        self@.wf()
    }

    /// Opens a store over the files of a data directory: picks the
    /// segments, reads them in the order of their modification times, and
    /// rebuilds the index. Returns the store with the actions that prepare
    /// the stored segments for it.
    ///
    /// Fails with `DecoderError` where a segment holds a document that
    /// stands for no record, and with `SerializationError` where the
    /// segments can be read and one of them has the highest number that
    /// there is, so that no counter lies above it.
    pub fn open(files: &Vec<SegmentFile>) -> (r: Result<
        (SharedKvStore, Vec<StorageAction>),
        KvStoreError,
    >)
        ensures
            match r {
                Ok((store, actions)) => {
                    &&& store.wf()
                    &&& store@.consistent()
                    &&& opened(files@) == Some((store@, actions_view(actions@)))
                    &&& apply_actions(
                        image_storage(ordered(selected(files@))),
                        actions_view(actions@),
                    ) == store@.storage
                },
                Err(error) => {
                    &&& opened(files@) is None
                    &&& open_fails_with(files@, error)
                },
            },
    {
        let candidates = order_segments(select_segments(files), Ghost(files@));
        let ghost images = ordered(selected(files@));
        proof {
            lemma_ordered_ids(selected(files@));
        }
        let mut index: StringHashMap<RecordLocation> = StringHashMap::new();
        let mut meter: u64 = 0;
        let mut paths: Vec<u64> = Vec::new();
        let mut top: u64 = 0;
        let mut end: usize = 0;
        let mut length: usize = 0;
        let ghost mut storage: Map<u64, Seq<u8>> = Map::empty();
        let mut i: usize = 0;
        proof {
            assert(images.take(0) =~= Seq::empty());
            assert(paths@ =~= image_ids(images.take(0)));
        }
        while i < candidates.len()
            invariant
                i <= candidates@.len(),
                candidate_images(files@, candidates@) == images,
                images == ordered(selected(files@)),
                forall|j: int|
                    0 <= j < candidates@.len() ==> (#[trigger] candidates@[j]).position
                        < files@.len(),
                image_ids(images).no_duplicates(),
                paths@ == image_ids(images.take(i as int)),
                storage == image_storage(images.take(i as int)),
                forall|id: u64| storage.contains_key(id) <==> paths@.contains(id),
                replayed(images.take(i as int)) == Some(Rebuilt { index: index@, meter }),
                entries_hold(storage, index@),
                top == highest(paths@),
                i > 0 ==> end == clean_len(images[i - 1].bytes, 0) && length == images[i
                    - 1].bytes.len() && storage[images[i - 1].id] == images[i - 1].bytes,
            decreases candidates@.len() - i,
        {
            let candidate = candidates[i];
            assert(candidates@.contains(candidate));
            let bytes = files[candidate.position].contents.as_slice();
            let ghost image = images[i as int];
            let ghost before = paths@;
            proof {
                assert(image == crate::recovery::candidate_image(files@, candidate));
                assert(images.take(i + 1).drop_last() =~= images.take(i as int));
                assert(images.take(i + 1).last() == image);
                assert(!before.contains(candidate.id)) by {
                    if before.contains(candidate.id) {
                        let j = choose|j: int| 0 <= j < before.len() && before[j] == candidate.id;
                        assert(image_ids(images)[j] == image_ids(images)[i as int]);
                    }
                }
                lemma_entries_hold_insert(storage, index@, candidate.id, bytes@);
                storage = storage.insert(candidate.id, bytes@);
            }
            paths.push(candidate.id);
            if candidate.id > top {
                top = candidate.id;
            }
            proof {
                assert(paths@ =~= image_ids(images.take(i + 1)));
                assert(paths@.drop_last() =~= before);
                assert forall|id: u64| storage.contains_key(id) <==> paths@.contains(id) by {
                    if id == candidate.id {
                        assert(paths@[paths@.len() - 1] == id);
                    } else if before.contains(id) {
                        let j = choose|j: int| 0 <= j < before.len() && before[j] == id;
                        assert(paths@[j] == id);
                    }
                }
            }
            match replay_segment(&mut index, &mut meter, candidate.id, bytes, Ghost(storage)) {
                Ok(stop) => {
                    end = stop;
                    length = bytes.len();
                },
                Err(error) => {
                    proof {
                        lemma_replayed_prefix(images, i + 1);
                    }
                    return Err(error);
                },
            }
            i += 1;
        }
        let ghost found = paths@;
        let ghost known = storage;
        proof {
            assert(images.take(i as int) =~= images);
            lemma_highest(paths@);
            lemma_replayed_images(images);
        }
        if candidates.len() > 0 && top == u64::MAX {
            return Err(KvStoreError::SerializationError("Segment numbers are used up".to_owned()));
        }
        let counter: u64 = if candidates.len() == 0 {
            1
        } else {
            top + 1
        };
        let mut actions: Vec<StorageAction> = Vec::new();
        let mut active_len: u64 = 0;
        if candidates.len() == 0 {
            paths.push(0);
            actions.push(StorageAction::CreateSegment(0));
            proof {
                lemma_replayed_push_empty(nothing_rebuilt(), known, found, 0);
                storage = storage.insert(0u64, Seq::empty());
                assert(paths@ =~= seq![0u64]);
                assert(paths@ =~= found.push(0u64));
                assert(actions_view(actions@) =~= seq![ActionView::CreateSegment(0)]);
                assert(storage =~= Map::<u64, Seq<u8>>::empty().insert(0u64, Seq::empty()));
            }
        } else {
            let last = paths[paths.len() - 1];
            active_len = end as u64;
            if end != length {
                actions.push(StorageAction::Truncate(last, end as u64));
            }
            proof {
                let bytes = images.last().bytes;
                assert(last == images[images.len() - 1].id);
                assert(known[last] == bytes);
                lemma_clean_len(bytes, 0);
                lemma_reachable_truncate(bytes, 0, end as int, end as int);
                storage = known.insert(last, bytes.take(end as int));
                assert forall|key: Seq<char>| #[trigger] index@.contains_key(key) implies holds_in(
                    storage,
                    key,
                    index@[key],
                ) by {
                    lemma_holds_truncate(known, key, index@[key], last);
                }
                lemma_truncated_reread(known, found);
                assert(actions_view(actions@) =~= if end == length {
                    Seq::<ActionView>::empty()
                } else {
                    seq![ActionView::Truncate(last, end as u64)]
                });
                assert forall|id: u64| storage.contains_key(id) <==> paths@.contains(id) by {
                    if id == last {
                        assert(paths@[paths@.len() - 1] == id);
                    }
                }
                if end == length {
                    assert(bytes.take(end as int) =~= bytes);
                    assert(storage =~= known);
                }
            }
        }
        let store = SharedKvStore {
            log_index: index,
            log_file_paths: paths,
            active_len,
            log_file_counter: counter,
            bytes_for_compaction: meter,
            storage: Ghost(storage),
        };
        proof {
            assert(store@.wf());
            assert(store@.reread() == Some(Rebuilt { index: index@, meter }));
            assert(store@.consistent());
            reveal_with_fuel(apply_actions, 2);
            if actions_view(actions@).len() == 1 {
                assert(actions_view(actions@).drop_last() =~= Seq::<ActionView>::empty());
            }
            let (model, steps) = opened(files@)->0;
            assert(steps == actions_view(actions@));
            assert(model.storage == store@.storage);
            assert(model == store@);
            assert(apply_actions(known, steps) =~= store@.storage);
        }
        Ok((store, actions))
    }

    /// Opens a new segment and makes it the active one.
    pub fn open_new_log_file(&mut self, actions: &mut Vec<StorageAction>)
        requires
            old(self).wf(),
            old(self)@.counter < u64::MAX,
        ensures
            final(self).wf(),
            final(self)@ == old(self)@.rotated(),
            actions_view(final(actions)@) == actions_view(old(actions)@).push(
                ActionView::CreateSegment(final(self)@.active()),
            ),
    {
        let id = self.log_file_counter;
        self.log_file_counter = self.log_file_counter + 1;
        self.log_file_paths.push(id);
        self.active_len = 0;
        self.storage = Ghost(self.storage@.insert(id, Seq::empty()));
        actions.push(StorageAction::CreateSegment(id));
        proof {
            assert(actions_view(actions@) =~= actions_view(old(actions)@).push(
                ActionView::CreateSegment(id),
            ));
            let before = old(self)@;
            let after = self@;
            assert(after.segments =~= before.segments.push(id));
            assert(!before.segments.contains(id));
            assert forall|k: u64| after.storage.contains_key(k) <==> after.segments.contains(
                k,
            ) by {
                if k == id {
                    assert(after.segments[after.segments.len() - 1] == id);
                } else {
                    if before.segments.contains(k) {
                        let i = choose|i: int|
                            0 <= i < before.segments.len() && before.segments[i] == k;
                        assert(after.segments[i] == k);
                    }
                }
            }
        }
    }

    /// Makes sure that the active segment can take a record: opens a new
    /// segment where the active one is longer than [`MAX_FILE_SIZE`].
    ///
    /// Fails, and changes nothing, where a new segment is due and the
    /// segment numbers are used up.
    pub fn setup_active_log_file(&mut self, actions: &mut Vec<StorageAction>) -> (r: Result<
        (),
        KvStoreError,
    >)
        requires
            old(self).wf(),
        ensures
            final(self).wf(),
            match r {
                Ok(_) => {
                    &&& old(self)@.rotation_due() ==> old(self)@.counter < u64::MAX
                    &&& final(self)@ == old(self)@.prepared()
                    &&& actions_view(final(actions)@) == if old(self)@.rotation_due() {
                        actions_view(old(actions)@).push(
                            ActionView::CreateSegment(final(self)@.active()),
                        )
                    } else {
                        actions_view(old(actions)@)
                    }
                },
                Err(KvStoreError::SerializationError(_)) => {
                    &&& old(self)@.rotation_due()
                    &&& old(self)@.counter == u64::MAX
                    &&& final(self)@ == old(self)@
                    &&& final(actions)@ == old(actions)@
                },
                Err(_) => false,
            },
    {
        if self.active_len > MAX_FILE_SIZE {
            if self.log_file_counter == u64::MAX {
                return Err(
                    KvStoreError::SerializationError("Segment numbers are used up".to_owned()),
                );
            }
            self.open_new_log_file(actions);
        }
        Ok(())
    }

    /// Places a frame at the end of the log: in the active segment, or in a
    /// new one where the active segment is full. Returns where the frame
    /// stands.
    ///
    /// Fails with `SerializationError`, and changes nothing, where the frame
    /// cannot be placed.
    pub fn append_frame(&mut self, frame: Vec<u8>, actions: &mut Vec<StorageAction>) -> (r:
        Result<RecordLocation, KvStoreError>)
        requires
            old(self).wf(),
        ensures
            final(self).wf(),
            match r {
                Ok(location) => {
                    &&& old(self)@.can_place(frame@)
                    &&& location == old(self)@.place_of(frame@)
                    &&& final(self)@ == old(self)@.placed(frame@)
                    &&& actions_view(final(actions)@) == actions_view(old(actions)@)
                        + old(self)@.place_actions(frame@)
                },
                Err(KvStoreError::SerializationError(_)) => {
                    &&& !old(self)@.can_place(frame@)
                    &&& final(self)@ == old(self)@
                    &&& final(actions)@ == old(actions)@
                },
                Err(_) => false,
            },
    {
        let size = frame.len() as u64;
        let start = if self.active_len > MAX_FILE_SIZE {
            0
        } else {
            self.active_len
        };
        if size > u64::MAX - start {
            return Err(KvStoreError::SerializationError("Segment too long".to_owned()));
        }
        match self.setup_active_log_file(actions) {
            Ok(_) => {},
            Err(error) => {
                return Err(error);
            },
        }
        let segment = self.log_file_paths[self.log_file_paths.len() - 1];
        let location = RecordLocation { segment, offset: self.active_len, size };
        let ghost middle = actions_view(actions@);
        let ghost prepared = self@;
        self.active_len = self.active_len + size;
        self.storage = Ghost(self.storage@.insert(segment, self.storage@[segment] + frame@));
        actions.push(StorageAction::Append(segment, frame));
        proof {
            assert(actions_view(actions@) =~= middle.push(ActionView::Append(segment, frame@)));
            assert(actions_view(actions@) =~= actions_view(old(actions)@)
                + old(self)@.place_actions(frame@));
            assert(self@ == old(self)@.placed(frame@));
            assert(prepared.segments.contains(segment)) by {
                assert(prepared.segments[prepared.segments.len() - 1] == segment);
            }
        }
        Ok(location)
    }

    /// Encodes a record and places its frame at the end of the log. Returns
    /// where the frame stands.
    ///
    /// Succeeds exactly where the strings of the record are short enough
    /// for a document and the frame can be placed. Fails with
    /// `SerializationError`, and changes nothing, otherwise.
    pub fn serialize_and_write(&mut self, record: &Record, actions: &mut Vec<StorageAction>) -> (r:
        Result<RecordLocation, KvStoreError>)
        requires
            old(self).wf(),
        ensures
            final(self).wf(),
            record_frame(record@) is Some <==> record_fits(record@),
            r is Ok <==> record_fits(record@) && old(self)@.can_place(record_frame(record@)->0),
            match r {
                Ok(location) => {
                    &&& record_frame(record@) matches Some(frame)
                    &&& frame_record(frame) == Some(record@)
                    &&& old(self)@.can_place(frame)
                    &&& location == old(self)@.place_of(frame)
                    &&& final(self)@ == old(self)@.placed(frame)
                    &&& actions_view(final(actions)@) == actions_view(old(actions)@)
                        + old(self)@.place_actions(frame)
                },
                Err(error) => {
                    &&& final(self)@ == old(self)@
                    &&& final(actions)@ == old(actions)@
                    &&& write_fails_with(old(self)@, record@, error)
                },
            },
    {
        let frame = match encode_record(record) {
            Ok(frame) => frame,
            Err(error) => {
                return Err(error);
            },
        };
        self.append_frame(frame, actions)
    }

    /// The numbers of the segments, oldest first; the last is the active one.
    pub fn segments(&self) -> (r: Vec<u64>)
        ensures
            r@ == self@.segments,
    {
        self.log_file_paths.clone()
    }

    /// The number of the segment that records are appended to.
    pub fn active_segment(&self) -> (r: u64)
        requires
            self.wf(),
        ensures
            r == self@.active(),
    {
        self.log_file_paths[self.log_file_paths.len() - 1]
    }

    /// The length of the active segment in bytes.
    pub fn active_len(&self) -> (r: u64)
        ensures
            r == self@.active_len,
    {
        self.active_len
    }

    /// The number that the next segment receives; it lies above the number
    /// of every segment.
    pub fn log_file_counter(&self) -> (r: u64)
        ensures
            r == self@.counter,
    {
        self.log_file_counter
    }

    /// The bytes known to be wasted since the last compaction.
    pub fn bytes_for_compaction(&self) -> (r: u64)
        ensures
            r == self@.meter,
    {
        self.bytes_for_compaction
    }

    /// Whether `key` has a value.
    pub fn contains_key(&self, key: &str) -> (r: bool)
        ensures
            r == self@.index.contains_key(key@),
    {
        self.log_index.contains_key(key)
    }

    /// Gets the value of `key`: looks the key up in the index, has `read`
    /// fetch the bytes stored at the place found, and reads the value out of
    /// them. Nothing is fetched where the key has no value.
    ///
    /// A failure of `read` is passed on; bytes that start with no frame of a
    /// record fail with `DecoderError`. Where `read` hands out what is
    /// stored at the place, the result is what [`lookup`] says; where the
    /// index agrees with the stored segments besides, it is what the store
    /// holds for the key.
    pub fn get<F>(&self, key: &str, read: F) -> (r: Result<Option<String>, KvStoreError>) where
        F: FnOnce(RecordLocation) -> Result<Vec<u8>, KvStoreError>,

        requires
            self@.index.contains_key(key@) ==> read.requires((self@.index[key@],)),
        ensures
            match self@.index.get(key@) {
                None => r matches Ok(None),
                Some(location) => exists|fetched: Result<Vec<u8>, KvStoreError>|
                    #![trigger got(fetched, r)]
                    read.ensures((location,), fetched) && got(fetched, r),
            },
            reads_stored(self@, key@, read) ==> match r {
                Ok(found) => lookup(self@, key@) == Some(text_of(found)),
                Err(error) => error is DecoderError && lookup(self@, key@) is None,
            },
            self.wf() && self@.consistent() && reads_stored(self@, key@, read) ==> r is Ok
                && text_of(r->Ok_0) == self@.contents().get(key@),
    {
        match self.log_index.get(key) {
            None => Ok(None),
            Some(location) => {
                let place = *location;
                let fetched = read(place);
                let ghost handed = fetched;
                let outcome = match fetched {
                    Ok(bytes) => read_value(bytes.as_slice()),
                    Err(error) => Err(error),
                };
                proof {
                    assert(got(handed, outcome));
                    if self.wf() && self@.consistent() {
                        crate::laws::law_get_observes_contents(self@, key@);
                    }
                }
                outcome
            },
        }
    }

    /// The place of the latest record of `key`, or `None` where the key has
    /// no value.
    pub fn locate(&self, key: &str) -> (r: Option<RecordLocation>)
        ensures
            r == self@.index.get(key@),
    {
        match self.log_index.get(key) {
            Some(location) => Some(*location),
            None => None,
        }
    }

    /// Sets `key` to `value`: writes the record, points the index at it, and
    /// counts the record that it supersedes, if there is one, as wasted.
    /// Returns the actions that store the record.
    ///
    /// Succeeds exactly where the key and the value are short enough for a
    /// document and the frame can be placed. Fails with
    /// `SerializationError`, and changes nothing, otherwise.
    pub fn set(&mut self, key: String, value: String) -> (r: Result<
        Vec<StorageAction>,
        KvStoreError,
    >)
        requires
            old(self).wf(),
        ensures
            final(self).wf(),
            record_frame(RecordView::Put(key@, value@)) is Some <==> record_fits(
                RecordView::Put(key@, value@),
            ),
            r is Ok <==> record_fits(RecordView::Put(key@, value@)) && old(self)@.can_place(
                record_frame(RecordView::Put(key@, value@))->0,
            ),
            match r {
                Ok(actions) => {
                    &&& record_frame(RecordView::Put(key@, value@)) matches Some(frame)
                    &&& old(self)@.can_place(frame)
                    &&& final(self)@ == old(self)@.after_set(key@, frame)
                    &&& step(old(self)@, final(self)@, Operation::Put(key@, value@))
                    &&& actions_view(actions@) == old(self)@.place_actions(frame)
                    &&& apply_actions(old(self)@.storage, actions_view(actions@)) == final(self)@.storage
                    &&& old(self)@.consistent() ==> final(self)@.consistent()
                        && final(self)@.contents() == old(self)@.contents().insert(key@, value@)
                },
                Err(error) => {
                    &&& final(self)@ == old(self)@
                    &&& write_fails_with(old(self)@, RecordView::Put(key@, value@), error)
                },
            },
    {
        let mut actions: Vec<StorageAction> = Vec::new();
        let record = Record::Put(key, value);
        let location = match self.serialize_and_write(&record, &mut actions) {
            Ok(location) => location,
            Err(error) => {
                return Err(error);
            },
        };
        let key = match record {
            Record::Put(key, _) => key,
            Record::Delete(key) => key,
        };
        match self.log_index.get(key.as_str()) {
            Some(previous) => {
                self.bytes_for_compaction = self.bytes_for_compaction.saturating_add(
                    previous.size,
                );
            },
            None => {},
        }
        self.log_index.insert(key, location);
        proof {
            let before = old(self)@;
            let frame = record_frame(record@)->0;
            assert(actions_view(actions@) =~= before.place_actions(frame));
            assert(self@ == before.after_set(key@, frame));
            assert(frame_record(frame) == Some(RecordView::Put(key@, value@)));
            assert(step(before, self@, Operation::Put(key@, value@)));
            lemma_place_actions(before, frame);
            if before.consistent() {
                lemma_after_set(before, key@, value@, frame);
            }
        }
        Ok(actions)
    }

    /// Removes `key`: forgets its entry, writes a record of the deletion,
    /// and counts the record that held the value as wasted. Returns the
    /// actions that store the deletion.
    ///
    /// Fails with `NonExistentKey`, carrying the key, where the key has no
    /// value, and with `SerializationError` where the key is too long for a
    /// document or the frame cannot be placed; a failure
    /// changes nothing.
    pub fn remove(&mut self, key: String) -> (r: Result<Vec<StorageAction>, KvStoreError>)
        requires
            old(self).wf(),
        ensures
            final(self).wf(),
            old(self)@.index.contains_key(key@) ==> (record_frame(RecordView::Delete(key@))
                is Some <==> record_fits(RecordView::Delete(key@))),
            r is Ok <==> old(self)@.index.contains_key(key@) && record_fits(
                RecordView::Delete(key@),
            ) && old(self)@.can_place(record_frame(RecordView::Delete(key@))->0),
            match r {
                Ok(actions) => {
                    &&& old(self)@.index.contains_key(key@)
                    &&& record_frame(RecordView::Delete(key@)) matches Some(frame)
                    &&& old(self)@.can_place(frame)
                    &&& final(self)@ == old(self)@.after_remove(key@, frame)
                    &&& step(old(self)@, final(self)@, Operation::Remove(key@))
                    &&& actions_view(actions@) == old(self)@.place_actions(frame)
                    &&& apply_actions(old(self)@.storage, actions_view(actions@)) == final(self)@.storage
                    &&& old(self)@.consistent() ==> final(self)@.consistent()
                        && final(self)@.contents() == old(self)@.contents().remove(key@)
                },
                Err(KvStoreError::NonExistentKey(missing)) => {
                    &&& !old(self)@.index.contains_key(key@)
                    &&& missing@ == key@
                    &&& final(self)@ == old(self)@
                },
                Err(error) => {
                    &&& old(self)@.index.contains_key(key@)
                    &&& final(self)@ == old(self)@
                    &&& write_fails_with(old(self)@, RecordView::Delete(key@), error)
                },
            },
    {
        let size = match self.log_index.get(key.as_str()) {
            Some(previous) => previous.size,
            None => {
                return Err(KvStoreError::NonExistentKey(key));
            },
        };
        let mut actions: Vec<StorageAction> = Vec::new();
        let record = Record::Delete(key);
        match self.serialize_and_write(&record, &mut actions) {
            Ok(_) => {},
            Err(error) => {
                return Err(error);
            },
        }
        let key = match record {
            Record::Put(key, _) => key,
            Record::Delete(key) => key,
        };
        self.log_index.remove(key.as_str());
        self.bytes_for_compaction = self.bytes_for_compaction.saturating_add(size);
        proof {
            let before = old(self)@;
            let frame = record_frame(record@)->0;
            assert(actions_view(actions@) =~= before.place_actions(frame));
            assert(self@ == before.after_remove(key@, frame));
            assert(frame_record(frame) == Some(RecordView::Delete(key@)));
            assert(step(before, self@, Operation::Remove(key@)));
            lemma_place_actions(before, frame);
            if before.consistent() {
                lemma_after_remove(before, key@, frame);
            }
        }
        Ok(actions)
    }

    /// The segment that compaction would read now, or `None` where
    /// compaction has nothing to do.
    pub fn compaction_target(&self) -> (r: Option<u64>)
        requires
            self.wf(),
        ensures
            r == if self@.compaction_due() {
                Some(self@.oldest())
            } else {
                None
            },
    {
        if self.bytes_for_compaction > COMPACT_AFTER_BYTE_SIZE && self.log_file_paths.len() > 1 {
            Some(self.log_file_paths[0])
        } else {
            None
        }
    }

    /// Reads the oldest segment, whose contents are `oldest`, and picks the
    /// records that must be kept, each written anew. Returns them with the
    /// number of bytes of the other records.
    pub fn survey_oldest(&self, oldest: &[u8]) -> (r: Result<(Vec<Survivor>, u64), KvStoreError>)
        requires
            self.wf(),
        ensures
            match r {
                Ok((survivors, obsolete)) => {
                    &&& survey(self@.index, self@.oldest(), oldest@, 0) matches Survey::Live(
                        records,
                    )
                    &&& survivors_of(survivors@, records)
                    &&& obsolete == obsolete_bytes(self@.index, self@.oldest(), oldest@, 0)
                },
                Err(error) => match survey(self@.index, self@.oldest(), oldest@, 0) {
                    Survey::Foreign => error is DecoderError,
                    Survey::Unwritable(record) => error is SerializationError && !record_fits(
                        record,
                    ),
                    Survey::Live(_) => false,
                },
            },
    {
        let segment = self.log_file_paths[0];
        let mut survivors: Vec<Survivor> = Vec::new();
        let mut obsolete: u64 = 0;
        let mut offset: usize = 0;
        let length = oldest.len();
        let ghost mut records: Seq<RecordView> = Seq::empty();
        loop
            invariant
                self.wf(),
                segment == self@.oldest(),
                length == oldest@.len(),
                offset <= oldest@.len(),
                obsolete <= offset,
                survivors_of(survivors@, records),
                survey(self@.index, segment, oldest@, 0) == survey_after(
                    records,
                    survey(self@.index, segment, oldest@, offset as int),
                ),
                obsolete_bytes(self@.index, segment, oldest@, 0) == obsolete + obsolete_bytes(
                    self@.index,
                    segment,
                    oldest@,
                    offset as int,
                ),
            decreases oldest@.len() - offset,
        {
            let (record, size) = match decode_record(oldest, offset) {
                Reading::Entry(record, size) => (record, size),
                Reading::Foreign => {
                    return Err(
                        KvStoreError::DecoderError("Stored bytes hold no record".to_owned()),
                    );
                },
                Reading::Unreadable(_) => {
                    proof {
                        assert(records + Seq::<RecordView>::empty() =~= records);
                    }
                    return Ok((survivors, obsolete));
                },
            };
            assert(0 < size <= oldest@.len() - offset);
            let live = match &record {
                Record::Put(key, _) => match self.log_index.get(key.as_str()) {
                    Some(location) => location.segment == segment && location.offset
                        == offset as u64,
                    None => false,
                },
                Record::Delete(_) => false,
            };
            assert(live == is_live(self@.index, segment, offset as int, record@));
            if live {
                let frame = match encode_record(&record) {
                    Ok(frame) => frame,
                    Err(error) => {
                        return Err(error);
                    },
                };
                let key = match record {
                    Record::Put(key, _) => key,
                    Record::Delete(key) => key,
                };
                let ghost rest = survey(self@.index, segment, oldest@, offset + size);
                proof {
                    let next = records.push(record@);
                    assert(survey_after(records, survey_after(seq![record@], rest))
                        == survey_after(next, rest)) by {
                        if rest is Live {
                            assert(records + (seq![record@] + rest->Live_0) =~= next
                                + rest->Live_0);
                        }
                    }
                    records = next;
                }
                survivors.push(Survivor { key, frame });
            } else {
                obsolete = obsolete + size as u64;
            }
            offset = offset + size;
        }
    }

    /// Whether there is room to move the survivors, as
    /// [`StoreModel::can_move`] says.
    fn has_room(&self, survivors: &Vec<Survivor>, Ghost(records): Ghost<Seq<RecordView>>) -> (r:
        bool)
        requires
            survivors_of(survivors@, records),
        ensures
            r == self@.can_move(records),
    {
        let count = survivors.len();
        if count as u64 > u64::MAX - self.log_file_counter {
            return false;
        }
        let mut checked: usize = 0;
        while checked < count
            invariant
                checked <= count,
                count == survivors@.len(),
                survivors_of(survivors@, records),
                forall|i: int|
                    0 <= i < checked ==> (record_frame(#[trigger] records[i])->0).len() <= u64::MAX
                        - MAX_FILE_SIZE,
            decreases count - checked,
        {
            if survivors[checked].frame.len() as u64 > u64::MAX - MAX_FILE_SIZE {
                assert(record_frame(records[checked as int]) is Some);
                return false;
            }
            checked += 1;
        }
        true
    }

    /// Writes the survivors at the end of the log, one after the other, and
    /// points the index at the new copies.
    fn move_survivors(
        &mut self,
        survivors: &Vec<Survivor>,
        actions: &mut Vec<StorageAction>,
        Ghost(records): Ghost<Seq<RecordView>>,
    )
        requires
            old(self).wf(),
            old(self)@.segments.len() > 1,
            old(self)@.can_move(records),
            survivors_of(survivors@, records),
            old(actions)@.len() == 0,
        ensures
            final(self).wf(),
            final(self)@ == old(self)@.moved(records),
            actions_view(final(actions)@) == old(self)@.move_actions(records),
    {
        let ghost before = self@;
        let count = survivors.len();
        let mut i: usize = 0;
        proof {
            assert(records.take(0) =~= Seq::<RecordView>::empty());
            assert(actions_view(actions@) =~= Seq::<ActionView>::empty());
        }
        while i < count
            invariant
                i <= count,
                count == survivors@.len(),
                count == records.len(),
                survivors_of(survivors@, records),
                before.wf(),
                before.can_move(records),
                before.segments.len() > 1,
                self.wf(),
                self@ == before.moved(records.take(i as int)),
                actions_view(actions@) == before.move_actions(records.take(i as int)),
            decreases count - i,
        {
            let frame = vstd::slice::slice_to_vec(survivors[i].frame.as_slice());
            let key = survivors[i].key.clone();
            let ghost record = records[i as int];
            let ghost current = self@;
            proof {
                assert(records.take(i + 1).drop_last() =~= records.take(i as int));
                assert(records.take(i + 1).last() == record);
                assert(record_frame(record) == Some(frame@));
                assert(faithful(records));
                lemma_moved(before, records, i as int);
            }
            match self.append_frame(frame, actions) {
                Ok(location) => {
                    self.log_index.insert(key, location);
                },
                Err(_) => {
                    vstd::pervasive::unreached::<()>();
                },
            }
            i += 1;
            assert(self@ == current.after_move(record));
        }
        assert(records.take(count as int) =~= records);
    }

    /// Compacts the oldest segment, whose contents are `oldest`: writes its
    /// live records again at the end of the log, points the index at the
    /// new copies, drops the segment, and lowers the meter by the bytes of
    /// its other records. Does nothing unless compaction is due. Returns
    /// the actions that bring the stored segments up to date.
    ///
    /// Fails, and changes nothing, where a document of the segment stands
    /// for no record, a live record is too long for a document, or there is
    /// no room to move the live records.
    pub fn compact(&mut self, oldest: &[u8]) -> (r: Result<Vec<StorageAction>, KvStoreError>)
        requires
            old(self).wf(),
        ensures
            final(self).wf(),
            !old(self)@.compaction_due() ==> r is Ok && r->Ok_0@.len() == 0 && final(self)@
                == old(self)@,
            old(self)@.compaction_due() ==> match r {
                Ok(actions) => {
                    &&& survey(old(self)@.index, old(self)@.oldest(), oldest@, 0) matches Survey::Live(
                        records,
                    )
                    &&& old(self)@.can_move(records)
                    &&& faithful(records)
                    &&& final(self)@ == old(self)@.compacted(oldest@)
                    &&& actions_view(actions@) == old(self)@.move_actions(records).push(
                        ActionView::RemoveSegment(old(self)@.oldest()),
                    )
                    &&& apply_actions(old(self)@.storage, actions_view(actions@)) == final(self)@.storage
                    &&& oldest@ == old(self)@.storage[old(self)@.oldest()] ==> step(
                        old(self)@,
                        final(self)@,
                        Operation::Compact,
                    )
                    &&& old(self)@.consistent() && oldest@ == old(self)@.storage[old(self)@.oldest()]
                        ==> final(self)@.consistent() && final(self)@.contents() == old(self)@.contents()
                },
                Err(error) => {
                    &&& final(self)@ == old(self)@
                    &&& compaction_fails_with(old(self)@, oldest@, error)
                },
            },
    {
        let mut actions: Vec<StorageAction> = Vec::new();
        if !(self.bytes_for_compaction > COMPACT_AFTER_BYTE_SIZE && self.log_file_paths.len() > 1) {
            return Ok(actions);
        }
        let segment = self.log_file_paths[0];
        let (survivors, obsolete) = match self.survey_oldest(oldest) {
            Ok(found) => found,
            Err(error) => {
                return Err(error);
            },
        };
        let ghost before = self@;
        let ghost records = survey(before.index, segment, oldest@, 0)->Live_0;
        if !self.has_room(&survivors, Ghost(records)) {
            return Err(KvStoreError::SerializationError("No room to compact".to_owned()));
        }
        self.move_survivors(&survivors, &mut actions, Ghost(records));
        let ghost moved = self@;
        proof {
            assert(faithful(records));
            lemma_moved(before, records, records.len() as int);
            assert(records.take(records.len() as int) =~= records);
        }
        self.log_file_paths.remove(0);
        self.storage = Ghost(self.storage@.remove(segment));
        self.bytes_for_compaction = self.bytes_for_compaction.saturating_sub(obsolete);
        let ghost steps = actions_view(actions@);
        actions.push(StorageAction::RemoveSegment(segment));
        proof {
            assert(self@.segments =~= moved.segments.drop_first());
            assert(self@ == before.compacted(oldest@));
            assert(actions_view(actions@) =~= steps.push(ActionView::RemoveSegment(segment)));
            lemma_compacted(before, oldest@);
            lemma_compact_actions(before, oldest@);
        }
        Ok(actions)
    }
}

/// The text that an optional string holds.
pub open spec fn text_of(found: Option<String>) -> Option<Seq<char>> {
    match found {
        Some(text) => Some(text@),
        None => None,
    }
}

/// Whatever `read` fetches from the place of `key` is the bytes that are
/// stored there.
pub open spec fn reads_stored<F: FnOnce(RecordLocation) -> Result<Vec<u8>, KvStoreError>>(
    m: StoreModel,
    key: Seq<char>,
    read: F,
) -> bool {
    forall|fetched: Result<Vec<u8>, KvStoreError>|
        m.index.contains_key(key) && #[trigger] read.ensures((m.index[key],), fetched)
            ==> hands_out(fetched, m.stored(m.index[key]))
}

/// What was fetched is the bytes `stored`.
pub open spec fn hands_out(fetched: Result<Vec<u8>, KvStoreError>, stored: Seq<u8>) -> bool {
    fetched is Ok && fetched->Ok_0@ == stored
}

/// `outcome` is what getting a key comes to where `fetched` is what was
/// fetched from its place: the value read out of the bytes, or the failure
/// to fetch them.
pub open spec fn got(
    fetched: Result<Vec<u8>, KvStoreError>,
    outcome: Result<Option<String>, KvStoreError>,
) -> bool {
    match fetched {
        Ok(bytes) => match outcome {
            Ok(found) => value_read(bytes@) == Some(text_of(found)),
            Err(error) => error is DecoderError && value_read(bytes@) is None,
        },
        Err(error) => outcome == Err::<Option<String>, KvStoreError>(error),
    }
}

/// Reads the value out of the bytes found at the place of a record.
///
/// Fails with `DecoderError` where the bytes start with no frame of a
/// record.
pub fn read_value(bytes: &[u8]) -> (r: Result<Option<String>, KvStoreError>)
    ensures
        match r {
            Ok(Some(value)) => value_read(bytes@) == Some(Some(value@)),
            Ok(None) => value_read(bytes@) == Some(None::<Seq<char>>),
            Err(KvStoreError::DecoderError(_)) => value_read(bytes@) is None,
            Err(_) => false,
        },
{
    match decode_record(bytes, 0) {
        Reading::Entry(Record::Put(_, value), _) => Ok(Some(value)),
        Reading::Entry(Record::Delete(_), _) => Ok(None),
        Reading::Foreign => Err(KvStoreError::DecoderError("Stored bytes hold no record".to_owned())),
        Reading::Unreadable(text) => Err(KvStoreError::DecoderError(text)),
    }
}

} // verus!

