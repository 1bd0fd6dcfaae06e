//! What holds of the engine across operations, stated over the state that
//! the operations' own contracts speak of.

use vstd::prelude::*;
use crate::codec::{
    byte_len, document_record, frame_at, frame_record, lemma_frame_at_cut, lemma_frame_at_extend,
    record_fits, RecordView, TEXT_LIMIT,
};
use crate::model::{
    lemma_after_remove, lemma_after_set, lemma_compacted, lemma_placed, lookup, meter_sub,
    obsolete_bytes, reachable, step, value_read, Operation, RecordLocation, StoreModel,
    MAX_FILE_SIZE,
};
use crate::recovery::{
    clean_len, highest, image_ids, image_storage, lemma_highest, lemma_highest_member,
    nothing_rebuilt, opened, ordered, replayed_record, replayed_segment, selected, Rebuilt,
    SegmentFile, SegmentImage,
};
use crate::client::{reply_message, reply_outcome, request_line, CommandView};
use crate::replay::{lemma_replayed_agree, lemma_replayed_images};
use crate::server::{reply_text, request_command, ServerResultView};
use crate::wire::{
    decoded_body, encoded_body, fields, lemma_fields_join, lemma_fields_plain,
    lemma_trimmed_line, trimmed_end, white_space,
};

verus! {

/// Getting a key yields what the store holds for it.
pub proof fn law_get_observes_contents(m: StoreModel, key: Seq<char>)
    requires
        m.wf(),
        m.consistent(),
    ensures
        lookup(m, key) == Some(m.contents().get(key)),
{
    if m.index.contains_key(key) {
        let location = m.index[key];
        assert(m.holds(key, location));
        lemma_frame_at_cut(m.storage[location.segment], location.offset as int);
    }
}

/// The state that an operation leaves is well formed, and the index agrees
/// with the stored segments in it as it did before; setting a key gives it
/// its value, removing a key takes it away, compaction changes nothing of
/// what the store holds, and no operation touches another key.
pub proof fn lemma_step(before: StoreModel, after: StoreModel, operation: Operation)
    requires
        before.wf(),
        before.consistent(),
        step(before, after, operation),
    ensures
        after.wf(),
        after.consistent(),
        after.contents() == match operation {
            Operation::Put(key, value) => before.contents().insert(key, value),
            Operation::Remove(key) => before.contents().remove(key),
            Operation::Compact => before.contents(),
        },
{
    match operation {
        Operation::Put(key, value) => {
            let frame = choose|frame: Seq<u8>|
                {
                    &&& #[trigger] frame_record(frame) == Some(RecordView::Put(key, value))
                    &&& before.can_place(frame)
                    &&& after == before.after_set(key, frame)
                };
            lemma_after_set(before, key, value, frame);
        },
        Operation::Remove(key) => {
            let frame = choose|frame: Seq<u8>|
                {
                    &&& #[trigger] frame_record(frame) == Some(RecordView::Delete(key))
                    &&& before.can_place(frame)
                    &&& after == before.after_remove(key, frame)
                };
            lemma_after_remove(before, key, frame);
        },
        Operation::Compact => {
            lemma_compacted(before, before.storage[before.oldest()]);
        },
    }
}

/// After a key is set, getting it yields the value that was set.
pub proof fn law_set_then_get(
    before: StoreModel,
    after: StoreModel,
    key: Seq<char>,
    value: Seq<char>,
)
    requires
        before.wf(),
        before.consistent(),
        step(before, after, Operation::Put(key, value)),
    ensures
        lookup(after, key) == Some(Some(value)),
{
    lemma_step(before, after, Operation::Put(key, value));
    law_get_observes_contents(after, key);
}

/// After a key is set and then removed, getting it yields nothing.
pub proof fn law_set_remove_then_get(
    before: StoreModel,
    between: StoreModel,
    after: StoreModel,
    key: Seq<char>,
    value: Seq<char>,
)
    requires
        before.wf(),
        before.consistent(),
        step(before, between, Operation::Put(key, value)),
        step(between, after, Operation::Remove(key)),
    ensures
        lookup(after, key) == Some(None::<Seq<char>>),
{
    lemma_step(before, between, Operation::Put(key, value));
    lemma_step(between, after, Operation::Remove(key));
    law_get_observes_contents(after, key);
}

/// After a key is set twice, getting it yields the value that was set last.
pub proof fn law_set_set_then_get(
    before: StoreModel,
    between: StoreModel,
    after: StoreModel,
    key: Seq<char>,
    first: Seq<char>,
    second: Seq<char>,
)
    requires
        before.wf(),
        before.consistent(),
        step(before, between, Operation::Put(key, first)),
        step(between, after, Operation::Put(key, second)),
    ensures
        lookup(after, key) == Some(Some(second)),
{
    lemma_step(before, between, Operation::Put(key, first));
    lemma_step(between, after, Operation::Put(key, second));
    law_get_observes_contents(after, key);
}

/// A key that the index does not hold has no value: getting it yields
/// nothing. (Removing it fails with `NonExistentKey`, as the contract of
/// `remove` says.)
pub proof fn law_absent_key(m: StoreModel, key: Seq<char>)
    requires
        !m.index.contains_key(key),
    ensures
        lookup(m, key) == Some(None::<Seq<char>>),
        !m.contents().contains_key(key),
{
}

/// An empty value is a value like any other: a record that sets a key to it
/// fits wherever the key does, and after the key is set to it, getting the
/// key yields the empty value.
pub proof fn law_empty_value(before: StoreModel, after: StoreModel, key: Seq<char>)
    requires
        before.wf(),
        before.consistent(),
        step(before, after, Operation::Put(key, Seq::empty())),
    ensures
        record_fits(RecordView::Put(key, Seq::empty())) == (byte_len(key) < TEXT_LIMIT),
        lookup(after, key) == Some(Some(Seq::<char>::empty())),
{
    law_set_then_get(before, after, key, Seq::empty());
    assert(byte_len(Seq::empty()) == 0) by {
        reveal_with_fuel(vstd::utf8::encode_utf8, 1);
    }
}

/// A frame is placed whole however long it is: whether a new segment is
/// opened depends on the length of the active segment alone, so the segment
/// that takes the frame may grow beyond the rotation size.
pub proof fn law_long_frame(m: StoreModel, frame: Seq<u8>, record: RecordView)
    requires
        m.wf(),
        m.consistent(),
        m.can_place(frame),
        frame_record(frame) == Some(record),
        frame.len() >= MAX_FILE_SIZE,
    ensures
        m.place_of(frame).segment == m.placed(frame).active(),
        m.placed(frame).stored(m.place_of(frame)) == frame,
        m.placed(frame).active_len >= MAX_FILE_SIZE,
        m.placed(frame).segments.len() <= m.segments.len() + 1,
{
    lemma_placed(m, frame, record);
    let after = m.placed(frame);
    let place = m.place_of(frame);
    assert(after.stored(place) =~= frame);
}

/// Reading a segment stops at the first place where no frame stands: bytes
/// that follow the last frame and are none themselves change nothing of what
/// is rebuilt.
pub proof fn law_torn_tail(rebuilt: Rebuilt, id: u64, bytes: Seq<u8>, tail: Seq<u8>, from: int)
    requires
        reachable(bytes, from, bytes.len() as int),
        0 <= from <= bytes.len(),
        frame_at(bytes + tail, bytes.len() as int) is None,
    ensures
        replayed_segment(rebuilt, id, bytes + tail, from) == replayed_segment(
            rebuilt,
            id,
            bytes,
            from,
        ),
        clean_len(bytes + tail, from) == bytes.len(),
    decreases bytes.len() - from,
{
    if from < bytes.len() {
        let (document, taken) = frame_at(bytes, from)->0;
        lemma_frame_at_extend(bytes, from, tail);
        match document_record(document) {
            None => {
                lemma_clean_torn(bytes, tail, from + taken);
            },
            Some(record) => {
                let next = replayed_record(
                    rebuilt,
                    record,
                    RecordLocation { segment: id, offset: from as u64, size: taken as u64 },
                );
                law_torn_tail(next, id, bytes, tail, from + taken);
            },
        }
    } else {
        assert(frame_at(bytes, from) is None) by {
            if frame_at(bytes, from) is Some {
                assert((frame_at(bytes, from)->0).1 > 0);
            }
        }
    }
}

/// Reading on over a torn tail stops where the frames end.
proof fn lemma_clean_torn(bytes: Seq<u8>, tail: Seq<u8>, from: int)
    requires
        reachable(bytes, from, bytes.len() as int),
        0 <= from <= bytes.len(),
        frame_at(bytes + tail, bytes.len() as int) is None,
    ensures
        clean_len(bytes + tail, from) == bytes.len(),
    decreases bytes.len() - from,
{
    if from < bytes.len() {
        let (document, taken) = frame_at(bytes, from)->0;
        lemma_frame_at_extend(bytes, from, tail);
        lemma_clean_torn(bytes, tail, from + taken);
    }
}

/// The states are those that the operations lead through, one after the
/// other.
pub open spec fn trace(states: Seq<StoreModel>, operations: Seq<Operation>) -> bool {
    &&& states.len() == operations.len() + 1
    &&& forall|i: int|
        0 <= i < operations.len() ==> step(states[i], states[i + 1], #[trigger] operations[i])
}

/// What the last of the operations that speaks of `key` leaves the key
/// with: a value where it sets the key, nothing where it removes the key;
/// `None` where no operation speaks of the key.
pub open spec fn last_write(operations: Seq<Operation>, key: Seq<char>) -> Option<
    Option<Seq<char>>,
>
    decreases operations.len(),
{
    if operations.len() == 0 {
        None
    } else {
        match operations.last() {
            Operation::Put(k, value) => if k == key {
                Some(Some(value))
            } else {
                last_write(operations.drop_last(), key)
            },
            Operation::Remove(k) => if k == key {
                Some(None)
            } else {
                last_write(operations.drop_last(), key)
            },
            Operation::Compact => last_write(operations.drop_last(), key),
        }
    }
}

/// The first `count` operations of a trace leave a state in which the index
/// agrees with the stored segments, and in which each key has what the last
/// operation that speaks of it left it with.
proof fn lemma_trace(
    states: Seq<StoreModel>,
    operations: Seq<Operation>,
    key: Seq<char>,
    count: int,
)
    requires
        trace(states, operations),
        states[0].wf(),
        states[0].consistent(),
        0 <= count <= operations.len(),
    ensures
        states[count].wf(),
        states[count].consistent(),
        states[count].contents().get(key) == match last_write(operations.take(count), key) {
            Some(left) => left,
            None => states[0].contents().get(key),
        },
    decreases count,
{
    if count == 0 {
        assert(operations.take(0) =~= Seq::<Operation>::empty());
    } else {
        lemma_trace(states, operations, key, count - 1);
        let before = states[count - 1];
        let after = states[count];
        let operation = operations[count - 1];
        assert(step(before, after, operation));
        assert(operations.take(count).drop_last() =~= operations.take(count - 1));
        assert(operations.take(count).last() == operation);
        lemma_step(before, after, operation);
    }
}

/// Whatever operations are carried out, getting a key afterwards yields the
/// value that the last operation to set the key gave it, unless the key was
/// removed since; a key that no operation speaks of keeps what it had.
pub proof fn law_last_write_wins(
    states: Seq<StoreModel>,
    operations: Seq<Operation>,
    key: Seq<char>,
)
    requires
        trace(states, operations),
        states[0].wf(),
        states[0].consistent(),
    ensures
        states.last().consistent(),
        lookup(states.last(), key) == Some(
            match last_write(operations, key) {
                Some(left) => left,
                None => states[0].contents().get(key),
            },
        ),
{
    lemma_trace(states, operations, key, operations.len() as int);
    assert(operations.take(operations.len() as int) =~= operations);
    law_get_observes_contents(states.last(), key);
}

/// Reading a run of frames to its end stops at its end.
proof fn lemma_clean_whole(bytes: Seq<u8>, from: int)
    requires
        0 <= from <= bytes.len(),
        reachable(bytes, from, bytes.len() as int),
    ensures
        clean_len(bytes, from) == bytes.len(),
    decreases bytes.len() - from,
{
    if from < bytes.len() {
        lemma_clean_whole(bytes, from + (frame_at(bytes, from)->0).1);
    } else {
        assert(frame_at(bytes, from) is None) by {
            if frame_at(bytes, from) is Some {
                assert((frame_at(bytes, from)->0).1 > 0);
            }
        }
    }
}

/// A store that is opened over the segments of a state, found in the order
/// in which the state lists them, holds what the state held: its index is
/// the same, so that getting any key yields the same, and nothing has to be
/// done to the stored segments.
pub proof fn law_reopen(m: StoreModel, files: Seq<SegmentFile>, key: Seq<char>)
    requires
        m.wf(),
        m.consistent(),
        image_ids(ordered(selected(files))) == m.segments,
        forall|i: int|
            0 <= i < m.segments.len() ==> (#[trigger] ordered(selected(files))[i]).bytes
                == m.storage[m.segments[i]],
    ensures
        opened(files) matches Some((reopened, actions)) && {
            &&& actions.len() == 0
            &&& reopened.wf()
            &&& reopened.consistent()
            &&& reopened.index == m.index
            &&& reopened.segments == m.segments
            &&& reopened.contents() == m.contents()
            &&& lookup(reopened, key) == lookup(m, key)
        },
{
    let images = ordered(selected(files));
    let ids = image_ids(images);
    let found = image_storage(images);
    lemma_replayed_images(images);
    assert forall|i: int| 0 <= i < ids.len() implies found[#[trigger] ids[i]] == m.storage[ids[i]] by {
        assert(images[i].id == ids[i]);
    }
    lemma_replayed_agree(nothing_rebuilt(), found, m.storage, ids);
    let last = images.last();
    assert(last == images[images.len() - 1]);
    assert(last.id == ids[ids.len() - 1]);
    lemma_clean_whole(last.bytes, 0);
    lemma_highest(ids);
    lemma_highest_member(ids);
    assert(highest(ids) < u64::MAX) by {
        let i = choose|i: int| 0 <= i < ids.len() && ids[i] == highest(ids);
        assert(m.segments[i] < m.counter);
    }
    let (reopened, actions) = opened(files)->0;
    lemma_image_storage_keys(images);
    assert(last.bytes.take(last.bytes.len() as int) =~= last.bytes);
    assert(found.contains_key(last.id)) by {
        assert(ids.contains(last.id));
    }
    assert(reopened.storage =~= found);
    assert(reopened.wf());
    assert forall|k: Seq<char>| #[trigger] reopened.index.contains_key(k) implies reopened.holds(
        k,
        reopened.index[k],
    ) && reopened.value_at(reopened.index[k]) == m.value_at(m.index[k]) by {
        assert(m.holds(k, m.index[k]));
        let segment = m.index[k].segment;
        assert(m.segments.contains(segment));
        let i = choose|i: int| 0 <= i < ids.len() && ids[i] == segment;
        assert(found[ids[i]] == m.storage[ids[i]]);
    }
    assert(reopened.reread() == m.reread());
    assert(reopened.contents() =~= m.contents());
    law_get_observes_contents(reopened, key);
    law_get_observes_contents(m, key);
}

/// The contents that were found are those of the segments that were found.
proof fn lemma_image_storage_keys(images: Seq<SegmentImage>)
    ensures
        forall|id: u64| image_storage(images).contains_key(id) <==> image_ids(images).contains(id),
    decreases images.len(),
{
    if images.len() > 0 {
        let front = images.drop_last();
        lemma_image_storage_keys(front);
        assert(image_ids(front) =~= image_ids(images).drop_last());
        assert forall|id: u64| image_storage(images).contains_key(id) <==> image_ids(
            images,
        ).contains(id) by {
            if id == images.last().id {
                assert(image_ids(images)[images.len() - 1] == id);
            } else {
                if image_ids(front).contains(id) {
                    let i = choose|i: int| 0 <= i < front.len() && image_ids(front)[i] == id;
                    assert(image_ids(images)[i] == id);
                }
                if image_ids(images).contains(id) {
                    let i = choose|i: int| 0 <= i < images.len() && image_ids(images)[i] == id;
                    assert(image_ids(front)[i] == id);
                }
            }
        }
    }
}

/// Compaction, where it is due, reclaims the oldest segment: the segment is
/// dropped, every other segment that was there moves one place towards the
/// front of the list, the meter falls by the bytes of the records that were
/// not kept, and the store holds what it held.
pub proof fn law_compaction_reclaims(m: StoreModel)
    requires
        m.wf(),
        m.consistent(),
        step(m, m.compacted(m.storage[m.oldest()]), Operation::Compact),
    ensures
        ({
            let after = m.compacted(m.storage[m.oldest()]);
            &&& after.wf()
            &&& after.consistent()
            &&& !after.segments.contains(m.oldest())
            &&& !after.storage.contains_key(m.oldest())
            &&& forall|i: int|
                1 <= i < m.segments.len() ==> after.segments[i - 1] == #[trigger] m.segments[i]
            &&& after.meter == meter_sub(
                m.meter,
                obsolete_bytes(m.index, m.oldest(), m.storage[m.oldest()], 0),
            )
            &&& after.meter <= m.meter
            &&& after.contents() == m.contents()
        }),
{
    lemma_compacted(m, m.storage[m.oldest()]);
}

/// Neither the key nor the value that a command names holds a `:`.
pub open spec fn plain_command(command: CommandView) -> bool {
    match command {
        CommandView::Get(key) => !key.contains(':'),
        CommandView::Put(key, value) => !key.contains(':') && !value.contains(':'),
        CommandView::Remove(key) => !key.contains(':'),
        CommandView::Exit => true,
    }
}

/// The names of the four commands differ from one another.
proof fn lemma_command_names()
    ensures
        "GET"@ != "SET"@,
        "GET"@ != "REMOVE"@,
        "GET"@ != "EXIT"@,
        "SET"@ != "REMOVE"@,
        "SET"@ != "EXIT"@,
        "REMOVE"@ != "EXIT"@,
{
    reveal_strlit("GET");
    reveal_strlit("SET");
    reveal_strlit("REMOVE");
    reveal_strlit("EXIT");
    assert("GET"@[0] != "SET"@[0]);
    assert("REMOVE"@.len() != "GET"@.len() && "REMOVE"@.len() != "SET"@.len());
    assert("EXIT"@.len() != "GET"@.len() && "EXIT"@.len() != "REMOVE"@.len());
}

/// The fields of a name, written with a `:` and a text behind it, are the
/// name and the text.
proof fn lemma_tagged_fields(tag: Seq<char>, tagged: Seq<char>, text: Seq<char>)
    requires
        !tag.contains(':'),
        !text.contains(':'),
        tagged == tag.push(':'),
    ensures
        fields(tagged + text) == seq![tag, text],
{
    assert(tagged + text =~= tag + seq![':'] + text);
    lemma_fields_join(tag, text);
    lemma_fields_plain(tag);
}

/// The request line of a `GET` has the fields `GET` and the key.
proof fn lemma_get_line(key: Seq<char>)
    requires
        !key.contains(':'),
    ensures
        fields("GET:"@ + key) == seq!["GET"@, key],
{
    reveal_strlit("GET:");
    reveal_strlit("GET");
    assert("GET:"@ =~= "GET"@.push(':'));
    lemma_tagged_fields("GET"@, "GET:"@, key);
}

/// The request line of a `REMOVE` has the fields `REMOVE` and the key.
proof fn lemma_remove_line(key: Seq<char>)
    requires
        !key.contains(':'),
    ensures
        fields("REMOVE:"@ + key) == seq!["REMOVE"@, key],
{
    reveal_strlit("REMOVE:");
    reveal_strlit("REMOVE");
    assert("REMOVE:"@ =~= "REMOVE"@.push(':'));
    lemma_tagged_fields("REMOVE"@, "REMOVE:"@, key);
}

/// The request line of a `SET` has the fields `SET`, the key and the value.
proof fn lemma_set_line(key: Seq<char>, value: Seq<char>)
    requires
        !key.contains(':'),
        !value.contains(':'),
    ensures
        fields("SET:"@ + key + ":"@ + value) == seq!["SET"@, key, value],
{
    reveal_strlit("SET:");
    reveal_strlit("SET");
    reveal_strlit(":");
    assert("SET:"@ =~= "SET"@.push(':'));
    lemma_tagged_fields("SET"@, "SET:"@, key);
    assert(":"@ =~= seq![':']);
    lemma_fields_join("SET:"@ + key, value);
    assert(seq!["SET"@, key].push(value) =~= seq!["SET"@, key, value]);
}

/// The server reads from a request line the command that the client wrote
/// into it, where the key and the value hold no `:` and the line is what is
/// left of what was sent once its trailing whitespace is cut off.
pub proof fn law_request_is_read_back(command: CommandView, sent: Seq<char>)
    requires
        plain_command(command),
        trimmed_end(sent) == request_line(command),
    ensures
        request_command(sent) == Some(command),
{
    lemma_command_names();
    match command {
        CommandView::Get(key) => {
            lemma_get_line(key);
        },
        CommandView::Put(key, value) => {
            lemma_set_line(key, value);
        },
        CommandView::Remove(key) => {
            lemma_remove_line(key);
        },
        CommandView::Exit => {
            assert(!"EXIT"@.contains(':')) by {
                reveal_strlit("EXIT");
            }
            lemma_fields_plain("EXIT"@);
        },
    }
}

/// The last text that a command names does not end in whitespace.
pub open spec fn ends_plain(command: CommandView) -> bool {
    let last = match command {
        CommandView::Get(key) => key,
        CommandView::Put(_, value) => value,
        CommandView::Remove(key) => key,
        CommandView::Exit => Seq::empty(),
    };
    last.len() == 0 || !white_space(last.last())
}

/// The request line of a command does not end in whitespace where the last
/// text that the command names does not.
proof fn lemma_request_line_end(command: CommandView)
    requires
        ends_plain(command),
    ensures
        request_line(command).len() > 0,
        !white_space(request_line(command).last()),
{
    reveal_strlit("GET:");
    reveal_strlit("SET:");
    reveal_strlit("REMOVE:");
    reveal_strlit("EXIT");
    reveal_strlit(":");
    assert(!white_space(':'));
    assert(!white_space('T'));
    let line = request_line(command);
    match command {
        CommandView::Get(key) => {
            if key.len() == 0 {
                assert(line =~= "GET:"@);
            } else {
                assert(line.last() == key.last());
            }
        },
        CommandView::Put(key, value) => {
            if value.len() == 0 {
                assert(line =~= ("SET:"@ + key).push(':'));
            } else {
                assert(line.last() == value.last());
            }
        },
        CommandView::Remove(key) => {
            if key.len() == 0 {
                assert(line =~= "REMOVE:"@);
            } else {
                assert(line.last() == key.last());
            }
        },
        CommandView::Exit => {},
    }
}

/// The server reads from the line that the client sends, the request line
/// with a line feed behind it, the command that the client wrote into it.
/// This holds where the key and the value hold no `:` and the last of them
/// does not end in whitespace.
pub proof fn law_sent_request_is_read_back(command: CommandView)
    requires
        plain_command(command),
        ends_plain(command),
    ensures
        request_command(request_line(command).push('\n')) == Some(command),
        request_command(request_line(command)) == Some(command),
{
    lemma_request_line_end(command);
    lemma_trimmed_line(request_line(command));
    law_request_is_read_back(command, request_line(command).push('\n'));
    law_request_is_read_back(command, request_line(command));
}

/// The client reads from a reply what the server wrote into it: the body of
/// a success as a success, and the message of a failure as a failure of the
/// server. This holds where the base64 of the text is read back as the text
/// and holds no `:`, and the reply does not end in whitespace.
pub proof fn law_reply_is_read_back(result: ServerResultView, reply: Seq<char>)
    requires
        reply_text(result) == Some(reply),
        trimmed_end(reply) == reply,
        match result {
            ServerResultView::Success(text) => !(encoded_body(text)->0).contains(':')
                && decoded_body(encoded_body(text)->0) == Some(text),
            ServerResultView::Failure(text) => !(encoded_body(text)->0).contains(':')
                && decoded_body(encoded_body(text)->0) == Some(text),
            ServerResultView::Exit => true,
        },
    ensures
        reply_message(reply) is Some,
        match result {
            ServerResultView::Success(text) => reply_outcome(reply) == Ok::<Seq<char>, Seq<char>>(
                text,
            ),
            ServerResultView::Failure(text) => reply_outcome(reply) == Err::<Seq<char>, Seq<char>>(
                text,
            ),
            ServerResultView::Exit => true,
        },
{
    match result {
        ServerResultView::Success(text) => {
            let body = encoded_body(text)->0;
            assert("OK:"@ =~= "OK"@.push(':') && !"OK"@.contains(':')) by {
                reveal_strlit("OK:");
                reveal_strlit("OK");
            }
            lemma_tagged_fields("OK"@, "OK:"@, body);
        },
        ServerResultView::Failure(text) => {
            let body = encoded_body(text)->0;
            assert("ERR:"@ =~= "ERR"@.push(':') && !"ERR"@.contains(':') && "ERR"@ != "OK"@) by {
                reveal_strlit("ERR:");
                reveal_strlit("ERR");
                reveal_strlit("OK");
                assert("ERR"@.len() != "OK"@.len());
            }
            lemma_tagged_fields("ERR"@, "ERR:"@, body);
        },
        ServerResultView::Exit => {},
    }
}

} // verus!
