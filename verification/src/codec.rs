//! Records and their frames.
//!
//! A record is stored as one BSON document: `{"Set": [key, value]}` or
//! `{"Delete": key}`. The bytes of a document are produced and read by the
//! `bson` crate; which document stands for which record is decided here.

use vstd::prelude::*;
use crate::errors::KvStoreError;
use crate::text::same_text;

verus! {

/// The unit of durability: either a key receives a value, or a key is deleted.
#[derive(Debug, Clone)]
pub enum Record {
    /// The key receives the value.
    Put(String, String),
    /// The key is deleted.
    Delete(String),
}

/// What a [`Record`] says, as mathematical text.
pub ghost enum RecordView {
    Put(Seq<char>, Seq<char>),
    Delete(Seq<char>),
}

impl View for Record {
    type V = RecordView;

    open spec fn view(&self) -> RecordView {
        match *self {
            Record::Put(k, v) => RecordView::Put(k@, v@),
            Record::Delete(k) => RecordView::Delete(k@),
        }
    }
}

/// The value of one element of a document, as far as records use it.
#[derive(Debug, Clone)]
pub enum Field {
    /// A string.
    Text(String),
    /// An array; an item that is a string is kept, any other item is `None`.
    List(Vec<Option<String>>),
    /// Any other kind of value.
    Other,
}

/// One element of a document: a name and a value.
#[derive(Debug, Clone)]
pub struct Element {
    pub name: String,
    pub value: Field,
}

/// What a [`Field`] holds, as mathematical text.
pub ghost enum FieldView {
    Text(Seq<char>),
    List(Seq<Option<Seq<char>>>),
    Other,
}

/// What an [`Element`] holds, as mathematical text.
pub ghost struct ElementView {
    pub name: Seq<char>,
    pub value: FieldView,
}

impl View for Field {
    type V = FieldView;

    open spec fn view(&self) -> FieldView {
        match *self {
            Field::Text(t) => FieldView::Text(t@),
            Field::List(items) => FieldView::List(items.deep_view()),
            Field::Other => FieldView::Other,
        }
    }
}

impl View for Element {
    type V = ElementView;

    open spec fn view(&self) -> ElementView {
        ElementView { name: self.name@, value: self.value@ }
    }
}

/// The views of the elements of a document, in order.
pub open spec fn document_view(elements: Seq<Element>) -> Seq<ElementView> {
    elements.map_values(|e: Element| e@)
}

/// `bson::EncoderError`, the failure of `bson::encode_document`; nothing is
/// known of what is in it.
#[verifier::external_type_specification]
#[verifier::external_body]
pub struct ExEncoderError(bson::EncoderError);

/// `bson::DecoderError`, the failure of `bson::decode_document`; nothing is
/// known of what is in it.
#[verifier::external_type_specification]
#[verifier::external_body]
pub struct ExDecoderError(bson::DecoderError);

/// What `bson::decode_document` reads from the front of `bytes`: the
/// document and the number of bytes it took, or `None` where it fails.
pub uninterp spec fn decoded_document(bytes: Seq<u8>) -> Option<(Seq<ElementView>, nat)>;

/// What `bson::encode_document` writes for the document made of `element`
/// alone, or `None` where the element is one that it is not called on.
pub uninterp spec fn encoded_document(element: ElementView) -> Option<Seq<u8>>;

/// `frame` is read as `document`, whole and whatever follows it.
pub open spec fn is_frame(frame: Seq<u8>, document: Seq<ElementView>) -> bool {
    forall|rest: Seq<u8>| #[trigger]
        decoded_document(frame + rest) == Some((document, frame.len()))
}

/// The length of `text` in bytes once written as UTF-8.
pub open spec fn byte_len(text: Seq<char>) -> nat {
    vstd::utf8::encode_utf8(text).len()
}

/// The longest string, in bytes, that a document can carry falls just short
/// of this.
pub const TEXT_LIMIT: usize = 0x7fff_ffff;

/// Every string of `field` is short enough for a document.
pub open spec fn field_fits(field: FieldView) -> bool {
    match field {
        FieldView::Text(t) => byte_len(t) < TEXT_LIMIT,
        FieldView::List(items) => forall|i: int|
            0 <= i < items.len() && items[i] is Some ==> byte_len(#[trigger] items[i]->0)
                < TEXT_LIMIT,
        FieldView::Other => true,
    }
}

/// Calls `bson::encode_document` on the document that holds `element`
/// alone, a `Field::Other` or a `None` item written as null. Claims that
/// the call succeeds, since the only failures of the encoder on strings,
/// arrays and nulls are those of its writer and a `Vec` takes every write;
/// that the bytes are a function of the element, that there is at least
/// one, and that `bson::decode_document` reads them back as that document
/// whatever follows them. The element's name must not hold a NUL character,
/// which would end the name early, and its strings must be shorter than
/// `TEXT_LIMIT` bytes, beyond which the encoder's length arithmetic
/// overflows.
#[verifier::external_body]
fn encode_document(element: &Element) -> (r: Result<Vec<u8>, bson::EncoderError>)
    requires
        !element.name@.contains('\0'),
        field_fits(element.value@),
    ensures
        r is Ok,
        encoded_document(element@) == Some(r->Ok_0@),
        r->Ok_0@.len() > 0,
        is_frame(r->Ok_0@, seq![element@]),
{
    let value = match &element.value {
        Field::Text(text) => bson::Bson::String(text.clone()),
        Field::List(items) => bson::Bson::Array(
            items.iter().map(|item| match item {
                Some(text) => bson::Bson::String(text.clone()),
                None => bson::Bson::Null,
            }).collect(),
        ),
        Field::Other => bson::Bson::Null,
    };
    let mut document = bson::Document::new();
    document.insert(element.name.clone(), value);
    let mut frame = Vec::new();
    bson::encode_document(&mut frame, &document).map(|_| frame)
}

/// Calls `bson::decode_document` on `bytes` from `start` on, and hands out
/// the elements of the document in order, each value as a `Field`. Claims
/// that the outcome is a function of the bytes from `start` on, that a
/// document takes at least one byte and no more than there are, and that
/// the bytes taken are read as the same document whatever follows them.
/// The decoder calls itself on nested documents and arrays and reserves
/// room for a string before it reads it: bytes that nest very deeply or
/// announce very long strings use up the stack or the memory.
#[verifier::external_body]
fn decode_document(bytes: &[u8], start: usize) -> (r: Result<
    (Vec<Element>, usize),
    bson::DecoderError,
>)
    requires
        start <= bytes@.len(),
    ensures
        match r {
            Ok((elements, taken)) => {
                &&& decoded_document(bytes@.skip(start as int)) == Some(
                    (document_view(elements@), taken as nat),
                )
                &&& 0 < taken <= bytes@.len() - start
                &&& is_frame(
                    bytes@.subrange(start as int, start + taken),
                    document_view(elements@),
                )
            },
            Err(_) => decoded_document(bytes@.skip(start as int)) is None,
        },
{
    let mut cursor = std::io::Cursor::new(&bytes[start..]);
    let document = bson::decode_document(&mut cursor)?;
    let text = |item| match item {
        bson::Bson::String(text) => Some(text),
        _ => None,
    };
    let field = |value| match value {
        bson::Bson::String(text) => Field::Text(text),
        bson::Bson::Array(items) => Field::List(items.into_iter().map(text).collect()),
        _ => Field::Other,
    };
    let element = |(name, value)| Element { name, value: field(value) };
    let elements = document.into_iter().map(element).collect();
    Ok((elements, cursor.position() as usize))
}

/// The text of a `bson::EncoderError`, as its `Display` gives it.
#[verifier::external_body]
fn encoder_error_text(error: &bson::EncoderError) -> String {
    error.to_string()
}

/// The text of a `bson::DecoderError`, as its `Display` gives it.
#[verifier::external_body]
fn decoder_error_text(error: &bson::DecoderError) -> String {
    error.to_string()
}

/// The element that stands for a record: `Set` with the key and the value
/// in an array, or `Delete` with the key.
pub open spec fn record_element(record: RecordView) -> ElementView {
    match record {
        RecordView::Put(key, value) => ElementView {
            name: "Set"@,
            value: FieldView::List(seq![Some(key), Some(value)]),
        },
        RecordView::Delete(key) => ElementView { name: "Delete"@, value: FieldView::Text(key) },
    }
}

/// The record that a document stands for, if it stands for one: the
/// document has a single element, of one of the two shapes of
/// [`record_element`].
pub open spec fn document_record(document: Seq<ElementView>) -> Option<RecordView> {
    if document.len() != 1 {
        None
    } else {
        match document[0].value {
            FieldView::List(items) => if document[0].name == "Set"@ && items.len() == 2
                && items[0] is Some && items[1] is Some {
                Some(RecordView::Put(items[0]->0, items[1]->0))
            } else {
                None
            },
            FieldView::Text(key) => if document[0].name == "Delete"@ {
                Some(RecordView::Delete(key))
            } else {
                None
            },
            FieldView::Other => None,
        }
    }
}

/// A record is read back from the document that stands for it.
pub proof fn lemma_document_of_record(record: RecordView)
    ensures
        document_record(seq![record_element(record)]) == Some(record),
        !record_element(record).name.contains('\0'),
{
    reveal_strlit("Set");
    reveal_strlit("Delete");
    match record {
        RecordView::Put(key, value) => {
            assert("Set"@ =~= seq!['S', 'e', 't']);
        },
        RecordView::Delete(key) => {
            assert("Delete"@ =~= seq!['D', 'e', 'l', 'e', 't', 'e']);
        },
    }
}

/// The strings of a record are short enough for a document.
pub open spec fn record_fits(record: RecordView) -> bool {
    match record {
        RecordView::Put(key, value) => byte_len(key) < TEXT_LIMIT && byte_len(value) < TEXT_LIMIT,
        RecordView::Delete(key) => byte_len(key) < TEXT_LIMIT,
    }
}

/// The frame of a record: the bytes written for it, where it can be
/// written.
pub open spec fn record_frame(record: RecordView) -> Option<Seq<u8>> {
    if record_fits(record) {
        encoded_document(record_element(record))
    } else {
        None
    }
}

/// What stands at `start` in `bytes`: a document and the length of its
/// frame, or nothing that can be read.
pub open spec fn frame_at(bytes: Seq<u8>, start: int) -> Option<(Seq<ElementView>, nat)> {
    if 0 <= start <= bytes.len() {
        match decoded_document(bytes.skip(start)) {
            Some((document, taken)) => if 0 < taken <= bytes.len() - start && is_frame(
                bytes.subrange(start, start + taken),
                document,
            ) {
                Some((document, taken))
            } else {
                None
            },
            None => None,
        }
    } else {
        None
    }
}

/// The record that `frame` holds, where the whole of it is one frame of a
/// record.
pub open spec fn frame_record(frame: Seq<u8>) -> Option<RecordView> {
    match frame_at(frame, 0) {
        Some((document, taken)) => if taken == frame.len() {
            document_record(document)
        } else {
            None
        },
        None => None,
    }
}

/// A frame keeps its meaning when bytes are written after it.
pub proof fn lemma_frame_at_extend(bytes: Seq<u8>, start: int, more: Seq<u8>)
    requires
        frame_at(bytes, start) is Some,
    ensures
        frame_at(bytes + more, start) == frame_at(bytes, start),
{
    let (document, taken) = frame_at(bytes, start)->0;
    let frame = bytes.subrange(start, start + taken);
    let rest = bytes.skip(start + taken) + more;
    assert((bytes + more).skip(start) =~= frame + rest);
    assert((bytes + more).subrange(start, start + taken) =~= frame);
}

/// A frame found in the middle of some bytes holds the same document when
/// it is cut out of them.
pub proof fn lemma_frame_at_cut(bytes: Seq<u8>, start: int)
    requires
        frame_at(bytes, start) is Some,
    ensures
        frame_at(bytes.subrange(start, start + (frame_at(bytes, start)->0).1), 0) == frame_at(
            bytes,
            start,
        ),
{
    let (document, taken) = frame_at(bytes, start)->0;
    let frame = bytes.subrange(start, start + taken);
    assert(frame.skip(0) =~= frame + Seq::<u8>::empty());
    assert(frame.subrange(0, taken as int) =~= frame);
}

/// The element that stands for `record`.
pub fn element_of(record: &Record) -> (e: Element)
    ensures
        e@ == record_element(record@),
{
    match record {
        Record::Put(key, value) => {
            let mut items: Vec<Option<String>> = Vec::new();
            items.push(Some(key.clone()));
            items.push(Some(value.clone()));
            assert(items.deep_view() =~= seq![Some(key@), Some(value@)]);
            Element { name: "Set".to_owned(), value: Field::List(items) }
        },
        Record::Delete(key) => Element { name: "Delete".to_owned(), value: Field::Text(key.clone()) },
    }
}

/// The record that `document` stands for, if it stands for one.
pub fn record_of(document: &Vec<Element>) -> (r: Option<Record>)
    ensures
        match r {
            Some(record) => document_record(document_view(document@)) == Some(record@),
            None => document_record(document_view(document@)) is None,
        },
{
    if document.len() != 1 {
        return None;
    }
    let element = &document[0];
    assert(document_view(document@)[0] == element@);
    match &element.value {
        Field::List(items) => {
            if same_text(element.name.as_str(), "Set") && items.len() == 2 {
                assert(items.deep_view()[0] == items@[0].deep_view());
                assert(items.deep_view()[1] == items@[1].deep_view());
                match (&items[0], &items[1]) {
                    (Some(key), Some(value)) => Some(Record::Put(key.clone(), value.clone())),
                    _ => None,
                }
            } else {
                None
            }
        },
        Field::Text(key) => {
            if same_text(element.name.as_str(), "Delete") {
                Some(Record::Delete(key.clone()))
            } else {
                None
            }
        },
        Field::Other => None,
    }
}

/// Whether `text` is short enough to be stored in a document.
pub fn text_fits(text: &String) -> (r: bool)
    ensures
        r == (byte_len(text@) < TEXT_LIMIT),
{
    text.as_str().as_bytes().len() < TEXT_LIMIT
}

/// Encodes a record into its frame. This succeeds exactly where the strings
/// of the record are short enough for a document, which is also where the
/// record has a frame.
///
/// Fails with `SerializationError` where a string of the record is too
/// long for a document.
pub fn encode_record(record: &Record) -> (r: Result<Vec<u8>, KvStoreError>)
    ensures
        r is Ok <==> record_fits(record@),
        record_frame(record@) is Some <==> record_fits(record@),
        match r {
            Ok(frame) => record_frame(record@) == Some(frame@) && frame_record(frame@) == Some(
                record@,
            ),
            Err(error) => error is SerializationError,
        },
{
    let fits = match record {
        Record::Put(key, value) => text_fits(key) && text_fits(value),
        Record::Delete(key) => text_fits(key),
    };
    if !fits {
        return Err(KvStoreError::SerializationError("Error serializing record".to_owned()));
    }
    let element = element_of(record);
    proof {
        lemma_document_of_record(record@);
    }
    match encode_document(&element) {
        Ok(frame) => {
            proof {
                assert(frame@ + Seq::<u8>::empty() =~= frame@);
                assert(decoded_document(frame@ + Seq::<u8>::empty()) == Some(
                    (seq![element@], frame@.len()),
                ));
                assert(frame@.skip(0) =~= frame@);
                assert(frame@.subrange(0, frame@.len() as int) =~= frame@);
            }
            Ok(frame)
        },
        Err(error) => Err(KvStoreError::EncoderError(encoder_error_text(&error))),
    }
}

/// What is found where a frame is expected.
#[derive(Debug, Clone)]
pub enum Reading {
    /// A record, and the length of its frame in bytes.
    Entry(Record, usize),
    /// A document that stands for no record.
    Foreign,
    /// Nothing that can be read as a document; carries the decoder's text.
    Unreadable(String),
}

/// Reads the frame that starts at `start` in `bytes`.
pub fn decode_record(bytes: &[u8], start: usize) -> (r: Reading)
    requires
        start <= bytes@.len(),
    ensures
        match r {
            Reading::Entry(record, size) => {
                &&& frame_at(bytes@, start as int) matches Some((document, taken))
                &&& taken == size
                &&& document_record(document) == Some(record@)
            },
            Reading::Foreign => {
                &&& frame_at(bytes@, start as int) matches Some((document, taken))
                &&& document_record(document) is None
            },
            Reading::Unreadable(_) => frame_at(bytes@, start as int) is None,
        },
{
    match decode_document(bytes, start) {
        Ok((document, size)) => match record_of(&document) {
            Some(record) => Reading::Entry(record, size),
            None => Reading::Foreign,
        },
        Err(error) => Reading::Unreadable(decoder_error_text(&error)),
    }
}

} // verus!
