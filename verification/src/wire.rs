//! What the server and the client share of the text protocol: a line is cut
//! at its trailing whitespace and split into fields at each `:`; the body of
//! a reply travels in base64.

use vstd::prelude::*;
use crate::text::to_chars;

verus! {

/// Whether `c` has the Unicode property White_Space: one of the twenty-five
/// characters that the Unicode character database lists under it.
pub open spec fn white_space(c: char) -> bool {
    let code = c as u32;
    ||| 0x09 <= code <= 0x0d
    ||| code == 0x20
    ||| code == 0x85
    ||| code == 0xa0
    ||| code == 0x1680
    ||| 0x2000 <= code <= 0x200a
    ||| code == 0x2028
    ||| code == 0x2029
    ||| code == 0x202f
    ||| code == 0x205f
    ||| code == 0x3000
}

/// What `base64::encode` returns for `bytes`.
pub uninterp spec fn base64_text(bytes: Seq<u8>) -> Seq<char>;

/// What `base64::decode` returns for `text`, or `None` where it fails.
pub uninterp spec fn base64_bytes(text: Seq<char>) -> Option<Seq<u8>>;

/// Calls `char::is_whitespace`, which tells whether the character has the
/// Unicode property White_Space; [`white_space`] lists the characters that
/// have it.
#[verifier::external_body]
fn is_whitespace(c: char) -> (r: bool)
    ensures
        r == white_space(c),
{
    c.is_whitespace()
}

/// Calls `base64::encode`, which writes the bytes in the standard alphabet
/// with padding. The input must be short enough for the length of the
/// result to be computed without overflow.
#[verifier::external_body]
fn base64_encode(bytes: &[u8]) -> (r: String)
    requires
        bytes@.len() <= usize::MAX / 2,
    ensures
        r@ == base64_text(bytes@),
{
    base64::encode(bytes)
}

/// Calls `base64::decode`, which reads text in the standard alphabet, and
/// drops the error where it fails. The input must be short enough for the
/// length of the result and the number of chunks of the input to be
/// computed without overflow.
#[verifier::external_body]
fn base64_decode(text: &str) -> (r: Option<Vec<u8>>)
    requires
        vstd::utf8::encode_utf8(text@).len() <= usize::MAX - 7,
    ensures
        match r {
            Some(bytes) => base64_bytes(text@) == Some(bytes@),
            None => base64_bytes(text@) is None,
        },
{
    base64::decode(text).ok()
}

/// Calls `String::from_utf8`, which accepts the bytes exactly where they
/// are valid UTF-8 and then holds the text that they encode.
#[verifier::external_body]
fn string_from_utf8(bytes: Vec<u8>) -> (r: Option<String>)
    ensures
        match r {
            Some(text) => vstd::utf8::valid_utf8(bytes@) && text@ == vstd::utf8::decode_utf8(
                bytes@,
            ),
            None => !vstd::utf8::valid_utf8(bytes@),
        },
{
    String::from_utf8(bytes).ok()
}

/// `s` without its trailing whitespace.
pub open spec fn trimmed_end(s: Seq<char>) -> Seq<char>
    decreases s.len(),
{
    if s.len() > 0 && white_space(s.last()) {
        trimmed_end(s.drop_last())
    } else {
        s
    }
}

/// The place of the last `:` in `s`, or `-1` where there is none.
pub open spec fn last_colon(s: Seq<char>) -> int
    decreases s.len(),
{
    if s.len() == 0 {
        -1
    } else if s.last() == ':' {
        s.len() - 1
    } else {
        last_colon(s.drop_last())
    }
}

/// The fields of `s`: what stands between one `:` and the next. There is
/// always at least one field; a field may be empty.
pub open spec fn fields(s: Seq<char>) -> Seq<Seq<char>>
    decreases s.len(),
    via fields_decreases
{
    let at = last_colon(s);
    if at < 0 {
        seq![s]
    } else {
        fields(s.take(at)).push(s.skip(at + 1))
    }
}

#[via_fn]
proof fn fields_decreases(s: Seq<char>) {
    lemma_last_colon(s);
}

/// The last `:` is a `:`, and none follows it.
pub proof fn lemma_last_colon(s: Seq<char>)
    ensures
        -1 <= last_colon(s) < s.len(),
        last_colon(s) >= 0 ==> s[last_colon(s)] == ':',
        forall|i: int| last_colon(s) < i < s.len() ==> s[i] != ':',
    decreases s.len(),
{
    if s.len() > 0 && s.last() != ':' {
        lemma_last_colon(s.drop_last());
        assert forall|i: int| last_colon(s) < i < s.len() implies s[i] != ':' by {
            if i < s.len() - 1 {
                assert(s.drop_last()[i] == s[i]);
            }
        }
    }
}

/// A character other than `:` at the end of a line lengthens its last
/// field.
pub proof fn lemma_fields_push(s: Seq<char>, c: char)
    requires
        c != ':',
    ensures
        fields(s.push(c)) == fields(s).drop_last().push(fields(s).last().push(c)),
        fields(s).len() >= 1,
{
    let longer = s.push(c);
    assert(longer.drop_last() =~= s);
    let at = last_colon(s);
    lemma_last_colon(s);
    if at < 0 {
        assert(fields(s).drop_last().push(fields(s).last().push(c)) =~= seq![longer]);
    } else {
        assert(longer.take(at) =~= s.take(at));
        assert(longer.skip(at + 1) =~= s.skip(at + 1).push(c));
        assert(fields(s).drop_last() =~= fields(s.take(at)));
    }
}

/// A `:` at the end of a line closes its last field and opens an empty one.
pub proof fn lemma_fields_colon(s: Seq<char>)
    ensures
        fields(s.push(':')) == fields(s).push(Seq::empty()),
{
    let longer = s.push(':');
    assert(longer.take(s.len() as int) =~= s);
    assert(longer.skip(s.len() as int + 1) =~= Seq::<char>::empty());
}

/// A line that does not end in whitespace is what is left of it, with a
/// line feed behind it, once the trailing whitespace is cut off.
pub proof fn lemma_trimmed_line(line: Seq<char>)
    requires
        line.len() == 0 || !white_space(line.last()),
    ensures
        trimmed_end(line.push('\n')) == line,
        trimmed_end(line) == line,
{
    reveal_with_fuel(trimmed_end, 2);
    assert(white_space('\n'));
    assert(line.push('\n').drop_last() =~= line);
    assert(line.push('\n').last() == '\n');
}

/// A line without a `:` is one field.
pub proof fn lemma_fields_plain(s: Seq<char>)
    requires
        !s.contains(':'),
    ensures
        fields(s) == seq![s],
{
    lemma_last_colon(s);
    if last_colon(s) >= 0 {
        assert(s.contains(s[last_colon(s)]));
    }
}

/// A `:` and a text without one, written behind a line, add the text to the
/// fields of the line.
pub proof fn lemma_fields_join(line: Seq<char>, last: Seq<char>)
    requires
        !last.contains(':'),
    ensures
        fields(line + seq![':'] + last) == fields(line).push(last),
    decreases last.len(),
{
    let whole = line + seq![':'] + last;
    if last.len() == 0 {
        assert(whole =~= line.push(':'));
        assert(last =~= Seq::<char>::empty());
        lemma_fields_colon(line);
    } else {
        let c = last.last();
        let front = last.drop_last();
        assert(last.contains(c));
        assert(!front.contains(':')) by {
            if front.contains(':') {
                let i = choose|i: int| 0 <= i < front.len() && front[i] == ':';
                assert(last[i] == ':');
            }
        }
        lemma_fields_join(line, front);
        let shorter = line + seq![':'] + front;
        assert(whole =~= shorter.push(c));
        assert(c != ':');
        lemma_fields_push(shorter, c);
        assert(fields(shorter) == fields(line).push(front));
        assert(fields(shorter).drop_last() =~= fields(line));
        assert(fields(shorter).last() == front);
        assert(front.push(c) =~= last);
    }
}

/// The texts of some strings, in order.
pub open spec fn texts(strings: Seq<String>) -> Seq<Seq<char>> {
    strings.map_values(|s: String| s@)
}

/// Cuts a line at its trailing whitespace and splits it into its fields.
pub fn split_fields(line: &str) -> (r: Vec<String>)
    ensures
        texts(r@) == fields(trimmed_end(line@)),
        r@.len() >= 1,
{
    let chars = to_chars(line);
    let mut end: usize = chars.len();
    assert(line@.take(end as int) =~= line@);
    while end > 0 && is_whitespace(chars[end - 1])
        invariant
            end <= chars@.len(),
            chars@ == line@,
            trimmed_end(line@) == trimmed_end(line@.take(end as int)),
        decreases end,
    {
        assert(line@.take(end as int).drop_last() =~= line@.take(end - 1));
        end -= 1;
    }
    let ghost kept = line@.take(end as int);
    assert(trimmed_end(line@) == kept);
    let mut found: Vec<String> = Vec::new();
    let mut start: usize = 0;
    let mut i: usize = 0;
    assert(kept.take(0) =~= Seq::empty());
    assert(kept.subrange(0, 0) =~= Seq::empty());
    assert(texts(found@) =~= Seq::empty());
    while i < end
        invariant
            start <= i <= end <= chars@.len(),
            chars@ == line@,
            kept == line@.take(end as int),
            fields(kept.take(i as int)) == texts(found@).push(
                kept.subrange(start as int, i as int),
            ),
        decreases end - i,
    {
        let ghost before = kept.take(i as int);
        assert(kept.take(i + 1) =~= before.push(kept[i as int]));
        if chars[i] == ':' {
            proof {
                lemma_fields_colon(before);
            }
            let field = line.substring_char(start, i).to_owned();
            let ghost previous = texts(found@);
            assert(field@ =~= kept.subrange(start as int, i as int));
            found.push(field);
            assert(texts(found@) =~= previous.push(kept.subrange(start as int, i as int)));
            start = i + 1;
            assert(kept.subrange(start as int, i + 1) =~= Seq::empty());
        } else {
            proof {
                lemma_fields_push(before, chars@[i as int]);
                assert(kept.subrange(start as int, i + 1) =~= kept.subrange(
                    start as int,
                    i as int,
                ).push(chars@[i as int]));
                assert(fields(before).drop_last() =~= texts(found@));
            }
        }
        i += 1;
    }
    assert(kept.take(end as int) =~= kept);
    let field = line.substring_char(start, end).to_owned();
    let ghost previous = texts(found@);
    assert(field@ =~= kept.subrange(start as int, end as int));
    found.push(field);
    assert(texts(found@) =~= previous.push(kept.subrange(start as int, end as int)));
    found
}

/// The text that `body` holds in base64, or `None` where it holds none: it
/// is no base64, or the bytes are no UTF-8.
pub open spec fn decoded_body(body: Seq<char>) -> Option<Seq<char>> {
    if vstd::utf8::encode_utf8(body).len() > usize::MAX - 7 {
        None
    } else {
        match base64_bytes(body) {
            Some(bytes) => if vstd::utf8::valid_utf8(bytes) {
                Some(vstd::utf8::decode_utf8(bytes))
            } else {
                None
            },
            None => None,
        }
    }
}

/// Reads the text that the body of a reply holds in base64.
pub fn decode_body(body: &str) -> (r: Option<String>)
    ensures
        match r {
            Some(text) => decoded_body(body@) == Some(text@),
            None => decoded_body(body@) is None,
        },
{
    if body.as_bytes().len() > usize::MAX - 7 {
        return None;
    }
    match base64_decode(body) {
        Some(bytes) => string_from_utf8(bytes),
        None => None,
    }
}

/// The base64 of `body`, where `body` is short enough to be encoded.
pub open spec fn encoded_body(body: Seq<char>) -> Option<Seq<char>> {
    if vstd::utf8::encode_utf8(body).len() <= usize::MAX / 2 {
        Some(base64_text(vstd::utf8::encode_utf8(body)))
    } else {
        None
    }
}

/// Writes the body of a reply in base64.
pub fn encode_body(body: &str) -> (r: Option<String>)
    ensures
        match r {
            Some(text) => encoded_body(body@) == Some(text@),
            None => encoded_body(body@) is None,
        },
{
    let bytes = body.as_bytes();
    if bytes.len() <= usize::MAX / 2 {
        Some(base64_encode(bytes))
    } else {
        None
    }
}

} // verus!
