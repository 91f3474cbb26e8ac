//! Encoding: every byte outside the unreserved set becomes `%` and two uppercase hex digits.
use vstd::pervasive::unreached;
use vstd::prelude::*;
use vstd::seq_lib::lemma_flatten_concat;
use vstd::slice::slice_subrange;
use vstd::string::*;
use vstd::utf8::*;
use std::borrow::Cow;
use crate::charset::{
    is_unreserved, is_upper_hex, lemma_hex_digit_round_trip, to_hex_digit, unreserved, upper_hex,
    PERCENT,
};
use crate::sink::{TextBuffer, TextSink};
use crate::utf8::{ascii_text, is_ascii_bytes, lemma_ascii_bytes, str_from_utf8};

verus! {

/// What one byte is encoded to: itself where it is unreserved, else `%`, the uppercase hex
/// digit of its high half and that of its low half.
pub open spec fn encode_byte(b: u8) -> Seq<u8> {
    if is_unreserved(b) {
        seq![b]
    } else {
        seq![PERCENT, upper_hex((b / 16) as u8), upper_hex((b % 16) as u8)]
    }
}

/// The encoded form of `data`, byte by byte.
pub open spec fn percent_encode(data: Seq<u8>) -> Seq<u8>
    decreases data.len(),
{
    if data.len() == 0 {
        Seq::empty()
    } else {
        encode_byte(data[0]) + percent_encode(data.skip(1))
    }
}

/// The encoded form of `data` as text.
pub open spec fn encoded_text(data: Seq<u8>) -> Seq<char> {
    ascii_text(percent_encode(data))
}

/// Whether every byte of `data` is unreserved, so that encoding changes nothing.
pub open spec fn all_unreserved(data: Seq<u8>) -> bool {
    forall|i: int| 0 <= i < data.len() ==> is_unreserved(#[trigger] data[i])
}

/// Whether every byte of `text` is unreserved, or is a `%` that two uppercase hexadecimal
/// digits follow.
pub open spec fn is_encoded(text: Seq<u8>) -> bool {
    forall|i: int|
        0 <= i < text.len() ==> is_unreserved(#[trigger] text[i]) || (text[i] == PERCENT && i + 2
            < text.len() && is_upper_hex(text[i + 1]) && is_upper_hex(text[i + 2]))
}

/// How long the run of unreserved bytes at the front of `data` is.
pub open spec fn safe_run_len(data: Seq<u8>) -> nat
    decreases data.len(),
{
    if data.len() == 0 || !is_unreserved(data[0]) {
        0
    } else {
        1 + safe_run_len(data.skip(1))
    }
}

/// The chunks in which the encoded form of `data` is handed out: each longest run of
/// unreserved bytes as one chunk, and the escape of each other byte as one chunk.
pub open spec fn encode_chunks(data: Seq<u8>) -> Seq<Seq<u8>>
    decreases data.len(),
{
    let run = safe_run_len(data);
    if data.len() == 0 {
        Seq::empty()
    } else if 0 < run <= data.len() {
        seq![data.take(run as int)] + encode_chunks(data.skip(run as int))
    } else {
        seq![encode_byte(data[0])] + encode_chunks(data.skip(1))
    }
}

/// Encoding goes piece by piece: the encoded form of two byte strings put together is their
/// encoded forms put together.
pub proof fn lemma_percent_encode_concat(a: Seq<u8>, b: Seq<u8>)
    ensures
        percent_encode(a + b) == percent_encode(a) + percent_encode(b),
    decreases a.len(),
{
    if a.len() == 0 {
        assert(a + b =~= b);
    } else {
        lemma_percent_encode_concat(a.skip(1), b);
        assert((a + b).skip(1) =~= a.skip(1) + b);
    }
    assert(percent_encode(a + b) =~= percent_encode(a) + percent_encode(b));
}

/// Encoding changes the bytes exactly when one of them is not unreserved.
pub proof fn lemma_percent_encode_unchanged(data: Seq<u8>)
    ensures
        all_unreserved(data) <==> percent_encode(data) == data,
    decreases data.len(),
{
    if data.len() > 0 {
        let rest = data.skip(1);
        lemma_percent_encode_unchanged(rest);
        lemma_percent_encode_len(rest);
        if all_unreserved(data) {
            assert forall|i: int| 0 <= i < rest.len() implies is_unreserved(#[trigger] rest[i]) by {
                assert(rest[i] == data[i + 1]);
            }
            assert(percent_encode(data) =~= data);
        } else if is_unreserved(data[0]) {
            assert(!all_unreserved(rest)) by {
                if all_unreserved(rest) {
                    assert forall|i: int| 0 <= i < data.len() implies is_unreserved(
                        #[trigger] data[i],
                    ) by {
                        if i > 0 {
                            assert(data[i] == rest[i - 1]);
                        }
                    }
                }
            }
            assert(percent_encode(data).skip(1) =~= percent_encode(rest));
            assert(data.skip(1) == rest);
        } else {
            assert(percent_encode(data).len() > data.len());
        }
    } else {
        assert(percent_encode(data) =~= data);
    }
}

/// The encoded form is never shorter than the data, and at most three times as long.
pub proof fn lemma_percent_encode_len(data: Seq<u8>)
    ensures
        data.len() <= percent_encode(data).len() <= 3 * data.len(),
    decreases data.len(),
{
    if data.len() > 0 {
        lemma_percent_encode_len(data.skip(1));
    }
}

/// The encoder's output holds unreserved bytes and `%XX` escapes in uppercase, nothing else.
pub proof fn lemma_encode_charset(data: Seq<u8>)
    ensures
        is_encoded(percent_encode(data)),
    decreases data.len(),
{
    if data.len() > 0 {
        let head = encode_byte(data[0]);
        let rest = percent_encode(data.skip(1));
        let text = head + rest;
        lemma_encode_charset(data.skip(1));
        lemma_hex_digit_round_trip((data[0] / 16) as u8);
        lemma_hex_digit_round_trip((data[0] % 16) as u8);
        assert forall|i: int| 0 <= i < text.len() implies is_unreserved(#[trigger] text[i]) || (
        text[i] == PERCENT && i + 2 < text.len() && is_upper_hex(text[i + 1]) && is_upper_hex(
            text[i + 2],
        )) by {
            if i >= head.len() {
                let j = i - head.len();
                assert(text[i] == rest[j]);
                if !is_unreserved(rest[j]) {
                    assert(text[i + 1] == rest[j + 1]);
                    assert(text[i + 2] == rest[j + 2]);
                }
            }
        }
    }
}

/// The encoded form is plain ASCII.
pub proof fn lemma_percent_encode_ascii(data: Seq<u8>)
    ensures
        is_ascii_bytes(percent_encode(data)),
    decreases data.len(),
{
    if data.len() > 0 {
        lemma_percent_encode_ascii(data.skip(1));
        let head = encode_byte(data[0]);
        let rest = percent_encode(data.skip(1));
        assert forall|i: int| 0 <= i < (head + rest).len() implies #[trigger] (head + rest)[i]
            < 0x80 by {
            if i >= head.len() {
                assert((head + rest)[i] == rest[i - head.len()]);
            }
        }
    }
}

/// A text whose bytes are the encoded form of `data` is the encoded text of `data`.
pub proof fn lemma_encoded_text_bytes(data: Seq<u8>, text: Seq<char>)
    ensures
        encode_utf8(text) == percent_encode(data) <==> text == encoded_text(data),
{
    lemma_percent_encode_ascii(data);
    lemma_ascii_bytes(percent_encode(data));
    if encode_utf8(text) == percent_encode(data) {
        encode_utf8_decode_utf8(text);
    }
}

/// The run at the front of `data` holds unreserved bytes only, and ends where the data ends
/// or a byte that is not unreserved stands.
pub proof fn lemma_safe_run(data: Seq<u8>)
    ensures
        safe_run_len(data) <= data.len(),
        all_unreserved(data.take(safe_run_len(data) as int)),
        safe_run_len(data) < data.len() ==> !is_unreserved(data[safe_run_len(data) as int]),
    decreases data.len(),
{
    if data.len() > 0 && is_unreserved(data[0]) {
        let rest = data.skip(1);
        let n = safe_run_len(rest) as int;
        lemma_safe_run(rest);
        assert forall|i: int| 0 <= i < n + 1 implies is_unreserved(
            #[trigger] data.take(n + 1)[i],
        ) by {
            if i > 0 {
                assert(data.take(n + 1)[i] == rest.take(n)[i - 1]);
            }
        }
        if n + 1 < data.len() {
            assert(data[n + 1] == rest[n]);
        }
    }
}

/// A front part of unreserved bytes that ends where the data ends, or where a byte that is
/// not unreserved stands, is the run at the front.
pub proof fn lemma_safe_run_is(data: Seq<u8>, n: int)
    requires
        0 <= n <= data.len(),
        all_unreserved(data.take(n)),
        n < data.len() ==> !is_unreserved(data[n]),
    ensures
        safe_run_len(data) == n,
    decreases n,
{
    if n > 0 {
        let rest = data.skip(1);
        assert(is_unreserved(data.take(n)[0]));
        assert forall|i: int| 0 <= i < n - 1 implies is_unreserved(#[trigger] rest.take(n - 1)[i]) by {
            assert(rest.take(n - 1)[i] == data.take(n)[i + 1]);
        }
        if n < data.len() {
            assert(rest[n - 1] == data[n]);
        }
        lemma_safe_run_is(rest, n - 1);
    }
}

/// The chunks of two byte strings put together are the chunks of the one and then those of
/// the other, unless a run goes on from the first into the second.
pub proof fn lemma_encode_chunks_split(a: Seq<u8>, b: Seq<u8>)
    requires
        a.len() == 0 || b.len() == 0 || !is_unreserved(a.last()) || !is_unreserved(b[0]),
    ensures
        encode_chunks(a + b) == encode_chunks(a) + encode_chunks(b),
    decreases a.len(),
{
    let whole = a + b;
    if a.len() == 0 {
        assert(whole =~= b);
        assert(encode_chunks(a) + encode_chunks(b) =~= encode_chunks(b));
    } else if b.len() == 0 {
        assert(whole =~= a);
        assert(encode_chunks(a) + encode_chunks(b) =~= encode_chunks(a));
    } else {
        let n = safe_run_len(a) as int;
        lemma_safe_run(a);
        if n == 0 {
            assert(whole[0] == a[0]);
            assert(whole.skip(1) =~= a.skip(1) + b);
            if a.len() > 1 {
                assert(a.skip(1).last() == a.last());
            }
            lemma_encode_chunks_split(a.skip(1), b);
            assert(encode_chunks(whole) =~= encode_chunks(a) + encode_chunks(b));
        } else {
            assert(whole.take(n) =~= a.take(n));
            assert(whole.skip(n) =~= a.skip(n) + b);
            if n < a.len() {
                assert(whole[n] == a[n]);
                assert(a.skip(n).last() == a.last());
            } else {
                assert(a.take(n) =~= a);
                assert(is_unreserved(a.take(n)[n - 1]));
                assert(whole[n] == b[0]);
            }
            lemma_safe_run_is(whole, n);
            lemma_encode_chunks_split(a.skip(n), b);
            assert(encode_chunks(whole) =~= encode_chunks(a) + encode_chunks(b));
        }
    }
}

/// A run of unreserved bytes is one chunk.
pub proof fn lemma_encode_chunks_run(run: Seq<u8>)
    requires
        run.len() > 0,
        all_unreserved(run),
    ensures
        encode_chunks(run) == seq![run],
{
    let n = run.len() as int;
    assert(run.take(n) =~= run);
    lemma_safe_run_is(run, n);
    assert(run.skip(n) =~= Seq::<u8>::empty());
    assert(encode_chunks(run.skip(n)) =~= Seq::<Seq<u8>>::empty());
    assert(encode_chunks(run) =~= seq![run]);
}

/// A byte that is not unreserved is one chunk: its escape.
pub proof fn lemma_encode_chunks_escape(b: u8)
    requires
        !is_unreserved(b),
    ensures
        encode_chunks(seq![b]) == seq![encode_byte(b)],
{
    let one = seq![b];
    assert(safe_run_len(one) == 0);
    assert(encode_chunks(one.skip(1)) =~= Seq::<Seq<u8>>::empty());
    assert(encode_chunks(one) =~= seq![encode_byte(b)]);
}

/// The chunks run together are the encoded form.
pub proof fn lemma_encode_chunks_flatten(data: Seq<u8>)
    ensures
        encode_chunks(data).flatten() == percent_encode(data),
    decreases data.len(),
{
    if data.len() == 0 {
        assert(encode_chunks(data).flatten() =~= percent_encode(data));
    } else {
        let run = safe_run_len(data) as int;
        lemma_safe_run(data);
        let n = if run > 0 { run } else { 1 };
        let first = if run > 0 { data.take(run) } else { encode_byte(data[0]) };
        let rest = encode_chunks(data.skip(n));
        lemma_encode_chunks_flatten(data.skip(n));
        seq![first].lemma_flatten_one_element();
        lemma_flatten_concat(seq![first], rest);
        assert(encode_chunks(data) =~= seq![first] + rest);
        assert(data.take(n) + data.skip(n) =~= data);
        lemma_percent_encode_concat(data.take(n), data.skip(n));
        if run > 0 {
            lemma_percent_encode_unchanged(data.take(n));
        } else {
            assert(data.take(1) =~= seq![data[0]]);
            assert(percent_encode(data.take(1).skip(1)) =~= Seq::<u8>::empty());
            assert(percent_encode(data.take(1)) =~= encode_byte(data[0]));
        }
    }
}

/// No chunk is empty; a chunk is a run of unreserved bytes or one escape; and no run follows
/// a run, so that each run is as long as it can be.
pub proof fn lemma_encode_chunks_shape(data: Seq<u8>)
    ensures
        encode_chunks(data).len() <= data.len(),
        data.len() > 0 ==> encode_chunks(data).len() > 0,
        forall|i: int|
            0 <= i < encode_chunks(data).len() ==> {
                let chunk = #[trigger] encode_chunks(data)[i];
                &&& chunk.len() > 0
                &&& all_unreserved(chunk) || (chunk.len() == 3 && chunk[0] == PERCENT
                    && is_upper_hex(chunk[1]) && is_upper_hex(chunk[2]))
            },
        forall|i: int|
            0 <= i < encode_chunks(data).len() - 1 ==> !(all_unreserved(
                #[trigger] encode_chunks(data)[i],
            ) && all_unreserved(encode_chunks(data)[i + 1])),
    decreases data.len(),
{
    if data.len() > 0 {
        let run = safe_run_len(data) as int;
        lemma_safe_run(data);
        let n = if run > 0 { run } else { 1 };
        let first = if run > 0 { data.take(run) } else { encode_byte(data[0]) };
        let tail = data.skip(n);
        let rest = encode_chunks(tail);
        let all = encode_chunks(data);
        lemma_encode_chunks_shape(tail);
        lemma_hex_digit_round_trip((data[0] / 16) as u8);
        lemma_hex_digit_round_trip((data[0] % 16) as u8);
        assert(all =~= seq![first] + rest);
        assert forall|i: int| 0 <= i < all.len() implies {
            let chunk = #[trigger] all[i];
            &&& chunk.len() > 0
            &&& all_unreserved(chunk) || (chunk.len() == 3 && chunk[0] == PERCENT
                && is_upper_hex(chunk[1]) && is_upper_hex(chunk[2]))
        } by {
            if i > 0 {
                assert(all[i] == rest[i - 1]);
            }
        }
        assert forall|i: int| 0 <= i < all.len() - 1 implies !(all_unreserved(#[trigger] all[i])
            && all_unreserved(all[i + 1])) by {
            if i > 0 {
                assert(all[i] == rest[i - 1]);
                assert(all[i + 1] == rest[i]);
            } else if run > 0 {
                // after a run comes a byte that is not unreserved: its escape is the next chunk
                assert(all[1] == rest[0]);
                assert(tail[0] == data[run]);
                assert(safe_run_len(tail) == 0);
                assert(rest[0] == encode_byte(tail[0]));
                assert(!is_unreserved(rest[0][0]));
            } else {
                assert(!is_unreserved(first[0]));
            }
        }
    }
}

/// Where the run of unreserved bytes that starts at `start` ends.
fn safe_run_end(data: &[u8], start: usize) -> (end: usize)
    requires
        start <= data@.len(),
    ensures
        start <= end <= data@.len(),
        all_unreserved(data@.subrange(start as int, end as int)),
        end < data@.len() ==> !is_unreserved(data@[end as int]),
{
    let len = data.len();
    let mut end = start;
    while end < len && unreserved(data[end])
        invariant
            len == data@.len(),
            start <= end <= len,
            all_unreserved(data@.subrange(start as int, end as int)),
        decreases len - end,
    {
        end += 1;
        assert forall|i: int| 0 <= i < end - start implies is_unreserved(
            #[trigger] data@.subrange(start as int, end as int)[i],
        ) by {
            if i < end - start - 1 {
                assert(data@.subrange(start as int, end - 1)[i] == data@[start + i]);
            }
        }
    }
    end
}

/// The streaming core: feeds `sink` the encoded form of `data`, each run of unreserved bytes
/// as one chunk and each escape as one chunk, and tells whether it met no byte to escape.
///
/// With `may_skip_write`, data that needs no escape is not written at all: the caller then
/// has the text already, in `data` itself. The first push that fails ends the work, and its
/// error comes back as it is.
pub(crate) fn encode_into<S: TextSink>(data: &[u8], may_skip_write: bool, sink: &mut S) -> (res:
    Result<bool, S::Error>)
    requires
        old(sink).failure() is None,
    ensures
        res matches Ok(unmodified) ==> {
            &&& unmodified == all_unreserved(data@)
            &&& final(sink).failure() is None
            &&& final(sink).chunks() == old(sink).chunks() + (if may_skip_write && unmodified {
                Seq::<Seq<u8>>::empty()
            } else {
                encode_chunks(data@)
            })
        },
        res matches Err(e) ==> {
            &&& final(sink).failure() == Some(e)
            &&& exists|k: int|
                0 <= k < encode_chunks(data@).len() && final(sink).chunks() == old(sink).chunks()
                    + #[trigger] encode_chunks(data@).take(k)
        },
        S::never_fails() ==> res is Ok,
        data@.len() == 0 || (may_skip_write && all_unreserved(data@)) ==> res is Ok,
{
    let len = data.len();
    let mut pos: usize = 0;
    let mut escaped = false;
    proof {
        assert(data@.take(0) =~= Seq::<u8>::empty());
        assert(sink.chunks() + encode_chunks(data@.take(0)) =~= sink.chunks());
    }
    while pos < len
        invariant
            len == data@.len(),
            pos <= len,
            pos < len ==> pos == 0 || !is_unreserved(data@[pos - 1]),
            pos < len && !escaped ==> pos == 0,
            may_skip_write && !escaped ==> pos == 0,
            !escaped ==> all_unreserved(data@.take(pos as int)),
            escaped ==> !all_unreserved(data@),
            sink.failure() is None,
            sink.chunks() == old(sink).chunks() + encode_chunks(data@.take(pos as int)),
        decreases len - pos,
    {
        let end = safe_run_end(data, pos);
        let ghost done = data@.take(pos as int);
        let ghost run = data@.subrange(pos as int, end as int);
        proof {
            assert(done + run =~= data@.take(end as int));
            lemma_encode_chunks_split(done, run);
            // what is still to come starts a chunk of its own
            assert(done + data@.skip(pos as int) =~= data@);
            lemma_encode_chunks_split(done, data@.skip(pos as int));
            lemma_encode_chunks_shape(data@.skip(pos as int));
            assert(encode_chunks(data@).take(encode_chunks(done).len() as int) =~= encode_chunks(
                done,
            ));
            if end < len {
                assert(!all_unreserved(data@));
            }
        }
        if end >= len && !escaped && may_skip_write {
            assert(run =~= data@);
            assert(sink.chunks() =~= old(sink).chunks() + Seq::<Seq<u8>>::empty());
            return Ok(true);
        }
        if end > pos {
            proof {
                assert(is_ascii_bytes(run)) by {
                    assert forall|i: int| 0 <= i < run.len() implies #[trigger] run[i] < 0x80 by {
                        assert(is_unreserved(run[i]));
                    }
                }
                lemma_ascii_bytes(run);
                lemma_encode_chunks_run(run);
            }
            match str_from_utf8(slice_subrange(data, pos, end)) {
                Ok(text) => match sink.push_str(text) {
                    Ok(()) => {},
                    Err(e) => {
                        return Err(e);
                    },
                },
                Err(_) => {
                    assert(false);
                },
            }
            assert(sink.chunks() =~= old(sink).chunks() + encode_chunks(data@.take(end as int)));
        }
        if end < len {
            let byte = data[end];
            assert(byte >> 4 == byte / 16 && byte & 15 == byte % 16 && byte >> 4 < 16 && byte & 15
                < 16) by (bit_vector);
            let enc: [u8; 3] = [PERCENT, to_hex_digit(byte >> 4), to_hex_digit(byte & 15)];
            let ghost covered = data@.take(end as int);
            proof {
                assert(enc@ =~= encode_byte(byte));
                assert(is_ascii_bytes(enc@));
                lemma_ascii_bytes(enc@);
                assert(covered + seq![byte] =~= data@.take(end + 1));
                lemma_encode_chunks_split(covered, seq![byte]);
                lemma_encode_chunks_escape(byte);
                assert(covered + data@.skip(end as int) =~= data@);
                lemma_encode_chunks_split(covered, data@.skip(end as int));
                lemma_encode_chunks_shape(data@.skip(end as int));
                assert(encode_chunks(data@).take(encode_chunks(covered).len() as int)
                    =~= encode_chunks(covered));
            }
            escaped = true;
            match str_from_utf8(enc.as_slice()) {
                Ok(text) => match sink.push_str(text) {
                    Ok(()) => {},
                    Err(e) => {
                        return Err(e);
                    },
                },
                Err(_) => {
                    assert(false);
                },
            }
            assert(sink.chunks() =~= old(sink).chunks() + encode_chunks(data@.take(end + 1)));
            pos = end + 1;
        } else {
            assert(data@.take(end as int) =~= data@);
            pos = end;
        }
    }
    assert(data@.take(len as int) =~= data@);
    proof {
        if may_skip_write && !escaped {
            assert(encode_chunks(data@) =~= Seq::<Seq<u8>>::empty());
        }
    }
    Ok(!escaped)
}

/// Percent-encodes every byte but letters, digits and `-`, `_`, `.`, `~`.
///
/// Data that needs no escape comes back borrowed: the text is the data itself. Any other data
/// comes back as a new string.
pub fn encode_binary(data: &[u8]) -> (res: Cow<'_, str>)
    ensures
        res@ == encoded_text(data@),
        res matches Cow::Borrowed(_) <==> all_unreserved(data@),
        is_encoded(encode_utf8(res@)),
{
    // room for the data and a little more, to the next multiple of 16 less one
    let mut buffer = TextBuffer::with_capacity(data.len() | 15);
    proof {
        lemma_encode_charset(data@);
        lemma_encoded_text_bytes(data@, encoded_text(data@));
        lemma_percent_encode_unchanged(data@);
        lemma_encode_chunks_flatten(data@);
    }
    match encode_into(data, true, &mut buffer) {
        Ok(true) => {
            proof {
                lemma_percent_encode_ascii(data@);
                lemma_ascii_bytes(data@);
            }
            match str_from_utf8(data) {
                Ok(text) => {
                    proof {
                        lemma_encoded_text_bytes(data@, text@);
                    }
                    Cow::Borrowed(text)
                },
                Err(_) => unreached(),
            }
        },
        Ok(false) => {
            assert(buffer.chunks() =~= encode_chunks(data@));
            let escaped = buffer.into_string();
            proof {
                lemma_encoded_text_bytes(data@, escaped@);
            }
            Cow::Owned(escaped)
        },
        Err(_) => unreached(),
    }
}

/// Percent-encodes every byte of the text but letters, digits and `-`, `_`, `.`, `~`.
pub fn encode(data: &str) -> (res: String)
    ensures
        res@ == encoded_text(data.spec_bytes()),
        is_encoded(encode_utf8(res@)),
{
    into_owned(encode_binary(data.as_bytes()))
}

/// The text of `text` as a string of its own.
pub(crate) fn into_owned(text: Cow<'_, str>) -> (res: String)
    ensures
        res@ == text@,
{
    match text {
        Cow::Borrowed(borrowed) => borrowed.to_owned(),
        Cow::Owned(owned) => owned,
    }
}

} // verus!
