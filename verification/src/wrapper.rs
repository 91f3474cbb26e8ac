//! The wrapper that encodes on demand.
use vstd::prelude::*;
use vstd::seq_lib::lemma_flatten_concat;
use vstd::std_specs::cmp::{PartialEqSpec, PartialEqSpecImpl};
use vstd::string::*;
use vstd::utf8::*;
use std::borrow::Cow;
use crate::enc::{
    all_unreserved, encode_binary, encode_chunks, encode_into, encoded_text, into_owned,
    lemma_encode_chunks_flatten, percent_encode,
};
use crate::sink::TextSink;

verus! {

/// Values that stand for a string of bytes: text or bytes, owned or borrowed.
pub trait RawBytes {
    /// The bytes that the value stands for.
    spec fn raw_bytes(&self) -> Seq<u8>;

    /// Hands out those bytes.
    fn as_raw_bytes(&self) -> (bytes: &[u8])
        ensures
            bytes@ == self.raw_bytes(),
    ;
}

impl RawBytes for str {
    open spec fn raw_bytes(&self) -> Seq<u8> {
        self.spec_bytes()
    }

    fn as_raw_bytes(&self) -> (bytes: &[u8]) {
        self.as_bytes()
    }
}

impl RawBytes for [u8] {
    open spec fn raw_bytes(&self) -> Seq<u8> {
        self@
    }

    fn as_raw_bytes(&self) -> (bytes: &[u8]) {
        self
    }
}

impl RawBytes for String {
    open spec fn raw_bytes(&self) -> Seq<u8> {
        encode_utf8(self@)
    }

    fn as_raw_bytes(&self) -> (bytes: &[u8]) {
        self.as_str().as_bytes()
    }
}

impl RawBytes for Vec<u8> {
    open spec fn raw_bytes(&self) -> Seq<u8> {
        self@
    }

    fn as_raw_bytes(&self) -> (bytes: &[u8]) {
        self.as_slice()
    }
}

impl<const N: usize> RawBytes for [u8; N] {
    open spec fn raw_bytes(&self) -> Seq<u8> {
        self@
    }

    fn as_raw_bytes(&self) -> (bytes: &[u8]) {
        self.as_slice()
    }
}

impl<T: RawBytes + ?Sized> RawBytes for &T {
    open spec fn raw_bytes(&self) -> Seq<u8> {
        (**self).raw_bytes()
    }

    fn as_raw_bytes(&self) -> (bytes: &[u8]) {
        (**self).as_raw_bytes()
    }
}

/// A value that is encoded only when it is rendered: it keeps the raw bytes, and compares,
/// orders and hashes by them.
#[derive(Copy, Clone, Debug, Eq, Hash, Ord, PartialOrd)]
pub struct Encoded<Str>(pub Str);

impl<Str: RawBytes> Encoded<Str> {
    /// The long way of writing `Encoded(data)`.
    pub fn new(string: Str) -> (res: Self)
        ensures
            res.0 == string,
    {
        Encoded(string)
    }

    /// The encoded text, borrowed from the value where it needs no escape.
    pub fn to_str(&self) -> (res: Cow<'_, str>)
        ensures
            res@ == encoded_text(self.0.raw_bytes()),
            res matches Cow::Borrowed(_) <==> all_unreserved(self.0.raw_bytes()),
    {
        encode_binary(self.0.as_raw_bytes())
    }

    /// The encoded text as a string.
    pub fn to_string(&self) -> (res: String)
        ensures
            res@ == encoded_text(self.0.raw_bytes()),
    {
        into_owned(self.to_str())
    }

    /// Writes the encoded text into `sink` with no string built in between: each run of
    /// unreserved bytes goes as one chunk, each escape as one chunk.
    ///
    /// The first push that fails ends the writing, and its error comes back as it is; the
    /// sink has then taken the chunks before the one it refused, and no more.
    pub fn write<S: TextSink>(&self, sink: &mut S) -> (res: Result<(), S::Error>)
        requires
            old(sink).failure() is None,
        ensures
            res is Ok ==> {
                &&& final(sink).failure() is None
                &&& final(sink).chunks() == old(sink).chunks() + encode_chunks(self.0.raw_bytes())
                &&& final(sink).chunks().flatten() == old(sink).chunks().flatten() + percent_encode(
                    self.0.raw_bytes(),
                )
            },
            res matches Err(e) ==> {
                &&& final(sink).failure() == Some(e)
                &&& exists|k: int|
                    0 <= k < encode_chunks(self.0.raw_bytes()).len() && final(sink).chunks() == old(
                        sink,
                    ).chunks() + #[trigger] encode_chunks(self.0.raw_bytes()).take(k)
            },
            S::never_fails() ==> res is Ok,
            self.0.raw_bytes().len() == 0 ==> res is Ok,
    {
        proof {
            lemma_encode_chunks_flatten(self.0.raw_bytes());
            lemma_flatten_concat(sink.chunks(), encode_chunks(self.0.raw_bytes()));
        }
        match encode_into(self.0.as_raw_bytes(), false, sink) {
            Ok(_) => Ok(()),
            Err(e) => Err(e),
        }
    }
}

/// Two wrappers are equal exactly when the values they hold are: the encoded form plays no
/// part.
impl<Str: PartialEq> PartialEq for Encoded<Str> {
    fn eq(&self, other: &Self) -> (res: bool) {
        self.0 == other.0
    }
}

impl<Str: PartialEq> PartialEqSpecImpl for Encoded<Str> {
    open spec fn obeys_eq_spec() -> bool {
        <Str as PartialEqSpec>::obeys_eq_spec()
    }

    open spec fn eq_spec(&self, other: &Self) -> bool {
        self.0.eq_spec(&other.0)
    }
}

} // verus!
