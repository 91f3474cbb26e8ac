//! Where encoded text goes: anything that takes it chunk by chunk, and may fail.
use vstd::prelude::*;
use vstd::string::*;
use vstd::utf8::*;
use std::convert::Infallible;
use crate::utf8::{lemma_encode_utf8_concat, string_with_capacity};

verus! {

/// A destination for text, fed one chunk at a time. A sink that has failed once is not fed
/// again.
pub trait TextSink {
    /// What a failed push reports.
    type Error;

    /// The chunks that the sink has taken so far, each as its bytes, in the order in which
    /// they came. Run together they are the text that the sink has taken.
    spec fn chunks(&self) -> Seq<Seq<u8>>;

    /// The error of the push that failed, if one did.
    spec fn failure(&self) -> Option<Self::Error>;

    /// Whether a push into a sink of this type always succeeds.
    spec fn never_fails() -> bool;

    /// Hands the sink one more chunk. A chunk is taken whole or not at all: where the push
    /// fails, the sink has taken what it had taken before, and keeps the error on record.
    fn push_str(&mut self, chunk: &str) -> (res: Result<(), Self::Error>)
        requires
            old(self).failure() is None,
        ensures
            res is Ok ==> {
                &&& final(self).chunks() == old(self).chunks().push(chunk.spec_bytes())
                &&& final(self).failure() is None
            },
            res matches Err(e) ==> {
                &&& final(self).chunks() == old(self).chunks()
                &&& final(self).failure() == Some(e)
            },
            Self::never_fails() ==> res is Ok,
    ;
}

/// A string that is filled chunk by chunk, together with the record of the chunks.
pub struct TextBuffer {
    text: String,
    log: Ghost<Seq<Seq<u8>>>,
}

impl TextBuffer {
    /// An empty buffer.
    pub fn new() -> (res: Self)
        ensures
            res.chunks() == Seq::<Seq<u8>>::empty(),
    {
        TextBuffer { text: String::new(), log: Ghost(Seq::empty()) }
    }

    /// An empty buffer with room for `capacity` bytes, where that much room can be asked for.
    pub fn with_capacity(capacity: usize) -> (res: Self)
        ensures
            res.chunks() == Seq::<Seq<u8>>::empty(),
    {
        let text = if capacity <= isize::MAX as usize {
            string_with_capacity(capacity)
        } else {
            String::new()
        };
        TextBuffer { text, log: Ghost(Seq::empty()) }
    }

    /// The text that the chunks spell, as a string.
    pub fn into_string(self) -> (res: String)
        ensures
            encode_utf8(res@) == self.chunks().flatten(),
    {
        proof {
            seq![encode_utf8(self.text@)].lemma_flatten_one_element();
        }
        self.text
    }
}

/// A buffer takes a chunk by appending it, and never fails.
impl TextSink for TextBuffer {
    type Error = Infallible;

    /// The record, which spells the text: only `push_str` changes either, and it changes
    /// both. A record that did not spell the text would count for nothing, and the text
    /// would stand as one chunk.
    closed spec fn chunks(&self) -> Seq<Seq<u8>> {
        if self.log@.flatten() == encode_utf8(self.text@) {
            self.log@
        } else {
            seq![encode_utf8(self.text@)]
        }
    }

    open spec fn failure(&self) -> Option<Infallible> {
        None
    }

    open spec fn never_fails() -> bool {
        true
    }

    fn push_str(&mut self, chunk: &str) -> (res: Result<(), Infallible>) {
        let ghost before = self.chunks();
        proof {
            seq![encode_utf8(self.text@)].lemma_flatten_one_element();
            before.lemma_flatten_push(chunk.spec_bytes());
            lemma_encode_utf8_concat(self.text@, chunk@);
        }
        self.text.append(chunk);
        self.log = Ghost(before.push(chunk.spec_bytes()));
        Ok(())
    }
}

/// The plain form of a destination: it takes a chunk or fails, and promises nothing more.
/// This is what a file, a socket or a formatter can offer.
pub trait ChunkWriter {
    /// What a failed write reports.
    type Error;

    /// Takes one chunk, or fails.
    fn write_chunk(&mut self, chunk: &str) -> Result<(), Self::Error>;
}

/// A `ChunkWriter` together with the record of the chunks it has accepted and of the error
/// it gave, which makes it a `TextSink`.
pub struct Logged<W: ChunkWriter> {
    writer: W,
    log: Ghost<Seq<Seq<u8>>>,
    failed: Ghost<Option<W::Error>>,
}

impl<W: ChunkWriter> Logged<W> {
    /// The writer inside.
    pub closed spec fn inner(self) -> W {
        self.writer
    }

    /// Starts the record for `writer`: nothing accepted yet, and no failure.
    pub fn new(writer: W) -> (res: Self)
        ensures
            res.inner() == writer,
            res.chunks() == Seq::<Seq<u8>>::empty(),
            res.failure() is None,
    {
        Logged { writer, log: Ghost(Seq::empty()), failed: Ghost(None) }
    }

    /// Gives the writer back.
    pub fn into_inner(self) -> (res: W)
        ensures
            res == self.inner(),
    {
        self.writer
    }

    /// Enters into the record what the writer answered when it was handed `chunk`, and hands
    /// the answer on: a chunk that the writer accepted is taken, a chunk that it refused is
    /// not, and the error of the refusal is kept. The writer itself is left alone.
    fn record(&mut self, chunk: &str, outcome: Result<(), W::Error>) -> (res: Result<
        (),
        W::Error,
    >)
        ensures
            res == outcome,
            final(self).inner() == old(self).inner(),
            final(self).chunks() == if outcome is Ok {
                old(self).chunks().push(chunk.spec_bytes())
            } else {
                old(self).chunks()
            },
            final(self).failure() == match outcome {
                Ok(_) => old(self).failure(),
                Err(e) => Some(e),
            },
    {
        if outcome.is_ok() {
            self.log = Ghost(self.log@.push(chunk.spec_bytes()));
        } else {
            self.failed = Ghost(outcome.err());
        }
        outcome
    }
}

/// The writer decides whether a push succeeds. What the sink has taken is what the writer
/// returned `Ok` for.
impl<W: ChunkWriter> TextSink for Logged<W> {
    type Error = W::Error;

    closed spec fn chunks(&self) -> Seq<Seq<u8>> {
        self.log@
    }

    closed spec fn failure(&self) -> Option<W::Error> {
        self.failed@
    }

    open spec fn never_fails() -> bool {
        false
    }

    /// Hands `chunk` to the writer, as it is: the answer of the push is an answer of the
    /// writer to this chunk, and the writer is afterwards as that call left it.
    fn push_str(&mut self, chunk: &str) -> (res: Result<(), W::Error>)
        ensures
            exists|w: &mut W|
                {
                    &&& mut_ref_current(w) == old(self).inner()
                    &&& mut_ref_future(w) == final(self).inner()
                    &&& #[trigger] call_ensures(W::write_chunk, (w, chunk), res)
                },
    {
        let outcome = self.writer.write_chunk(chunk);
        self.record(chunk, outcome)
    }
}

} // verus!
