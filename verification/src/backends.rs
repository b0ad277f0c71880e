//! Sources and sinks of compressed words.
//!
//! A backend that holds its words in memory describes them by a sequence:
//! [`ReadWords::pending`] for the words still to be read and
//! [`WriteWords::written`] for the words written so far. Such a backend
//! reports [`ReadWords::reads_known`] or [`WriteWords::writes_known`], and
//! for it every operation is pinned down by these sequences. A backend that
//! wraps an iterator or a callback reports neither: what a read of the one
//! hands back is told by what the iterator will yield, see
//! [`IteratorReadWords::read`], and what a write to the other answers by
//! what the callback ensures, see [`WriteWords::write_effect`]. A sink may
//! be handed the words that it accepts, [`WriteWords::accepts`]: every word
//! for a buffer, and for a callback the words that the callback admits.

use smallvec::SmallVec;
use vstd::prelude::*;
use vstd::std_specs::iter::IteratorSpec;

verus! {

/// The order in which a backend hands back the words it holds.
pub trait Semantics: Default {

}

/// Last in, first out.
#[derive(Debug, Default)]
pub struct Stack {}

impl Semantics for Stack {

}

/// First in, first out.
#[derive(Debug, Default)]
pub struct Queue {}

impl Semantics for Queue {

}

/// What a read hands back when `before` are the words pending before it, and
/// the words `after` that are pending once it returns.
pub open spec fn read_follows<Word, E>(
    before: Seq<Word>,
    result: Result<Option<Word>, E>,
    after: Seq<Word>,
) -> bool {
    if before.len() > 0 {
        result == Ok::<Option<Word>, E>(Some(before[0])) && after == before.drop_first()
    } else {
        result == Ok::<Option<Word>, E>(None) && after == before
    }
}

/// The room of a sink after one more word went in.
pub open spec fn room_after_write(room: Option<nat>) -> Option<nat> {
    match room {
        Some(n) => Some((n - 1) as nat),
        None => None,
    }
}

/// Whether a sink with the room `room` takes `count` more words.
pub open spec fn room_for(room: Option<nat>, count: nat) -> bool {
    match room {
        Some(n) => count <= n,
        None => true,
    }
}

/// How many of `count` words a sink with the room `room` takes.
pub open spec fn words_taken(room: Option<nat>, count: nat) -> nat {
    match room {
        Some(n) => if n < count {
            n
        } else {
            count
        },
        None => count,
    }
}

/// The room of a sink after `count` more words went in.
pub open spec fn room_less(room: Option<nat>, count: nat) -> Option<nat> {
    match room {
        Some(n) => Some((n - count) as nat),
        None => None,
    }
}

/// A source of compressed words.
pub trait ReadWords<Word, S: Semantics> {
    type ReadError: core::fmt::Debug;

    /// Whether the backend's value determines the words it will yield.
    spec fn reads_known(&self) -> bool;

    /// The words that remain to be read, the next one first.
    spec fn pending(&self) -> Seq<Word>;

    /// What one read that answers `result` and leaves `after` does to the
    /// backend apart from its pending words.
    spec fn read_effect(&self, result: Result<Option<Word>, Self::ReadError>, after: &Self) -> bool;

    /// What `maybe_exhausted` answers.
    spec fn seems_exhausted(&self) -> bool;

    /// The words that the backend reads from and keeps while it reads: the
    /// words of the buffer of a cursor, in storage order; none for a backend
    /// that gives its words away.
    spec fn kept_words(&self) -> Seq<Word>;

    /// Hands back the next word, or `None` when no word is left.
    fn read(&mut self) -> (result: Result<Option<Word>, Self::ReadError>)
        ensures
            old(self).reads_known() ==> final(self).reads_known() && read_follows(
                old(self).pending(),
                result,
                final(self).pending(),
            ),
            old(self).read_effect(result, final(self)),
            final(self).kept_words() == old(self).kept_words(),
    ;

    /// Whether the backend may have no word left. Never `false` when no
    /// word is left; a backend that cannot tell answers `true`.
    fn maybe_exhausted(&self) -> (exhausted: bool)
        ensures
            exhausted == self.seems_exhausted(),
            self.reads_known() && self.pending().len() == 0 ==> exhausted,
    ;
}

/// Whether `sink` may be handed every word.
pub open spec fn accepts_every_word<Word, Sink: WriteWords<Word>>(sink: Sink) -> bool {
    forall|word: Word| #[trigger] sink.accepts(word)
}

/// A sink for compressed words.
pub trait WriteWords<Word> {
    type WriteError: core::fmt::Debug;

    /// Whether the backend's value determines the words it has taken.
    spec fn writes_known(&self) -> bool;

    /// The words written so far, the oldest first.
    spec fn written(&self) -> Seq<Word>;

    /// How many more words the sink takes; `None` where it is not bounded.
    spec fn room(&self) -> Option<nat>;

    /// Whether the sink may be handed `word`. A sink that passes its words
    /// on to a callback may be handed the words that the callback admits.
    spec fn accepts(&self, word: Word) -> bool;

    /// What one write of `word` that answers `result` and leaves `after`
    /// does apart from the words written and the room.
    spec fn write_effect(&self, word: Word, result: Result<(), Self::WriteError>, after: &Self) -> bool;

    /// Appends `word`, or fails and leaves the sink as it was when it is full.
    fn write(&mut self, word: Word) -> (result: Result<(), Self::WriteError>)
        requires
            old(self).accepts(word),
        ensures
            forall|other: Word| old(self).accepts(other) ==> #[trigger] final(self).accepts(other),
            old(self).write_effect(word, result, final(self)),
            old(self).writes_known() ==> final(self).writes_known(),
            old(self).writes_known() && old(self).room() != Some(0nat) ==> result is Ok
                && final(self).written() == old(self).written().push(word) && final(self).room()
                == room_after_write(old(self).room()),
            old(self).writes_known() && old(self).room() == Some(0nat) ==> result is Err
                && final(self).written() == old(self).written() && final(self).room() == old(
                self,
            ).room(),
    ;

    /// Appends the words of `words` in order, and stops at the first failure.
    fn extend_from_iter(&mut self, words: &[Word]) -> (result: Result<(), Self::WriteError>) where
        Word: Copy,

        requires
            forall|i: int| 0 <= i < words@.len() ==> old(self).accepts(#[trigger] words@[i]),
        ensures
            forall|other: Word| old(self).accepts(other) ==> #[trigger] final(self).accepts(other),
            old(self).writes_known() ==> final(self).writes_known(),
            old(self).writes_known() ==> ({
                let taken = words_taken(old(self).room(), words@.len());
                &&& result is Ok <==> room_for(old(self).room(), words@.len())
                &&& final(self).written() == old(self).written() + words@.take(taken as int)
                &&& final(self).room() == room_less(old(self).room(), taken)
            }),
    ;

    /// Never `false` when the sink takes no more words.
    fn maybe_full(&self) -> (full: bool)
        ensures
            self.writes_known() && self.room() == Some(0nat) ==> full,
    {
        true
    }
}

/// A source that knows how many words it still holds.
pub trait BoundedReadWords<Word, S: Semantics>: ReadWords<Word, S> {
    /// The number of words that remain to be read.
    fn remaining(&self) -> (n: usize)
        ensures
            self.reads_known() ==> n == self.pending().len(),
    ;

    /// Whether no word remains to be read.
    fn is_exhausted(&self) -> (exhausted: bool)
        ensures
            self.reads_known() ==> (exhausted <==> self.pending().len() == 0),
    {
        self.remaining() == 0
    }
}

/// A sink that knows how many more words it takes.
pub trait BoundedWriteWords<Word>: WriteWords<Word> {
    /// The number of words that may still be written.
    fn space(&self) -> (n: usize)
        ensures
            self.writes_known() ==> self.room() == Some(n as nat),
    ;

    /// Whether no word may be written any more.
    fn is_full(&self) -> (full: bool)
        ensures
            self.writes_known() ==> (full <==> self.room() == Some(0nat)),
    {
        self.space() == 0
    }
}

/// A backend that keeps track of its position in the compressed data.
pub trait PosBackend<Word> {
    /// The position, counted in words.
    spec fn position(&self) -> nat;

    /// The position, counted in words.
    fn pos(&self) -> (p: usize)
        ensures
            p == self.position(),
    ;
}

/// A backend that can jump to a position.
pub trait SeekBackend<Word>: Sized {
    /// The backend after a jump to `pos`, or `None` where `pos` is not a
    /// position of this backend.
    spec fn sought(&self, pos: nat) -> Option<Self>;

    /// Jumps to `pos`, or fails and leaves the backend as it was.
    fn seek(&mut self, pos: usize) -> (result: Result<(), ()>)
        ensures
            match old(self).sought(pos as nat) {
                Some(target) => result is Ok && *final(self) == target,
                None => result is Err && *final(self) == *old(self),
            },
    ;
}

/// A buffer that can be turned into a source with the semantics `S`.
pub trait IntoReadWords<Word, S: Semantics>: Sized {
    type IntoReadWords: ReadWords<Word, S>;

    /// The words of the buffer in the order in which the source yields them.
    spec fn read_order(&self) -> Seq<Word>;

    /// The words that the source keeps while it reads.
    spec fn source_words(&self) -> Seq<Word>;

    /// The source that reads all words of `self`.
    fn into_read_backend(self) -> (backend: Self::IntoReadWords)
        ensures
            backend.reads_known(),
            backend.pending() == self.read_order(),
            backend.kept_words() == self.source_words(),
    ;
}

/// A buffer that can lend its words to a source with the semantics `S`.
pub trait AsReadWords<'a, Word, S: Semantics>: 'a {
    type AsReadWords: ReadWords<Word, S>;

    /// The words of the buffer in the order in which the source yields them.
    spec fn lent_read_order(&self) -> Seq<Word>;

    /// The words that the source keeps while it reads.
    spec fn lent_source_words(&self) -> Seq<Word>;

    /// The source that reads all words of `self`.
    fn as_read_backend(&'a self) -> (backend: Self::AsReadWords)
        ensures
            backend.reads_known(),
            backend.pending() == self.lent_read_order(),
            backend.kept_words() == self.lent_source_words(),
    ;
}

/// A buffer that can be turned into a source that can also jump.
pub trait IntoSeekReadWords<Word, S: Semantics>: Sized {
    type IntoSeekReadWords: SeekBackend<Word> + ReadWords<Word, S>;

    /// The words of the buffer in the order in which the source yields them.
    spec fn seek_read_order(&self) -> Seq<Word>;

    /// The source that reads all words of `self`.
    fn into_seek_read_backend(self) -> (backend: Self::IntoSeekReadWords)
        ensures
            backend.reads_known(),
            backend.pending() == self.seek_read_order(),
    ;
}

/// A buffer that can lend its words to a source that can also jump.
pub trait AsSeekReadWords<'a, Word, S: Semantics>: 'a {
    type AsSeekReadWords: SeekBackend<Word> + ReadWords<Word, S>;

    /// The words of the buffer in the order in which the source yields them.
    spec fn lent_seek_read_order(&self) -> Seq<Word>;

    /// The source that reads all words of `self`.
    fn as_seek_read_backend(&'a self) -> (backend: Self::AsSeekReadWords)
        ensures
            backend.reads_known(),
            backend.pending() == self.lent_seek_read_order(),
    ;
}

/// A buffer that can be turned into a sink that can also jump.
pub trait IntoSeekWriteWords<Word, S: Semantics>: Sized {
    type IntoSeekWriteWords: SeekBackend<Word> + WriteWords<Word>;

    /// The words that count as written when the sink starts.
    spec fn written_at_start(&self) -> Seq<Word>;

    /// The number of words that the sink takes from its start on.
    spec fn room_at_start(&self) -> nat;

    /// The sink that is placed where a reader with the semantics `S` starts.
    fn into_seek_write_backend(self) -> (backend: Self::IntoSeekWriteWords)
        ensures
            backend.writes_known(),
            backend.written() == self.written_at_start(),
            backend.room() == Some(self.room_at_start()),
            forall|word: Word| #[trigger] backend.accepts(word),
    ;
}

/// A buffer that can lend its words to a sink that can also jump.
pub trait AsSeekWriteWords<'a, Word, S: Semantics>: 'a {
    type AsSeekWriteWords: SeekBackend<Word> + WriteWords<Word>;

    /// The words that count as written when the sink starts.
    spec fn lent_written_at_start(&self) -> Seq<Word>;

    /// The number of words that the sink takes from its start on.
    spec fn lent_room_at_start(&self) -> nat;

    /// The sink that is placed where a reader with the semantics `S` starts.
    fn as_seek_write_backend(&'a mut self) -> (backend: Self::AsSeekWriteWords)
        ensures
            backend.writes_known(),
            backend.written() == old(self).lent_written_at_start(),
            backend.room() == Some(old(self).lent_room_at_start()),
            forall|word: Word| #[trigger] backend.accepts(word),
    ;
}

// A growable buffer: writes append, reads pop from the end.

impl<Word> WriteWords<Word> for Vec<Word> {
    type WriteError = core::convert::Infallible;

    open spec fn writes_known(&self) -> bool {
        true
    }

    open spec fn written(&self) -> Seq<Word> {
        self@
    }

    open spec fn room(&self) -> Option<nat> {
        None
    }

    open spec fn accepts(&self, word: Word) -> bool {
        true
    }

    open spec fn write_effect(&self, word: Word, result: Result<(), Self::WriteError>, after: &Self) -> bool {
        true
    }

    fn write(&mut self, word: Word) -> (result: Result<(), Self::WriteError>) {
        self.push(word);
        Ok(())
    }

    fn extend_from_iter(&mut self, words: &[Word]) -> (result: Result<(), Self::WriteError>) where
        Word: Copy,
     {
        let mut i: usize = 0;
        while i < words.len()
            invariant
                i <= words.len(),
                forall|j: int| 0 <= j < words@.len() ==> old(self).accepts(#[trigger] words@[j]),
                forall|other: Word| old(self).accepts(other) ==> #[trigger] self.accepts(other),
                old(self).writes_known() ==> self.writes_known() && room_for(
                    old(self).room(),
                    i as nat,
                ) && self.written() == old(self).written() + words@.take(i as int) && self.room()
                    == room_less(old(self).room(), i as nat),
            decreases words.len() - i,
        {
            match self.write(words[i]) {
                Ok(()) => {},
                Err(e) => {
                    return Err(e);
                },
            }
            proof {
                assert(words@.take(i as int).push(words@[i as int]) =~= words@.take(i + 1));
                assert((old(self).written() + words@.take(i as int)).push(words@[i as int])
                    =~= old(self).written() + words@.take(i + 1));
            }
            i += 1;
        }
        proof {
            assert(words@.take(i as int) =~= words@);
        }
        Ok(())
    }

    fn maybe_full(&self) -> (full: bool)
        ensures
            !full,
    {
        false
    }
}

impl<Word: Copy> ReadWords<Word, Stack> for Vec<Word> {
    type ReadError = core::convert::Infallible;

    open spec fn reads_known(&self) -> bool {
        true
    }

    open spec fn pending(&self) -> Seq<Word> {
        self@.reverse()
    }

    open spec fn read_effect(&self, result: Result<Option<Word>, Self::ReadError>, after: &Self) -> bool {
        true
    }

    open spec fn seems_exhausted(&self) -> bool {
        self@.len() == 0
    }

    open spec fn kept_words(&self) -> Seq<Word> {
        Seq::empty()
    }

    fn read(&mut self) -> (result: Result<Option<Word>, Self::ReadError>)
        ensures
            old(self)@.len() > 0 ==> result == Ok::<Option<Word>, Self::ReadError>(
                Some(old(self)@.last()),
            ) && final(self)@ == old(self)@.drop_last(),
            old(self)@.len() == 0 ==> result == Ok::<Option<Word>, Self::ReadError>(None) && final(self)@ == old(self)@,
    {
        let word = self.pop();
        proof {
            assert(old(self)@.len() > 0 ==> old(self)@.reverse().drop_first() =~= self@.reverse());
        }
        Ok(word)
    }

    fn maybe_exhausted(&self) -> (exhausted: bool)
        ensures
            exhausted <==> self@.len() == 0,
    {
        self.is_empty()
    }
}

impl<Word: Copy> BoundedReadWords<Word, Stack> for Vec<Word> {
    fn remaining(&self) -> (n: usize) {
        self.len()
    }
}

impl<Word> PosBackend<Word> for Vec<Word> {
    open spec fn position(&self) -> nat {
        self@.len()
    }

    fn pos(&self) -> (p: usize) {
        self.len()
    }
}

// The adapter that swaps the reading direction.

/// A backend whose reads count for the opposite semantics.
///
/// It reads the very words that the wrapped backend reads, in the same
/// order; only the semantics under which it offers them is the other one.
#[derive(Debug)]
pub struct ReverseReads<Backend>(pub Backend);

impl<Word, B: WriteWords<Word>> WriteWords<Word> for ReverseReads<B> {
    type WriteError = B::WriteError;

    open spec fn writes_known(&self) -> bool {
        self.0.writes_known()
    }

    open spec fn written(&self) -> Seq<Word> {
        self.0.written()
    }

    open spec fn room(&self) -> Option<nat> {
        self.0.room()
    }

    open spec fn accepts(&self, word: Word) -> bool {
        self.0.accepts(word)
    }

    open spec fn write_effect(&self, word: Word, result: Result<(), Self::WriteError>, after: &Self) -> bool {
        self.0.write_effect(word, result, &after.0)
    }

    fn write(&mut self, word: Word) -> (result: Result<(), Self::WriteError>) {
        self.0.write(word)
    }

    fn extend_from_iter(&mut self, words: &[Word]) -> (result: Result<(), Self::WriteError>) where
        Word: Copy,
     {
        self.0.extend_from_iter(words)
    }
}

impl<Word, B: ReadWords<Word, Stack>> ReadWords<Word, Queue> for ReverseReads<B> {
    type ReadError = B::ReadError;

    open spec fn reads_known(&self) -> bool {
        self.0.reads_known()
    }

    open spec fn pending(&self) -> Seq<Word> {
        self.0.pending()
    }

    open spec fn read_effect(&self, result: Result<Option<Word>, Self::ReadError>, after: &Self) -> bool {
        self.0.read_effect(result, &after.0)
    }

    open spec fn seems_exhausted(&self) -> bool {
        self.0.seems_exhausted()
    }

    open spec fn kept_words(&self) -> Seq<Word> {
        self.0.kept_words()
    }

    fn read(&mut self) -> (result: Result<Option<Word>, Self::ReadError>) {
        self.0.read()
    }

    fn maybe_exhausted(&self) -> (exhausted: bool) {
        self.0.maybe_exhausted()
    }
}

impl<Word, B: ReadWords<Word, Queue>> ReadWords<Word, Stack> for ReverseReads<B> {
    type ReadError = B::ReadError;

    open spec fn reads_known(&self) -> bool {
        self.0.reads_known()
    }

    open spec fn pending(&self) -> Seq<Word> {
        self.0.pending()
    }

    open spec fn read_effect(&self, result: Result<Option<Word>, Self::ReadError>, after: &Self) -> bool {
        self.0.read_effect(result, &after.0)
    }

    open spec fn seems_exhausted(&self) -> bool {
        self.0.seems_exhausted()
    }

    open spec fn kept_words(&self) -> Seq<Word> {
        self.0.kept_words()
    }

    fn read(&mut self) -> (result: Result<Option<Word>, Self::ReadError>) {
        self.0.read()
    }

    fn maybe_exhausted(&self) -> (exhausted: bool) {
        self.0.maybe_exhausted()
    }
}

impl<Word, B: BoundedReadWords<Word, Stack>> BoundedReadWords<Word, Queue> for ReverseReads<B> {
    fn remaining(&self) -> (n: usize) {
        self.0.remaining()
    }

    fn is_exhausted(&self) -> (exhausted: bool) {
        self.0.is_exhausted()
    }
}

impl<Word, B: BoundedReadWords<Word, Queue>> BoundedReadWords<Word, Stack> for ReverseReads<B> {
    fn remaining(&self) -> (n: usize) {
        self.0.remaining()
    }

    fn is_exhausted(&self) -> (exhausted: bool) {
        self.0.is_exhausted()
    }
}

impl<Word, B: PosBackend<Word>> PosBackend<Word> for ReverseReads<B> {
    open spec fn position(&self) -> nat {
        self.0.position()
    }

    fn pos(&self) -> (p: usize) {
        self.0.pos()
    }
}

impl<Word, B: SeekBackend<Word>> SeekBackend<Word> for ReverseReads<B> {
    open spec fn sought(&self, pos: nat) -> Option<Self> {
        match self.0.sought(pos) {
            Some(target) => Some(ReverseReads(target)),
            None => None,
        }
    }

    fn seek(&mut self, pos: usize) -> (result: Result<(), ()>) {
        self.0.seek(pos)
    }
}

// A cursor over a buffer in memory.

/// A buffer whose words can be read in place.
pub trait AsWords<Word> {
    /// The words of the buffer, in storage order.
    spec fn words(&self) -> Seq<Word>;

    /// The words of the buffer, in storage order.
    fn as_words(&self) -> (slice: &[Word])
        ensures
            slice@ == self.words(),
    ;
}

/// A buffer whose words can be overwritten in place.
pub trait AsWordsMut<Word>: AsWords<Word> {
    /// The words of the buffer, open to change; what the slice holds in the
    /// end is what the buffer holds.
    fn as_words_mut(&mut self) -> (slice: &mut [Word])
        ensures
            slice@ == old(self).words(),
            final(self).words() == final(slice)@,
    ;
}

impl<Word> AsWords<Word> for Vec<Word> {
    open spec fn words(&self) -> Seq<Word> {
        self@
    }

    fn as_words(&self) -> (slice: &[Word]) {
        self.as_slice()
    }
}

impl<Word> AsWordsMut<Word> for Vec<Word> {
    fn as_words_mut(&mut self) -> (slice: &mut [Word]) {
        self.as_mut_slice()
    }
}

impl<'a, Word> AsWords<Word> for &'a Vec<Word> {
    open spec fn words(&self) -> Seq<Word> {
        (**self)@
    }

    fn as_words(&self) -> (slice: &[Word]) {
        (**self).as_slice()
    }
}

impl<'a, Word> AsWords<Word> for &'a [Word] {
    open spec fn words(&self) -> Seq<Word> {
        (**self)@
    }

    fn as_words(&self) -> (slice: &[Word]) {
        *self
    }
}

/// The error of a sink that is full.
#[derive(Debug, Clone, PartialEq, Eq)]
pub enum BoundedWriteError {
    OutOfSpace,
}

impl BoundedWriteError {
    /// The error in words.
    pub fn message(&self) -> (text: String)
        ensures
            text@ == "Out of space."@,
    {
        "Out of space.".to_string()
    }
}

/// A buffer together with a position in it.
///
/// The position is the index of the next word that a queue reader reads or
/// a writer writes, and one more than the index of the next word that a
/// stack reader reads.
#[derive(Clone, Debug)]
pub struct Cursor<Buf> {
    buf: Buf,
    pos: usize,
}

impl<Buf> Cursor<Buf> {
    /// The buffer.
    pub closed spec fn buffer(&self) -> Buf {
        self.buf
    }

    /// The position.
    pub closed spec fn cursor_pos(&self) -> nat {
        self.pos as nat
    }

    /// The cursor over `buf` at `pos`.
    pub closed spec fn at(buf: Buf, pos: nat) -> Self {
        Cursor { buf, pos: pos as usize }
    }

    /// A cursor is its buffer and its position.
    pub proof fn lemma_at(buf: Buf, pos: nat)
        requires
            pos <= usize::MAX,
        ensures
            Self::at(buf, pos).buffer() == buf,
            Self::at(buf, pos).cursor_pos() == pos,
    {
    }

    /// Where a jump leads: to every position within the buffer a cursor can
    /// jump; it keeps its buffer, knows its words, and as a queue has then
    /// the words from the position on to read.
    pub proof fn lemma_jump<Word: Copy>(self, pos: nat) where Buf: AsWords<Word>
        requires
            pos <= self.buffer().words().len(),
            pos <= usize::MAX,
        ensures
            SeekBackend::<Word>::sought(&self, pos) is Some,
            ({
                let target = SeekBackend::<Word>::sought(&self, pos)->Some_0;
                &&& target.buffer() == self.buffer()
                &&& target.cursor_pos() == pos
                &&& ReadWords::<Word, Queue>::reads_known(&target)
                &&& ReadWords::<Word, Queue>::pending(&target) == self.buffer().words().skip(
                    pos as int,
                )
                &&& ReadWords::<Word, Queue>::kept_words(&target) == self.buffer().words()
            }),
    {
        Self::lemma_at(self.buffer(), pos);
    }

    /// The position lies within the buffer.
    pub open spec fn wf<Word>(&self) -> bool where Buf: AsWords<Word> {
        self.cursor_pos() <= self.buffer().words().len()
    }

    /// The words that a stack reader has yet to read, the next one first.
    pub open spec fn stack_pending<Word>(&self) -> Seq<Word> where Buf: AsWords<Word> {
        self.buffer().words().take(self.cursor_pos() as int).reverse()
    }

    /// The words that a queue reader has yet to read, the next one first.
    pub open spec fn queue_pending<Word>(&self) -> Seq<Word> where Buf: AsWords<Word> {
        self.buffer().words().skip(self.cursor_pos() as int)
    }

    /// The cursor that reads or writes `buf` from its first word on.
    pub fn new_at_write_beginning(buf: Buf) -> (cursor: Self)
        ensures
            cursor.buffer() == buf,
            cursor.cursor_pos() == 0,
    {
        Self { buf, pos: 0 }
    }

    /// The cursor behind the last word of `buf`.
    pub fn new_at_write_end<Word>(buf: Buf) -> (cursor: Self) where Buf: AsWords<Word>
        ensures
            cursor.buffer() == buf,
            cursor.cursor_pos() == buf.words().len(),
    {
        let pos = buf.as_words().len();
        Self { buf, pos }
    }

    /// The cursor behind the last word of `buf`.
    pub fn new_at_write_end_mut<Word>(buf: Buf) -> (cursor: Self) where Buf: AsWordsMut<Word>
        ensures
            cursor.buffer() == buf,
            cursor.cursor_pos() == buf.words().len(),
    {
        let pos = buf.as_words().len();
        Self { buf, pos }
    }

    /// The cursor over `buf` at `pos`; fails when `pos` lies behind the end.
    pub fn with_buf_and_pos<Word>(buf: Buf, pos: usize) -> (result: Result<Self, ()>) where
        Buf: AsWords<Word>,

        ensures
            pos <= buf.words().len() ==> result is Ok && result->Ok_0.buffer() == buf
                && result->Ok_0.cursor_pos() == pos,
            pos > buf.words().len() ==> result is Err,
    {
        if pos > buf.as_words().len() {
            Err(())
        } else {
            Ok(Self { buf, pos })
        }
    }

    /// The cursor over `buf` at `pos`; fails when `pos` lies behind the end.
    pub fn with_buf_and_pos_mut<Word>(buf: Buf, pos: usize) -> (result: Result<Self, ()>) where
        Buf: AsWordsMut<Word>,

        ensures
            pos <= buf.words().len() ==> result is Ok && result->Ok_0.buffer() == buf
                && result->Ok_0.cursor_pos() == pos,
            pos > buf.words().len() ==> result is Err,
    {
        if pos > buf.as_words().len() {
            Err(())
        } else {
            Ok(Self { buf, pos })
        }
    }

    /// A cursor at the same position that borrows the words.
    pub fn as_view<Word>(&self) -> (view: Cursor<&[Word]>) where Buf: AsWords<Word>
        ensures
            view.buffer()@ == self.buffer().words(),
            view.cursor_pos() == self.cursor_pos(),
    {
        Cursor { buf: self.buf.as_words(), pos: self.pos }
    }

    /// A cursor at the same position that borrows the words for writing.
    pub fn as_mut_view<Word>(&mut self) -> (view: Cursor<&mut [Word]>) where Buf: AsWordsMut<Word>
        ensures
            view.buffer()@ == old(self).buffer().words(),
            view.cursor_pos() == old(self).cursor_pos(),
            final(self).cursor_pos() == old(self).cursor_pos(),
            final(self).buffer().words() == final(view.buffer())@,
    {
        Cursor { buf: self.buf.as_words_mut(), pos: self.pos }
    }

    /// A cursor at the same position that owns a copy of the words.
    pub fn cloned<Word: Copy>(&self) -> (copy: Cursor<Vec<Word>>) where Buf: AsWords<Word>
        ensures
            copy.buffer()@ == self.buffer().words(),
            copy.cursor_pos() == self.cursor_pos(),
    {
        let slice = self.buf.as_words();
        let mut words: Vec<Word> = Vec::new();
        let mut i: usize = 0;
        while i < slice.len()
            invariant
                i <= slice.len(),
                words@ == slice@.take(i as int),
            decreases slice.len() - i,
        {
            words.push(slice[i]);
            proof {
                assert(slice@.take(i as int).push(slice@[i as int]) =~= slice@.take(i + 1));
            }
            i += 1;
        }
        proof {
            assert(slice@.take(i as int) =~= slice@);
        }
        Cursor { buf: words, pos: self.pos }
    }

    /// The buffer.
    pub fn buf(&self) -> (buf: &Buf)
        ensures
            *buf == self.buffer(),
    {
        &self.buf
    }

    /// The buffer and the position.
    pub fn into_buf_and_pos(self) -> (parts: (Buf, usize))
        ensures
            parts.0 == self.buffer(),
            parts.1 == self.cursor_pos(),
    {
        (self.buf, self.pos)
    }

    /// Reads as a stack: steps back by one word and hands that word back,
    /// or hands back `None` at the first word. The buffer stays as it is.
    pub fn read_stack<Word: Copy>(&mut self) -> (word: Option<Word>) where Buf: AsWords<Word>
        ensures
            final(self).buffer() == old(self).buffer(),
            old(self).wf::<Word>() && old(self).cursor_pos() > 0 ==> word == Some(
                old(self).buffer().words()[old(self).cursor_pos() - 1],
            ) && final(self).cursor_pos() == old(self).cursor_pos() - 1,
            !(old(self).wf::<Word>() && old(self).cursor_pos() > 0) ==> word is None && final(self).cursor_pos() == old(self).cursor_pos(),
    {
        let slice = self.buf.as_words();
        if self.pos == 0 || self.pos > slice.len() {
            None
        } else {
            self.pos -= 1;
            Some(slice[self.pos])
        }
    }

    /// Reads as a queue: hands back the word at the position and steps
    /// forward by one word, or hands back `None` behind the last word. The
    /// buffer stays as it is.
    pub fn read_queue<Word: Copy>(&mut self) -> (word: Option<Word>) where Buf: AsWords<Word>
        ensures
            final(self).buffer() == old(self).buffer(),
            old(self).cursor_pos() < old(self).buffer().words().len() ==> word == Some(
                old(self).buffer().words()[old(self).cursor_pos() as int],
            ) && final(self).cursor_pos() == old(self).cursor_pos() + 1,
            old(self).cursor_pos() >= old(self).buffer().words().len() ==> word is None && final(self).cursor_pos() == old(self).cursor_pos(),
    {
        let slice = self.buf.as_words();
        if self.pos < slice.len() {
            let word = slice[self.pos];
            self.pos += 1;
            Some(word)
        } else {
            None
        }
    }

    /// Reverses both the words and the reading direction.
    ///
    /// The words are reversed in place and the position is mirrored. Read
    /// with the opposite semantics, the result yields the words that the
    /// cursor would have yielded.
    pub fn into_reversed<Word: Copy>(self) -> (reversed: ReverseReads<Self>) where
        Buf: AsWordsMut<Word>,

        requires
            self.wf::<Word>(),
        ensures
            reversed.0.buffer().words() == self.buffer().words().reverse(),
            reversed.0.cursor_pos() == self.buffer().words().len() - self.cursor_pos(),
            reversed.0.wf::<Word>(),
            reversed.0.queue_pending::<Word>() == self.stack_pending::<Word>(),
            reversed.0.stack_pending::<Word>() == self.queue_pending::<Word>(),
    {
        let ghost before = self.buf.words();
        let mut cursor = self;
        let len = reverse_words(&mut cursor.buf);
        cursor.pos = len - cursor.pos;
        proof {
            let after = cursor.buf.words();
            let p = len - cursor.pos;
            assert(after.skip(cursor.pos as int) =~= before.take(p).reverse());
            assert(after.take(cursor.pos as int).reverse() =~= before.skip(p));
        }
        ReverseReads(cursor)
    }
}

/// Reverses the words of `buf` in place and hands back their number.
fn reverse_words<Word: Copy, Buf: AsWordsMut<Word>>(buf: &mut Buf) -> (len: usize)
    ensures
        final(buf).words() == old(buf).words().reverse(),
        len == old(buf).words().len(),
{
    let slice = buf.as_words_mut();
    let ghost before = slice@;
    let len = slice.len();
    let mut i: usize = 0;
    while i < len / 2
        invariant
            len == before.len(),
            slice@.len() == len,
            i <= len / 2,
            forall|k: int| 0 <= k < i ==> slice@[k] == before[len - 1 - k],
            forall|k: int| len - i <= k < len ==> slice@[k] == before[len - 1 - k],
            forall|k: int| i <= k < len - i ==> slice@[k] == before[k],
        decreases len / 2 - i,
    {
        let low = slice[i];
        let high = slice[len - 1 - i];
        slice[i] = high;
        slice[len - 1 - i] = low;
        i += 1;
    }
    proof {
        assert(slice@ =~= before.reverse());
    }
    len
}

impl<Buf> ReverseReads<Cursor<Buf>> {
    /// Reverses the words once more and removes the adapter.
    pub fn into_reversed<Word: Copy>(self) -> (cursor: Cursor<Buf>) where Buf: AsWordsMut<Word>
        requires
            self.0.wf::<Word>(),
        ensures
            cursor.buffer().words() == self.0.buffer().words().reverse(),
            cursor.cursor_pos() == self.0.buffer().words().len() - self.0.cursor_pos(),
            cursor.wf::<Word>(),
            cursor.queue_pending::<Word>() == self.0.stack_pending::<Word>(),
            cursor.stack_pending::<Word>() == self.0.queue_pending::<Word>(),
    {
        self.0.into_reversed().0
    }
}

impl<'a, Word> AsWords<Word> for &'a mut [Word] {
    open spec fn words(&self) -> Seq<Word> {
        (**self)@
    }

    fn as_words(&self) -> (slice: &[Word]) {
        &**self
    }
}

impl<'a, Word> AsWordsMut<Word> for &'a mut [Word] {
    fn as_words_mut(&mut self) -> (slice: &mut [Word]) {
        &mut **self
    }
}

impl<Word: Copy, Buf: AsWordsMut<Word>> WriteWords<Word> for Cursor<Buf> {
    type WriteError = BoundedWriteError;

    open spec fn writes_known(&self) -> bool {
        self.wf::<Word>()
    }

    open spec fn written(&self) -> Seq<Word> {
        self.buffer().words().take(self.cursor_pos() as int)
    }

    open spec fn room(&self) -> Option<nat> {
        Some((self.buffer().words().len() - self.cursor_pos()) as nat)
    }

    open spec fn accepts(&self, word: Word) -> bool {
        true
    }

    open spec fn write_effect(&self, word: Word, result: Result<(), Self::WriteError>, after: &Self) -> bool {
        true
    }

    fn write(&mut self, word: Word) -> (result: Result<(), BoundedWriteError>)
        ensures
            result is Ok ==> final(self).buffer().words() == old(self).buffer().words().update(
                old(self).cursor_pos() as int,
                word,
            ) && final(self).cursor_pos() == old(self).cursor_pos() + 1,
            result is Err ==> *final(self) == *old(self),
    {
        let ghost before = self.buf.words();
        if self.pos < self.buf.as_words().len() {
            let slice = self.buf.as_words_mut();
            slice[self.pos] = word;
            self.pos += 1;
            proof {
                let p = old(self).pos as int;
                assert(before.update(p, word).take(p + 1) =~= before.take(p).push(word));
            }
            Ok(())
        } else {
            Err(BoundedWriteError::OutOfSpace)
        }
    }

    fn extend_from_iter(&mut self, words: &[Word]) -> (result: Result<(), Self::WriteError>) where
        Word: Copy,
     {
        let mut i: usize = 0;
        while i < words.len()
            invariant
                i <= words.len(),
                forall|j: int| 0 <= j < words@.len() ==> old(self).accepts(#[trigger] words@[j]),
                forall|other: Word| old(self).accepts(other) ==> #[trigger] self.accepts(other),
                old(self).writes_known() ==> self.writes_known() && room_for(
                    old(self).room(),
                    i as nat,
                ) && self.written() == old(self).written() + words@.take(i as int) && self.room()
                    == room_less(old(self).room(), i as nat),
            decreases words.len() - i,
        {
            match self.write(words[i]) {
                Ok(()) => {},
                Err(e) => {
                    return Err(e);
                },
            }
            proof {
                assert(words@.take(i as int).push(words@[i as int]) =~= words@.take(i + 1));
                assert((old(self).written() + words@.take(i as int)).push(words@[i as int])
                    =~= old(self).written() + words@.take(i + 1));
            }
            i += 1;
        }
        proof {
            assert(words@.take(i as int) =~= words@);
        }
        Ok(())
    }
}

impl<Word: Copy, Buf: AsWordsMut<Word>> BoundedWriteWords<Word> for Cursor<Buf> {
    fn space(&self) -> (n: usize) {
        let len = self.buf.as_words().len();
        if self.pos <= len {
            len - self.pos
        } else {
            0
        }
    }
}

impl<Word: Copy, Buf: AsWords<Word>> ReadWords<Word, Stack> for Cursor<Buf> {
    type ReadError = core::convert::Infallible;

    open spec fn reads_known(&self) -> bool {
        self.wf::<Word>()
    }

    open spec fn pending(&self) -> Seq<Word> {
        self.stack_pending::<Word>()
    }

    open spec fn read_effect(&self, result: Result<Option<Word>, core::convert::Infallible>, after: &Self) -> bool {
        &&& after.buffer() == self.buffer()
        &&& if result == Ok::<Option<Word>, core::convert::Infallible>(None) {
            after.cursor_pos() == self.cursor_pos()
        } else {
            after.cursor_pos() + 1 == self.cursor_pos()
        }
    }

    open spec fn seems_exhausted(&self) -> bool {
        self.cursor_pos() == 0
    }

    open spec fn kept_words(&self) -> Seq<Word> {
        self.buffer().words()
    }

    fn read(&mut self) -> (result: Result<Option<Word>, core::convert::Infallible>) {
        let word = self.read_stack();
        proof {
            let words = old(self).buffer().words();
            let p = old(self).cursor_pos() as int;
            if old(self).wf::<Word>() && p > 0 {
                assert(words.take(p).reverse().drop_first() =~= words.take(p - 1).reverse());
            }
        }
        Ok(word)
    }

    fn maybe_exhausted(&self) -> (exhausted: bool) {
        self.pos == 0
    }
}

impl<Word: Copy, Buf: AsWords<Word>> ReadWords<Word, Queue> for Cursor<Buf> {
    type ReadError = core::convert::Infallible;

    open spec fn reads_known(&self) -> bool {
        self.wf::<Word>()
    }

    open spec fn pending(&self) -> Seq<Word> {
        self.queue_pending::<Word>()
    }

    open spec fn read_effect(&self, result: Result<Option<Word>, core::convert::Infallible>, after: &Self) -> bool {
        &&& after.buffer() == self.buffer()
        &&& if result == Ok::<Option<Word>, core::convert::Infallible>(None) {
            after.cursor_pos() == self.cursor_pos()
        } else {
            after.cursor_pos() == self.cursor_pos() + 1
        }
    }

    open spec fn seems_exhausted(&self) -> bool {
        self.cursor_pos() >= self.buffer().words().len()
    }

    open spec fn kept_words(&self) -> Seq<Word> {
        self.buffer().words()
    }

    fn read(&mut self) -> (result: Result<Option<Word>, core::convert::Infallible>) {
        let word = self.read_queue();
        proof {
            let words = old(self).buffer().words();
            let p = old(self).cursor_pos() as int;
            if p < words.len() {
                assert(words.skip(p).drop_first() =~= words.skip(p + 1));
            }
        }
        Ok(word)
    }

    fn maybe_exhausted(&self) -> (exhausted: bool) {
        self.pos >= self.buf.as_words().len()
    }
}

impl<Word: Copy, Buf: AsWords<Word>> BoundedReadWords<Word, Stack> for Cursor<Buf> {
    fn remaining(&self) -> (n: usize) {
        self.pos
    }
}

impl<Word: Copy, Buf: AsWords<Word>> BoundedReadWords<Word, Queue> for Cursor<Buf> {
    fn remaining(&self) -> (n: usize) {
        let len = self.buf.as_words().len();
        if self.pos <= len {
            len - self.pos
        } else {
            0
        }
    }
}

impl<Word, Buf: AsWords<Word>> PosBackend<Word> for Cursor<Buf> {
    open spec fn position(&self) -> nat {
        self.cursor_pos()
    }

    fn pos(&self) -> (p: usize) {
        self.pos
    }
}

impl<Word, Buf: AsWords<Word>> SeekBackend<Word> for Cursor<Buf> {
    open spec fn sought(&self, pos: nat) -> Option<Self> {
        if pos <= self.buffer().words().len() {
            Some(Self::at(self.buffer(), pos))
        } else {
            None
        }
    }

    fn seek(&mut self, pos: usize) -> (result: Result<(), ()>) {
        if pos > self.buf.as_words().len() {
            Err(())
        } else {
            self.pos = pos;
            Ok(())
        }
    }
}

// Buffers as backends.

impl<Word: Copy, Buf: AsWords<Word>> IntoReadWords<Word, Stack> for Buf {
    type IntoReadWords = Cursor<Buf>;

    open spec fn read_order(&self) -> Seq<Word> {
        self.words().reverse()
    }

    open spec fn source_words(&self) -> Seq<Word> {
        self.words()
    }

    fn into_read_backend(self) -> (backend: Cursor<Buf>) {
        let backend = Cursor::new_at_write_end(self);
        proof {
            assert(self.words().take(self.words().len() as int) =~= self.words());
        }
        backend
    }
}

impl<Word: Copy, Buf: AsWords<Word>> IntoReadWords<Word, Queue> for Buf {
    type IntoReadWords = Cursor<Buf>;

    open spec fn read_order(&self) -> Seq<Word> {
        self.words()
    }

    open spec fn source_words(&self) -> Seq<Word> {
        self.words()
    }

    fn into_read_backend(self) -> (backend: Cursor<Buf>) {
        let backend = Cursor::new_at_write_beginning(self);
        proof {
            assert(self.words().skip(0) =~= self.words());
        }
        backend
    }
}

impl<'a, Word: Copy + 'a, Buf: AsWords<Word> + 'a> AsReadWords<'a, Word, Stack> for Buf {
    type AsReadWords = Cursor<&'a [Word]>;

    open spec fn lent_read_order(&self) -> Seq<Word> {
        self.words().reverse()
    }

    open spec fn lent_source_words(&self) -> Seq<Word> {
        self.words()
    }

    fn as_read_backend(&'a self) -> (backend: Cursor<&'a [Word]>) {
        let backend = Cursor::new_at_write_end(self.as_words());
        proof {
            assert(self.words().take(self.words().len() as int) =~= self.words());
        }
        backend
    }
}

impl<'a, Word: Copy + 'a, Buf: AsWords<Word> + 'a> AsReadWords<'a, Word, Queue> for Buf {
    type AsReadWords = Cursor<&'a [Word]>;

    open spec fn lent_read_order(&self) -> Seq<Word> {
        self.words()
    }

    open spec fn lent_source_words(&self) -> Seq<Word> {
        self.words()
    }

    fn as_read_backend(&'a self) -> (backend: Cursor<&'a [Word]>) {
        let backend = Cursor::new_at_write_beginning(self.as_words());
        proof {
            assert(self.words().skip(0) =~= self.words());
        }
        backend
    }
}

impl<Word, Buf, S: Semantics> IntoSeekReadWords<Word, S> for Buf where
    Buf: AsWords<Word> + IntoReadWords<Word, S, IntoReadWords = Cursor<Buf>>,
    Cursor<Buf>: ReadWords<Word, S>,
 {
    type IntoSeekReadWords = Cursor<Buf>;

    open spec fn seek_read_order(&self) -> Seq<Word> {
        self.read_order()
    }

    fn into_seek_read_backend(self) -> (backend: Cursor<Buf>) {
        self.into_read_backend()
    }
}

impl<'a, Word: 'a, Buf, S: Semantics> AsSeekReadWords<'a, Word, S> for Buf where
    Buf: AsReadWords<'a, Word, S, AsReadWords = Cursor<&'a [Word]>>,
    Cursor<&'a [Word]>: ReadWords<Word, S>,
 {
    type AsSeekReadWords = Cursor<&'a [Word]>;

    open spec fn lent_seek_read_order(&self) -> Seq<Word> {
        self.lent_read_order()
    }

    fn as_seek_read_backend(&'a self) -> (backend: Cursor<&'a [Word]>) {
        self.as_read_backend()
    }
}

impl<Word: Copy, Buf: AsWordsMut<Word>> IntoSeekWriteWords<Word, Stack> for Buf {
    type IntoSeekWriteWords = Cursor<Buf>;

    open spec fn written_at_start(&self) -> Seq<Word> {
        self.words()
    }

    open spec fn room_at_start(&self) -> nat {
        0
    }

    fn into_seek_write_backend(self) -> (backend: Cursor<Buf>) {
        let backend = Cursor::new_at_write_end_mut(self);
        proof {
            assert(self.words().take(self.words().len() as int) =~= self.words());
        }
        backend
    }
}

impl<Word: Copy, Buf: AsWordsMut<Word>> IntoSeekWriteWords<Word, Queue> for Buf {
    type IntoSeekWriteWords = Cursor<Buf>;

    open spec fn written_at_start(&self) -> Seq<Word> {
        Seq::empty()
    }

    open spec fn room_at_start(&self) -> nat {
        self.words().len()
    }

    fn into_seek_write_backend(self) -> (backend: Cursor<Buf>) {
        let backend = Cursor::new_at_write_beginning(self);
        proof {
            assert(self.words().take(0) =~= Seq::<Word>::empty());
        }
        backend
    }
}

impl<'a, Word: Copy + 'a, Buf: AsWordsMut<Word> + 'a> AsSeekWriteWords<'a, Word, Stack> for Buf {
    type AsSeekWriteWords = Cursor<&'a mut [Word]>;

    open spec fn lent_written_at_start(&self) -> Seq<Word> {
        self.words()
    }

    open spec fn lent_room_at_start(&self) -> nat {
        0
    }

    fn as_seek_write_backend(&'a mut self) -> (backend: Cursor<&'a mut [Word]>) {
        let ghost words = self.words();
        let backend = Cursor::new_at_write_end_mut(self.as_words_mut());
        proof {
            assert(words.take(words.len() as int) =~= words);
        }
        backend
    }
}

impl<'a, Word: Copy + 'a, Buf: AsWordsMut<Word> + 'a> AsSeekWriteWords<'a, Word, Queue> for Buf {
    type AsSeekWriteWords = Cursor<&'a mut [Word]>;

    open spec fn lent_written_at_start(&self) -> Seq<Word> {
        Seq::empty()
    }

    open spec fn lent_room_at_start(&self) -> nat {
        self.words().len()
    }

    fn as_seek_write_backend(&'a mut self) -> (backend: Cursor<&'a mut [Word]>) {
        let ghost words = self.words();
        let backend = Cursor::new_at_write_beginning(self.as_words_mut());
        proof {
            assert(words.take(0) =~= Seq::<Word>::empty());
        }
        backend
    }
}

// A small vector of an outside crate as a growable buffer.

/// A growable buffer of words that keeps up to four of them inline: a
/// `SmallVec` of the crate `smallvec`. It takes up to
/// [`SMALL_WORDS_LIMIT`] words.
#[verifier::external_body]
pub struct SmallWordBuffer {
    inner: SmallVec<[u32; 4]>,
}

/// The words that a small buffer holds, the oldest first.
pub uninterp spec fn small_words(buffer: SmallWordBuffer) -> Seq<u32>;

/// `SmallVec::new`: a vector that holds no word.
#[verifier::external_body]
fn small_new() -> (buffer: SmallWordBuffer)
    ensures
        small_words(buffer) == Seq::<u32>::empty(),
{
    SmallWordBuffer { inner: SmallVec::new() }
}

/// The number of words that a small buffer takes at most: far fewer than
/// would make the vector fail for want of capacity.
pub const SMALL_WORDS_LIMIT: usize = usize::MAX / 16;

/// `SmallVec::push`: the word is appended behind the words held so far.
/// The vector must hold so few words that its capacity can still be
/// doubled.
#[verifier::external_body]
fn small_push(buffer: &mut SmallWordBuffer, word: u32)
    requires
        small_words(*old(buffer)).len() < SMALL_WORDS_LIMIT,
    ensures
        small_words(*final(buffer)) == small_words(*old(buffer)).push(word),
{
    buffer.inner.push(word)
}

/// `SmallVec::pop`: the last word is removed and handed back, or `None`
/// where the vector is empty, which then stays as it is.
#[verifier::external_body]
fn small_pop(buffer: &mut SmallWordBuffer) -> (word: Option<u32>)
    ensures
        small_words(*old(buffer)).len() > 0 ==> word == Some(small_words(*old(buffer)).last())
            && small_words(*final(buffer)) == small_words(*old(buffer)).drop_last(),
        small_words(*old(buffer)).len() == 0 ==> word is None && small_words(*final(buffer))
            == small_words(*old(buffer)),
{
    buffer.inner.pop()
}

/// `SmallVec::len`: the number of words held.
#[verifier::external_body]
fn small_len(buffer: &SmallWordBuffer) -> (len: usize)
    ensures
        len == small_words(*buffer).len(),
{
    buffer.inner.len()
}

impl SmallWordBuffer {
    /// A buffer that holds no word.
    pub fn new() -> (buffer: Self)
        ensures
            small_words(buffer) == Seq::<u32>::empty(),
    {
        small_new()
    }

    /// The words of the buffer, the oldest first; the buffer is emptied.
    pub fn take_words(&mut self) -> (words: Vec<u32>)
        ensures
            words@ == small_words(*old(self)),
            small_words(*final(self)) == Seq::<u32>::empty(),
    {
        let mut reversed: Vec<u32> = Vec::new();
        let ghost all = small_words(*self);
        loop
            invariant
                small_words(*self) + reversed@.reverse() == all,
            ensures
                small_words(*self).len() == 0,
            decreases small_words(*self).len(),
        {
            let ghost held = small_words(*self);
            match small_pop(self) {
                Some(word) => {
                    let ghost earlier = reversed@;
                    reversed.push(word);
                    proof {
                        assert(held.drop_last() + earlier.push(word).reverse() =~= held
                            + earlier.reverse());
                    }
                },
                None => {
                    break ;
                },
            }
        }
        let mut words: Vec<u32> = Vec::new();
        let mut i: usize = reversed.len();
        while i > 0
            invariant
                i <= reversed.len(),
                words@ == reversed@.skip(i as int).reverse(),
            decreases i,
        {
            i -= 1;
            words.push(reversed[i]);
            proof {
                assert(reversed@.skip(i + 1).reverse().push(reversed@[i as int]) =~= reversed@.skip(
                    i as int,
                ).reverse());
            }
        }
        proof {
            assert(reversed@.skip(0) =~= reversed@);
            assert(small_words(*self) + reversed@.reverse() =~= reversed@.reverse());
        }
        words
    }
}

impl WriteWords<u32> for SmallWordBuffer {
    type WriteError = BoundedWriteError;

    open spec fn writes_known(&self) -> bool {
        small_words(*self).len() <= SMALL_WORDS_LIMIT
    }

    open spec fn written(&self) -> Seq<u32> {
        small_words(*self)
    }

    open spec fn room(&self) -> Option<nat> {
        Some((SMALL_WORDS_LIMIT - small_words(*self).len()) as nat)
    }

    open spec fn accepts(&self, word: u32) -> bool {
        true
    }

    open spec fn write_effect(&self, word: u32, result: Result<(), Self::WriteError>, after: &Self) -> bool {
        true
    }

    fn write(&mut self, word: u32) -> (result: Result<(), Self::WriteError>) {
        if small_len(self) < SMALL_WORDS_LIMIT {
            small_push(self, word);
            Ok(())
        } else {
            Err(BoundedWriteError::OutOfSpace)
        }
    }

    fn extend_from_iter(&mut self, words: &[u32]) -> (result: Result<(), Self::WriteError>) {
        let mut i: usize = 0;
        while i < words.len()
            invariant
                i <= words.len(),
                forall|j: int| 0 <= j < words@.len() ==> old(self).accepts(#[trigger] words@[j]),
                forall|other: u32| old(self).accepts(other) ==> #[trigger] self.accepts(other),
                old(self).writes_known() ==> self.writes_known() && room_for(
                    old(self).room(),
                    i as nat,
                ) && self.written() == old(self).written() + words@.take(i as int) && self.room()
                    == room_less(old(self).room(), i as nat),
            decreases words.len() - i,
        {
            match self.write(words[i]) {
                Ok(()) => {},
                Err(e) => {
                    return Err(e);
                },
            }
            proof {
                assert(words@.take(i as int).push(words@[i as int]) =~= words@.take(i + 1));
                assert((old(self).written() + words@.take(i as int)).push(words@[i as int])
                    =~= old(self).written() + words@.take(i + 1));
            }
            i += 1;
        }
        proof {
            assert(words@.take(i as int) =~= words@);
        }
        Ok(())
    }

    fn maybe_full(&self) -> (full: bool)
        ensures
            full <==> small_words(*self).len() >= SMALL_WORDS_LIMIT,
    {
        small_len(self) >= SMALL_WORDS_LIMIT
    }
}

impl BoundedWriteWords<u32> for SmallWordBuffer {
    fn space(&self) -> (n: usize) {
        let len = small_len(self);
        if len <= SMALL_WORDS_LIMIT {
            SMALL_WORDS_LIMIT - len
        } else {
            0
        }
    }
}

impl ReadWords<u32, Stack> for SmallWordBuffer {
    type ReadError = core::convert::Infallible;

    open spec fn reads_known(&self) -> bool {
        true
    }

    open spec fn pending(&self) -> Seq<u32> {
        small_words(*self).reverse()
    }

    open spec fn read_effect(&self, result: Result<Option<u32>, Self::ReadError>, after: &Self) -> bool {
        true
    }

    open spec fn seems_exhausted(&self) -> bool {
        small_words(*self).len() == 0
    }

    open spec fn kept_words(&self) -> Seq<u32> {
        Seq::empty()
    }

    fn read(&mut self) -> (result: Result<Option<u32>, Self::ReadError>)
        ensures
            small_words(*old(self)).len() > 0 ==> result == Ok::<Option<u32>, Self::ReadError>(
                Some(small_words(*old(self)).last()),
            ) && small_words(*final(self)) == small_words(*old(self)).drop_last(),
            small_words(*old(self)).len() == 0 ==> result == Ok::<Option<u32>, Self::ReadError>(
                None,
            ) && small_words(*final(self)) == small_words(*old(self)),
    {
        let word = small_pop(self);
        proof {
            let before = small_words(*old(self));
            assert(before.len() > 0 ==> before.reverse().drop_first() =~= before.drop_last().reverse());
        }
        Ok(word)
    }

    fn maybe_exhausted(&self) -> (exhausted: bool)
        ensures
            exhausted <==> small_words(*self).len() == 0,
    {
        small_len(self) == 0
    }
}

impl BoundedReadWords<u32, Stack> for SmallWordBuffer {
    fn remaining(&self) -> (n: usize) {
        small_len(self)
    }
}

impl PosBackend<u32> for SmallWordBuffer {
    open spec fn position(&self) -> nat {
        small_words(*self).len()
    }

    fn pos(&self) -> (p: usize) {
        small_len(self)
    }
}

// A source that draws its words from an iterator.

/// A source that reads the items of an iterator.
///
/// Once the iterator has ended, the source asks it no more and reports that
/// no word is left.
#[derive(Clone, Debug)]
pub struct IteratorReadWords<Iter: Iterator> {
    inner: Iter,
    ended: bool,
}

impl<Iter: Iterator> IteratorReadWords<Iter> {
    /// The iterator that the source draws from.
    pub closed spec fn iterator(&self) -> Iter {
        self.inner
    }

    /// Whether the iterator has ended.
    pub closed spec fn has_ended(&self) -> bool {
        self.ended
    }

    /// The source that reads the items of `iter`.
    pub fn new(iter: Iter) -> (source: Self)
        ensures
            source.iterator() == iter,
            !source.has_ended(),
    {
        Self { inner: iter, ended: false }
    }

    /// The next item of the iterator: a word, a failure, or `None` at its
    /// end. After the end the iterator is asked no more. Before the end, and
    /// for an iterator that keeps to the iterator laws, the item is the head
    /// of what the iterator will yield, and the iterator moves on by one.
    pub fn read<Word, ReadError>(&mut self) -> (result: Result<Option<Word>, ReadError>) where
        Iter: Iterator<Item = Result<Word, ReadError>>,

        ensures
            old(self).has_ended() ==> result == Ok::<Option<Word>, ReadError>(None) && *final(self)
                == *old(self),
            final(self).has_ended() <==> old(self).has_ended() || result == Ok::<
                Option<Word>,
                ReadError,
            >(None),
            !old(self).has_ended() && old(self).iterator().obeys_prophetic_iter_laws() ==> ({
                let coming = old(self).iterator().remaining();
                if coming.len() > 0 {
                    &&& result == match coming[0] {
                        Ok(word) => Ok::<Option<Word>, ReadError>(Some(word)),
                        Err(error) => Err::<Option<Word>, ReadError>(error),
                    }
                    &&& final(self).iterator().remaining() == coming.drop_first()
                } else {
                    &&& result == Ok::<Option<Word>, ReadError>(None)
                    &&& final(self).iterator().remaining() == coming
                }
            }),
    {
        if self.ended {
            return Ok(None);
        }
        match self.inner.next() {
            Some(Ok(word)) => Ok(Some(word)),
            Some(Err(error)) => Err(error),
            None => {
                self.ended = true;
                Ok(None)
            },
        }
    }

    /// The iterator, as far as it has not been read.
    pub fn into_iter(self) -> (iter: Iter)
        ensures
            iter == self.iterator(),
    {
        self.inner
    }
}

impl<Iter, S, Word, ReadError> ReadWords<Word, S> for IteratorReadWords<Iter> where
    Iter: Iterator<Item = Result<Word, ReadError>>,
    S: Semantics,
    ReadError: core::fmt::Debug,
 {
    type ReadError = ReadError;

    open spec fn reads_known(&self) -> bool {
        false
    }

    open spec fn pending(&self) -> Seq<Word> {
        Seq::empty()
    }

    open spec fn read_effect(&self, result: Result<Option<Word>, ReadError>, after: &Self) -> bool {
        &&& self.has_ended() ==> result == Ok::<Option<Word>, ReadError>(None) && *after == *self
        &&& after.has_ended() <==> self.has_ended() || result == Ok::<Option<Word>, ReadError>(None)
    }

    open spec fn seems_exhausted(&self) -> bool {
        true
    }

    open spec fn kept_words(&self) -> Seq<Word> {
        Seq::empty()
    }

    fn read(&mut self) -> (result: Result<Option<Word>, ReadError>)
        ensures
            !old(self).has_ended() && old(self).iterator().obeys_prophetic_iter_laws() ==> ({
                let coming = old(self).iterator().remaining();
                if coming.len() > 0 {
                    &&& result == match coming[0] {
                        Ok(word) => Ok::<Option<Word>, ReadError>(Some(word)),
                        Err(error) => Err::<Option<Word>, ReadError>(error),
                    }
                    &&& final(self).iterator().remaining() == coming.drop_first()
                } else {
                    &&& result == Ok::<Option<Word>, ReadError>(None)
                    &&& final(self).iterator().remaining() == coming
                }
            }),
    {
        self.read()
    }

    fn maybe_exhausted(&self) -> (exhausted: bool) {
        true
    }
}

// Sinks that hand each word to a callback.

/// Whether `callback` took each of the first `count` words of `words`
/// without a failure.
pub open spec fn all_went_in<Word, WriteError, Callback: FnMut(Word) -> Result<(), WriteError>>(
    callback: Callback,
    words: Seq<Word>,
    count: int,
) -> bool {
    forall|j: int|
        0 <= j < count ==> call_ensures::<(Word,), Callback>(
            callback,
            (#[trigger] words[j],),
            Ok::<(), WriteError>(()),
        )
}

/// Hands `word` to a callback that may fail, and hands back its answer.
fn call_fallible<Word, WriteError, Callback: FnMut(Word) -> Result<(), WriteError>>(
    callback: &mut Callback,
    word: Word,
) -> (result: Result<(), WriteError>)
    requires
        call_requires(*old(callback), (word,)),
    ensures
        call_ensures(*old(callback), (word,), result),
        *final(callback) == *old(callback),
{
    callback(word)
}

/// Hands `word` to a callback that cannot fail.
fn call_infallible<Word, Callback: FnMut(Word)>(callback: &mut Callback, word: Word)
    requires
        call_requires(*old(callback), (word,)),
    ensures
        call_ensures(*old(callback), (word,), ()),
        *final(callback) == *old(callback),
{
    callback(word)
}

/// A sink that hands each word to a callback that may fail.
#[derive(Clone, Debug)]
pub struct FallibleCallbackWriteWords<Callback> {
    write_callback: Callback,
}

impl<Callback> FallibleCallbackWriteWords<Callback> {
    /// The callback.
    pub closed spec fn callback(&self) -> Callback {
        self.write_callback
    }

    /// The sink that hands each word to `write_callback`.
    pub fn new(write_callback: Callback) -> (sink: Self)
        ensures
            sink.callback() == write_callback,
    {
        Self { write_callback }
    }

    /// The callback.
    pub fn into_inner(self) -> (callback: Callback)
        ensures
            callback == self.callback(),
    {
        self.write_callback
    }
}

impl<Word, WriteError, Callback> WriteWords<Word> for FallibleCallbackWriteWords<Callback> where
    Callback: FnMut(Word) -> Result<(), WriteError>,
    WriteError: core::fmt::Debug,
 {
    type WriteError = WriteError;

    open spec fn writes_known(&self) -> bool {
        false
    }

    open spec fn written(&self) -> Seq<Word> {
        Seq::empty()
    }

    open spec fn room(&self) -> Option<nat> {
        None
    }

    open spec fn accepts(&self, word: Word) -> bool {
        call_requires::<(Word,), Callback>(self.callback(), (word,))
    }

    open spec fn write_effect(&self, word: Word, result: Result<(), WriteError>, after: &Self) -> bool {
        &&& call_ensures::<(Word,), Callback>(self.callback(), (word,), result)
        &&& after.callback() == self.callback()
    }

    fn write(&mut self, word: Word) -> (result: Result<(), WriteError>) {
        call_fallible(&mut self.write_callback, word)
    }

    fn extend_from_iter(&mut self, words: &[Word]) -> (result: Result<(), WriteError>) where
        Word: Copy,

        ensures
            final(self).callback() == old(self).callback(),
            match result {
                Ok(()) => all_went_in(old(self).callback(), words@, words@.len() as int),
                Err(error) => exists|i: int|
                    0 <= i < words@.len() && all_went_in(old(self).callback(), words@, i)
                        && call_ensures::<(Word,), Callback>(
                        old(self).callback(),
                        (#[trigger] words@[i],),
                        Err::<(), WriteError>(error),
                    ),
            },
    {
        let mut i: usize = 0;
        while i < words.len()
            invariant
                i <= words.len(),
                forall|j: int|
                    0 <= j < words@.len() ==> call_requires::<(Word,), Callback>(
                        self.callback(),
                        (#[trigger] words@[j],),
                    ),
                self.callback() == old(self).callback(),
                all_went_in(old(self).callback(), words@, i as int),
            decreases words.len() - i,
        {
            let answer = self.write(words[i]);
            match answer {
                Ok(()) => {
                    proof {
                        assert(answer->Ok_0 == ());
                        assert(answer == Ok::<(), WriteError>(()));
                    }
                },
                Err(e) => {
                    return Err(e);
                },
            }
            i += 1;
        }
        Ok(())
    }
}

/// A sink that hands each word to a callback that cannot fail.
#[derive(Clone, Debug)]
pub struct InfallibleCallbackWriteWords<Callback> {
    write_callback: Callback,
}

impl<Callback> InfallibleCallbackWriteWords<Callback> {
    /// The callback.
    pub closed spec fn callback(&self) -> Callback {
        self.write_callback
    }

    /// The sink that hands each word to `write_callback`.
    pub fn new(write_callback: Callback) -> (sink: Self)
        ensures
            sink.callback() == write_callback,
    {
        Self { write_callback }
    }

    /// The callback.
    pub fn into_inner(self) -> (callback: Callback)
        ensures
            callback == self.callback(),
    {
        self.write_callback
    }
}

impl<Word, Callback> WriteWords<Word> for InfallibleCallbackWriteWords<Callback> where
    Callback: FnMut(Word),
 {
    type WriteError = core::convert::Infallible;

    open spec fn writes_known(&self) -> bool {
        false
    }

    open spec fn written(&self) -> Seq<Word> {
        Seq::empty()
    }

    open spec fn room(&self) -> Option<nat> {
        None
    }

    open spec fn accepts(&self, word: Word) -> bool {
        call_requires::<(Word,), Callback>(self.callback(), (word,))
    }

    open spec fn write_effect(&self, word: Word, result: Result<(), core::convert::Infallible>, after: &Self) -> bool {
        &&& call_ensures::<(Word,), Callback>(self.callback(), (word,), ())
        &&& result is Ok
        &&& after.callback() == self.callback()
    }

    fn write(&mut self, word: Word) -> (result: Result<(), core::convert::Infallible>) {
        call_infallible(&mut self.write_callback, word);
        Ok(())
    }

    fn extend_from_iter(&mut self, words: &[Word]) -> (result: Result<(), core::convert::Infallible>) where
        Word: Copy,

        ensures
            result is Ok,
            final(self).callback() == old(self).callback(),
            forall|i: int|
                0 <= i < words@.len() ==> call_ensures::<(Word,), Callback>(
                    old(self).callback(),
                    (#[trigger] words@[i],),
                    (),
                ),
    {
        let mut i: usize = 0;
        while i < words.len()
            invariant
                i <= words.len(),
                forall|j: int|
                    0 <= j < words@.len() ==> call_requires::<(Word,), Callback>(
                        self.callback(),
                        (#[trigger] words@[j],),
                    ),
                self.callback() == old(self).callback(),
                forall|j: int|
                    0 <= j < i ==> call_ensures::<(Word,), Callback>(
                        old(self).callback(),
                        (#[trigger] words@[j],),
                        (),
                    ),
            decreases words.len() - i,
        {
            match self.write(words[i]) {
                Ok(()) => {},
                Err(e) => {
                    return Err(e);
                },
            }
            i += 1;
        }
        Ok(())
    }
}

} // verus!
