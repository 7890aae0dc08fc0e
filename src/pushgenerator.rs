//! The streaming encoder: a generator that writes one message at a time,
//! each message one field at a time, escaping what needs escaping.
use vstd::prelude::*;

use crate::wire::{
    decimal, encode_chunk, encode_field, encode_fields, encode_message, escape_header_bytes,
    escape_needed, is_reserved, CR, CURLY_L, CURLY_R, LF, NUM_0, SP,
};

verus! {

/// The sequencing faults of the encoder. A writer borrows its parent, and
/// the parent finishes a writer that was dropped while open before it goes
/// on, so no call of this module returns one of them.
#[derive(Clone, Copy, Debug, PartialEq, Eq, Structural)]
pub enum Error {
    /// A new message was asked for before the previous one was finished.
    MessageInProgress,
    /// A new field was asked for before the previous one was closed.
    FieldInProgress,
}

impl Error {
    /// A sentence that says what went wrong.
    pub fn description(&self) -> (r: &'static str)
        ensures
            r@ == error_text(*self),
    {
        match self {
            Error::MessageInProgress => "Finish message before starting a new one",
            Error::FieldInProgress => "You must close the previous field before starting a new one",
        }
    }
}

/// What `Error::description` says of `e`.
pub open spec fn error_text(e: Error) -> Seq<char> {
    match e {
        Error::MessageInProgress => "Finish message before starting a new one"@,
        Error::FieldInProgress => "You must close the previous field before starting a new one"@,
    }
}

#[derive(Clone, Copy, Debug, PartialEq, Eq, Structural)]
pub enum PushGeneratorState {
    Initial,
    GeneratingMessage,
}

#[derive(Clone, Copy, Debug, PartialEq, Eq, Structural)]
pub enum MessageState {
    BeforeFirstField,
    AfterFirstField,
    GeneratingField,
}

/// The state of a generator: the bytes written so far, whether a message is
/// open, the state of that message, and whether its open field is still
/// empty.
pub struct GeneratorView {
    pub out: Seq<u8>,
    pub state: PushGeneratorState,
    pub message: MessageState,
    pub field_empty: bool,
    pub auto_flush: bool,
}

/// Whether `buf` is written as one escape run: when it is longer than 100
/// bytes or holds a `{`, a space, a CR or a LF.
pub fn should_escape(buf: &[u8]) -> (r: bool)
    ensures
        r == escape_needed(buf@),
{
    if buf.len() > 100 {
        return true;
    }
    let mut i: usize = 0;
    while i < buf.len()
        invariant
            i <= buf@.len(),
            forall|k: int| 0 <= k < i ==> !is_reserved(#[trigger] buf@[k]),
        decreases buf@.len() - i,
    {
        let b = buf[i];
        if b == CURLY_L || b == SP || b == CR || b == LF {
            assert(is_reserved(buf@[i as int]));
            return true;
        }
        i = i + 1;
    }
    false
}

/// Appends the decimal digits of `n` to `out`.
fn push_decimal(out: &mut Vec<u8>, n: usize)
    ensures
        final(out)@ == old(out)@ + decimal(n as nat),
    decreases n,
{
    if n >= 10 {
        push_decimal(out, n / 10);
    }
    let digit = (n % 10) as u8 + NUM_0;
    out.push(digit);
    proof {
        if n >= 10 {
            assert(out@ =~= old(out)@ + decimal(n as nat));
        } else {
            assert(out@ =~= old(out)@ + decimal(n as nat));
        }
    }
}

/// Appends the escape header announcing `n` bytes to `out`.
fn push_escape_header(out: &mut Vec<u8>, n: usize)
    ensures
        final(out)@ == old(out)@ + escape_header_bytes(n as nat),
{
    out.push(CURLY_L);
    push_decimal(out, n);
    out.push(CURLY_R);
    proof {
        assert(out@ =~= old(out)@ + escape_header_bytes(n as nat));
    }
}

/// Appends the bytes of `buf` to `out`.
fn push_bytes(out: &mut Vec<u8>, buf: &[u8])
    ensures
        final(out)@ == old(out)@ + buf@,
{
    let mut i: usize = 0;
    while i < buf.len()
        invariant
            i <= buf@.len(),
            out@ == old(out)@ + buf@.subrange(0, i as int),
        decreases buf@.len() - i,
    {
        out.push(buf[i]);
        proof {
            assert(out@ =~= old(out)@ + buf@.subrange(0, i + 1));
        }
        i = i + 1;
    }
    proof {
        assert(buf@.subrange(0, i as int) =~= buf@);
    }
}

/// A push generator writing into a byte sink held in memory.
pub struct PushGenerator {
    inner: Vec<u8>,
    state: PushGeneratorState,
    message: MessageState,
    field_empty: bool,
    auto_flush: bool,
}

impl View for PushGenerator {
    type V = GeneratorView;

    closed spec fn view(&self) -> GeneratorView {
        GeneratorView {
            out: self.inner@,
            state: self.state,
            message: self.message,
            field_empty: self.field_empty,
            auto_flush: self.auto_flush,
        }
    }
}

/// What closing the open field writes: `{0}` where nothing was written
/// into it.
pub open spec fn field_end(v: GeneratorView) -> Seq<u8> {
    if v.field_empty {
        escape_header_bytes(0)
    } else {
        seq![]
    }
}

/// What finishing an open message writes: the end of its open field, if
/// any, and LF.
pub open spec fn message_end(v: GeneratorView) -> Seq<u8> {
    if v.message == MessageState::GeneratingField {
        field_end(v) + seq![LF]
    } else {
        seq![LF]
    }
}

/// The generator once a message left open has been finished. A message
/// writer borrows its generator, so a generator that is called again has no
/// live message: one still open was dropped without `finish`.
pub open spec fn settled(v: GeneratorView) -> GeneratorView {
    if v.state == PushGeneratorState::GeneratingMessage {
        GeneratorView {
            out: v.out + message_end(v),
            state: PushGeneratorState::Initial,
            message: MessageState::BeforeFirstField,
            ..v
        }
    } else {
        v
    }
}

/// The slices `fs` as byte sequences.
pub open spec fn slice_views(fs: Seq<&[u8]>) -> Seq<Seq<u8>> {
    fs.map_values(|f: &[u8]| f@)
}

impl PushGenerator {
    /// A generator that appends to `inner`, flushing after each message.
    pub fn new(inner: Vec<u8>) -> (r: PushGenerator)
        ensures
            r@.out == inner@,
            r@.state == PushGeneratorState::Initial,
            r@.auto_flush,
    {
        PushGenerator {
            inner,
            state: PushGeneratorState::Initial,
            message: MessageState::BeforeFirstField,
            field_empty: true,
            auto_flush: true,
        }
    }

    /// Opens the next message, first finishing one that was dropped
    /// without `finish`. Only one message is open at a time.
    pub fn next_message(&mut self) -> (r: Result<Message<'_>, Error>)
        ensures
            r matches Ok(m) && m@ == (GeneratorView {
                state: PushGeneratorState::GeneratingMessage,
                message: MessageState::BeforeFirstField,
                ..settled(old(self)@)
            }) && *final(self) == *final(m.generator),
    {
        self.settle();
        self.state = PushGeneratorState::GeneratingMessage;
        self.message = MessageState::BeforeFirstField;
        Ok(Message { generator: self })
    }

    /// Finishes a message that was dropped without `finish`.
    fn settle(&mut self)
        ensures
            final(self)@ == settled(old(self)@),
    {
        match self.state {
            PushGeneratorState::GeneratingMessage => {
                let ghost v0 = self@;
                match self.message {
                    MessageState::GeneratingField => {
                        if self.field_empty {
                            push_escape_header(&mut self.inner, 0);
                        }
                    },
                    _ => {},
                }
                self.inner.push(LF);
                self.state = PushGeneratorState::Initial;
                self.message = MessageState::BeforeFirstField;
                proof {
                    assert(self@.out =~= v0.out + message_end(v0));
                }
            },
            PushGeneratorState::Initial => {},
        }
    }

    /// Finishes a message that was dropped without `finish`, and flushes the
    /// sink. The sink is memory, so nothing is held back.
    pub fn flush(&mut self) -> (r: Result<(), Error>)
        ensures
            r is Ok,
            final(self)@ == settled(old(self)@),
    {
        self.settle();
        Ok(())
    }

    /// Whether each finished message is flushed.
    pub fn auto_flush(&self) -> (r: bool)
        ensures
            r == self@.auto_flush,
    {
        self.auto_flush
    }

    /// Writes the message made of the fields `msg`, first finishing a
    /// message that was dropped without `finish`.
    pub fn write_message(&mut self, msg: &[&[u8]]) -> (r: Result<(), Error>)
        ensures
            r is Ok,
            final(self)@.out == settled(old(self)@).out + encode_message(slice_views(msg@)),
            final(self)@.state == PushGeneratorState::Initial,
    {
        let ghost o0 = settled(self@).out;
        let ghost fs = slice_views(msg@);
        let mut message = match self.next_message() {
            Ok(m) => m,
            Err(e) => {
                return Err(e);
            },
        };
        let mut i: usize = 0;
        proof {
            assert(fs.take(0) =~= Seq::<Seq<u8>>::empty());
            assert(o0 + encode_fields(fs.take(0)) =~= o0);
        }
        while i < msg.len()
            invariant
                i <= msg@.len(),
                fs == slice_views(msg@),
                message@.out == o0 + encode_fields(fs.take(i as int)),
                message@.state == PushGeneratorState::GeneratingMessage,
                message@.message == if i == 0 {
                    MessageState::BeforeFirstField
                } else {
                    MessageState::AfterFirstField
                },
                *final(message.generator) == after_borrow(*self),
            decreases msg@.len() - i,
        {
            let _ = message.write_field(msg[i]);
            proof {
                assert(fs.take(i + 1).drop_last() =~= fs.take(i as int));
                assert(fs.take(i + 1).last() == msg@[i as int]@);
                if i == 0 {
                    assert(o0 + encode_fields(fs.take(1)) =~= o0 + encode_field(msg@[0]@));
                } else {
                    assert(message@.out =~= o0 + encode_fields(fs.take(i + 1)));
                }
            }
            i = i + 1;
        }
        message.finish();
        proof {
            assert(fs.take(msg@.len() as int) =~= fs);
        }
        Ok(())
    }

    /// The sink, with the bytes written, once a message that was dropped
    /// without `finish` has been finished.
    pub fn into_inner(self) -> (r: Vec<u8>)
        ensures
            r@ == settled(self@).out,
    {
        let mut generator = self;
        generator.settle();
        generator.inner
    }
}

/// A message being written. It borrows its generator until `finish`.
pub struct Message<'a> {
    pub generator: &'a mut PushGenerator,
}

impl<'a> View for Message<'a> {
    type V = GeneratorView;

    open spec fn view(&self) -> GeneratorView {
        (*self.generator)@
    }
}

impl<'a> Message<'a> {
    /// Opens the next field, writing the space that separates it from the
    /// previous one. A field writer borrows its message, so a field still
    /// open here was dropped without `close`: it is closed first.
    pub fn next_field(&mut self) -> (r: Result<Field<'_>, Error>)
        ensures
            *final(final(self).generator) == *final(old(self).generator),
            match old(self)@.message {
                MessageState::BeforeFirstField => r matches Ok(f) && f@ == (GeneratorView {
                    message: MessageState::GeneratingField,
                    field_empty: true,
                    ..old(self)@
                }) && *final(self).generator == *final(f.generator),
                MessageState::AfterFirstField => r matches Ok(f) && f@ == (GeneratorView {
                    out: old(self)@.out.push(SP),
                    message: MessageState::GeneratingField,
                    field_empty: true,
                    ..old(self)@
                }) && *final(self).generator == *final(f.generator),
                MessageState::GeneratingField => r matches Ok(f) && f@ == (GeneratorView {
                    out: old(self)@.out + field_end(old(self)@) + seq![SP],
                    message: MessageState::GeneratingField,
                    field_empty: true,
                    ..old(self)@
                }) && *final(self).generator == *final(f.generator),
            },
    {
        let ghost v0 = self@;
        match self.generator.message {
            MessageState::BeforeFirstField => {},
            MessageState::AfterFirstField => {
                self.generator.inner.push(SP);
            },
            MessageState::GeneratingField => {
                if self.generator.field_empty {
                    push_escape_header(&mut self.generator.inner, 0);
                }
                self.generator.inner.push(SP);
                proof {
                    assert(self@.out =~= v0.out + field_end(v0) + seq![SP]);
                }
            },
        }
        self.generator.message = MessageState::GeneratingField;
        self.generator.field_empty = true;
        Ok(Field { generator: &mut *self.generator })
    }

    /// Flushes the sink. The sink is memory, so nothing is held back.
    pub fn flush(&mut self) -> (r: Result<(), Error>)
        ensures
            r is Ok,
            final(self)@ == old(self)@,
            *final(final(self).generator) == *final(old(self).generator),
    {
        Ok(())
    }

    /// Writes a whole field holding `buf`.
    pub fn write_field(&mut self, buf: &[u8]) -> (r: Result<(), Error>)
        ensures
            *final(final(self).generator) == *final(old(self).generator),
            match old(self)@.message {
                MessageState::BeforeFirstField => r is Ok && final(self)@ == (GeneratorView {
                    out: old(self)@.out + encode_field(buf@),
                    message: MessageState::AfterFirstField,
                    field_empty: buf@.len() == 0,
                    ..old(self)@
                }),
                MessageState::AfterFirstField => r is Ok && final(self)@ == (GeneratorView {
                    out: old(self)@.out.push(SP) + encode_field(buf@),
                    message: MessageState::AfterFirstField,
                    field_empty: buf@.len() == 0,
                    ..old(self)@
                }),
                MessageState::GeneratingField => r is Ok && final(self)@ == (GeneratorView {
                    out: old(self)@.out + field_end(old(self)@) + seq![SP] + encode_field(buf@),
                    message: MessageState::AfterFirstField,
                    field_empty: buf@.len() == 0,
                    ..old(self)@
                }),
            },
    {
        let mut field = match self.next_field() {
            Ok(f) => f,
            Err(e) => {
                return Err(e);
            },
        };
        let _ = field.write(buf);
        field.close();
        proof {
            if buf@.len() == 0 {
                assert(!escape_needed(buf@));
            }
        }
        Ok(())
    }

    /// Finishes the message: closes a field still open and writes the
    /// terminating LF.
    pub fn finish(self)
        ensures
            (*final(self.generator))@ == (GeneratorView {
                out: if self@.message == MessageState::GeneratingField
                    && self@.field_empty {
                    self@.out + escape_header_bytes(0) + seq![LF]
                } else {
                    self@.out + seq![LF]
                },
                state: PushGeneratorState::Initial,
                message: MessageState::BeforeFirstField,
                ..self@
            }),
    {
        let ghost v0 = self@;
        let generator = self.generator;
        match generator.message {
            MessageState::GeneratingField => {
                if generator.field_empty {
                    push_escape_header(&mut generator.inner, 0);
                }
            },
            _ => {},
        }
        generator.inner.push(LF);
        generator.state = PushGeneratorState::Initial;
        generator.message = MessageState::BeforeFirstField;
        proof {
            assert(generator.inner@ =~= if v0.message == MessageState::GeneratingField
                && v0.field_empty {
                v0.out + escape_header_bytes(0) + seq![LF]
            } else {
                v0.out + seq![LF]
            });
        }
    }
}

/// A field being written. It borrows its message until `close`.
pub struct Field<'a> {
    pub generator: &'a mut PushGenerator,
}

impl<'a> View for Field<'a> {
    type V = GeneratorView;

    open spec fn view(&self) -> GeneratorView {
        (*self.generator)@
    }
}

impl<'a> Field<'a> {
    /// Writes `buf` into the field: as one escape run where `buf` is longer
    /// than 100 bytes or holds a reserved byte, as it is otherwise.
    pub fn write(&mut self, buf: &[u8]) -> (r: Result<usize, Error>)
        ensures
            *final(final(self).generator) == *final(old(self).generator),
            r == Ok::<usize, Error>(buf@.len() as usize),
            final(self)@ == (GeneratorView {
                out: old(self)@.out + encode_chunk(buf@),
                field_empty: old(self)@.field_empty && buf@.len() == 0,
                ..old(self)@
            }),
    {
        if should_escape(buf) {
            push_escape_header(&mut self.generator.inner, buf.len());
        }
        push_bytes(&mut self.generator.inner, buf);
        self.generator.field_empty = self.generator.field_empty && buf.len() == 0;
        proof {
            if escape_needed(buf@) {
                assert(self@.out =~= old(self)@.out + encode_chunk(buf@));
            }
        }
        Ok(buf.len())
    }

    /// Flushes the sink. The sink is memory, so nothing is held back.
    pub fn flush(&mut self) -> (r: Result<(), Error>)
        ensures
            r is Ok,
            final(self)@ == old(self)@,
            *final(final(self).generator) == *final(old(self).generator),
    {
        Ok(())
    }

    /// Closes the field. A field that nothing was written into is written
    /// as an explicit `{0}`.
    pub fn close(self)
        ensures
            (*final(self.generator))@ == (GeneratorView {
                out: if self@.field_empty {
                    self@.out + escape_header_bytes(0)
                } else {
                    self@.out
                },
                message: MessageState::AfterFirstField,
                ..self@
            }),
    {
        let generator = self.generator;
        if generator.field_empty {
            push_escape_header(&mut generator.inner, 0);
        }
        generator.message = MessageState::AfterFirstField;
    }
}

} // verus!
