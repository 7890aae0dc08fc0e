//! The streaming decoder: a parser that hands out one message at a time,
//! each message one field at a time, and each field a few bytes at a time.
use vstd::prelude::*;

use vstd::utf8::{decode_utf8, valid_utf8};

use crate::wire::{
    decimal_value, digits_end, escape_header, is_digit, lemma_decimal_value_monotonic,
    lemma_digits_end_bounds, lemma_escape_header_advances, lemma_scan_escaped_next,
    lemma_scan_escaped_origin, lemma_scan_escaped_take, lemma_scan_field_next, lemma_scan_field_origin, index_run, header_cut, scan_escaped, scan_field, scan_fields,
    scan_message, FieldEnd, FieldScan, MessageScan, Violation, CR, CURLY_L, CURLY_R, LF, NUM_0,
    NUM_9, SP,
};

verus! {

/// What the decoder reports.
#[derive(Clone, Copy, Debug, PartialEq, Eq, Structural)]
pub enum Error {
    /// The data broke the protocol. The parser reports this again for every
    /// later operation.
    Protocol(Violation),
    /// A new field was asked for while the previous one was still unread.
    FieldInProgress,
    /// A field did not fit the caller's buffer. The field was skipped.
    Overflow,
    /// A new message was asked for while the previous one was still
    /// unread: `Message::ignore_rest` skips what is left of it.
    MessageInProgress,
    /// A field asked for as text is not UTF-8.
    InvalidUtf8,
    /// The bytes at hand run out before the call can be decided. Nothing is
    /// lost: the call can be made again once more bytes have been fed.
    NeedInput,
}

impl Error {
    /// A sentence that says what went wrong.
    pub fn description(&self) -> (r: &'static str)
        ensures
            r@ == error_text(*self),
    {
        match self {
            Error::Protocol(Violation::InvalidSymbol) => "Invalid symbol in PlainTalk escape sequence",
            Error::Protocol(Violation::EscapeOverflow) => "Overflow in PlainTalk escape sequence",
            Error::Protocol(Violation::InvalidByteAfterCr) => "Invalid byte after CR",
            Error::Protocol(Violation::UnexpectedEof) => "Unexpected EOF",
            Error::FieldInProgress => "You need to finish reading the field",
            Error::Overflow => "Overflow",
            Error::MessageInProgress => "You need to finish reading the message",
            Error::InvalidUtf8 => "Field is not valid UTF-8",
            Error::NeedInput => "More input is needed",
        }
    }
}

/// What `Error::description` says of `e`.
pub open spec fn error_text(e: Error) -> Seq<char> {
    match e {
        Error::Protocol(Violation::InvalidSymbol) => "Invalid symbol in PlainTalk escape sequence"@,
        Error::Protocol(Violation::EscapeOverflow) => "Overflow in PlainTalk escape sequence"@,
        Error::Protocol(Violation::InvalidByteAfterCr) => "Invalid byte after CR"@,
        Error::Protocol(Violation::UnexpectedEof) => "Unexpected EOF"@,
        Error::FieldInProgress => "You need to finish reading the field"@,
        Error::Overflow => "Overflow"@,
        Error::MessageInProgress => "You need to finish reading the message"@,
        Error::InvalidUtf8 => "Field is not valid UTF-8"@,
        Error::NeedInput => "More input is needed"@,
    }
}

#[derive(Clone, Copy, Debug, PartialEq, Eq, Structural)]
pub enum PullParserState {
    Initial,
    Done,
    Error(Violation),
}

#[derive(Clone, Copy, Debug, PartialEq, Eq, Structural)]
pub enum MessageParserState {
    ExpectingField,
    ReadingField,
    Done,
    Error(Violation),
}

#[derive(Clone, Copy, Debug, PartialEq, Eq, Structural)]
pub enum FieldParserState {
    Initial,
    ReadingEscapedBytes(usize),
    Done,
    Error(Violation),
}

/// The state of a parser: the data, how far it has been read, and the
/// states of the stream, of the live message and of the live field. `empty`
/// holds while the live message has produced no byte, and `first` while its
/// live or next field is its first. `ended` holds once no byte will be
/// added to `data`.
pub struct ParserView {
    pub data: Seq<u8>,
    pub pos: int,
    pub stream: PullParserState,
    pub message: MessageParserState,
    pub empty: bool,
    pub first: bool,
    pub ended: bool,
    pub field: FieldParserState,
}

impl ParserView {
    pub open spec fn field_in_progress(self) -> bool {
        self.field is Initial || self.field is ReadingEscapedBytes
    }

    pub open spec fn wf(self) -> bool {
        &&& 0 <= self.pos <= self.data.len()
        &&& self.field_in_progress() <==> self.message is ReadingField
        &&& self.message is ReadingField ==> self.stream is Initial
        &&& self.field matches FieldParserState::Error(v) ==> self.message
            == MessageParserState::Error(v)
        &&& self.message matches MessageParserState::Error(v) ==> self.stream
            == PullParserState::Error(v)
        &&& self.stream matches PullParserState::Error(v) ==> self.message
            == MessageParserState::Error(v) && self.field == FieldParserState::Error(v)
        &&& self.stream is Done ==> self.message is Done && self.field is Done
    }

    /// What the rest of the live field decodes to.
    pub open spec fn field_rest(self) -> FieldScan {
        match self.field {
            FieldParserState::ReadingEscapedBytes(r) => scan_escaped(
                self.data,
                self.pos,
                r as nat,
                self.empty,
                self.first,
                self.ended,
            ),
            _ => scan_field(self.data, self.pos, self.empty, self.first, self.ended),
        }
    }

    /// The parser once the live field has been read up to its end `s`,
    /// where that end is a delimiter or the end of the stream.
    pub open spec fn after_field(self, s: FieldScan) -> ParserView {
        ParserView {
            pos: s.next,
            stream: if s.end is EndOfStream {
                PullParserState::Done
            } else {
                self.stream
            },
            message: if s.end is Separator {
                MessageParserState::ExpectingField
            } else {
                MessageParserState::Done
            },
            field: FieldParserState::Done,
            empty: self.empty && s.content.len() == 0,
            first: false,
            ..self
        }
    }

    /// A message has begun and has not been read to its end.
    pub open spec fn message_live(self) -> bool {
        self.message is ExpectingField || self.message is ReadingField
    }

    /// The parser once a message has begun on it.
    pub open spec fn message_begun(self) -> ParserView {
        ParserView {
            message: MessageParserState::ExpectingField,
            field: FieldParserState::Done,
            empty: true,
            first: true,
            ..self
        }
    }

    /// The parser once a field has begun on it.
    pub open spec fn field_begun(self) -> ParserView {
        ParserView {
            message: MessageParserState::ReadingField,
            field: FieldParserState::Initial,
            ..self
        }
    }

    /// What the field that the live message would hand out next decodes to.
    pub open spec fn next_field(self) -> FieldScan {
        scan_field(self.data, self.pos, self.empty, self.first, self.ended)
    }

    /// What the rest of the live message decodes to.
    pub open spec fn message_rest(self) -> MessageScan {
        scan_fields(self.data, self.pos, self.empty, self.first, self.ended)
    }

    /// `w` is this parser once the message that decodes to `m` has been
    /// read to its end, where that end is a line break or the end of the
    /// stream.
    pub open spec fn message_ended(self, w: ParserView, m: MessageScan) -> bool {
        &&& w.wf()
        &&& w.data == self.data
        &&& w.pos == m.next
        &&& w.stream == if m.end is EndOfStream {
            PullParserState::Done
        } else {
            self.stream
        }
        &&& w.message is Done
        &&& w.field is Done
    }

    /// `w` is this parser once the call has gone back to where it started,
    /// as a call does that needs more bytes than there are.
    pub open spec fn unchanged(self, w: ParserView) -> bool {
        w == self
    }

    /// `w` is this parser stopped for good by the violation `v`.
    pub open spec fn poisoned(self, w: ParserView, v: Violation) -> bool {
        &&& w.wf()
        &&& w.data == self.data
        &&& w.ended == self.ended
        &&& w.stream == PullParserState::Error(v)
        &&& w.message == MessageParserState::Error(v)
        &&& w.field == FieldParserState::Error(v)
    }

    /// `w` is this parser stopped inside its live field, which decodes to
    /// `s`, where the bytes at hand ran out after the field's bytes
    /// `s.content`: the field stays open and goes on once more bytes come.
    pub open spec fn stalled(self, w: ParserView, s: FieldScan) -> bool {
        &&& w.wf()
        &&& w.data == self.data
        &&& w.ended == self.ended
        &&& w.stream == self.stream
        &&& w.message == self.message
        &&& w.first == self.first
        &&& w.empty == (self.empty && s.content.len() == 0)
        &&& w.field_in_progress()
        &&& w.pos == s.next
        &&& w.field_rest().content.len() == 0
        &&& w.field_rest().end == FieldEnd::Incomplete
        &&& w.field_rest().next == s.next
    }

    /// What reading the live field to its end does: `w` is the parser
    /// afterwards and `r` the result.
    pub open spec fn finish_outcome<T>(self, w: ParserView, r: Result<T, Error>) -> bool {
        match self.field {
            FieldParserState::Done => r is Ok && w == self,
            FieldParserState::Error(v) => r == Err::<T, Error>(Error::Protocol(v)) && w == self,
            _ => match self.field_rest().end {
                FieldEnd::Fault(v) => self.poisoned(w, v) && r == Err::<T, Error>(Error::Protocol(v)),
                FieldEnd::Incomplete => self.stalled(w, self.field_rest()) && r == Err::<T, Error>(
                    Error::NeedInput,
                ),
                _ => r is Ok && w == self.after_field(self.field_rest()),
            },
        }
    }

    /// The bytes that reading the live field to its end produces.
    pub open spec fn field_remainder(self) -> Seq<u8> {
        if self.field_in_progress() {
            self.field_rest().content
        } else {
            Seq::empty()
        }
    }

    /// What reading into a buffer of `n` bytes from the live field does:
    /// `w` is the parser afterwards, `out` the buffer and `r` the result.
    pub open spec fn read_outcome(
        self,
        n: nat,
        w: ParserView,
        out: Seq<u8>,
        r: Result<usize, Error>,
    ) -> bool {
        match self.field {
            FieldParserState::Done => r == Ok::<usize, Error>(0) && w == self,
            FieldParserState::Error(v) => r == Err::<usize, Error>(Error::Protocol(v)) && w == self,
            _ => {
                let s = self.field_rest();
                if s.content.len() >= n {
                    &&& r == Ok::<usize, Error>(n as usize)
                    &&& out.subrange(0, n as int) == s.content.subrange(0, n as int)
                    &&& w.field_in_progress()
                    &&& w.field_rest().content == s.content.skip(n as int)
                    &&& w.field_rest().end == s.end
                    &&& w.field_rest().next == s.next
                    &&& w.data == self.data
                    &&& w.ended == self.ended
                    &&& w.stream == self.stream
                    &&& w.message == self.message
                    &&& w.empty == (self.empty && n == 0)
                    &&& w.first == self.first
                    &&& w.field_rest().origin == s.origin.skip(n as int)
                    &&& n == 0 ==> w == self
                    &&& n > 0 ==> w.pos == s.origin[n - 1] + 1
                } else {
                    &&& out.subrange(0, s.content.len() as int) == s.content
                    &&& match s.end {
                        FieldEnd::Fault(v) => {
                            &&& self.poisoned(w, v)
                            &&& r == if s.content.len() > 0 {
                                Ok::<usize, Error>(s.content.len() as usize)
                            } else {
                                Err::<usize, Error>(Error::Protocol(v))
                            }
                        },
                        FieldEnd::Incomplete => {
                            &&& self.stalled(w, s)
                            &&& r == if s.content.len() > 0 {
                                Ok::<usize, Error>(s.content.len() as usize)
                            } else {
                                Err::<usize, Error>(Error::NeedInput)
                            }
                        },
                        _ => r == Ok::<usize, Error>(s.content.len() as usize) && w
                            == self.after_field(s),
                    }
                }
            },
        }
    }
}

/// While a field is being read its message hands out no other field; once
/// it has been read to an end that is a delimiter or the end of the stream,
/// the message hands out
/// the next field, or reports its own end.
pub proof fn lemma_field_sequencing(v: ParserView)
    requires
        v.wf(),
        v.field_in_progress(),
        !(v.field_rest().end is Fault),
        !(v.field_rest().end is Incomplete),
    ensures
        v.message is ReadingField,
        v.after_field(v.field_rest()).wf(),
        v.after_field(v.field_rest()).message is ExpectingField || v.after_field(
            v.field_rest(),
        ).message is Done,
        v.field_rest().end is Separator ==> v.after_field(v.field_rest()).message is ExpectingField,
{
    lemma_scan_field_rest_next(v);
}

/// Each byte left in the live field has one origin.
proof fn lemma_field_rest_origin(v: ParserView)
    requires
        v.wf(),
    ensures
        v.field_rest().origin.len() == v.field_rest().content.len(),
{
    match v.field {
        FieldParserState::ReadingEscapedBytes(r) => {
            lemma_scan_escaped_origin(v.data, v.pos, r as nat, v.empty, v.first, v.ended);
        },
        _ => {
            lemma_scan_field_origin(v.data, v.pos, v.empty, v.first, v.ended);
        },
    }
}

/// The rest of a field ends within the data.
proof fn lemma_scan_field_rest_next(v: ParserView)
    requires
        v.wf(),
        v.field_in_progress(),
        !(v.field_rest().end is Fault),
        !(v.field_rest().end is Incomplete),
    ensures
        0 <= v.field_rest().next <= v.data.len(),
{
    match v.field {
        FieldParserState::ReadingEscapedBytes(r) => {
            lemma_scan_escaped_next(v.data, v.pos, r as nat, v.empty, v.first, v.ended);
        },
        _ => {
            lemma_scan_field_next(v.data, v.pos, v.empty, v.first, v.ended);
        },
    }
}

/// Decodes the escape header whose digits start at `bytes[start]`, just
/// after its `{`: the escaped length and the index just after the `}`. The
/// length is accumulated with checked arithmetic and never wraps.
pub fn parse_escape_header(bytes: &[u8], start: usize) -> (r: Result<(usize, usize), Violation>)
    requires
        start <= bytes@.len(),
    ensures
        match escape_header(bytes@, start as int) {
            Ok((n, j)) => r == Ok::<(usize, usize), Violation>((n as usize, j as usize)),
            Err(v) => r == Err::<(usize, usize), Violation>(v),
        },
{
    let ghost d = bytes@;
    proof {
        lemma_digits_end_bounds(d, start as int);
    }
    let mut i: usize = start;
    let mut value: usize = 0;
    while i < bytes.len() && NUM_0 <= bytes[i] && bytes[i] <= NUM_9
        invariant
            start <= i <= d.len(),
            d == bytes@,
            value == decimal_value(d, start as int, i as int),
            digits_end(d, start as int) == digits_end(d, i as int),
            start <= digits_end(d, start as int) <= d.len(),
            forall|k: int| start <= k < digits_end(d, start as int) ==> is_digit(#[trigger] d[k]),
        decreases bytes.len() - i,
    {
        let digit = (bytes[i] - NUM_0) as usize;
        let next = match value.checked_mul(10) {
            Some(m) => m.checked_add(digit),
            None => None,
        };
        match next {
            Some(x) => {
                value = x;
            },
            None => {
                proof {
                    lemma_digits_end_bounds(d, i + 1);
                    assert(decimal_value(d, start as int, i + 1) > usize::MAX);
                    lemma_decimal_value_monotonic(
                        d,
                        start as int,
                        i + 1,
                        digits_end(d, start as int),
                    );
                }
                return Err(Violation::EscapeOverflow);
            },
        }
        i = i + 1;
    }
    if i < bytes.len() && bytes[i] == CURLY_R {
        Ok((value, i + 1))
    } else {
        Err(Violation::InvalidSymbol)
    }
}

/// The loop state of a read into a buffer of `n` bytes that started on the
/// parser `v0`: `w` is the parser now, `out` the buffer and `cursor` the
/// number of bytes produced so far.
pub open spec fn reading(
    v0: ParserView,
    n: nat,
    w: ParserView,
    out: Seq<u8>,
    cursor: int,
    stall: bool,
) -> bool {
    let s = v0.field_rest();
    &&& w.wf()
    &&& w.data == v0.data
    &&& out.len() == n
    &&& 0 <= cursor <= n
    &&& cursor <= s.content.len()
    &&& s.origin.len() == s.content.len()
    &&& out.subrange(0, cursor) == s.content.subrange(0, cursor)
    &&& w.field_in_progress() ==> {
        &&& w.field_rest().content == s.content.skip(cursor)
        &&& w.field_rest().end == s.end
        &&& w.field_rest().next == s.next
        &&& w.stream == v0.stream
        &&& w.message == v0.message
        &&& w.empty == (v0.empty && cursor == 0)
        &&& w.first == v0.first
        &&& w.ended == v0.ended
        &&& w.field_rest().origin == s.origin.skip(cursor)
        &&& cursor == n && n > 0 ==> w.pos == s.origin[n - 1] + 1
    }
    &&& !w.field_in_progress() ==> cursor < n && cursor == s.content.len()
    &&& stall ==> {
        &&& w.field_in_progress()
        &&& cursor < n
        &&& cursor == s.content.len()
        &&& s.end == FieldEnd::Incomplete
        &&& w.pos == s.next
    }
    &&& w.field is Done ==> !(s.end is Fault) && !(s.end is Incomplete) && w == v0.after_field(s)
    &&& w.field matches FieldParserState::Error(v) ==> s.end == FieldEnd::Fault(v) && v0.poisoned(
        w,
        v,
    )
}

/// Copying the next `m` bytes of the live escape run into the buffer keeps
/// a read in step.
proof fn lemma_copy_keeps_reading(
    v0: ParserView,
    n: nat,
    cur: ParserView,
    before: Seq<u8>,
    after: Seq<u8>,
    cursor: int,
    m: int,
    left: usize,
)
    requires
        reading(v0, n, cur, before, cursor, false),
        cur.field == FieldParserState::ReadingEscapedBytes(left),
        0 < m <= left,
        cursor + m <= n,
        cur.pos + m <= cur.data.len(),
        after.len() == before.len(),
        forall|t: int| 0 <= t < cursor ==> after[t] == before[t],
        forall|t: int| 0 <= t < m ==> after[cursor + t] == #[trigger] cur.data[cur.pos + t],
    ensures
        reading(
            v0,
            n,
            ParserView {
                pos: cur.pos + m,
                field: FieldParserState::ReadingEscapedBytes((left - m) as usize),
                empty: false,
                ..cur
            },
            after,
            cursor + m,
            false,
        ),
{
    let d = cur.data;
    let s = v0.field_rest();
    let rest = cur.field_rest().content;
    lemma_scan_escaped_take(d, cur.pos, left as nat, m as nat, cur.empty, cur.first, cur.ended);
    lemma_copied_prefix(before, after, s.content, rest, d, cursor, m, cur.pos);
    assert(s.content.skip(cursor + m) =~= s.content.skip(cursor).skip(m));
    assert(s.origin.skip(cursor + m) =~= s.origin.skip(cursor).skip(m));
    let ro = cur.field_rest().origin;
    assert(ro[m - 1] == cur.pos + m - 1);
    assert(s.origin.skip(cursor)[m - 1] == s.origin[cursor + m - 1]);
}

/// A buffer that held `content[0..cursor]` and then had the data bytes
/// `d[pos..pos + m]`, which are the next bytes of `content`, copied after
/// them holds `content[0..cursor + m]`.
proof fn lemma_copied_prefix(
    before: Seq<u8>,
    after: Seq<u8>,
    content: Seq<u8>,
    rest: Seq<u8>,
    d: Seq<u8>,
    cursor: int,
    m: int,
    pos: int,
)
    requires
        0 <= cursor,
        0 <= m,
        cursor + m <= content.len(),
        cursor + m <= after.len(),
        after.len() == before.len(),
        before.subrange(0, cursor) == content.subrange(0, cursor),
        rest == content.skip(cursor),
        forall|t: int| 0 <= t < cursor ==> after[t] == before[t],
        forall|t: int| 0 <= t < m ==> after[cursor + t] == #[trigger] d[pos + t],
        forall|t: int| 0 <= t < m ==> #[trigger] rest[t] == d[pos + t],
    ensures
        after.subrange(0, cursor + m) == content.subrange(0, cursor + m),
{
    assert forall|t: int| 0 <= t < cursor + m implies after[t] == content[t] by {
        if t < cursor {
            assert(before.subrange(0, cursor)[t] == before[t]);
        } else {
            let u = t - cursor;
            assert(after[cursor + u] == d[pos + u]);
            assert(rest[u] == d[pos + u]);
            assert(rest[u] == content.skip(cursor)[u]);
        }
    }
    assert(after.subrange(0, cursor + m) =~= content.subrange(0, cursor + m));
}

/// Whether the decimal digits that start at `bytes[start]` run to the end
/// of `bytes`.
fn digits_reach_end(bytes: &[u8], start: usize) -> (r: bool)
    requires
        start <= bytes@.len(),
    ensures
        r == (digits_end(bytes@, start as int) == bytes@.len()),
{
    let mut i: usize = start;
    while i < bytes.len() && NUM_0 <= bytes[i] && bytes[i] <= NUM_9
        invariant
            start <= i <= bytes@.len(),
            digits_end(bytes@, start as int) == digits_end(bytes@, i as int),
        decreases bytes@.len() - i,
    {
        i = i + 1;
    }
    i == bytes.len()
}

/// Copies `data[from..from + m]` into `buf[at..at + m]`.
fn copy_bytes(buf: &mut [u8], at: usize, data: &Vec<u8>, from: usize, m: usize)
    requires
        at + m <= old(buf)@.len(),
        from + m <= data@.len(),
        at + m <= usize::MAX,
        from + m <= usize::MAX,
    ensures
        final(buf)@.len() == old(buf)@.len(),
        forall|t: int| 0 <= t < at ==> final(buf)@[t] == old(buf)@[t],
        forall|t: int| 0 <= t < m ==> final(buf)@[at + t] == #[trigger] data@[from + t],
{
    let mut k: usize = 0;
    while k < m
        invariant
            k <= m,
            at + m <= buf@.len(),
            from + m <= data@.len(),
            at + m <= usize::MAX,
            from + m <= usize::MAX,
            buf@.len() == old(buf)@.len(),
            forall|t: int| 0 <= t < at ==> buf@[t] == old(buf)@[t],
            forall|t: int| 0 <= t < k ==> buf@[at + t] == #[trigger] data@[from + t],
        decreases m - k,
    {
        buf[at + k] = data[from + k];
        k = k + 1;
    }
}

/// The bytes of each of `fs`.
pub open spec fn field_views(fs: Seq<Vec<u8>>) -> Seq<Seq<u8>> {
    fs.map_values(|f: Vec<u8>| f@)
}

/// Relies on `String::from_utf8`: it accepts exactly the byte sequences
/// that are valid UTF-8, and the string holds the characters they encode.
#[verifier::external_body]
fn string_from_utf8(bytes: Vec<u8>) -> (r: Option<String>)
    ensures
        r is Some <==> valid_utf8(bytes@),
        r matches Some(text) ==> text@ == decode_utf8(bytes@),
{
    String::from_utf8(bytes).ok()
}

/// Appends `src[0..k]` to `out`.
fn append_prefix(out: &mut Vec<u8>, src: &Vec<u8>, k: usize)
    requires
        k <= src@.len(),
    ensures
        final(out)@ == old(out)@ + src@.subrange(0, k as int),
{
    let mut i: usize = 0;
    while i < k
        invariant
            i <= k,
            k <= src@.len(),
            out@ == old(out)@ + src@.subrange(0, i as int),
        decreases k - i,
    {
        out.push(src[i]);
        proof {
            assert(out@ =~= old(out)@ + src@.subrange(0, i + 1));
        }
        i = i + 1;
    }
}

/// A pull parser. It holds the bytes of the source that have arrived: `new`
/// takes the whole source at once, and `incremental` starts with none and is
/// handed them by `feed` as they come, until `end_input`. A call that runs
/// out of bytes before it can decide reports `Error::NeedInput` and can be
/// made again once more bytes have been fed.
pub struct PullParser {
    data: Vec<u8>,
    pos: usize,
    state: PullParserState,
    message: MessageParserState,
    empty: bool,
    first: bool,
    ended: bool,
    field: FieldParserState,
}

impl View for PullParser {
    type V = ParserView;

    closed spec fn view(&self) -> ParserView {
        ParserView {
            data: self.data@,
            pos: self.pos as int,
            stream: self.state,
            message: self.message,
            empty: self.empty,
            first: self.first,
            ended: self.ended,
            field: self.field,
        }
    }
}

impl PullParser {
    /// A parser over the whole of `data`: no byte follows it.
    pub fn new(data: Vec<u8>) -> (r: PullParser)
        ensures
            r@.wf(),
            r@.data == data@,
            r@.ended,
            r@.pos == 0,
            r@.stream == PullParserState::Initial,
            r@.message == MessageParserState::Done,
            r@.field == FieldParserState::Done,
    {
        PullParser {
            data,
            pos: 0,
            state: PullParserState::Initial,
            message: MessageParserState::Done,
            empty: true,
            first: true,
            ended: true,
            field: FieldParserState::Done,
        }
    }

    /// A parser that has no byte yet: `feed` hands it bytes as they arrive,
    /// and `end_input` marks the end of the source.
    pub fn incremental() -> (r: PullParser)
        ensures
            r@.wf(),
            r@.data == Seq::<u8>::empty(),
            !r@.ended,
            r@.pos == 0,
            r@.stream == PullParserState::Initial,
            r@.message == MessageParserState::Done,
            r@.field == FieldParserState::Done,
    {
        PullParser {
            data: Vec::new(),
            pos: 0,
            state: PullParserState::Initial,
            message: MessageParserState::Done,
            empty: true,
            first: true,
            ended: false,
            field: FieldParserState::Done,
        }
    }

    /// Adds the bytes `bytes`, which arrived from the source.
    pub fn feed(&mut self, bytes: &[u8])
        requires
            old(self)@.wf(),
        ensures
            final(self)@ == (ParserView { data: old(self)@.data + bytes@, ..old(self)@ }),
            final(self)@.wf(),
    {
        let mut i: usize = 0;
        while i < bytes.len()
            invariant
                i <= bytes@.len(),
                self@ == (ParserView { data: old(self)@.data + bytes@.subrange(0, i as int), ..old(self)@ }),
            decreases bytes@.len() - i,
        {
            self.data.push(bytes[i]);
            proof {
                assert(self.data@ =~= old(self)@.data + bytes@.subrange(0, i + 1));
            }
            i = i + 1;
        }
        proof {
            assert(bytes@.subrange(0, i as int) =~= bytes@);
        }
    }

    /// Marks the end of the source: no byte will be added.
    pub fn end_input(&mut self)
        requires
            old(self)@.wf(),
        ensures
            final(self)@ == (ParserView { ended: true, ..old(self)@ }),
    {
        self.ended = true;
    }

    fn poison(&mut self, v: Violation)
        ensures
            final(self)@ == (ParserView {
                stream: PullParserState::Error(v),
                message: MessageParserState::Error(v),
                field: FieldParserState::Error(v),
                ..old(self)@
            }),
    {
        self.state = PullParserState::Error(v);
        self.message = MessageParserState::Error(v);
        self.field = FieldParserState::Error(v);
    }

    /// Reads the next bytes of the live field into `buf`: as many as fit,
    /// or up to the end of the field. Delimiters inside an escape run are
    /// copied as they are. A violation found after some bytes were produced
    /// is reported by the next read.
    fn field_read(&mut self, buf: &mut [u8]) -> (r: Result<usize, Error>)
        requires
            old(self)@.wf(),
        ensures
            final(self)@.wf(),
            final(buf)@.len() == old(buf)@.len(),
            old(self)@.read_outcome(old(buf)@.len(), final(self)@, final(buf)@, r),
    {
        match self.field {
            FieldParserState::Done => {
                return Ok(0);
            },
            FieldParserState::Error(v) => {
                return Err(Error::Protocol(v));
            },
            _ => {},
        }
        let ghost v0 = self@;
        let n = buf.len();
        if n == 0 {
            proof {
                assert(v0.field_rest().content.skip(0) =~= v0.field_rest().content);
                assert(v0.field_rest().origin.skip(0) =~= v0.field_rest().origin);
                assert(buf@.subrange(0, 0) =~= v0.field_rest().content.subrange(0, 0));
            }
            return Ok(0);
        }
        let mut cursor: usize = 0;
        let mut stall = false;
        proof {
            lemma_field_rest_origin(v0);
            assert(v0.field_rest().content.skip(0) =~= v0.field_rest().content);
            assert(v0.field_rest().origin.skip(0) =~= v0.field_rest().origin);
            assert(buf@.subrange(0, 0) =~= v0.field_rest().content.subrange(0, 0));
        }
        loop
            invariant_except_break
                !stall,
            invariant
                v0.wf(),
                v0.field_in_progress(),
                reading(v0, n as nat, self@, buf@, cursor as int, stall),
            ensures
                reading(v0, n as nat, self@, buf@, cursor as int, stall),
                cursor >= n || !self@.field_in_progress() || stall,
            decreases n - cursor, self@.data.len() - self.pos, if self.field is ReadingEscapedBytes {
                1int
            } else {
                0int
            },
        {
            if cursor >= n || !self.field_in_progress() {
                break;
            }
            let (c, st) = match self.field {
                FieldParserState::ReadingEscapedBytes(left) => self.read_escaped(
                    buf,
                    cursor,
                    left,
                    Ghost(v0),
                ),
                _ => self.read_plain(buf, cursor, Ghost(v0)),
            };
            cursor = c;
            if st {
                stall = true;
                break;
            }
            if !self.field_in_progress() {
                break;
            }
        }
        let ghost s = v0.field_rest();
        match self.field {
            FieldParserState::Error(v) => {
                if cursor == 0 {
                    return Err(Error::Protocol(v));
                }
            },
            _ => {},
        }
        if stall {
            proof {
                assert(s.content.subrange(0, cursor as int) =~= s.content);
                assert(self@.field_rest().content =~= Seq::<u8>::empty());
            }
            if cursor == 0 {
                return Err(Error::NeedInput);
            }
            return Ok(cursor);
        }
        proof {
            if self@.field_in_progress() {
                assert(cursor == n);
                assert(s.content.len() >= n);
                assert(v0.read_outcome(n as nat, self@, buf@, Ok(cursor)));
            } else {
                assert(s.content.subrange(0, cursor as int) =~= s.content);
                assert(buf@.subrange(0, s.content.len() as int) == s.content);
                assert(v0.read_outcome(n as nat, self@, buf@, Ok(cursor)));
            }
        }
        Ok(cursor)
    }

    /// One step of reading inside an escape run with `left` bytes to go.
    fn read_escaped(
        &mut self,
        buf: &mut [u8],
        cursor: usize,
        left: usize,
        Ghost(v0): Ghost<ParserView>,
    ) -> (r: (usize, bool))
        requires
            reading(v0, old(buf)@.len() as nat, old(self)@, old(buf)@, cursor as int, false),
            old(self)@.field == FieldParserState::ReadingEscapedBytes(left),
            cursor < old(buf)@.len(),
        ensures
            reading(v0, old(buf)@.len() as nat, final(self)@, final(buf)@, r.0 as int, r.1),
            r.1 || r.0 > cursor || (r.0 == cursor && final(self)@.pos > old(self)@.pos) || (r.0
                == cursor && final(self)@.pos == old(self)@.pos && final(self)@.field is Initial)
                || !final(self)@.field_in_progress(),
    {
        let ghost cur = self@;
        let ghost d = self@.data;
        let ghost s = v0.field_rest();
        let n = buf.len();
        if left == 0 {
            self.field = FieldParserState::Initial;
            assert(d.subrange(cur.pos, cur.pos) + scan_field(d, cur.pos, cur.empty, cur.first, cur.ended).content
                =~= scan_field(d, cur.pos, cur.empty, cur.first, cur.ended).content);
            assert(index_run(cur.pos, 0) + scan_field(d, cur.pos, cur.empty, cur.first, cur.ended).origin
                =~= scan_field(d, cur.pos, cur.empty, cur.first, cur.ended).origin);
            return (cursor, false);
        }
        if self.pos == self.data.len() {
            assert(d.subrange(cur.pos, d.len() as int) =~= Seq::<u8>::empty());
            if self.ended {
                self.poison(Violation::UnexpectedEof);
                return (cursor, false);
            }
            return (cursor, true);
        }
        (self.copy_escaped(buf, cursor, left, Ghost(v0)), false)
    }

    /// Copies as much of an escape run with `left` bytes to go as the
    /// buffer and the bytes at hand allow.
    fn copy_escaped(
        &mut self,
        buf: &mut [u8],
        cursor: usize,
        left: usize,
        Ghost(v0): Ghost<ParserView>,
    ) -> (c: usize)
        requires
            reading(v0, old(buf)@.len() as nat, old(self)@, old(buf)@, cursor as int, false),
            old(self)@.field == FieldParserState::ReadingEscapedBytes(left),
            left > 0,
            old(self)@.pos < old(self)@.data.len(),
            cursor < old(buf)@.len(),
        ensures
            reading(v0, old(buf)@.len() as nat, final(self)@, final(buf)@, c as int, false),
            c > cursor,
    {
        let ghost cur = self@;
        let n = buf.len();
        let avail = self.data.len() - self.pos;
        let mut m = n - cursor;
        if left < m {
            m = left;
        }
        if avail < m {
            m = avail;
        }
        let ghost b0 = buf@;
        copy_bytes(buf, cursor, &self.data, self.pos, m);
        proof {
            lemma_copy_keeps_reading(v0, n as nat, cur, b0, buf@, cursor as int, m as int, left);
        }
        self.pos = self.pos + m;
        self.field = FieldParserState::ReadingEscapedBytes(left - m);
        self.empty = false;
        cursor + m
    }

    /// One step of reading outside escape runs: one byte of the data.
    fn read_plain(
        &mut self,
        buf: &mut [u8],
        cursor: usize,
        Ghost(v0): Ghost<ParserView>,
    ) -> (r: (usize, bool))
        requires
            reading(v0, old(buf)@.len() as nat, old(self)@, old(buf)@, cursor as int, false),
            old(self)@.field == FieldParserState::Initial,
            cursor < old(buf)@.len(),
        ensures
            reading(v0, old(buf)@.len() as nat, final(self)@, final(buf)@, r.0 as int, r.1),
            r.1 || r.0 > cursor || (r.0 == cursor && final(self)@.pos > old(self)@.pos)
                || !final(self)@.field_in_progress(),
    {
        let ghost cur = self@;
        let ghost d = self@.data;
        let ghost s = v0.field_rest();
        if self.pos == self.data.len() {
            if !self.ended {
                return (cursor, true);
            }
            if self.empty {
                self.state = PullParserState::Done;
                self.message = MessageParserState::Done;
                self.field = FieldParserState::Done;
                self.first = false;
            } else {
                self.poison(Violation::UnexpectedEof);
            }
            return (cursor, false);
        }
        let b = self.data[self.pos];
        if b == CURLY_L {
            proof {
                lemma_escape_header_advances(d, cur.pos + 1);
            }
            match parse_escape_header(self.data.as_slice(), self.pos + 1) {
                Ok((len, next)) => {
                    self.pos = next;
                    self.field = FieldParserState::ReadingEscapedBytes(len);
                },
                Err(v) => {
                    if !self.ended && v == Violation::InvalidSymbol && digits_reach_end(
                        self.data.as_slice(),
                        self.pos + 1,
                    ) {
                        return (cursor, true);
                    }
                    self.poison(v);
                },
            }
            (cursor, false)
        } else if b == SP {
            self.pos = self.pos + 1;
            self.message = MessageParserState::ExpectingField;
            self.field = FieldParserState::Done;
            self.first = false;
            (cursor, false)
        } else if b == LF {
            self.pos = self.pos + 1;
            if !(self.empty && self.first) {
                self.message = MessageParserState::Done;
                self.field = FieldParserState::Done;
                self.first = false;
            }
            (cursor, false)
        } else if b == CR {
            if self.pos + 1 < self.data.len() && self.data[self.pos + 1] == LF {
                self.pos = self.pos + 2;
                if !(self.empty && self.first) {
                    self.message = MessageParserState::Done;
                    self.field = FieldParserState::Done;
                    self.first = false;
                }
            } else if self.pos + 1 == self.data.len() && !self.ended {
                return (cursor, true);
            } else {
                self.poison(Violation::InvalidByteAfterCr);
            }
            (cursor, false)
        } else {
            let ghost b0 = buf@;
            buf[cursor] = b;
            proof {
                let tail = scan_field(d, cur.pos + 1, false, cur.first, cur.ended).content;
                assert(cur.field_rest().content == seq![b] + tail);
                assert(cur.field_rest().content == s.content.skip(cursor as int));
                assert((seq![b] + tail).len() == tail.len() + 1);
                assert(s.content.len() > cursor);
                assert(s.content.skip(cursor as int)[0] == b);
                assert(buf@.subrange(0, cursor + 1) =~= s.content.subrange(0, cursor + 1)) by {
                    assert forall|t: int| 0 <= t < cursor + 1 implies buf@[t] == s.content[t] by {
                        if t < cursor {
                            assert(b0.subrange(0, cursor as int)[t] == b0[t]);
                        } else {
                            assert(s.content.skip(cursor as int)[0] == s.content[cursor as int]);
                        }
                    }
                }
                assert(s.content.skip(cursor + 1) =~= s.content.skip(cursor as int).skip(1));
                assert((seq![b] + tail).skip(1) =~= tail);
                let tail_origin = scan_field(d, cur.pos + 1, false, cur.first, cur.ended).origin;
                assert(cur.field_rest().origin == seq![cur.pos as int] + tail_origin);
                assert(s.origin.skip(cursor as int)[0] == s.origin[cursor as int]);
                assert(s.origin.skip(cursor + 1) =~= s.origin.skip(cursor as int).skip(1));
                assert((seq![cur.pos as int] + tail_origin).skip(1) =~= tail_origin);
            }
            self.pos = self.pos + 1;
            self.empty = false;
            (cursor + 1, false)
        }
    }

    /// Reads the live field to its end, appending its bytes to `out` where
    /// `keep` holds and dropping them where it does not.
    #[verifier::spinoff_prover]
    #[verifier::rlimit(50)]
    fn field_drain(&mut self, out: &mut Vec<u8>, keep: bool) -> (r: Result<(), Error>)
        requires
            old(self)@.wf(),
        ensures
            final(self)@.wf(),
            old(self)@.finish_outcome(final(self)@, r),
            final(out)@ == if keep {
                old(out)@ + old(self)@.field_remainder()
            } else {
                old(out)@
            },
    {
        let ghost v0 = self@;
        let ghost s = v0.field_rest();
        let ghost o0 = out@;
        if !self.field_in_progress() {
            assert(out@ =~= o0 + v0.field_remainder());
            return match self.field {
                FieldParserState::Error(v) => Err(Error::Protocol(v)),
                _ => Ok(()),
            };
        }
        let mut scratch: Vec<u8> = vec![0u8; 256];
        let ghost mut total: int = 0;
        let mut stalled = false;
        proof {
            assert(s.content.skip(0) =~= s.content);
            assert(o0 + s.content.subrange(0, 0) =~= o0);
        }
        while self.field_in_progress() && !stalled
            invariant
                v0.wf(),
                v0.field_in_progress(),
                s == v0.field_rest(),
                self@.wf(),
                self@.data == v0.data,
                self@.ended == v0.ended,
                scratch@.len() == 256,
                0 <= total <= s.content.len(),
                out@ == if keep {
                    o0 + s.content.subrange(0, total)
                } else {
                    o0
                },
                self@.field_in_progress() ==> {
                    &&& self@.field_rest().content == s.content.skip(total)
                    &&& self@.field_rest().end == s.end
                    &&& self@.field_rest().next == s.next
                    &&& self@.stream == v0.stream
                    &&& self@.message == v0.message
                    &&& self@.empty == (v0.empty && total == 0)
                    &&& self@.first == v0.first
                },
                !self@.field_in_progress() ==> total == s.content.len(),
                self@.field is Done ==> !(s.end is Fault) && !(s.end is Incomplete) && self@
                    == v0.after_field(s),
                stalled ==> s.end == FieldEnd::Incomplete && total == s.content.len() && v0.stalled(
                    self@,
                    s,
                ),
                self@.field matches FieldParserState::Error(v) ==> s.end == FieldEnd::Fault(v)
                    && v0.poisoned(self@, v),
            decreases s.content.len() - total, if self@.field_in_progress() && !stalled {
                1int
            } else {
                0int
            },
        {
            let ghost cur = self@;
            let ghost rest = cur.field_rest();
            let got = self.field_read(scratch.as_mut_slice());
            match got {
                Err(e) => {
                    if e == Error::NeedInput {
                        stalled = true;
                    }
                },
                Ok(k) => {
                    if keep {
                        append_prefix(out, &scratch, k);
                    }
                    proof {
                        assert(scratch@.subrange(0, k as int) == rest.content.subrange(0, k as int))
                            by {
                            if rest.content.len() < 256 {
                                assert(rest.content.subrange(0, k as int) =~= rest.content);
                            }
                        }
                        assert(rest.content.subrange(0, k as int) =~= s.content.subrange(
                            total,
                            total + k,
                        ));
                        if keep {
                            assert(out@ =~= o0 + s.content.subrange(0, total + k));
                        }
                        assert(s.content.skip(total + k) =~= rest.content.skip(k as int));
                        total = total + k;
                    }
                },
            }
        }
        proof {
            assert(s.content.subrange(0, total) =~= s.content);
        }
        match self.field {
            FieldParserState::Error(v) => Err(Error::Protocol(v)),
            FieldParserState::Done => Ok(()),
            _ => Err(Error::NeedInput),
        }
    }

    /// Hands out the next message: `None` once the stream has ended, and
    /// the stored violation once the stream is broken. A message that was
    /// begun and not read to its end stands in the way of the next one.
    pub fn get_message(&mut self) -> (r: Result<Option<Message<'_>>, Error>)
        requires
            old(self)@.wf(),
        ensures
            old(self)@.message_live() ==> (r matches Err(e) && e == Error::MessageInProgress)
                && final(self)@ == old(self)@,
            !old(self)@.message_live() ==> match old(self)@.stream {
                PullParserState::Initial => r matches Ok(Some(m)) && m@ == old(
                    self,
                )@.message_begun() && *final(self) == *final(m.parser),
                PullParserState::Done => r matches Ok(None) && final(self)@ == old(self)@,
                PullParserState::Error(v) => r matches Err(e) && e == Error::Protocol(v)
                    && final(self)@ == old(self)@,
            },
    {
        match self.begin_message() {
            Ok(true) => Ok(Some(Message::new(self))),
            Ok(false) => Ok(None),
            Err(e) => Err(e),
        }
    }

    /// Reads the next message whole: its fields in order, or `None` once
    /// the stream has ended.
    pub fn read_message(&mut self) -> (r: Result<Option<Vec<Vec<u8>>>, Error>)
        requires
            old(self)@.wf(),
        ensures
            final(self)@.wf(),
            old(self)@.message_live() ==> (r matches Err(e) && e == Error::MessageInProgress)
                && final(self)@ == old(self)@,
            !old(self)@.message_live() ==> match old(self)@.stream {
                PullParserState::Initial => {
                    let m = scan_message(old(self)@.data, old(self)@.pos, old(self)@.ended);
                    match m.end {
                        FieldEnd::Fault(v) => r == Err::<Option<Vec<Vec<u8>>>, Error>(
                            Error::Protocol(v),
                        ) && old(self)@.poisoned(final(self)@, v),
                        FieldEnd::Incomplete => r == Err::<Option<Vec<Vec<u8>>>, Error>(
                            Error::NeedInput,
                        ) && old(self)@.unchanged(final(self)@),
                        FieldEnd::EndOfStream => r matches Ok(None) && old(self)@.message_ended(
                            final(self)@,
                            m,
                        ),
                        _ => r matches Ok(Some(fields)) && field_views(fields@) == m.fields && old(
                            self,
                        )@.message_ended(final(self)@, m),
                    }
                },
                PullParserState::Done => r matches Ok(None) && final(self)@ == old(self)@,
                PullParserState::Error(v) => r == Err::<Option<Vec<Vec<u8>>>, Error>(
                    Error::Protocol(v),
                ) && final(self)@ == old(self)@,
            },
    {
        let mark = self.mark();
        match self.begin_message() {
            Ok(true) => {},
            Ok(false) => {
                return Ok(None);
            },
            Err(e) => {
                return Err(e);
            },
        }
        let mut fields: Vec<Vec<u8>> = Vec::new();
        proof {
            assert(field_views(fields@) =~= Seq::<Seq<u8>>::empty());
        }
        match self.message_drain(&mut fields, true) {
            Ok(()) => {
                proof {
                    assert(Seq::<Seq<u8>>::empty() + self@.message_rest().fields
                        =~= self@.message_rest().fields);
                }
                match self.state {
                    PullParserState::Done => Ok(None),
                    _ => Ok(Some(fields)),
                }
            },
            Err(e) => {
                if e == Error::NeedInput {
                    self.rewind(mark);
                }
                Err(e)
            },
        }
    }

    /// Where the parser stands, to come back to.
    fn mark(&self) -> (m: (usize, PullParserState, MessageParserState, bool, bool, FieldParserState))
        ensures
            m.0 == self@.pos,
            m.1 == self@.stream,
            m.2 == self@.message,
            m.3 == self@.empty,
            m.4 == self@.first,
            m.5 == self@.field,
    {
        (self.pos, self.state, self.message, self.empty, self.first, self.field)
    }

    /// Goes back to where `mark` was taken.
    fn rewind(&mut self, m: (usize, PullParserState, MessageParserState, bool, bool, FieldParserState))
        ensures
            final(self)@ == (ParserView {
                pos: m.0 as int,
                stream: m.1,
                message: m.2,
                empty: m.3,
                first: m.4,
                field: m.5,
                ..old(self)@
            }),
    {
        self.pos = m.0;
        self.state = m.1;
        self.message = m.2;
        self.empty = m.3;
        self.first = m.4;
        self.field = m.5;
    }

    /// Starts a message where the stream allows one.
    fn begin_message(&mut self) -> (r: Result<bool, Error>)
        requires
            old(self)@.wf(),
        ensures
            final(self)@.wf(),
            old(self)@.message_live() ==> r == Err::<bool, Error>(Error::MessageInProgress)
                && final(self)@ == old(self)@,
            !old(self)@.message_live() ==> match old(self)@.stream {
                PullParserState::Initial => r == Ok::<bool, Error>(true) && final(self)@
                    == old(self)@.message_begun(),
                PullParserState::Done => r == Ok::<bool, Error>(false) && final(self)@ == old(
                    self,
                )@,
                PullParserState::Error(v) => r == Err::<bool, Error>(Error::Protocol(v))
                    && final(self)@ == old(self)@,
            },
    {
        match self.message {
            MessageParserState::ExpectingField => {
                return Err(Error::MessageInProgress);
            },
            MessageParserState::ReadingField => {
                return Err(Error::MessageInProgress);
            },
            _ => {},
        }
        match self.state {
            PullParserState::Initial => {
                self.message = MessageParserState::ExpectingField;
                self.field = FieldParserState::Done;
                self.empty = true;
                self.first = true;
                Ok(true)
            },
            PullParserState::Done => Ok(false),
            PullParserState::Error(v) => Err(Error::Protocol(v)),
        }
    }

    /// Starts a field where the live message allows one.
    fn begin_field(&mut self) -> (r: Result<bool, Error>)
        requires
            old(self)@.wf(),
        ensures
            final(self)@.wf(),
            match old(self)@.message {
                MessageParserState::ExpectingField => r == Ok::<bool, Error>(true) && final(self)@
                    == old(self)@.field_begun(),
                MessageParserState::ReadingField => r == Err::<bool, Error>(
                    Error::FieldInProgress,
                ) && final(self)@ == old(self)@,
                MessageParserState::Done => r == Ok::<bool, Error>(false) && final(self)@ == old(
                    self,
                )@,
                MessageParserState::Error(v) => r == Err::<bool, Error>(Error::Protocol(v))
                    && final(self)@ == old(self)@,
            },
    {
        match self.message {
            MessageParserState::ExpectingField => {
                self.message = MessageParserState::ReadingField;
                self.field = FieldParserState::Initial;
                Ok(true)
            },
            MessageParserState::ReadingField => Err(Error::FieldInProgress),
            MessageParserState::Done => Ok(false),
            MessageParserState::Error(v) => Err(Error::Protocol(v)),
        }
    }

    /// Reads the rest of the live message, each field into `fields` where
    /// `keep` holds.
    fn message_drain(&mut self, fields: &mut Vec<Vec<u8>>, keep: bool) -> (r: Result<(), Error>)
        requires
            old(self)@.wf(),
            old(self)@.message is ExpectingField,
        ensures
            ({
                let m = old(self)@.message_rest();
                match m.end {
                    FieldEnd::Fault(v) => r == Err::<(), Error>(Error::Protocol(v)) && old(
                        self,
                    )@.poisoned(final(self)@, v),
                    FieldEnd::Incomplete => {
                        &&& r == Err::<(), Error>(Error::NeedInput)
                        &&& final(self)@.wf()
                        &&& final(self)@.data == old(self)@.data
                        &&& final(self)@.ended == old(self)@.ended
                    },
                    _ => r is Ok && old(self)@.message_ended(final(self)@, m) && field_views(
                        final(fields)@,
                    ) == if keep {
                        field_views(old(fields)@) + m.fields
                    } else {
                        field_views(old(fields)@)
                    },
                }
            }),
    {
        let ghost v0 = self@;
        let ghost m = v0.message_rest();
        let ghost f0 = field_views(fields@);
        let ghost mut done: Seq<Seq<u8>> = seq![];
        proof {
            assert(f0 + done =~= f0);
            assert(done + m.fields =~= m.fields);
        }
        while self.message_expecting()
            invariant
                v0.wf(),
                self@.wf(),
                self@.data == v0.data,
                self@.ended == v0.ended,
                m == v0.message_rest(),
                field_views(fields@) == if keep {
                    f0 + done
                } else {
                    f0
                },
                self@.message is ExpectingField ==> {
                    &&& self@.stream == v0.stream
                    &&& done + self@.message_rest().fields == m.fields
                    &&& self@.message_rest().end == m.end
                    &&& self@.message_rest().next == m.next
                },
                self@.message is Done ==> done == m.fields && !(m.end is Fault)
                    && v0.message_ended(self@, m),
                self@.message matches MessageParserState::Error(v) ==> m.end == FieldEnd::Fault(v)
                    && v0.poisoned(self@, v),
                self@.message is ReadingField ==> m.end == FieldEnd::Incomplete,
                self@.message is Done ==> !(m.end is Incomplete),
            decreases
                if self@.message is ExpectingField {
                    1int
                } else {
                    0int
                },
                self@.data.len() - self@.pos,
        {
            let ghost cur = self@;
            let ghost f = cur.next_field();
            let _ = self.begin_field();
            let mut field: Vec<u8> = Vec::new();
            let _ = self.field_drain(&mut field, keep);
            proof {
                lemma_scan_field_next(cur.data, cur.pos, cur.empty, cur.first, cur.ended);
                assert(field@ =~= if keep { f.content } else { Seq::<u8>::empty() });
            }
            let ghost old_fields = fields@;
            if keep {
                fields.push(field);
                proof {
                    assert(field_views(fields@) =~= f0 + (done + seq![f.content])) by {
                        assert(field_views(old_fields) == f0 + done);
                        assert(field_views(old_fields).len() == old_fields.len());
                        assert(fields@.len() == old_fields.len() + 1);
                        assert(field_views(fields@).len() == f0.len() + done.len() + 1);
                        let whole = f0 + (done + seq![f.content]);
                        assert forall|t: int| 0 <= t < field_views(fields@).len() implies field_views(
                            fields@,
                        )[t] == whole[t] by {
                            if t < field_views(fields@).len() - 1 {
                                assert(fields@[t] == old_fields[t]);
                                assert(field_views(old_fields)[t] == old_fields[t]@);
                            }
                        }
                    }
                }
            }
            proof {
                let rest = cur.message_rest();
                assert(rest.fields[0] == f.content);
                if f.end is Separator {
                    assert(rest.fields == seq![f.content] + self@.message_rest().fields);
                    assert(done + seq![f.content] + self@.message_rest().fields =~= m.fields);
                } else {
                    assert(rest.fields == seq![f.content]);
                    assert(done + seq![f.content] =~= m.fields);
                }
                done = done + seq![f.content];
            }
        }
        match self.message {
            MessageParserState::Error(v) => Err(Error::Protocol(v)),
            MessageParserState::ReadingField => Err(Error::NeedInput),
            _ => Ok(()),
        }
    }

    fn message_expecting(&self) -> (r: bool)
        ensures
            r == self@.message is ExpectingField,
    {
        match self.message {
            MessageParserState::ExpectingField => true,
            _ => false,
        }
    }

    fn field_in_progress(&self) -> (r: bool)
        ensures
            r == self@.field_in_progress(),
    {
        match self.field {
            FieldParserState::Initial => true,
            FieldParserState::ReadingEscapedBytes(_) => true,
            _ => false,
        }
    }
}

/// A message being read. It borrows its parser until it is dropped.
pub struct Message<'a> {
    pub parser: &'a mut PullParser,
}

impl<'a> View for Message<'a> {
    type V = ParserView;

    open spec fn view(&self) -> ParserView {
        (*self.parser)@
    }
}

impl<'a> Message<'a> {
    /// The message read from `parser`, in whatever state it is in.
    pub fn new(parser: &'a mut PullParser) -> (r: Message<'a>)
        ensures
            *r.parser == *old(parser),
            *final(parser) == *final(r.parser),
    {
        Message { parser }
    }

    /// Hands out the next field: `None` once the message has ended. A
    /// field that is still unread stands in the way of the next one.
    pub fn get_field(&mut self) -> (r: Result<Option<Field<'_>>, Error>)
        requires
            old(self)@.wf(),
        ensures
            *final(final(self).parser) == *final(old(self).parser),
            match old(self)@.message {
                MessageParserState::ExpectingField => r matches Ok(Some(f)) && f@ == old(
                    self,
                )@.field_begun() && *final(self).parser == *final(f.parser),
                MessageParserState::ReadingField => r matches Err(e) && e == Error::FieldInProgress
                    && final(self)@ == old(self)@,
                MessageParserState::Done => r matches Ok(None) && final(self)@ == old(self)@,
                MessageParserState::Error(v) => r matches Err(e) && e == Error::Protocol(v)
                    && final(self)@ == old(self)@,
            },
    {
        match self.parser.begin_field() {
            Ok(true) => Ok(Some(Field::new(self.parser))),
            Ok(false) => Ok(None),
            Err(e) => Err(e),
        }
    }

    /// Skips the rest of the message, so that the next message can be read.
    pub fn ignore_rest(&mut self) -> (r: Result<(), Error>)
        requires
            old(self)@.wf(),
        ensures
            final(self)@.wf(),
            *final(final(self).parser) == *final(old(self).parser),
            match old(self)@.message {
                MessageParserState::ExpectingField => {
                    let m = old(self)@.message_rest();
                    match m.end {
                        FieldEnd::Fault(v) => r == Err::<(), Error>(Error::Protocol(v)) && old(
                            self,
                        )@.poisoned(final(self)@, v),
                        FieldEnd::Incomplete => r == Err::<(), Error>(Error::NeedInput) && old(
                            self,
                        )@.unchanged(final(self)@),
                        _ => r is Ok && old(self)@.message_ended(final(self)@, m),
                    }
                },
                MessageParserState::ReadingField => r == Err::<(), Error>(Error::FieldInProgress)
                    && final(self)@ == old(self)@,
                MessageParserState::Done => r is Ok && final(self)@ == old(self)@,
                MessageParserState::Error(v) => r == Err::<(), Error>(Error::Protocol(v))
                    && final(self)@ == old(self)@,
            },
    {
        match self.parser.message {
            MessageParserState::ExpectingField => {
                let mark = self.parser.mark();
                let mut none: Vec<Vec<u8>> = Vec::new();
                match self.parser.message_drain(&mut none, false) {
                    Err(Error::NeedInput) => {
                        self.parser.rewind(mark);
                        Err(Error::NeedInput)
                    },
                    r => r,
                }
            },
            MessageParserState::ReadingField => Err(Error::FieldInProgress),
            MessageParserState::Done => Ok(()),
            MessageParserState::Error(v) => Err(Error::Protocol(v)),
        }
    }

    /// Reads the next field whole into `buf` and returns its length. A
    /// field longer than `buf` is skipped, so that the message stays in
    /// step, and reported as an overflow.
    pub fn read_field(&mut self, buf: &mut [u8]) -> (r: Result<Option<usize>, Error>)
        requires
            old(self)@.wf(),
        ensures
            final(self)@.wf(),
            *final(final(self).parser) == *final(old(self).parser),
            final(buf)@.len() == old(buf)@.len(),
            match old(self)@.message {
                MessageParserState::ExpectingField => {
                    let s = old(self)@.next_field();
                    let k = if s.content.len() < old(buf)@.len() {
                        s.content.len() as int
                    } else {
                        old(buf)@.len() as int
                    };
                    &&& final(buf)@.subrange(0, k) == s.content.subrange(0, k)
                    &&& match s.end {
                        FieldEnd::Fault(v) => r == Err::<Option<usize>, Error>(Error::Protocol(v))
                            && old(self)@.poisoned(final(self)@, v),
                        FieldEnd::Incomplete => r == Err::<Option<usize>, Error>(Error::NeedInput)
                            && old(self)@.unchanged(final(self)@),
                        _ => final(self)@ == old(self)@.field_begun().after_field(s) && r == if s.content.len() > old(
                            buf,
                        )@.len() {
                            Err::<Option<usize>, Error>(Error::Overflow)
                        } else {
                            Ok::<Option<usize>, Error>(Some(s.content.len() as usize))
                        },
                    }
                },
                MessageParserState::ReadingField => r == Err::<Option<usize>, Error>(
                    Error::FieldInProgress,
                ) && final(self)@ == old(self)@,
                MessageParserState::Done => r == Ok::<Option<usize>, Error>(None) && final(self)@
                    == old(self)@,
                MessageParserState::Error(v) => r == Err::<Option<usize>, Error>(
                    Error::Protocol(v),
                ) && final(self)@ == old(self)@,
            },
    {
        let ghost v0 = self@;
        let mark = self.parser.mark();
        match self.parser.begin_field() {
            Ok(true) => {},
            Ok(false) => {
                return Ok(None);
            },
            Err(e) => {
                return Err(e);
            },
        }
        let ghost v1 = self@;
        let ghost s = v1.field_rest();
        let n = buf.len();
        let k = match self.parser.field_read(buf) {
            Ok(k) => k,
            Err(Error::NeedInput) => {
                self.parser.rewind(mark);
                return Err(Error::NeedInput);
            },
            Err(e) => {
                return Err(e);
            },
        };
        if k < n {
            match self.parser.field {
                FieldParserState::Error(v) => {
                    return Err(Error::Protocol(v));
                },
                FieldParserState::Done => {
                    return Ok(Some(k));
                },
                _ => {
                    self.parser.rewind(mark);
                    return Err(Error::NeedInput);
                },
            }
        }
        let ghost w1 = self@;
        let mut probe: Vec<u8> = vec![0u8; 1];
        match self.parser.field_read(probe.as_mut_slice()) {
            Err(Error::NeedInput) => {
                self.parser.rewind(mark);
                Err(Error::NeedInput)
            },
            Err(e) => {
                proof {
                    assert(w1.field_rest().content =~= Seq::<u8>::empty());
                }
                Err(e)
            },
            Ok(0) => {
                proof {
                    assert(w1.field_rest().content =~= Seq::<u8>::empty());
                    assert(s.content.subrange(0, n as int) =~= s.content);
                }
                Ok(Some(k))
            },
            Ok(_) => {
                let mut none: Vec<u8> = Vec::new();
                match self.parser.field_drain(&mut none, false) {
                    Ok(()) => Err(Error::Overflow),
                    Err(Error::NeedInput) => {
                        self.parser.rewind(mark);
                        Err(Error::NeedInput)
                    },
                    Err(e) => Err(e),
                }
            },
        }
    }

    /// Reads the next field whole, appending it to `buf`, and returns its
    /// length.
    pub fn read_field_to_end(&mut self, buf: &mut Vec<u8>) -> (r: Result<Option<usize>, Error>)
        requires
            old(self)@.wf(),
        ensures
            final(self)@.wf(),
            *final(final(self).parser) == *final(old(self).parser),
            match old(self)@.message {
                MessageParserState::ExpectingField => {
                    let s = old(self)@.next_field();
                    match s.end {
                        FieldEnd::Fault(v) => r == Err::<Option<usize>, Error>(Error::Protocol(v))
                            && old(self)@.poisoned(final(self)@, v) && final(buf)@ == old(buf)@
                            + s.content,
                        FieldEnd::Incomplete => r == Err::<Option<usize>, Error>(Error::NeedInput)
                            && old(self)@.unchanged(final(self)@) && final(buf)@ == old(buf)@,
                        _ => final(self)@ == old(self)@.field_begun().after_field(s) && r
                            == Ok::<Option<usize>, Error>(Some(s.content.len() as usize))
                            && final(buf)@ == old(buf)@ + s.content,
                    }
                },
                MessageParserState::ReadingField => r == Err::<Option<usize>, Error>(
                    Error::FieldInProgress,
                ) && final(self)@ == old(self)@ && final(buf)@ == old(buf)@,
                MessageParserState::Done => r == Ok::<Option<usize>, Error>(None) && final(self)@
                    == old(self)@ && final(buf)@ == old(buf)@,
                MessageParserState::Error(v) => r == Err::<Option<usize>, Error>(
                    Error::Protocol(v),
                ) && final(self)@ == old(self)@ && final(buf)@ == old(buf)@,
            },
    {
        let mark = self.parser.mark();
        match self.parser.begin_field() {
            Ok(true) => {},
            Ok(false) => {
                return Ok(None);
            },
            Err(e) => {
                return Err(e);
            },
        }
        let start = buf.len();
        match self.parser.field_drain(buf, true) {
            Ok(()) => Ok(Some(buf.len() - start)),
            Err(Error::NeedInput) => {
                self.parser.rewind(mark);
                buf.truncate(start);
                Err(Error::NeedInput)
            },
            Err(e) => Err(e),
        }
    }

    /// Reads the next field whole as UTF-8 text.
    pub fn read_field_as_string(&mut self) -> (r: Result<Option<String>, Error>)
        requires
            old(self)@.wf(),
        ensures
            final(self)@.wf(),
            *final(final(self).parser) == *final(old(self).parser),
            match old(self)@.message {
                MessageParserState::ExpectingField => {
                    let s = old(self)@.next_field();
                    match s.end {
                        FieldEnd::Fault(v) => r == Err::<Option<String>, Error>(Error::Protocol(v))
                            && old(self)@.poisoned(final(self)@, v),
                        FieldEnd::Incomplete => r == Err::<Option<String>, Error>(Error::NeedInput)
                            && old(self)@.unchanged(final(self)@),
                        _ => final(self)@ == old(self)@.field_begun().after_field(s) && if valid_utf8(
                            s.content,
                        ) {
                            r matches Ok(Some(text)) && text@ == decode_utf8(s.content)
                        } else {
                            r == Err::<Option<String>, Error>(Error::InvalidUtf8)
                        },
                    }
                },
                MessageParserState::ReadingField => r == Err::<Option<String>, Error>(
                    Error::FieldInProgress,
                ) && final(self)@ == old(self)@,
                MessageParserState::Done => r == Ok::<Option<String>, Error>(None) && final(self)@
                    == old(self)@,
                MessageParserState::Error(v) => r == Err::<Option<String>, Error>(
                    Error::Protocol(v),
                ) && final(self)@ == old(self)@,
            },
    {
        let ghost v0 = self@;
        let mut bytes: Vec<u8> = Vec::new();
        match self.read_field_to_end(&mut bytes) {
            Ok(Some(_)) => {
                proof {
                    assert(bytes@ =~= v0.next_field().content);
                }
                match string_from_utf8(bytes) {
                    Some(text) => Ok(Some(text)),
                    None => Err(Error::InvalidUtf8),
                }
            },
            Ok(None) => Ok(None),
            Err(e) => Err(e),
        }
    }

    /// Reads the next field whole into `buffer` and returns the part of
    /// `buffer` that holds it.
    pub fn read_field_as_slice<'b>(&mut self, buffer: &'b mut [u8]) -> (r: Result<
        Option<&'b [u8]>,
        Error,
    >)
        requires
            old(self)@.wf(),
        ensures
            final(self)@.wf(),
            *final(final(self).parser) == *final(old(self).parser),
            match old(self)@.message {
                MessageParserState::ExpectingField => {
                    let s = old(self)@.next_field();
                    match s.end {
                        FieldEnd::Fault(v) => r matches Err(e) && e == Error::Protocol(v) && old(
                            self,
                        )@.poisoned(final(self)@, v),
                        FieldEnd::Incomplete => r matches Err(e) && e == Error::NeedInput && old(
                            self,
                        )@.unchanged(final(self)@),
                        _ => final(self)@ == old(self)@.field_begun().after_field(s) && if s.content.len()
                            > old(buffer)@.len() {
                            r matches Err(e) && e == Error::Overflow
                        } else {
                            r matches Ok(Some(field)) && field@ == s.content
                        },
                    }
                },
                MessageParserState::ReadingField => r matches Err(e) && e == Error::FieldInProgress
                    && final(self)@ == old(self)@,
                MessageParserState::Done => r matches Ok(None) && final(self)@ == old(self)@,
                MessageParserState::Error(v) => r matches Err(e) && e == Error::Protocol(v)
                    && final(self)@ == old(self)@,
            },
    {
        let ghost v0 = self@;
        proof {
            assert(buffer@.len() == buffer.len());
        }
        match self.read_field(buffer) {
            Ok(Some(len)) => {
                let filled: &'b [u8] = buffer;
                proof {
                    assert(v0.next_field().content.subrange(0, len as int) =~= v0.next_field().content);
                }
                Ok(Some(&filled[0..len]))
            },
            Ok(None) => Ok(None),
            Err(e) => Err(e),
        }
    }

    /// Whether the message has ended.
    pub fn at_end(&self) -> (r: bool)
        ensures
            r == self@.message is Done,
    {
        match self.parser.message {
            MessageParserState::Done => true,
            _ => false,
        }
    }
}

/// A field being read. It borrows its parser until it is dropped.
pub struct Field<'a> {
    pub parser: &'a mut PullParser,
}

impl<'a> View for Field<'a> {
    type V = ParserView;

    open spec fn view(&self) -> ParserView {
        (*self.parser)@
    }
}

impl<'a> Field<'a> {
    /// The field read from `parser`, in whatever state it is in.
    pub fn new(parser: &'a mut PullParser) -> (r: Field<'a>)
        ensures
            *r.parser == *old(parser),
            *final(parser) == *final(r.parser),
    {
        Field { parser }
    }

    /// Reads the next bytes of the field into `buf`; `Ok(0)` marks the end
    /// of the field when `buf` is not empty.
    pub fn read(&mut self, buf: &mut [u8]) -> (r: Result<usize, Error>)
        requires
            old(self)@.wf(),
        ensures
            final(self)@.wf(),
            *final(final(self).parser) == *final(old(self).parser),
            final(buf)@.len() == old(buf)@.len(),
            old(self)@.read_outcome(old(buf)@.len() as nat, final(self)@, final(buf)@, r),
    {
        self.parser.field_read(buf)
    }

    /// Reads the rest of the field, appending it to `buf`, and returns the
    /// number of bytes appended.
    pub fn read_to_end(&mut self, buf: &mut Vec<u8>) -> (r: Result<usize, Error>)
        requires
            old(self)@.wf(),
        ensures
            final(self)@.wf(),
            *final(final(self).parser) == *final(old(self).parser),
            old(self)@.finish_outcome(final(self)@, r),
            final(buf)@ == old(buf)@ + old(self)@.field_remainder(),
            r is Ok ==> r == Ok::<usize, Error>(old(self)@.field_remainder().len() as usize),
    {
        let start = buf.len();
        match self.parser.field_drain(buf, true) {
            Ok(()) => Ok(buf.len() - start),
            Err(e) => Err(e),
        }
    }

    /// Skips the rest of the field.
    pub fn ignore_rest(&mut self) -> (r: Result<(), Error>)
        requires
            old(self)@.wf(),
        ensures
            final(self)@.wf(),
            *final(final(self).parser) == *final(old(self).parser),
            old(self)@.finish_outcome(final(self)@, r),
    {
        let mut none: Vec<u8> = Vec::new();
        self.parser.field_drain(&mut none, false)
    }
}

} // verus!
