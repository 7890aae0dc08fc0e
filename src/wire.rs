//! The wire format as mathematics: what a byte stream decodes to, and what
//! a sequence of fields encodes to.
use vstd::prelude::*;

verus! {

pub const CURLY_L: u8 = 0x7b;

pub const CURLY_R: u8 = 0x7d;

pub const SP: u8 = 0x20;

pub const CR: u8 = 0x0d;

pub const LF: u8 = 0x0a;

pub const NUM_0: u8 = 0x30;

pub const NUM_9: u8 = 0x39;

/// The ways in which a byte stream breaks the protocol. Each of them leaves
/// the stream unusable.
#[derive(Clone, Copy, Debug, PartialEq, Eq, Structural)]
pub enum Violation {
    /// A byte other than a digit or `}` inside an escape header.
    InvalidSymbol,
    /// An escape length larger than `usize::MAX`.
    EscapeOverflow,
    /// A CR that is not followed by LF.
    InvalidByteAfterCr,
    /// The data ended in the middle of a message.
    UnexpectedEof,
}

pub open spec fn is_digit(b: u8) -> bool {
    NUM_0 <= b <= NUM_9
}

/// The index of the first byte at or after `i` that is not a decimal digit
/// (`d.len()` when there is none).
pub open spec fn digits_end(d: Seq<u8>, i: int) -> int
    decreases d.len() - i,
{
    if 0 <= i < d.len() && is_digit(d[i]) {
        digits_end(d, i + 1)
    } else {
        i
    }
}

/// The number written in decimal by the digits `d[i..j]`.
pub open spec fn decimal_value(d: Seq<u8>, i: int, j: int) -> nat
    decreases j - i,
{
    if j <= i {
        0
    } else {
        decimal_value(d, i, j - 1) * 10 + (d[j - 1] - NUM_0) as nat
    }
}

/// What the escape header whose digits start at `d[i]` (just after its `{`)
/// decodes to: the escaped length and the index just after the closing `}`.
pub open spec fn escape_header(d: Seq<u8>, i: int) -> Result<(nat, int), Violation> {
    let j = digits_end(d, i);
    if decimal_value(d, i, j) > usize::MAX {
        Err(Violation::EscapeOverflow)
    } else if j < d.len() && d[j] == CURLY_R {
        Ok((decimal_value(d, i, j), j + 1))
    } else {
        Err(Violation::InvalidSymbol)
    }
}

pub proof fn lemma_digits_end_bounds(d: Seq<u8>, i: int)
    requires
        0 <= i <= d.len(),
    ensures
        i <= digits_end(d, i) <= d.len(),
        forall|k: int| i <= k < digits_end(d, i) ==> is_digit(#[trigger] d[k]),
    decreases d.len() - i,
{
    if i < d.len() && is_digit(d[i]) {
        lemma_digits_end_bounds(d, i + 1);
    }
}

/// A longer run of digits never stands for a smaller number.
pub proof fn lemma_decimal_value_monotonic(d: Seq<u8>, i: int, j: int, k: int)
    requires
        i <= j <= k,
        forall|m: int| i <= m < k ==> is_digit(#[trigger] d[m]),
    ensures
        decimal_value(d, i, j) <= decimal_value(d, i, k),
    decreases k - j,
{
    if j < k {
        lemma_decimal_value_monotonic(d, i, j, k - 1);
        assert(is_digit(d[k - 1]));
    }
}

pub proof fn lemma_escape_header_advances(d: Seq<u8>, i: int)
    requires
        0 <= i <= d.len(),
    ensures
        escape_header(d, i) matches Ok((n, j)) ==> i < j <= d.len(),
{
    lemma_digits_end_bounds(d, i);
}

/// The escape header whose digits start at `d[i]` runs to the end of the
/// bytes at hand without overflowing: more digits, or its `}`, may follow.
pub open spec fn header_cut(d: Seq<u8>, i: int) -> bool {
    digits_end(d, i) == d.len() && decimal_value(d, i, d.len() as int) <= usize::MAX
}

/// How a field ends.
#[derive(Clone, Copy, Debug, PartialEq, Eq, Structural)]
pub enum FieldEnd {
    /// A space: another field of the same message follows.
    Separator,
    /// LF or CR LF: the message is complete.
    EndOfMessage,
    /// The data ended at a clean boundary: there are no more messages.
    EndOfStream,
    /// The protocol was broken.
    Fault(Violation),
    /// The bytes at hand run out before the field can be decided, and more
    /// may come.
    Incomplete,
}

/// What a field decodes to: its bytes, the index in the data that each of
/// them comes from, how it ends, and the index just after its terminator.
pub struct FieldScan {
    pub content: Seq<u8>,
    pub origin: Seq<int>,
    pub end: FieldEnd,
    pub next: int,
}

/// The indices `j`, `j + 1`, ..., `j + n - 1`.
pub open spec fn index_run(j: int, n: nat) -> Seq<int> {
    Seq::new(n, |t: int| j + t)
}

/// What the field that starts at `d[i]` decodes to. `ended` holds once no
/// byte will follow `d`; until then, running out of bytes leaves the field
/// `Incomplete`. `blank` holds while the
/// message that the field belongs to has produced no byte yet: the end of
/// the data met then is a clean end of the stream. `first` holds while the
/// field is the first of its message: a line break met while both hold is a
/// blank line and is skipped.
pub open spec fn scan_field(d: Seq<u8>, i: int, blank: bool, first: bool, ended: bool) -> FieldScan
    decreases d.len() - i, 0int,
{
    if !(0 <= i < d.len()) {
        if !ended {
            FieldScan { content: seq![], origin: seq![], end: FieldEnd::Incomplete, next: d.len() as int }
        } else if blank {
            FieldScan { content: seq![], origin: seq![], end: FieldEnd::EndOfStream, next: d.len() as int }
        } else {
            FieldScan {
                content: seq![], origin: seq![],
                end: FieldEnd::Fault(Violation::UnexpectedEof),
                next: d.len() as int,
            }
        }
    } else if d[i] == CURLY_L {
        proof {
            lemma_escape_header_advances(d, i + 1);
        }
        if !ended && header_cut(d, i + 1) {
            FieldScan { content: seq![], origin: seq![], end: FieldEnd::Incomplete, next: i }
        } else {
            match escape_header(d, i + 1) {
                Ok((n, j)) => scan_escaped(d, j, n, blank, first, ended),
                Err(v) => FieldScan { content: seq![], origin: seq![], end: FieldEnd::Fault(v), next: i },
            }
        }
    } else if d[i] == SP {
        FieldScan { content: seq![], origin: seq![], end: FieldEnd::Separator, next: i + 1 }
    } else if d[i] == LF {
        if blank && first {
            scan_field(d, i + 1, blank, first, ended)
        } else {
            FieldScan { content: seq![], origin: seq![], end: FieldEnd::EndOfMessage, next: i + 1 }
        }
    } else if d[i] == CR {
        if i + 1 < d.len() && d[i + 1] == LF {
            if blank && first {
                scan_field(d, i + 2, blank, first, ended)
            } else {
                FieldScan { content: seq![], origin: seq![], end: FieldEnd::EndOfMessage, next: i + 2 }
            }
        } else if i + 1 == d.len() && !ended {
            FieldScan { content: seq![], origin: seq![], end: FieldEnd::Incomplete, next: i }
        } else {
            FieldScan {
                content: seq![], origin: seq![],
                end: FieldEnd::Fault(Violation::InvalidByteAfterCr),
                next: i,
            }
        }
    } else {
        let s = scan_field(d, i + 1, false, first, ended);
        FieldScan {
            content: seq![d[i]] + s.content,
            origin: seq![i] + s.origin,
            end: s.end,
            next: s.next,
        }
    }
}

/// What a field decodes to from the point where `n` escaped bytes start at
/// `d[j]`.
pub open spec fn scan_escaped(d: Seq<u8>, j: int, n: nat, blank: bool, first: bool, ended: bool) -> FieldScan
    decreases d.len() - j, 1int,
{
    if j + n > d.len() {
        FieldScan {
            content: d.subrange(j, d.len() as int),
            origin: index_run(j, (d.len() - j) as nat),
            end: if ended {
                FieldEnd::Fault(Violation::UnexpectedEof)
            } else {
                FieldEnd::Incomplete
            },
            next: d.len() as int,
        }
    } else {
        let s = scan_field(d, j + n, blank && n == 0, first, ended);
        FieldScan {
            content: d.subrange(j, j + n) + s.content,
            origin: index_run(j, n) + s.origin,
            end: s.end,
            next: s.next,
        }
    }
}

/// A field that ends at a delimiter ends after its start, and within the data.
pub proof fn lemma_scan_field_next(d: Seq<u8>, i: int, blank: bool, first: bool, ended: bool)
    requires
        0 <= i,
    ensures
        !(scan_field(d, i, blank, first, ended).end is Fault) && !(scan_field(
            d,
            i,
            blank,
            first,
            ended,
        ).end is Incomplete) ==> i < scan_field(d, i, blank, first, ended).next <= d.len() || (i
            >= d.len() && scan_field(d, i, blank, first, ended).next == d.len()),
    decreases d.len() - i, 0int,
{
    if 0 <= i < d.len() {
        if d[i] == CURLY_L {
            lemma_escape_header_advances(d, i + 1);
            match escape_header(d, i + 1) {
                Ok((n, j)) => lemma_scan_escaped_next(d, j, n, blank, first, ended),
                Err(v) => {},
            }
        } else if d[i] == LF {
            if blank && first {
                lemma_scan_field_next(d, i + 1, blank, first, ended);
            }
        } else if d[i] == CR {
            if i + 1 < d.len() && d[i + 1] == LF && blank && first {
                lemma_scan_field_next(d, i + 2, blank, first, ended);
            }
        } else if d[i] != SP {
            lemma_scan_field_next(d, i + 1, false, first, ended);
        }
    }
}

pub proof fn lemma_scan_escaped_next(d: Seq<u8>, j: int, n: nat, blank: bool, first: bool, ended: bool)
    requires
        0 <= j <= d.len(),
    ensures
        !(scan_escaped(d, j, n, blank, first, ended).end is Fault) && !(scan_escaped(
            d,
            j,
            n,
            blank,
            first,
            ended,
        ).end is Incomplete) ==> j <= scan_escaped(d, j, n, blank, first, ended).next <= d.len(),
    decreases d.len() - j, 1int,
{
    if j + n <= d.len() {
        lemma_scan_field_next(d, j + n, blank && n == 0, first, ended);
    }
}

/// Each decoded byte has one origin.
pub proof fn lemma_scan_field_origin(d: Seq<u8>, i: int, blank: bool, first: bool, ended: bool)
    ensures
        scan_field(d, i, blank, first, ended).origin.len() == scan_field(d, i, blank, first, ended).content.len(),
    decreases d.len() - i, 0int,
{
    if 0 <= i < d.len() {
        if d[i] == CURLY_L {
            lemma_escape_header_advances(d, i + 1);
            match escape_header(d, i + 1) {
                Ok((n, j)) => lemma_scan_escaped_origin(d, j, n, blank, first, ended),
                Err(v) => {},
            }
        } else if d[i] == LF {
            if blank && first {
                lemma_scan_field_origin(d, i + 1, blank, first, ended);
            }
        } else if d[i] == CR {
            if i + 1 < d.len() && d[i + 1] == LF && blank && first {
                lemma_scan_field_origin(d, i + 2, blank, first, ended);
            }
        } else if d[i] != SP {
            lemma_scan_field_origin(d, i + 1, false, first, ended);
        }
    }
}

pub proof fn lemma_scan_escaped_origin(d: Seq<u8>, j: int, n: nat, blank: bool, first: bool, ended: bool)
    requires
        0 <= j <= d.len(),
    ensures
        scan_escaped(d, j, n, blank, first, ended).origin.len() == scan_escaped(
            d,
            j,
            n,
            blank,
            first, ended
        ).content.len(),
    decreases d.len() - j, 1int,
{
    if j + n <= d.len() {
        lemma_scan_field_origin(d, j + n, blank && n == 0, first, ended);
    }
}

/// Taking `m` bytes of an escape run leaves the rest of the run.
pub proof fn lemma_scan_escaped_take(d: Seq<u8>, j: int, n: nat, m: nat, blank: bool, first: bool, ended: bool)
    requires
        0 <= j,
        0 < m <= n,
        j + m <= d.len(),
    ensures
        scan_escaped(d, j, n, blank, first, ended).content.len() >= m,
        forall|t: int| 0 <= t < m ==> #[trigger] scan_escaped(d, j, n, blank, first, ended).content[t] == d[j + t],
        scan_escaped(d, j + m, (n - m) as nat, false, first, ended).content == scan_escaped(
            d,
            j,
            n,
            blank, first, ended
        ).content.skip(m as int),
        scan_escaped(d, j + m, (n - m) as nat, false, first, ended).end == scan_escaped(d, j, n, blank, first, ended).end,
        forall|t: int| 0 <= t < m ==> #[trigger] scan_escaped(d, j, n, blank, first, ended).origin[t] == j + t,
        scan_escaped(d, j + m, (n - m) as nat, false, first, ended).origin == scan_escaped(
            d,
            j,
            n,
            blank,
            first, ended
        ).origin.skip(m as int),
        scan_escaped(d, j + m, (n - m) as nat, false, first, ended).next == scan_escaped(d, j, n, blank, first, ended).next,
{
    let whole = scan_escaped(d, j, n, blank, first, ended).content;
    let part = scan_escaped(d, j + m, (n - m) as nat, false, first, ended).content;
    let whole_origin = scan_escaped(d, j, n, blank, first, ended).origin;
    let part_origin = scan_escaped(d, j + m, (n - m) as nat, false, first, ended).origin;
    if j + n > d.len() {
        assert(part =~= whole.skip(m as int));
        assert(part_origin =~= whole_origin.skip(m as int));
    } else {
        let tail_origin = scan_field(d, j + n, false, first, ended).origin;
        assert(whole_origin == index_run(j, n) + tail_origin);
        assert(part_origin == index_run(j + m, (n - m) as nat) + tail_origin);
        assert(part_origin =~= whole_origin.skip(m as int));
        let tail = scan_field(d, j + n, false, first, ended).content;
        assert(whole == d.subrange(j, j + n) + tail);
        assert(part == d.subrange(j + m, j + n) + tail);
        assert(part =~= whole.skip(m as int));
    }
}

/// What a message decodes to: its fields, how its last field ends, and the
/// index just after it.
pub struct MessageScan {
    pub fields: Seq<Seq<u8>>,
    pub end: FieldEnd,
    pub next: int,
}

/// The fields from `d[i]` to the end of the message that they belong to;
/// `first` holds where the field at `d[i]` is the message's first.
pub open spec fn scan_fields(d: Seq<u8>, i: int, blank: bool, first: bool, ended: bool) -> MessageScan
    decreases d.len() - i,
{
    let f = scan_field(d, i, blank, first, ended);
    if f.end == FieldEnd::Separator && 0 <= i {
        proof {
            lemma_scan_field_next(d, i, blank, first, ended);
        }
        let rest = scan_fields(d, f.next, blank && f.content.len() == 0, false, ended);
        MessageScan { fields: seq![f.content] + rest.fields, end: rest.end, next: rest.next }
    } else {
        MessageScan { fields: seq![f.content], end: f.end, next: f.next }
    }
}

/// The message that starts at `d[i]`.
pub open spec fn scan_message(d: Seq<u8>, i: int, ended: bool) -> MessageScan {
    scan_fields(d, i, true, true, ended)
}

/// A byte that a field can hold only inside an escape run.
pub open spec fn is_reserved(b: u8) -> bool {
    b == CURLY_L || b == SP || b == CR || b == LF
}

/// Whether the bytes `f` are written as one escape run: when they are more
/// than 100 or hold a reserved byte.
pub open spec fn escape_needed(f: Seq<u8>) -> bool {
    f.len() > 100 || exists|k: int| 0 <= k < f.len() && is_reserved(#[trigger] f[k])
}

/// `n` in decimal digits, without leading zeros.
pub open spec fn decimal(n: nat) -> Seq<u8>
    decreases n,
{
    if n < 10 {
        seq![(n + NUM_0) as u8]
    } else {
        decimal(n / 10).push((n % 10 + NUM_0) as u8)
    }
}

/// The escape header announcing `n` raw bytes.
pub open spec fn escape_header_bytes(n: nat) -> Seq<u8> {
    seq![CURLY_L] + decimal(n) + seq![CURLY_R]
}

/// One write of the bytes `f` into a field: escaped where needed, as they
/// are otherwise.
pub open spec fn encode_chunk(f: Seq<u8>) -> Seq<u8> {
    if escape_needed(f) {
        escape_header_bytes(f.len()) + f
    } else {
        f
    }
}

/// A field holding the bytes `f`. An empty field is an explicit `{0}`.
pub open spec fn encode_field(f: Seq<u8>) -> Seq<u8> {
    if f.len() == 0 {
        escape_header_bytes(0)
    } else {
        encode_chunk(f)
    }
}

/// The fields `fs`, separated by spaces.
pub open spec fn encode_fields(fs: Seq<Seq<u8>>) -> Seq<u8>
    decreases fs.len(),
{
    if fs.len() == 0 {
        seq![]
    } else if fs.len() == 1 {
        encode_field(fs[0])
    } else {
        encode_fields(fs.drop_last()) + seq![SP] + encode_field(fs.last())
    }
}

/// The message made of the fields `fs`, terminated by LF.
pub open spec fn encode_message(fs: Seq<Seq<u8>>) -> Seq<u8> {
    encode_fields(fs).push(LF)
}

pub proof fn lemma_decimal_digits(n: nat)
    ensures
        decimal(n).len() >= 1,
        forall|k: int| 0 <= k < decimal(n).len() ==> is_digit(#[trigger] decimal(n)[k]),
    decreases n,
{
    if n >= 10 {
        lemma_decimal_digits(n / 10);
        assert forall|k: int| 0 <= k < decimal(n).len() implies is_digit(
            #[trigger] decimal(n)[k],
        ) by {
            if k < decimal(n / 10).len() {
                assert(decimal(n)[k] == decimal(n / 10)[k]);
            }
        }
    }
}

/// Digits written by `decimal(n)` read back as `n`.
pub proof fn lemma_decimal_value_of_decimal(d: Seq<u8>, i: int, n: nat)
    requires
        0 <= i,
        i + decimal(n).len() <= d.len(),
        d.subrange(i, i + decimal(n).len()) == decimal(n),
    ensures
        decimal_value(d, i, i + decimal(n).len()) == n,
    decreases n,
{
    let len = decimal(n).len() as int;
    if n < 10 {
        assert(d[i] == d.subrange(i, i + len)[0]);
        assert(decimal_value(d, i, i) == 0);
        assert(decimal_value(d, i, i + 1) == n);
    } else {
        let head = decimal(n / 10);
        lemma_decimal_digits(n / 10);
        assert(d.subrange(i, i + head.len()) =~= head) by {
            assert forall|k: int| 0 <= k < head.len() implies d.subrange(i, i + head.len())[k]
                == head[k] by {
                assert(d.subrange(i, i + len)[k] == decimal(n)[k]);
            }
        }
        lemma_decimal_value_of_decimal(d, i, n / 10);
        assert(head.len() == len - 1);
        assert(d[i + len - 1] == d.subrange(i, i + len)[len - 1]);
        assert(d[i + len - 1] == (n % 10 + NUM_0) as u8);
        assert(decimal_value(d, i, i + len) == (n / 10) * 10 + n % 10);
    }
}

/// A run of `m` digits followed by a non-digit ends where the non-digit is.
pub proof fn lemma_digits_end_at(d: Seq<u8>, i: int, m: int)
    requires
        0 <= i,
        0 <= m,
        i + m < d.len(),
        forall|k: int| i <= k < i + m ==> is_digit(#[trigger] d[k]),
        !is_digit(d[i + m]),
    ensures
        digits_end(d, i) == i + m,
    decreases m,
{
    if m > 0 {
        lemma_digits_end_at(d, i + 1, m - 1);
    }
}

/// A field of literal bytes `d[i..i + m]` followed by a delimiter decodes
/// to those bytes.
pub proof fn lemma_scan_literal(d: Seq<u8>, i: int, m: int, blank: bool, first: bool, ended: bool)
    requires
        0 <= i,
        0 <= m,
        i + m < d.len(),
        forall|k: int| i <= k < i + m ==> !is_reserved(#[trigger] d[k]),
        d[i + m] == SP || (d[i + m] == LF && !(blank && first && m == 0)),
    ensures
        scan_field(d, i, blank, first, ended).content == d.subrange(i, i + m),
        scan_field(d, i, blank, first, ended).end == if d[i + m] == SP {
            FieldEnd::Separator
        } else {
            FieldEnd::EndOfMessage
        },
        scan_field(d, i, blank, first, ended).next == i + m + 1,
    decreases m,
{
    if m > 0 {
        lemma_scan_literal(d, i + 1, m - 1, false, first, ended);
        assert(!is_reserved(d[i]));
        assert(seq![d[i]] + d.subrange(i + 1, i + m) =~= d.subrange(i, i + m));
    } else {
        assert(d.subrange(i, i) =~= Seq::<u8>::empty());
    }
}

/// An escape run `{N}` followed by `N` bytes yields exactly those bytes,
/// whatever they hold, and decoding goes on just after them.
pub proof fn lemma_escape_run_verbatim(d: Seq<u8>, i: int, payload: Seq<u8>, blank: bool, first: bool, ended: bool)
    requires
        0 <= i,
        payload.len() <= usize::MAX,
        i + escape_header_bytes(payload.len()).len() + payload.len() <= d.len(),
        d.subrange(i, i + escape_header_bytes(payload.len()).len() + payload.len())
            == escape_header_bytes(payload.len()) + payload,
    ensures
        ({
            let after = i + escape_header_bytes(payload.len()).len() + payload.len();
            let rest = scan_field(d, after, blank && payload.len() == 0, first, ended);
            &&& scan_field(d, i, blank, first, ended).content == payload + rest.content
            &&& scan_field(d, i, blank, first, ended).end == rest.end
            &&& scan_field(d, i, blank, first, ended).next == rest.next
        }),
{
    let n = payload.len();
    let digits = decimal(n);
    let h = escape_header_bytes(n);
    let run = h + payload;
    let after = i + h.len() + n;
    let j = i + 1 + digits.len();
    lemma_decimal_digits(n);
    assert(h.len() == digits.len() + 2);
    assert(run[0] == CURLY_L);
    assert(run[j - i] == CURLY_R);
    assert(d[i] == d.subrange(i, after)[0]);
    assert(d.subrange(i + 1, j) =~= digits) by {
        assert forall|k: int| 0 <= k < digits.len() implies d.subrange(i + 1, j)[k] == digits[k] by {
            assert(d.subrange(i, after)[1 + k] == run[1 + k]);
        }
    }
    assert forall|k: int| i + 1 <= k < j implies is_digit(#[trigger] d[k]) by {
        assert(d.subrange(i + 1, j)[k - (i + 1)] == digits[k - (i + 1)]);
    }
    assert(d[j] == CURLY_R) by {
        assert(d.subrange(i, after)[j - i] == run[j - i]);
    }
    lemma_digits_end_at(d, i + 1, digits.len() as int);
    lemma_decimal_value_of_decimal(d, i + 1, n);
    assert(escape_header(d, i + 1) == Ok::<(nat, int), Violation>((n, j + 1)));
    assert(d.subrange(j + 1, j + 1 + n) =~= payload) by {
        assert forall|k: int| 0 <= k < n implies d.subrange(j + 1, j + 1 + n)[k] == payload[k] by {
            assert(d.subrange(i, after)[h.len() + k] == run[h.len() + k]);
        }
    }
    assert(j + 1 == i + h.len());
    assert(scan_field(d, i, blank, first, ended) == scan_escaped(d, j + 1, n, blank, first, ended));
}

/// A field written by `encode_field` and followed by a delimiter decodes to
/// the bytes it was written from.
pub proof fn lemma_scan_encoded_field(d: Seq<u8>, i: int, f: Seq<u8>, blank: bool, first: bool, ended: bool)
    requires
        0 <= i,
        f.len() <= usize::MAX,
        i + encode_field(f).len() < d.len(),
        d.subrange(i, i + encode_field(f).len()) == encode_field(f),
        d[i + encode_field(f).len()] == SP || (d[i + encode_field(f).len()] == LF && !(blank
            && first && f.len() == 0)),
    ensures
        scan_field(d, i, blank, first, ended).content == f,
        scan_field(d, i, blank, first, ended).end == if d[i + encode_field(f).len()] == SP {
            FieldEnd::Separator
        } else {
            FieldEnd::EndOfMessage
        },
        scan_field(d, i, blank, first, ended).next == i + encode_field(f).len() + 1,
{
    let e = encode_field(f);
    let after = i + e.len();
    if f.len() == 0 || escape_needed(f) {
        if f.len() == 0 {
            assert(e =~= escape_header_bytes(f.len()) + f);
        }
        lemma_escape_run_verbatim(d, i, f, blank, first, ended);
        lemma_scan_literal(d, after, 0, blank && f.len() == 0, first, ended);
        assert(f + Seq::<u8>::empty() =~= f);
        assert(d.subrange(after, after) =~= Seq::<u8>::empty());
    } else {
        assert forall|k: int| i <= k < after implies !is_reserved(#[trigger] d[k]) by {
            assert(d.subrange(i, after)[k - i] == f[k - i]);
        }
        lemma_scan_literal(d, i, f.len() as int, blank, first, ended);
    }
}

/// `encode_fields` read from the front.
pub proof fn lemma_encode_fields_front(fs: Seq<Seq<u8>>)
    requires
        fs.len() >= 2,
    ensures
        encode_fields(fs) == encode_field(fs[0]) + seq![SP] + encode_fields(fs.drop_first()),
    decreases fs.len(),
{
    if fs.len() == 2 {
        assert(fs.drop_last() =~= seq![fs[0]]);
        assert(fs.drop_first() =~= seq![fs[1]]);
        assert(encode_fields(fs.drop_last()) == encode_field(fs[0]));
        assert(encode_fields(fs.drop_first()) == encode_field(fs[1]));
        assert(fs.last() == fs[1]);
        assert(encode_fields(fs) =~= encode_field(fs[0]) + seq![SP] + encode_fields(
            fs.drop_first(),
        ));
    } else {
        lemma_encode_fields_front(fs.drop_last());
        assert(fs.drop_last().drop_first() =~= fs.drop_first().drop_last());
        assert(fs.drop_first().last() == fs.last());
        assert(fs.drop_last()[0] == fs[0]);
        assert(encode_fields(fs) =~= encode_field(fs[0]) + seq![SP] + encode_fields(
            fs.drop_first(),
        ));
    }
}

/// Fields written by `encode_fields` and followed by LF decode to the
/// fields they were written from.
pub proof fn lemma_scan_encoded_fields(d: Seq<u8>, i: int, fs: Seq<Seq<u8>>, blank: bool, first: bool, ended: bool)
    requires
        0 <= i,
        fs.len() >= 1,
        forall|k: int| 0 <= k < fs.len() ==> #[trigger] fs[k].len() <= usize::MAX,
        !(blank && first && fs.len() == 1 && fs[0].len() == 0),
        i + encode_fields(fs).len() < d.len(),
        d.subrange(i, i + encode_fields(fs).len()) == encode_fields(fs),
        d[i + encode_fields(fs).len()] == LF,
    ensures
        scan_fields(d, i, blank, first, ended) == (MessageScan {
            fields: fs,
            end: FieldEnd::EndOfMessage,
            next: i + encode_fields(fs).len() + 1,
        }),
    decreases fs.len(),
{
    let e = encode_fields(fs);
    if fs.len() == 1 {
        assert(e == encode_field(fs[0]));
        lemma_scan_encoded_field(d, i, fs[0], blank, first, ended);
        assert(seq![fs[0]] =~= fs);
    } else {
        lemma_encode_fields_front(fs);
        let e0 = encode_field(fs[0]);
        let rest = fs.drop_first();
        assert(d.subrange(i, i + e0.len()) =~= e0) by {
            assert forall|k: int| 0 <= k < e0.len() implies d.subrange(i, i + e0.len())[k]
                == e0[k] by {
                assert(d.subrange(i, i + e.len())[k] == e[k]);
            }
        }
        assert(d[i + e0.len()] == SP) by {
            assert(d.subrange(i, i + e.len())[e0.len() as int] == e[e0.len() as int]);
        }
        lemma_scan_encoded_field(d, i, fs[0], blank, first, ended);
        let j = i + e0.len() + 1;
        let blank2 = blank && fs[0].len() == 0;
        assert(d.subrange(j, j + encode_fields(rest).len()) =~= encode_fields(rest)) by {
            assert forall|k: int| 0 <= k < encode_fields(rest).len() implies d.subrange(
                j,
                j + encode_fields(rest).len(),
            )[k] == encode_fields(rest)[k] by {
                assert(d.subrange(i, i + e.len())[e0.len() + 1 + k] == e[e0.len() + 1 + k]);
            }
        }
        assert forall|k: int| 0 <= k < rest.len() implies #[trigger] rest[k].len() <= usize::MAX by {
            assert(rest[k] == fs[k + 1]);
        }
        lemma_scan_encoded_fields(d, j, rest, blank2, false, ended);
        assert(seq![fs[0]] + rest =~= fs);
    }
}

/// Decoding what a message encodes to gives back its fields, whatever
/// follows it. The one exception is a message of a single empty field,
/// written `{0}` and LF, and the message of no field, written as a bare LF:
/// both are read as blank lines.
pub proof fn lemma_round_trip(fs: Seq<Seq<u8>>, tail: Seq<u8>, ended: bool)
    requires
        fs.len() >= 1,
        !(fs.len() == 1 && fs[0].len() == 0),
        forall|k: int| 0 <= k < fs.len() ==> #[trigger] fs[k].len() <= usize::MAX,
    ensures
        scan_message(encode_message(fs) + tail, 0, ended) == (MessageScan {
            fields: fs,
            end: FieldEnd::EndOfMessage,
            next: encode_message(fs).len() as int,
        }),
{
    let d = encode_message(fs) + tail;
    let e = encode_fields(fs);
    assert(d.subrange(0, e.len() as int) =~= e);
    assert(d[e.len() as int] == LF);
    lemma_scan_encoded_fields(d, 0, fs, true, true, ended);
}

/// A field of at most 100 bytes, none of them reserved, is written as it
/// is.
pub proof fn lemma_no_unneeded_escape(f: Seq<u8>)
    requires
        f.len() <= 100,
        forall|k: int| 0 <= k < f.len() ==> !is_reserved(#[trigger] f[k]),
    ensures
        encode_chunk(f) == f,
        f.len() > 0 ==> encode_field(f) == f,
{
}

/// An escape header whose digits stand for more than `usize::MAX` stops
/// decoding with an overflow: the length never wraps.
pub proof fn lemma_escape_overflow_fails(d: Seq<u8>, i: int, blank: bool, first: bool, ended: bool)
    requires
        0 <= i < d.len(),
        d[i] == CURLY_L,
        decimal_value(d, i + 1, digits_end(d, i + 1)) > usize::MAX,
    ensures
        scan_field(d, i, blank, first, ended) == (FieldScan {
            content: seq![],
            origin: seq![],
            end: FieldEnd::Fault(Violation::EscapeOverflow),
            next: i,
        }),
{
}

} // verus!
