//! A push parser: it is handed chunks of bytes as they arrive and reports
//! message and field boundaries, and field data, to a listener. It reads
//! literal bytes only; escape runs are left to the pull parser.
use vstd::prelude::*;

use crate::wire::{CR, LF, SP};

verus! {

/// Receives what a push parser finds, in order.
pub trait PlainTalkParserListener {
    fn start_message(&self);

    fn end_message(&self);

    fn start_field(&self);

    fn field_data(&self, data: &[u8]);

    fn end_field(&self);
}

#[derive(Clone, Copy, Debug, PartialEq, Eq, Structural)]
pub enum PushParserState {
    ExpectMessage,
    ExpectField,
    ExpectFieldData,
    ExpectLineFeed,
    /// A CR was followed by another byte than LF: the rest is ignored.
    Failed,
}

/// What a push parser reports. `FieldData(a, b)` stands for the bytes
/// `a..b` of the chunk it was handed.
#[derive(Clone, Copy, Debug, PartialEq, Eq, Structural)]
pub enum Event {
    StartMessage,
    EndMessage,
    StartField,
    FieldData(usize, usize),
    EndField,
}

pub open spec fn is_delimiter(b: u8) -> bool {
    b == SP || b == LF || b == CR
}

/// The index of the first delimiter at or after `k` (`s.len()` when there
/// is none).
pub open spec fn delimiter_from(s: Seq<u8>, k: int) -> int
    decreases s.len() - k,
{
    if 0 <= k < s.len() && !is_delimiter(s[k]) {
        delimiter_from(s, k + 1)
    } else {
        k
    }
}

pub proof fn lemma_delimiter_from_bounds(s: Seq<u8>, k: int)
    requires
        0 <= k <= s.len(),
    ensures
        k <= delimiter_from(s, k) <= s.len(),
    decreases s.len() - k,
{
    if k < s.len() && !is_delimiter(s[k]) {
        lemma_delimiter_from_bounds(s, k + 1);
    }
}

pub open spec fn state_rank(st: PushParserState) -> int {
    match st {
        PushParserState::ExpectMessage => 2,
        PushParserState::ExpectField => 1,
        _ => 0,
    }
}

/// The state that a parser in state `st` ends in, and the events that it
/// reports, when it reads the chunk `s` from index `k` on.
pub open spec fn push_from(st: PushParserState, s: Seq<u8>, k: int) -> (
    PushParserState,
    Seq<Event>,
)
    decreases s.len() - k, state_rank(st),
{
    if !(0 <= k < s.len()) {
        (st, seq![])
    } else {
        match st {
            PushParserState::ExpectMessage => {
                let r = push_from(PushParserState::ExpectField, s, k);
                (r.0, seq![Event::StartMessage] + r.1)
            },
            PushParserState::ExpectField => {
                let r = push_from(PushParserState::ExpectFieldData, s, k);
                (r.0, seq![Event::StartField] + r.1)
            },
            PushParserState::ExpectFieldData => {
                let e = delimiter_from(s, k);
                proof {
                    lemma_delimiter_from_bounds(s, k);
                }
                if e > k {
                    let r = push_from(PushParserState::ExpectFieldData, s, e);
                    (r.0, seq![Event::FieldData(k as usize, e as usize)] + r.1)
                } else if s[k] == SP {
                    let r = push_from(PushParserState::ExpectFieldData, s, k + 1);
                    (r.0, seq![Event::EndField, Event::StartField] + r.1)
                } else if s[k] == LF {
                    let r = push_from(PushParserState::ExpectMessage, s, k + 1);
                    (r.0, seq![Event::EndField, Event::EndMessage] + r.1)
                } else {
                    let r = push_from(PushParserState::ExpectLineFeed, s, k + 1);
                    (r.0, seq![Event::EndField, Event::EndMessage] + r.1)
                }
            },
            PushParserState::ExpectLineFeed => if s[k] == LF {
                push_from(PushParserState::ExpectMessage, s, k + 1)
            } else {
                (PushParserState::Failed, seq![])
            },
            PushParserState::Failed => (PushParserState::Failed, seq![]),
        }
    }
}

/// The state after a step from `(st, k)` to `(st2, k2)` that reported
/// `added`: the rest of the chunk is read from there.
pub open spec fn step_agrees(
    st: PushParserState,
    k: int,
    st2: PushParserState,
    k2: int,
    added: Seq<Event>,
    s: Seq<u8>,
) -> bool {
    push_from(st, s, k) == (push_from(st2, s, k2).0, added + push_from(st2, s, k2).1)
}

/// Reports the start of a message.
fn expect_message(s: &[u8], at: usize, events: &mut Vec<Event>) -> (r: (PushParserState, usize))
    requires
        at < s@.len(),
    ensures
        r == (PushParserState::ExpectField, at),
        step_agrees(
            PushParserState::ExpectMessage,
            at as int,
            r.0,
            r.1 as int,
            final(events)@.skip(old(events)@.len() as int),
            s@,
        ),
        final(events)@.len() >= old(events)@.len(),
        final(events)@.subrange(0, old(events)@.len() as int) == old(events)@,
{
    events.push(Event::StartMessage);
    proof {
        assert(events@.skip(old(events)@.len() as int) =~= seq![Event::StartMessage]);
        assert(events@.subrange(0, old(events)@.len() as int) =~= old(events)@);
    }
    (PushParserState::ExpectField, at)
}

/// Reports the start of a field.
fn expect_field(s: &[u8], at: usize, events: &mut Vec<Event>) -> (r: (PushParserState, usize))
    requires
        at < s@.len(),
    ensures
        r == (PushParserState::ExpectFieldData, at),
        step_agrees(
            PushParserState::ExpectField,
            at as int,
            r.0,
            r.1 as int,
            final(events)@.skip(old(events)@.len() as int),
            s@,
        ),
        final(events)@.len() >= old(events)@.len(),
        final(events)@.subrange(0, old(events)@.len() as int) == old(events)@,
{
    events.push(Event::StartField);
    proof {
        assert(events@.skip(old(events)@.len() as int) =~= seq![Event::StartField]);
        assert(events@.subrange(0, old(events)@.len() as int) =~= old(events)@);
    }
    (PushParserState::ExpectFieldData, at)
}

/// Reports the field data up to the next delimiter, or the delimiter.
fn expect_field_data_or_end_of_field(s: &[u8], at: usize, events: &mut Vec<Event>) -> (r: (
    PushParserState,
    usize,
))
    requires
        at < s@.len(),
    ensures
        at < r.1 <= s@.len(),
        step_agrees(
            PushParserState::ExpectFieldData,
            at as int,
            r.0,
            r.1 as int,
            final(events)@.skip(old(events)@.len() as int),
            s@,
        ),
        final(events)@.len() >= old(events)@.len(),
        final(events)@.subrange(0, old(events)@.len() as int) == old(events)@,
{
    let mut end: usize = at;
    while end < s.len() && s[end] != SP && s[end] != LF && s[end] != CR
        invariant
            at <= end <= s@.len(),
            delimiter_from(s@, at as int) == delimiter_from(s@, end as int),
        decreases s@.len() - end,
    {
        end = end + 1;
    }
    let ghost e0 = old(events)@;
    if end > at {
        events.push(Event::FieldData(at, end));
        proof {
            assert(events@.skip(e0.len() as int) =~= seq![Event::FieldData(at, end)]);
            assert(events@.subrange(0, e0.len() as int) =~= e0);
        }
        return (PushParserState::ExpectFieldData, end);
    }
    let b = s[at];
    let next = if b == SP {
        events.push(Event::EndField);
        events.push(Event::StartField);
        PushParserState::ExpectFieldData
    } else if b == LF {
        events.push(Event::EndField);
        events.push(Event::EndMessage);
        PushParserState::ExpectMessage
    } else {
        events.push(Event::EndField);
        events.push(Event::EndMessage);
        PushParserState::ExpectLineFeed
    };
    proof {
        if b == SP {
            assert(events@.skip(e0.len() as int) =~= seq![Event::EndField, Event::StartField]);
        } else {
            assert(events@.skip(e0.len() as int) =~= seq![Event::EndField, Event::EndMessage]);
        }
        assert(events@.subrange(0, e0.len() as int) =~= e0);
    }
    (next, at + 1)
}

/// Takes the LF that completes a CR LF.
fn expect_line_feed(s: &[u8], at: usize, events: &Vec<Event>) -> (r: (PushParserState, usize))
    requires
        at < s@.len(),
    ensures
        at < r.1 <= s@.len(),
        step_agrees(PushParserState::ExpectLineFeed, at as int, r.0, r.1 as int, seq![], s@),
{
    if s[at] == LF {
        proof {
            assert(seq![] + push_from(PushParserState::ExpectMessage, s@, at + 1).1
                =~= push_from(PushParserState::ExpectMessage, s@, at + 1).1);
        }
        (PushParserState::ExpectMessage, at + 1)
    } else {
        proof {
            assert(seq![] + push_from(PushParserState::Failed, s@, s@.len() as int).1 =~= seq![]);
        }
        (PushParserState::Failed, s.len())
    }
}

/// What a parser in state `state` reports when it is handed the chunk
/// `s`, and the state it ends in.
pub fn push_events(state: PushParserState, s: &[u8]) -> (r: (PushParserState, Vec<Event>))
    ensures
        r.0 == push_from(state, s@, 0).0,
        r.1@ == push_from(state, s@, 0).1,
{
    let mut st = state;
    let mut events: Vec<Event> = Vec::new();
    let mut at: usize = 0;
    proof {
        assert(events@ + push_from(st, s@, 0).1 =~= push_from(st, s@, 0).1);
    }
    while at < s.len()
        invariant
            at <= s@.len(),
            push_from(state, s@, 0) == (push_from(st, s@, at as int).0, events@ + push_from(
                st,
                s@,
                at as int,
            ).1),
        decreases s@.len() - at, state_rank(st),
    {
        let ghost before = events@;
        let (next, k) = match st {
            PushParserState::ExpectMessage => expect_message(s, at, &mut events),
            PushParserState::ExpectField => expect_field(s, at, &mut events),
            PushParserState::ExpectFieldData => expect_field_data_or_end_of_field(
                s,
                at,
                &mut events,
            ),
            PushParserState::ExpectLineFeed => expect_line_feed(s, at, &events),
            PushParserState::Failed => (PushParserState::Failed, s.len()),
        };
        proof {
            let added = events@.skip(before.len() as int);
            assert(events@ =~= before + added) by {
                if !(st is ExpectLineFeed || st is Failed) {
                    assert(events@.subrange(0, before.len() as int) == before);
                }
            }
            if st is ExpectLineFeed {
                assert(added =~= seq![]);
            }
            if st is Failed {
                assert(added =~= seq![]);
                assert(push_from(PushParserState::Failed, s@, s@.len() as int).1 =~= seq![]);
            }
            assert(before + (added + push_from(next, s@, k as int).1) =~= events@ + push_from(
                next,
                s@,
                k as int,
            ).1);
        }
        st = next;
        at = k;
    }
    proof {
        assert(events@ + push_from(st, s@, at as int).1 =~= events@);
    }
    (st, events)
}

/// A parser that reports to the listener `L`.
pub struct PlainTalkParser<'a, L: PlainTalkParserListener> {
    pub listener: &'a L,
    state: PushParserState,
}

impl<'a, L: PlainTalkParserListener> PlainTalkParser<'a, L> {
    pub closed spec fn state(&self) -> PushParserState {
        self.state
    }

    /// A parser that expects a message and reports to `listener`.
    pub fn new(listener: &'a L) -> (r: Self)
        ensures
            r.state() == PushParserState::ExpectMessage,
    {
        PlainTalkParser { listener, state: PushParserState::ExpectMessage }
    }

    /// Takes the next chunk of bytes and reports to the listener, in order,
    /// the events of `push_events(self.state(), s)`.
    pub fn eat_this(&mut self, s: &[u8])
        ensures
            final(self).state() == push_from(old(self).state(), s@, 0).0,
    {
        let (next, events) = push_events(self.state, s);
        let mut i: usize = 0;
        while i < events.len()
            invariant
                i <= events@.len(),
                events@ == push_from(old(self).state(), s@, 0).1,
                self.state == old(self).state,
            decreases events@.len() - i,
        {
            match events[i] {
                Event::StartMessage => self.listener.start_message(),
                Event::EndMessage => self.listener.end_message(),
                Event::StartField => self.listener.start_field(),
                Event::FieldData(a, b) => {
                    if a <= b && b <= s.len() {
                        self.listener.field_data(&s[a..b]);
                    }
                },
                Event::EndField => self.listener.end_field(),
            }
            i = i + 1;
        }
        self.state = next;
    }
}

} // verus!
