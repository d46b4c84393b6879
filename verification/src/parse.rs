//! Incremental detection of a complete HTTP request in a read buffer.

use vstd::prelude::*;
use crate::method::{Method, method_of, method_from_bytes};
use crate::parse_state::{GotRequest, ParseState};
use crate::text::slice_range;

verus! {

/// What one byte does to the machine: move to a state, or stop with a
/// result (consuming the byte or not) and a final state.
pub enum Step {
    Next(ParseState),
    Stop(GotRequest, bool, ParseState),
}

pub open spec fn is_ws(c: u8) -> bool {
    c == 32u8 || c == 9u8
}

pub open spec fn is_crlf(c: u8) -> bool {
    c == 13u8 || c == 10u8
}

/// The transition table of the request machine.
pub open spec fn fsm_step(s: ParseState, c: u8) -> Step {
    match s {
        ParseState::FirstWord => if is_ws(c) {
            Step::Next(ParseState::FirstWs)
        } else if is_crlf(c) {
            Step::Stop(GotRequest::BadRequest, false, ParseState::Bogus)
        } else {
            Step::Next(ParseState::FirstWord)
        },
        ParseState::FirstWs => if is_ws(c) {
            Step::Next(ParseState::FirstWs)
        } else if is_crlf(c) {
            Step::Stop(GotRequest::BadRequest, false, ParseState::Bogus)
        } else {
            Step::Next(ParseState::SecondWord)
        },
        ParseState::SecondWord => if is_ws(c) {
            Step::Next(ParseState::SecondWs)
        } else if is_crlf(c) {
            Step::Stop(GotRequest::GotRequest, true, ParseState::GotRequest)
        } else {
            Step::Next(ParseState::SecondWord)
        },
        ParseState::SecondWs => if is_ws(c) {
            Step::Next(ParseState::SecondWs)
        } else if is_crlf(c) {
            Step::Stop(GotRequest::BadRequest, false, ParseState::Bogus)
        } else {
            Step::Next(ParseState::ThirdWord)
        },
        ParseState::ThirdWord => if is_ws(c) {
            Step::Next(ParseState::ThirdWs)
        } else if c == 13u8 {
            Step::Next(ParseState::Cr)
        } else if c == 10u8 {
            Step::Next(ParseState::Lf)
        } else {
            Step::Next(ParseState::ThirdWord)
        },
        ParseState::ThirdWs => if is_ws(c) {
            Step::Next(ParseState::ThirdWs)
        } else if c == 13u8 {
            Step::Next(ParseState::Cr)
        } else if c == 10u8 {
            Step::Next(ParseState::Lf)
        } else {
            Step::Stop(GotRequest::BadRequest, false, ParseState::Bogus)
        },
        ParseState::Lf => if c == 13u8 {
            Step::Next(ParseState::Cr)
        } else if c == 10u8 {
            Step::Stop(GotRequest::GotRequest, true, ParseState::GotRequest)
        } else {
            Step::Next(ParseState::Line)
        },
        ParseState::Cr => if c == 10u8 {
            Step::Next(ParseState::Crlf)
        } else if c == 13u8 {
            Step::Stop(GotRequest::GotRequest, true, ParseState::GotRequest)
        } else {
            Step::Next(ParseState::Line)
        },
        ParseState::Crlf => if c == 13u8 {
            Step::Next(ParseState::Crlfcr)
        } else if c == 10u8 {
            Step::Stop(GotRequest::GotRequest, true, ParseState::GotRequest)
        } else {
            Step::Next(ParseState::Line)
        },
        ParseState::Line => if c == 13u8 {
            Step::Next(ParseState::Cr)
        } else if c == 10u8 {
            Step::Next(ParseState::Lf)
        } else {
            Step::Next(ParseState::Line)
        },
        ParseState::Crlfcr => if is_crlf(c) {
            Step::Stop(GotRequest::GotRequest, true, ParseState::GotRequest)
        } else {
            Step::Next(ParseState::Line)
        },
        ParseState::GotRequest => Step::Stop(GotRequest::NoRequest, false, ParseState::GotRequest),
        ParseState::Bogus => Step::Stop(GotRequest::NoRequest, false, ParseState::Bogus),
    }
}

/// Running the machine over `buf[i..end]` from state `s`: the result, the
/// index where it stopped, and the final state.
pub open spec fn fsm_run(buf: Seq<u8>, i: int, end: int, s: ParseState) -> (GotRequest, int, ParseState)
    decreases end - i,
{
    if i >= end {
        (GotRequest::NoRequest, i, s)
    } else {
        match fsm_step(s, buf[i]) {
            Step::Next(t) => fsm_run(buf, i + 1, end, t),
            Step::Stop(r, adv, t) => (r, if adv { i + 1 } else { i }, t),
        }
    }
}

/// Does the run over `buf[i..end]` stop on a byte before reaching `end`?
pub open spec fn fsm_stops(buf: Seq<u8>, i: int, end: int, s: ParseState) -> bool
    decreases end - i,
{
    if i >= end {
        false
    } else {
        match fsm_step(s, buf[i]) {
            Step::Next(t) => fsm_stops(buf, i + 1, end, t),
            Step::Stop(_, _, _) => true,
        }
    }
}

fn step_exec(s: ParseState, c: u8) -> (r: Step)
    ensures
        r == fsm_step(s, c),
{
    let ws = c == 32u8 || c == 9u8;
    let crlf = c == 13u8 || c == 10u8;
    match s {
        ParseState::FirstWord => if ws {
            Step::Next(ParseState::FirstWs)
        } else if crlf {
            Step::Stop(GotRequest::BadRequest, false, ParseState::Bogus)
        } else {
            Step::Next(ParseState::FirstWord)
        },
        ParseState::FirstWs => if ws {
            Step::Next(ParseState::FirstWs)
        } else if crlf {
            Step::Stop(GotRequest::BadRequest, false, ParseState::Bogus)
        } else {
            Step::Next(ParseState::SecondWord)
        },
        ParseState::SecondWord => if ws {
            Step::Next(ParseState::SecondWs)
        } else if crlf {
            Step::Stop(GotRequest::GotRequest, true, ParseState::GotRequest)
        } else {
            Step::Next(ParseState::SecondWord)
        },
        ParseState::SecondWs => if ws {
            Step::Next(ParseState::SecondWs)
        } else if crlf {
            Step::Stop(GotRequest::BadRequest, false, ParseState::Bogus)
        } else {
            Step::Next(ParseState::ThirdWord)
        },
        ParseState::ThirdWord => if ws {
            Step::Next(ParseState::ThirdWs)
        } else if c == 13u8 {
            Step::Next(ParseState::Cr)
        } else if c == 10u8 {
            Step::Next(ParseState::Lf)
        } else {
            Step::Next(ParseState::ThirdWord)
        },
        ParseState::ThirdWs => if ws {
            Step::Next(ParseState::ThirdWs)
        } else if c == 13u8 {
            Step::Next(ParseState::Cr)
        } else if c == 10u8 {
            Step::Next(ParseState::Lf)
        } else {
            Step::Stop(GotRequest::BadRequest, false, ParseState::Bogus)
        },
        ParseState::Lf => if c == 13u8 {
            Step::Next(ParseState::Cr)
        } else if c == 10u8 {
            Step::Stop(GotRequest::GotRequest, true, ParseState::GotRequest)
        } else {
            Step::Next(ParseState::Line)
        },
        ParseState::Cr => if c == 10u8 {
            Step::Next(ParseState::Crlf)
        } else if c == 13u8 {
            Step::Stop(GotRequest::GotRequest, true, ParseState::GotRequest)
        } else {
            Step::Next(ParseState::Line)
        },
        ParseState::Crlf => if c == 13u8 {
            Step::Next(ParseState::Crlfcr)
        } else if c == 10u8 {
            Step::Stop(GotRequest::GotRequest, true, ParseState::GotRequest)
        } else {
            Step::Next(ParseState::Line)
        },
        ParseState::Line => if c == 13u8 {
            Step::Next(ParseState::Cr)
        } else if c == 10u8 {
            Step::Next(ParseState::Lf)
        } else {
            Step::Next(ParseState::Line)
        },
        ParseState::Crlfcr => if crlf {
            Step::Stop(GotRequest::GotRequest, true, ParseState::GotRequest)
        } else {
            Step::Next(ParseState::Line)
        },
        ParseState::GotRequest => Step::Stop(GotRequest::NoRequest, false, ParseState::GotRequest),
        ParseState::Bogus => Step::Stop(GotRequest::NoRequest, false, ParseState::Bogus),
    }
}

/// Run the request-detection machine over `read_buf[checked_idx..read_idx]`,
/// starting in `initial_state` (the state left by the previous call).
/// Returns the result, the new checked index and the final state.
pub fn got_request(read_buf: &[u8], checked_idx: usize, read_idx: usize, initial_state: ParseState) -> (r: (GotRequest, usize, ParseState))
    requires
        read_idx <= read_buf@.len() || fsm_stops(read_buf@, checked_idx as int, read_buf@.len() as int, initial_state),
    ensures
        (r.0, r.1 as int, r.2) == fsm_run(read_buf@, checked_idx as int, read_idx as int, initial_state),
{
    let ghost buf = read_buf@;
    let mut state = initial_state;
    let mut i = checked_idx;
    while i < read_idx
        invariant
            buf == read_buf@,
            checked_idx <= i || read_idx <= checked_idx,
            read_idx <= read_buf@.len() || fsm_stops(buf, i as int, buf.len() as int, state),
            fsm_run(buf, checked_idx as int, read_idx as int, initial_state) == fsm_run(buf, i as int, read_idx as int, state),
        decreases read_idx - i,
    {
        assert(i < read_buf@.len());
        let c = read_buf[i];
        match step_exec(state, c) {
            Step::Next(t) => {
                state = t;
            },
            Step::Stop(res, adv, t) => {
                let j = if adv { i + 1 } else { i };
                return (res, j, t);
            },
        }
        i += 1;
    }
    (GotRequest::NoRequest, i, state)
}

/// Law: feeding the buffer in two reads gives the same answer as one read.
/// If the run up to `k` ran out of data (no result yet), resuming from where
/// it stopped in the state it reached gives the result of a single run.
pub proof fn law_incremental_equals_whole(buf: Seq<u8>, i: int, k: int, end: int, s: ParseState)
    requires
        i <= k <= end,
        fsm_run(buf, i, k, s).0 == GotRequest::NoRequest,
        fsm_run(buf, i, k, s).1 == k,
    ensures
        fsm_run(buf, k, end, fsm_run(buf, i, k, s).2) == fsm_run(buf, i, end, s),
    decreases k - i,
{
    if i < k {
        match fsm_step(s, buf[i]) {
            Step::Next(t) => {
                law_incremental_equals_whole(buf, i + 1, k, end, t);
            },
            Step::Stop(r, adv, t) => {
                assert(r == GotRequest::NoRequest ==> !adv);
            },
        }
    }
}

/// A run that does not stop before `k` ends at `k` with no result.
pub proof fn lemma_run_without_stop(buf: Seq<u8>, i: int, k: int, s: ParseState)
    requires
        i <= k,
        !fsm_stops(buf, i, k, s),
    ensures
        fsm_run(buf, i, k, s).0 == GotRequest::NoRequest,
        fsm_run(buf, i, k, s).1 == k,
    decreases k - i,
{
    if i < k {
        match fsm_step(s, buf[i]) {
            Step::Next(t) => {
                lemma_run_without_stop(buf, i + 1, k, t);
            },
            Step::Stop(_, _, _) => {},
        }
    }
}

/// The first word of a request line: the bytes of `b` before the first
/// space or tab.
pub open spec fn first_word(b: Seq<u8>) -> Seq<u8>
    decreases b.len(),
{
    if b.len() == 0 || is_ws(b[0]) {
        Seq::empty()
    } else {
        seq![b[0]] + first_word(b.drop_first())
    }
}

/// Parse the method from the first word of the request line in
/// `read_buf[..end]`.
pub fn parse_method(read_buf: &[u8], end: usize) -> (m: Method)
    requires
        end <= read_buf@.len(),
    ensures
        m == method_of(first_word(read_buf@.subrange(0, end as int))),
{
    let mut i: usize = 0;
    let ghost b = read_buf@.subrange(0, end as int);
    assert(b.skip(0) =~= b);
    while i < end && read_buf[i] != 32u8 && read_buf[i] != 9u8
        invariant
            i <= end <= read_buf@.len(),
            b == read_buf@.subrange(0, end as int),
            first_word(b) == read_buf@.subrange(0, i as int) + first_word(b.skip(i as int)),
        decreases end - i,
    {
        assert(b.skip(i as int)[0] == read_buf@[i as int]);
        assert(b.skip(i as int).drop_first() =~= b.skip(i + 1));
        assert(read_buf@.subrange(0, i + 1) =~= read_buf@.subrange(0, i as int) + seq![read_buf@[i as int]]);
        i += 1;
    }
    proof {
        if i < end {
            assert(b.skip(i as int)[0] == read_buf@[i as int]);
        }
        assert(first_word(b.skip(i as int)) =~= Seq::<u8>::empty());
        assert(read_buf@.subrange(0, i as int) + Seq::<u8>::empty() =~= read_buf@.subrange(0, i as int));
    }
    let word = slice_range(read_buf, 0, i);
    method_from_bytes(word.as_slice())
}

} // verus!
