//! Mathematical model of the parser.
//!
//! [`step`] processes a single input byte: it performs the line-length check,
//! looks the byte up in the transition table, applies the resulting action and
//! emits an outcome when a line is completed.  [`run_from`] folds [`step`]
//! over a byte sequence.  The executable parser is specified exactly against
//! this model.
//!
//! The model threads one extra piece of bookkeeping alongside the parser
//! state: the position at which the current run of message-ID digits started
//! (`ip` below).  The parser consumes maximal runs of digits in bulk and
//! reports an overflowing message ID at the position where the run started,
//! so that position is part of the specified behaviour.

use vstd::prelude::*;

use crate::fsm::{
    action_is_mergeable, entry_spec, fast_spec, state_is_terminal, Action, MessageType, State,
};

verus! {

/// Model of a parse error: a message text and a 1-based byte position within
/// the offending line.
pub ghost struct ErrView {
    /// The error text.
    pub message: Seq<char>,
    /// 1-based position within the line at which the problem was detected.
    pub position: int,
}

/// Model of a parsed message.
pub ghost struct MsgView {
    /// Message type.
    pub mtype: MessageType,
    /// Message ID, if present.
    pub mid: Option<u32>,
    /// Message name bytes.
    pub name: Seq<u8>,
    /// Argument byte strings, in order.
    pub args: Seq<Seq<u8>>,
}

/// One result of parsing: a whole message or a parse error.
pub type Outcome = Result<MsgView, ErrView>;

/// Model of the parser state.
pub ghost struct ParserView {
    /// Current state in the state machine.
    pub state: State,
    /// Number of bytes seen on the current line, saturating at
    /// `max_line_length`.
    pub line_length: nat,
    /// Configured maximum line length.
    pub max_line_length: nat,
    /// Message type, if already parsed on the current line.
    pub mtype: Option<MessageType>,
    /// Message ID, if already (partly) parsed on the current line.
    pub mid: Option<u32>,
    /// Name bytes accumulated on the current line.
    pub name: Seq<u8>,
    /// Arguments accumulated on the current line.
    pub args: Seq<Seq<u8>>,
    /// The pending error, if the current line has failed.
    pub error: Option<ErrView>,
}

/// The text of the error reported for a byte that violates the grammar.
pub open spec fn text_invalid() -> Seq<char> {
    "Invalid character"@
}

/// The text of the error reported for a message ID beyond the positive
/// signed 32-bit range.
pub open spec fn text_overflow() -> Seq<char> {
    "Message ID overflowed"@
}

/// The text of the error reported for a line that reaches the maximum line
/// length before its end-of-line.
pub open spec fn text_too_long() -> Seq<char> {
    "Line too long"@
}

/// The state of a freshly constructed parser.
pub open spec fn init_view(max_line_length: nat) -> ParserView {
    ParserView {
        state: State::Start,
        line_length: 0,
        max_line_length,
        mtype: None,
        mid: None,
        name: Seq::empty(),
        args: Seq::empty(),
        error: None,
    }
}

/// Record an error at a position: enter the error state (unless the line is
/// already ending in error), keep the first error recorded on the line, and
/// release the in-progress name and arguments.
pub open spec fn pv_error_at(v: ParserView, message: Seq<char>, position: int) -> ParserView {
    ParserView {
        state: if v.state is ErrorEndOfLine {
            State::ErrorEndOfLine
        } else {
            State::Error
        },
        name: Seq::empty(),
        args: Seq::empty(),
        error: if v.error is None {
            Some(ErrView { message, position })
        } else {
            v.error
        },
        ..v
    }
}

/// The message constructed when a line completes successfully.
pub open spec fn msg_of(v: ParserView) -> MsgView {
    MsgView { mtype: v.mtype.unwrap(), mid: v.mid, name: v.name, args: v.args }
}

/// Apply one action for one byte.
///
/// `pos` is the 1-based position of the byte; `ip` is the position at which
/// the current run of ID digits started, if the previous byte was an ID digit
/// whose run the parser would extend over this byte.  Returns the successor
/// state and the ID-run position to carry to the next byte.
pub open spec fn apply_one(
    v: ParserView,
    a: Action,
    ch: u8,
    pos: int,
    ip: Option<int>,
) -> (ParserView, Option<int>) {
    match a {
        Action::Nothing => (v, None),
        Action::SetType(t) => (ParserView { mtype: Some(t), ..v }, None),
        Action::Name => (ParserView { name: v.name.push(ch), ..v }, None),
        Action::Id => {
            let start = if ip is Some {
                ip.unwrap()
            } else {
                pos
            };
            let accum = (if v.mid is Some {
                v.mid.unwrap() as int
            } else {
                0
            }) * 10 + (ch - 48);
            if accum <= 0x7fffffff {
                (
                    ParserView { mid: Some(accum as u32), ..v },
                    if v.line_length < v.max_line_length {
                        Some(start)
                    } else {
                        None
                    },
                )
            } else {
                (pv_error_at(v, text_overflow(), start), None)
            }
        },
        Action::Argument => (
            if v.args.len() == 0 {
                v
            } else {
                ParserView {
                    args: v.args.update(v.args.len() - 1, v.args.last().push(ch)),
                    ..v
                }
            },
            None,
        ),
        Action::ArgumentEscaped(c) => (
            if v.args.len() == 0 {
                v
            } else {
                ParserView {
                    args: v.args.update(v.args.len() - 1, v.args.last().push(c)),
                    ..v
                }
            },
            None,
        ),
        Action::ResetLineLength => (ParserView { line_length: 0, ..v }, None),
        Action::Error => (pv_error_at(v, text_invalid(), pos), None),
    }
}

/// The check made before a byte is processed: a line that has reached the
/// maximum line length without completing fails with "Line too long" at the
/// position just past the limit.
pub open spec fn check_length(v: ParserView) -> ParserView {
    if v.line_length >= v.max_line_length && !(v.state is Error) {
        pv_error_at(v, text_too_long(), v.line_length + 1 as int)
    } else {
        v
    }
}

/// Process one byte: check the line length, look up the transition, apply the
/// action, and emit an outcome if the byte completed a line.
///
/// Returns the successor state, the emitted outcome if any, and the ID-run
/// position to carry to the next byte.
pub open spec fn step(v: ParserView, ch: u8, ip: Option<int>) -> (
    ParserView,
    Option<Outcome>,
    Option<int>,
) {
    let v0 = check_length(v);
    let e = entry_spec(v0.state, ch);
    let v1 = if e.create_argument {
        ParserView { args: v0.args.push(Seq::empty()), ..v0 }
    } else {
        v0
    };
    let v2 = ParserView { state: e.state, ..v1 };
    let pos = v0.line_length + 1 as int;
    let v3 = if v0.line_length < v0.max_line_length {
        ParserView { line_length: v0.line_length + 1, ..v2 }
    } else {
        v2
    };
    let applied = apply_one(v3, e.action, ch, pos, ip);
    let v4 = applied.0;
    let ip1 = applied.1;
    let done = finish(v4);
    if done.1 is Some {
        (done.0, done.1, None)
    } else {
        (v4, None, ip1)
    }
}

/// Terminal handling: when a line has completed, construct the outcome and
/// return the parser to its initial state.
pub open spec fn finish(v: ParserView) -> (ParserView, Option<Outcome>) {
    if v.state is EndOfLine {
        (init_view(v.max_line_length), Some(Ok(msg_of(v))))
    } else if v.state is ErrorEndOfLine {
        (init_view(v.max_line_length), Some(Err(v.error.unwrap())))
    } else {
        (v, None)
    }
}

/// Add `n` consumed bytes to the line length, which freezes once it has
/// reached the maximum.
pub open spec fn bump_line_length(v: ParserView, n: int) -> ParserView {
    if v.line_length < v.max_line_length {
        ParserView { line_length: (v.line_length + n) as nat, ..v }
    } else {
        v
    }
}

/// Accumulate a run of message-ID digits, reporting an overflow at `pos`, the
/// position where the run started, and consuming no further digits after one
/// overflows.
pub open spec fn id_chunk(v: ParserView, chunk: Seq<u8>, pos: int) -> ParserView
    decreases chunk.len(),
{
    if chunk.len() == 0 {
        v
    } else {
        let accum = (if v.mid is Some {
            v.mid.unwrap() as int
        } else {
            0
        }) * 10 + (chunk[0] - 48);
        if accum <= 0x7fffffff {
            id_chunk(
                ParserView { mid: Some(accum as u32), ..v },
                chunk.subrange(1, chunk.len() as int),
                pos,
            )
        } else {
            pv_error_at(v, text_overflow(), pos)
        }
    }
}

/// Accumulating ID digits either leaves the state, the error and the buffers
/// untouched, or records an overflow: it never completes a line by itself.
pub proof fn lemma_id_chunk_state(v: ParserView, chunk: Seq<u8>, pos: int)
    ensures
        ({
            let r = id_chunk(v, chunk, pos);
            &&& r.mtype == v.mtype
            &&& r.max_line_length == v.max_line_length
            &&& r.line_length == v.line_length
            &&& (r.state == v.state && r.error == v.error && r.name == v.name && r.args == v.args)
                || (r.state == (if v.state is ErrorEndOfLine {
                State::ErrorEndOfLine
            } else {
                State::Error
            }) && r.error is Some)
        }),
    decreases chunk.len(),
{
    if chunk.len() > 0 {
        let accum = (if v.mid is Some {
            v.mid.unwrap() as int
        } else {
            0
        }) * 10 + (chunk[0] - 48);
        if accum <= 0x7fffffff {
            lemma_id_chunk_state(
                ParserView { mid: Some(accum as u32), ..v },
                chunk.subrange(1, chunk.len() as int),
                pos,
            );
        }
    }
}

/// Apply one action to a whole chunk of bytes at once.  `pos` is the 1-based
/// position of the first byte of the chunk.
///
/// This is the bulk form of [`apply_one`]: the parser consumes a maximal run
/// of bytes sharing one mergeable action in a single application.
pub open spec fn apply_chunk(v: ParserView, a: Action, chunk: Seq<u8>, pos: int) -> ParserView {
    match a {
        Action::Nothing => v,
        Action::SetType(t) => ParserView { mtype: Some(t), ..v },
        Action::Name => ParserView { name: v.name + chunk, ..v },
        Action::Id => id_chunk(v, chunk, pos),
        Action::Argument => if v.args.len() == 0 {
            v
        } else {
            ParserView { args: v.args.update(v.args.len() - 1, v.args.last() + chunk), ..v }
        },
        Action::ArgumentEscaped(c) => if v.args.len() == 0 {
            v
        } else {
            ParserView {
                args: v.args.update(v.args.len() - 1, v.args.last().push(c)),
                ..v
            }
        },
        Action::ResetLineLength => ParserView { line_length: 0, ..v },
        Action::Error => pv_error_at(v, text_invalid(), pos),
    }
}

/// The outcomes of an optional emission, as a sequence of length 0 or 1.
pub open spec fn opt_outcomes(out: Option<Outcome>) -> Seq<Outcome> {
    match out {
        Some(o) => seq![o],
        None => Seq::empty(),
    }
}

/// Fold [`step`] over a byte sequence, starting with ID-run position `ip`.
///
/// Returns the final state, the outcomes emitted in order, and the final
/// ID-run position.
pub open spec fn run_from(v: ParserView, data: Seq<u8>, ip: Option<int>) -> (
    ParserView,
    Seq<Outcome>,
    Option<int>,
)
    decreases data.len(),
{
    if data.len() == 0 {
        (v, Seq::empty(), ip)
    } else {
        let first = step(v, data[0], ip);
        let rest = run_from(first.0, data.subrange(1, data.len() as int), first.2);
        (rest.0, opt_outcomes(first.1) + rest.1, rest.2)
    }
}

/// Process one chunk of appended data: the final state and the outcomes
/// emitted, in order.
pub open spec fn run(v: ParserView, data: Seq<u8>) -> (ParserView, Seq<Outcome>) {
    let r = run_from(v, data, None);
    (r.0, r.1)
}

/// Well-formedness of a parser state: the invariants that hold between any
/// two processed bytes.
pub open spec fn pv_wf(v: ParserView) -> bool {
    &&& v.line_length <= v.max_line_length
    &&& !state_is_terminal(v.state)
    &&& v.error is Some <==> v.state is Error
    &&& v.state is Error ==> v.name.len() == 0 && v.args.len() == 0
    &&& (v.state is Start || v.state is Empty) ==> v.mtype is None && v.mid is None
        && v.name.len() == 0 && v.args.len() == 0
    &&& match v.state {
        State::BeforeName | State::Name | State::BeforeId | State::Id | State::AfterId
        | State::BeforeArgument | State::Argument | State::ArgumentEscape => v.mtype is Some,
        _ => true,
    }
    &&& (v.state is Argument || v.state is ArgumentEscape) ==> v.args.len() >= 1
    &&& v.mid is Some ==> 1 <= v.mid.unwrap() && v.mid.unwrap() <= 0x7fffffff
    &&& v.state is Id ==> v.mid is Some
    &&& v.mid is Some ==> match v.state {
        State::Id | State::AfterId | State::BeforeArgument | State::Argument
        | State::ArgumentEscape | State::Error => true,
        _ => false,
    }
}

/// One step from a well-formed state leaves a well-formed state, whatever the
/// byte; and a step that emits an outcome leaves the parser as freshly
/// constructed, carrying no ID-run position over.
pub proof fn lemma_step_wf(v: ParserView, ch: u8, ip: Option<int>)
    requires
        pv_wf(v),
    ensures
        pv_wf(step(v, ch, ip).0),
        step(v, ch, ip).1 is Some ==> step(v, ch, ip).0 == init_view(v.max_line_length),
        step(v, ch, ip).1 is Some ==> step(v, ch, ip).2 is None,
{
}

/// Folding from a well-formed state leaves a well-formed state with the same
/// maximum line length.
pub proof fn lemma_run_from_wf(v: ParserView, data: Seq<u8>, ip: Option<int>)
    requires
        pv_wf(v),
    ensures
        pv_wf(run_from(v, data, ip).0),
        run_from(v, data, ip).0.max_line_length == v.max_line_length,
    decreases data.len(),
{
    if data.len() > 0 {
        let first = step(v, data[0], ip);
        lemma_step_wf(v, data[0], ip);
        assert(first.0.max_line_length == v.max_line_length);
        lemma_run_from_wf(first.0, data.subrange(1, data.len() as int), first.2);
    }
}

/// Folding the byte model over a run of bytes that all extend one mergeable
/// action equals applying the action to the run in bulk.
///
/// `v` is the state just after the byte that began the run, whose entry had
/// action `a` and next state `t`; `ext` are the following bytes of the run;
/// `pos` is the position where the run began, carried in `ip` while an ID run
/// is in progress.  No byte of the run completes a line, so no outcome is
/// emitted.
pub proof fn lemma_run_ext(t: State, a: Action, v: ParserView, ext: Seq<u8>, ip: Option<int>, pos: int)
    requires
        v.state == t,
        !state_is_terminal(t),
        action_is_mergeable(a),
        forall|j: int| 0 <= j < ext.len() ==> fast_spec(t, a, #[trigger] ext[j]),
        ext.len() > 0 ==> v.line_length + ext.len() <= v.max_line_length || (v.line_length
            >= v.max_line_length && t is Error),
        t is Error ==> v.error is Some && v.name.len() == 0 && v.args.len() == 0,
        a is Id && ext.len() > 0 ==> ip == Some(pos),
        a is Id ==> t is Id,
        a is Error ==> t is Error,
    ensures
        ({
            let r = run_from(v, ext, ip);
            let w = apply_chunk(bump_line_length(v, ext.len() as int), a, ext, pos);
            &&& r.0 == w
            &&& r.1 == Seq::<Outcome>::empty()
            &&& r.2 == (if ext.len() == 0 {
                ip
            } else if a is Id && w.state is Id && w.line_length < w.max_line_length {
                ip
            } else {
                Option::<int>::None
            })
        }),
    decreases ext.len(),
{
    let r = run_from(v, ext, ip);
    let w = apply_chunk(bump_line_length(v, ext.len() as int), a, ext, pos);
    if ext.len() == 0 {
        assert(bump_line_length(v, 0) == v);
        match a {
            Action::Name => {
                assert(v.name + ext =~= v.name);
                assert(w == v);
            },
            Action::Argument => {
                if v.args.len() > 0 {
                    assert(v.args.last() + ext =~= v.args.last());
                    assert(v.args.update(v.args.len() - 1, v.args.last() + ext) =~~= v.args);
                }
                assert(w == v);
            },
            Action::Error => {
                assert(v.name =~= Seq::<u8>::empty());
                assert(v.args =~~= Seq::<Seq<u8>>::empty());
                assert(w == v);
            },
            _ => {
                assert(w == v);
            },
        }
    } else {
        let b = ext[0];
        let rest = ext.subrange(1, ext.len() as int);
        assert(fast_spec(t, a, b));
        let e = entry_spec(t, b);
        assert(e.state == t && e.action == a && !e.create_argument);
        // The length check does not fire inside the run.
        assert(check_length(v) == v);
        let v3 = bump_line_length(v, 1);
        let applied = apply_one(v3, a, b, v.line_length + 1 as int, ip);
        let v4 = applied.0;
        let ip1 = applied.1;
        // No byte of the run completes a line.
        assert(!state_is_terminal(v4.state));
        assert(step(v, b, ip) == (v4, Option::<Outcome>::None, ip1));
        assert(forall|j: int| 0 <= j < rest.len() ==> fast_spec(t, a, #[trigger] rest[j]));
        match a {
            Action::Nothing => {
                assert(v4 == v3);
                lemma_run_ext(t, a, v4, rest, ip1, pos);
                assert(bump_line_length(v4, rest.len() as int) == bump_line_length(
                    v,
                    ext.len() as int,
                ));
                assert(r.0 == w);
            },
            Action::Name => {
                assert(v4 == (ParserView { name: v3.name.push(b), ..v3 }));
                lemma_run_ext(t, a, v4, rest, ip1, pos);
                let u = bump_line_length(v4, rest.len() as int);
                assert(u.name + rest =~= bump_line_length(v, ext.len() as int).name + ext);
                assert(apply_chunk(u, a, rest, pos) == w);
                assert(r.0 == w);
            },
            Action::Argument => {
                lemma_run_ext(t, a, v4, rest, ip1, pos);
                let u = bump_line_length(v4, rest.len() as int);
                if v.args.len() == 0 {
                    assert(v4 == v3);
                    assert(apply_chunk(u, a, rest, pos) == w);
                } else {
                    assert(u.args.len() == v.args.len());
                    assert(u.args.last() + rest =~= v.args.last() + ext);
                    assert(u.args.update(u.args.len() - 1, u.args.last() + rest) =~~= v.args.update(
                        v.args.len() - 1,
                        v.args.last() + ext,
                    ));
                    assert(apply_chunk(u, a, rest, pos) == w);
                }
                assert(r.0 == w);
            },
            Action::Error => {
                assert(v4 == pv_error_at(v3, text_invalid(), v.line_length + 1 as int));
                assert(v4.state is Error && v4.error == v.error && v4.name.len() == 0
                    && v4.args.len() == 0);
                lemma_run_ext(t, a, v4, rest, ip1, pos);
                let u = bump_line_length(v4, rest.len() as int);
                assert(pv_error_at(u, text_invalid(), pos) == w);
                assert(r.0 == w);
            },
            Action::Id => {
                let accum = (if v.mid is Some {
                    v.mid.unwrap() as int
                } else {
                    0
                }) * 10 + (b - 48);
                if accum <= 0x7fffffff {
                    assert(v4 == (ParserView { mid: Some(accum as u32), ..v3 }));
                    if rest.len() > 0 {
                        assert(v3.line_length < v3.max_line_length);
                        assert(ip1 == Some(pos));
                    }
                    lemma_run_ext(t, a, v4, rest, ip1, pos);
                    let u = bump_line_length(v4, rest.len() as int);
                    assert(u == (ParserView {
                        mid: Some(accum as u32),
                        ..bump_line_length(v, ext.len() as int)
                    }));
                    assert(apply_chunk(u, a, rest, pos) == w);
                    if rest.len() == 0 {
                        assert(run_from(v4, rest, ip1).2 == ip1);
                    }
                    assert(r.0 == w);
                } else {
                    // The ID overflowed: the error is recorded at the start of
                    // the run, and the remaining digits are absorbed in the
                    // error state.
                    assert(ip == Some(pos));
                    assert(v4 == pv_error_at(v3, text_overflow(), pos));
                    assert(v4.state is Error && v4.error is Some && v4.name.len() == 0
                        && v4.args.len() == 0);
                    assert(ip1 is None);
                    assert forall|j: int| 0 <= j < rest.len() implies fast_spec(
                        State::Error,
                        Action::Error,
                        #[trigger] rest[j],
                    ) by {
                        assert(fast_spec(t, a, rest[j]));
                        assert(entry_spec(State::Id, rest[j]).action is Id);
                    }
                    lemma_run_ext(State::Error, Action::Error, v4, rest, ip1, pos);
                    let u = bump_line_length(v4, rest.len() as int);
                    assert(pv_error_at(u, text_invalid(), pos) == w);
                    assert(r.0 == w);
                }
            },
            _ => {
                assert(false);
            },
        }
    }
}

/// What one iteration of the parser loop computes, given the number of bytes
/// `p` it consumes: the length check, the transition entry of the first byte,
/// the new argument slot if the entry asks for one, the state advance, the
/// line-length update, and the entry's action applied to the whole chunk at
/// the position of its first byte.
pub open spec fn chunk_result(v: ParserView, data: Seq<u8>, p: int) -> (ParserView, Option<Outcome>) {
    let v0 = check_length(v);
    let e = entry_spec(v0.state, data[0]);
    let v1 = if e.create_argument {
        ParserView { args: v0.args.push(Seq::empty()), ..v0 }
    } else {
        v0
    };
    let v2 = ParserView { state: e.state, ..v1 };
    let v3 = bump_line_length(v2, p);
    let v4 = apply_chunk(v3, e.action, data.take(p), v0.line_length + 1 as int);
    finish(v4)
}

/// Applying an action to a single byte in bulk form equals applying it
/// byte-wise.
proof fn lemma_apply_one_chunk(v3: ParserView, a: Action, b: u8, pos: int, ip: Option<int>)
    requires
        a is Id ==> ip is None,
    ensures
        apply_one(v3, a, b, pos, ip).0 == apply_chunk(v3, a, seq![b], pos),
{
    let one = seq![b];
    assert(one[0] == b);
    assert(one.subrange(1, 1) =~= Seq::<u8>::empty());
    match a {
        Action::Name => {
            assert(v3.name.push(b) =~= v3.name + one);
        },
        Action::Argument => {
            if v3.args.len() > 0 {
                assert(v3.args.last().push(b) =~= v3.args.last() + one);
                assert(v3.args.update(v3.args.len() - 1, v3.args.last().push(b)) =~~= v3.args.update(
                    v3.args.len() - 1,
                    v3.args.last() + one,
                ));
            }
        },
        Action::Id => {
            let accum = (if v3.mid is Some {
                v3.mid.unwrap() as int
            } else {
                0
            }) * 10 + (b - 48);
            if accum <= 0x7fffffff {
                let x = ParserView { mid: Some(accum as u32), ..v3 };
                assert(id_chunk(x, one.subrange(1, 1), pos) == x);
                assert(id_chunk(v3, one, pos) == x);
            } else {
                assert(id_chunk(v3, one, pos) == pv_error_at(v3, text_overflow(), pos));
            }
        },
        _ => {},
    }
}

/// Consuming a maximal-run chunk in one step computes the same state and
/// outcome as folding the byte model over the chunk's bytes one at a time.
///
/// The chunk is the first byte plus any following bytes that extend its
/// entry's action (`fast_spec`), capped so that the line length never passes
/// the maximum mid-chunk.
#[verifier::rlimit(100)]
pub proof fn lemma_chunk_step(v: ParserView, data: Seq<u8>, p: int, ip: Option<int>)
    requires
        pv_wf(v),
        1 <= p <= data.len(),
        ({
            let e = entry_spec(check_length(v).state, data[0]);
            &&& (forall|j: int| 1 <= j < p ==> fast_spec(e.state, e.action, #[trigger] data[j]))
            &&& (e.action is Id ==> ip is None)
        }),
        v.line_length < v.max_line_length ==> v.line_length + p <= v.max_line_length,
    ensures
        ({
            let done = chunk_result(v, data, p);
            let r = run_from(v, data.take(p), ip);
            let v0 = check_length(v);
            let e = entry_spec(v0.state, data[0]);
            &&& r.0 == done.0
            &&& r.1 == opt_outcomes(done.1)
            &&& r.2 == (if done.1 is Some {
                Option::<int>::None
            } else if e.action is Id && done.0.state is Id && done.0.line_length
                < done.0.max_line_length {
                Some(v0.line_length + 1 as int)
            } else {
                Option::<int>::None
            })
        }),
{
    let v0 = check_length(v);
    let e = entry_spec(v0.state, data[0]);
    let v1 = if e.create_argument {
        ParserView { args: v0.args.push(Seq::empty()), ..v0 }
    } else {
        v0
    };
    let v2 = ParserView { state: e.state, ..v1 };
    let v3 = bump_line_length(v2, p);
    let chunk = data.take(p);
    let pos = v0.line_length + 1 as int;
    let v4 = apply_chunk(v3, e.action, chunk, pos);
    let done = finish(v4);
    let r = run_from(v, chunk, ip);
    assert(chunk[0] == data[0]);

    // The first byte, as the byte model processes it.
    let v3a = bump_line_length(v2, 1);
    let applied = apply_one(v3a, e.action, data[0], pos, ip);
    let v4a = applied.0;
    let ip1 = applied.1;
    assert(step(v, data[0], ip) == (if finish(v4a).1 is Some {
        (finish(v4a).0, finish(v4a).1, Option::<int>::None)
    } else {
        (v4a, Option::<Outcome>::None, ip1)
    }));

    if p == 1 {
        assert(v3 == v3a);
        assert(chunk.subrange(1, 1) =~= Seq::<u8>::empty());
        lemma_apply_one_chunk(v3, e.action, data[0], pos, ip);
        assert(chunk =~= seq![data[0]]);
        assert(v4a == v4);
        let first = step(v, data[0], ip);
        assert(run_from(first.0, chunk.subrange(1, 1), first.2) == (
            first.0,
            Seq::<Outcome>::empty(),
            first.2,
        ));
        assert(r.0 == step(v, data[0], ip).0);
        assert(r.1 =~= opt_outcomes(step(v, data[0], ip).1));
        assert(r.2 == step(v, data[0], ip).2);
    } else {
        // The extension bytes demand a mergeable action and a non-terminal
        // next state, so the first byte does not complete a line.
        assert(fast_spec(e.state, e.action, data[1]));
        assert(action_is_mergeable(e.action) && !state_is_terminal(e.state));
        assert(!state_is_terminal(v4a.state));
        assert(finish(v4a).1 is None);
        let ext = chunk.subrange(1, p);
        assert(ext =~= data.subrange(1, p));
        assert(run_from(v, chunk, ip) == {
            let rest = run_from(v4a, ext, ip1);
            (rest.0, opt_outcomes(Option::<Outcome>::None) + rest.1, rest.2)
        });
        assert(forall|j: int| 0 <= j < ext.len() ==> fast_spec(
            e.state,
            e.action,
            #[trigger] ext[j],
        ));
        // Line-length bookkeeping for the extension.
        assert(v3a.line_length == (if v2.line_length < v2.max_line_length {
            v2.line_length + 1
        } else {
            v2.line_length
        }));
        match e.action {
            Action::Nothing => {
                assert(v4a == v3a);
                lemma_run_ext(e.state, e.action, v4a, ext, ip1, pos);
                assert(bump_line_length(v4a, ext.len() as int) == v3);
                assert(apply_chunk(bump_line_length(v4a, ext.len() as int), e.action, ext, pos)
                    == v4);
                assert(v4 == v3);
                assert(!state_is_terminal(v4.state));
            },
            Action::Name => {
                assert(v4a == (ParserView { name: v3a.name.push(data[0]), ..v3a }));
                lemma_run_ext(e.state, e.action, v4a, ext, ip1, pos);
                let u = bump_line_length(v4a, ext.len() as int);
                assert(u.name + ext =~= v3.name + chunk);
                assert(u.line_length == v3.line_length);
                assert(apply_chunk(u, e.action, ext, pos) == v4);
                assert(v4.state == e.state);
                assert(!state_is_terminal(v4.state));
            },
            Action::Argument => {
                lemma_run_ext(e.state, e.action, v4a, ext, ip1, pos);
                let u = bump_line_length(v4a, ext.len() as int);
                if v3a.args.len() == 0 {
                    assert(v4a == v3a);
                    assert(apply_chunk(u, e.action, ext, pos) == v4);
                } else {
                    assert(v4a == (ParserView {
                        args: v3a.args.update(v3a.args.len() - 1, v3a.args.last().push(data[0])),
                        ..v3a
                    }));
                    assert(u.args.last() + ext =~= v3.args.last() + chunk);
                    assert(u.args.update(u.args.len() - 1, u.args.last() + ext) =~~= v3.args.update(
                        v3.args.len() - 1,
                        v3.args.last() + chunk,
                    ));
                    assert(apply_chunk(u, e.action, ext, pos) == v4);
                }
                assert(v4.state == e.state);
                assert(!state_is_terminal(v4.state));
            },
            Action::Error => {
                assert(e.state is Error);
                assert(v4a == pv_error_at(v3a, text_invalid(), pos));
                assert(v4a.state is Error && v4a.error is Some && v4a.name.len() == 0
                    && v4a.args.len() == 0);
                lemma_run_ext(e.state, e.action, v4a, ext, ip1, pos);
                let u = bump_line_length(v4a, ext.len() as int);
                assert(u.line_length == v3.line_length);
                assert(pv_error_at(u, text_invalid(), pos) == v4);
                assert(v4.state is Error);
                assert(!state_is_terminal(v4.state));
            },
            Action::Id => {
                assert(e.state is Id);
                assert(ip is None);
                let accum = (if v3a.mid is Some {
                    v3a.mid.unwrap() as int
                } else {
                    0
                }) * 10 + (data[0] - 48);
                assert(v.line_length < v.max_line_length);
                assert(v3a.line_length < v3a.max_line_length);
                if accum <= 0x7fffffff {
                    assert(v4a == (ParserView { mid: Some(accum as u32), ..v3a }));
                    assert(ip1 == Some(pos));
                    lemma_run_ext(e.state, e.action, v4a, ext, ip1, pos);
                    let u = bump_line_length(v4a, ext.len() as int);
                    assert(u == (ParserView { mid: Some(accum as u32), ..v3 }));
                    assert(chunk.subrange(1, chunk.len() as int) =~= ext);
                    assert(apply_chunk(u, e.action, ext, pos) == v4);
                    crate::model::lemma_id_chunk_state(v3, chunk, pos);
                    assert(!state_is_terminal(v4.state));
                } else {
                    assert(v4a == pv_error_at(v3a, text_overflow(), pos));
                    assert(ip1 is None);
                    assert(v4a.state is Error && v4a.error is Some && v4a.name.len() == 0
                        && v4a.args.len() == 0);
                    assert forall|j: int| 0 <= j < ext.len() implies fast_spec(
                        State::Error,
                        Action::Error,
                        #[trigger] ext[j],
                    ) by {
                        assert(fast_spec(e.state, e.action, ext[j]));
                        assert(entry_spec(State::Id, ext[j]).action is Id);
                    }
                    lemma_run_ext(State::Error, Action::Error, v4a, ext, ip1, pos);
                    let u = bump_line_length(v4a, ext.len() as int);
                    assert(u.line_length == v3.line_length);
                    assert(chunk.subrange(1, chunk.len() as int) =~= ext);
                    assert(v4 == pv_error_at(v3, text_overflow(), pos));
                    assert(pv_error_at(u, text_invalid(), pos) == v4);
                    assert(!state_is_terminal(v4.state));
                }
            },
            _ => {
                assert(false);
            },
        }
        assert(!state_is_terminal(v4.state));
        assert(done.1 is None);
        assert(r.0 == v4);
        assert(r.1 =~= Seq::<Outcome>::empty());
    }
}

/// Folding never grows the line length by more than the number of bytes
/// consumed, and never changes the maximum line length.
pub proof fn lemma_run_from_ll(v: ParserView, data: Seq<u8>, ip: Option<int>)
    ensures
        run_from(v, data, ip).0.line_length <= v.line_length + data.len(),
        run_from(v, data, ip).0.max_line_length == v.max_line_length,
    decreases data.len(),
{
    if data.len() > 0 {
        let first = step(v, data[0], ip);
        assert(first.0.line_length <= v.line_length + 1);
        lemma_run_from_ll(first.0, data.subrange(1, data.len() as int), first.2);
    }
}

/// Folding over a concatenation equals folding over the pieces in order,
/// carrying the intermediate state and ID-run position across the seam.
pub proof fn lemma_run_from_concat(v: ParserView, a: Seq<u8>, b: Seq<u8>, ip: Option<int>)
    ensures
        ({
            let whole = run_from(v, a + b, ip);
            let first = run_from(v, a, ip);
            let second = run_from(first.0, b, first.2);
            whole.0 == second.0 && whole.1 == first.1 + second.1 && whole.2 == second.2
        }),
    decreases a.len(),
{
    if a.len() == 0 {
        assert(a + b == b);
        assert(run_from(v, a, ip).1 + run_from(run_from(v, a, ip).0, b, ip).1
            == run_from(v, b, ip).1);
    } else {
        let ab = a + b;
        assert(ab[0] == a[0]);
        let first = step(v, a[0], ip);
        assert(ab.subrange(1, ab.len() as int) == a.subrange(1, a.len() as int) + b);
        lemma_run_from_concat(first.0, a.subrange(1, a.len() as int), b, first.2);
        assert(opt_outcomes(first.1) + (run_from(first.0, a.subrange(1, a.len() as int),
            first.2).1 + run_from(run_from(v, a, ip).0, b, run_from(v, a, ip).2).1)
            == (opt_outcomes(first.1) + run_from(first.0, a.subrange(1, a.len() as int),
            first.2).1) + run_from(run_from(v, a, ip).0, b, run_from(v, a, ip).2).1);
    }
}

} // verus!
