//! Incremental parsing of byte streams into messages.
//!
//! A [`Parser`] holds the state machine state across chunks: data appended to
//! it need not be aligned to message boundaries.  Each completed line yields
//! exactly one [`Message`] or one [`ParseError`], and an error on one line
//! never disturbs the parse of the lines after it.
//!
//! The behaviour of the parser is specified exactly against the byte-level
//! model in [`crate::model`].

use vstd::prelude::*;
use vstd::slice::{slice_index_get, slice_subrange, slice_to_vec};
use vstd::string::StringExecFns;

use crate::fsm::{entry_spec, fast_allows, fast_spec, is_digit, lookup, Action, MessageType, State};
use crate::model::{
    apply_chunk, bump_line_length, check_length, chunk_result, finish, id_chunk, init_view,
    lemma_chunk_step, lemma_run_from_concat, lemma_run_from_ll, lemma_run_from_wf, pv_error_at,
    pv_wf, run, run_from, ErrView, MsgView, Outcome, ParserView,
};

verus! {

/// Error returned from parsing: a text and the 1-based byte position within
/// the offending line at which the problem was detected.
#[derive(Clone, Debug, PartialEq, Eq)]
pub struct ParseError {
    message: String,
    position: usize,
}

impl View for ParseError {
    type V = ErrView;

    closed spec fn view(&self) -> ErrView {
        ErrView { message: self.message@, position: self.position as int }
    }
}

impl ParseError {
    /// Create a new error.
    fn new(message: String, position: usize) -> (r: ParseError)
        ensures
            r@ == (ErrView { message: message@, position: position as int }),
    {
        ParseError { message, position }
    }

    /// The error text.
    pub fn message(&self) -> (r: &String)
        ensures
            r@ == self@.message,
    {
        &self.message
    }

    /// The 1-based byte position within the line at which the problem was
    /// detected.
    pub fn position(&self) -> (r: usize)
        ensures
            r as int == self@.position,
    {
        self.position
    }
}

/// A KATCP message produced by parsing.
///
/// To minimise the number of memory allocations, the name and the arguments
/// are all stored back-to-back in one byte buffer, and a parallel vector of
/// offsets demarcates them: the name spans the buffer up to the first offset,
/// the i-th argument spans the i-th to the (i+1)-th offset, and a trailing
/// offset equal to the buffer length records the end of the last argument.
#[derive(Debug, PartialEq, Eq)]
pub struct Message {
    mtype: MessageType,
    mid: Option<u32>,
    argument_start: Vec<usize>,
    storage: Vec<u8>,
}

impl View for Message {
    type V = MsgView;

    closed spec fn view(&self) -> MsgView {
        MsgView {
            mtype: self.mtype,
            mid: self.mid,
            name: self.storage@.take(self.argument_start@[0] as int),
            args: Seq::new(
                (self.argument_start@.len() - 1) as nat,
                |i: int|
                    self.storage@.subrange(
                        self.argument_start@[i] as int,
                        self.argument_start@[i + 1] as int,
                    ),
            ),
        }
    }
}

impl Message {
    /// The offsets are non-decreasing and the trailing offset marks the end
    /// of the storage.
    #[verifier::type_invariant]
    spec fn offsets_wf(self) -> bool {
        &&& self.argument_start@.len() >= 1
        &&& forall|i: int, j: int|
            0 <= i <= j < self.argument_start@.len() ==> self.argument_start@[i]
                <= self.argument_start@[j]
        &&& self.argument_start@.last() == self.storage@.len()
    }

    /// The type of the message.
    pub fn mtype(&self) -> (r: MessageType)
        ensures
            r == self@.mtype,
    {
        self.mtype
    }

    /// The message ID, if present.
    pub fn mid(&self) -> (r: Option<u32>)
        ensures
            r == self@.mid,
    {
        self.mid
    }

    /// The name of the message.
    pub fn name(&self) -> (r: &[u8])
        ensures
            r@ == self@.name,
    {
        proof {
            use_type_invariant(self);
        }
        slice_subrange(self.storage.as_slice(), 0, self.argument_start[0])
    }

    /// The number of arguments of the message.
    pub fn arguments_len(&self) -> (r: usize)
        ensures
            r == self@.args.len(),
    {
        proof {
            use_type_invariant(self);
        }
        self.argument_start.len() - 1
    }

    /// The arguments of the message, copied out in order.
    pub fn arguments(&self) -> (r: Vec<Vec<u8>>)
        ensures
            r.deep_view() == self@.args,
    {
        proof {
            use_type_invariant(self);
        }
        let n = self.argument_start.len() - 1;
        let mut out: Vec<Vec<u8>> = Vec::new();
        for i in 0..n
            invariant
                n + 1 == self.argument_start@.len(),
                self.offsets_wf(),
                out@.len() == i,
                forall|k: int| 0 <= k < i ==> out@[k]@ == self@.args[k],
        {
            let piece = slice_to_vec(
                slice_subrange(
                    self.storage.as_slice(),
                    self.argument_start[i],
                    self.argument_start[i + 1],
                ),
            );
            out.push(piece);
        }
        proof {
            assert forall|k: int| 0 <= k < n implies out.deep_view()[k] == self@.args[k] by {
                assert(out@[k].deep_view() =~= out@[k]@);
            }
            assert(out.deep_view() =~= self@.args);
        }
        out
    }

    /// Construct a message directly from its parts.
    pub fn new(mtype: MessageType, name: Vec<u8>, mid: Option<u32>, arguments: Vec<Vec<u8>>) -> (r:
        Message)
        ensures
            r@ == (MsgView { mtype, mid, name: name@, args: arguments.deep_view() }),
    {
        let mut storage = name;
        let mut argument_start: Vec<usize> = Vec::new();
        argument_start.push(storage.len());
        let ghost name_view = storage@;
        for i in 0..arguments.len()
            invariant
                argument_start@.len() == i + 1,
                argument_start@[0] == name_view.len(),
                storage@.len() <= usize::MAX,
                storage@.take(name_view.len() as int) == name_view,
                forall|p: int, q: int|
                    0 <= p <= q < argument_start@.len() ==> argument_start@[p]
                        <= argument_start@[q],
                argument_start@.last() == storage@.len(),
                forall|k: int|
                    0 <= k < i ==> storage@.subrange(
                        argument_start@[k] as int,
                        argument_start@[k + 1] as int,
                    ) == arguments@[k]@,
        {
            let ghost before = storage@;
            storage.extend_from_slice(arguments[i].as_slice());
            argument_start.push(storage.len());
            proof {
                assert(storage@.take(name_view.len() as int) =~= name_view);
                assert forall|k: int| 0 <= k < i implies storage@.subrange(
                    argument_start@[k] as int,
                    argument_start@[k + 1] as int,
                ) == arguments@[k]@ by {
                    assert(storage@.subrange(
                        argument_start@[k] as int,
                        argument_start@[k + 1] as int,
                    ) =~= before.subrange(
                        argument_start@[k] as int,
                        argument_start@[k + 1] as int,
                    ));
                }
                assert(storage@.subrange(
                    argument_start@[i as int] as int,
                    argument_start@[i + 1] as int,
                ) =~= arguments@[i as int]@);
            }
        }
        let r = Message { mtype, mid, argument_start, storage };
        proof {
            assert(r@.name =~= name@);
            assert forall|k: int| 0 <= k < arguments@.len() implies r@.args[k]
                == arguments.deep_view()[k] by {
                assert(arguments@[k].deep_view() =~= arguments@[k]@);
            }
            assert(r@.args =~= arguments.deep_view());
        }
        r
    }
}

/// The model outcome of one parse result.
pub open spec fn result_view(r: Result<Message, ParseError>) -> Outcome {
    match r {
        Ok(m) => Ok(m@),
        Err(e) => Err(e@),
    }
}

/// The model outcomes of an optional parse result: a sequence of length 0 or
/// 1.
pub open spec fn outcome_of(r: Option<Result<Message, ParseError>>) -> Seq<Outcome> {
    match r {
        None => Seq::empty(),
        Some(x) => seq![result_view(x)],
    }
}

/// The model outcomes of a sequence of parse results.
pub open spec fn results_view(rs: Seq<Result<Message, ParseError>>) -> Seq<Outcome> {
    rs.map_values(|x: Result<Message, ParseError>| result_view(x))
}

/// Message parser.
///
/// The parser accepts chunks of data from the wire (which need not be aligned
/// to message boundaries) and returns whole messages as they are parsed.
pub struct Parser {
    /// Current state.
    state: State,
    /// Number of bytes seen on the current line (capped at
    /// `max_line_length`).
    line_length: usize,
    /// Configured maximum line length.
    max_line_length: usize,
    /// Message type, or `None` if we haven't parsed it yet.
    mtype: Option<MessageType>,
    /// Message ID, or `None` if there isn't one or we haven't parsed one yet.
    mid: Option<u32>,
    /// Positions where arguments start in `storage`.  This is empty if we
    /// haven't yet gone past the name and message ID.
    argument_start: Vec<usize>,
    /// Storage for the name and the arguments.
    storage: Vec<u8>,
    /// Current error, if we are in an error state.
    error: Option<ParseError>,
}

impl View for Parser {
    type V = ParserView;

    closed spec fn view(&self) -> ParserView {
        ParserView {
            state: self.state,
            line_length: self.line_length as nat,
            max_line_length: self.max_line_length as nat,
            mtype: self.mtype,
            mid: self.mid,
            name: self.pname(),
            args: self.pargs(),
            error: match self.error {
                Some(e) => Some(e@),
                None => None,
            },
        }
    }
}

impl Parser {
    /// The name accumulated so far: the storage up to the first argument
    /// offset, or all of it while no argument slot exists.
    closed spec fn pname(&self) -> Seq<u8> {
        if self.argument_start@.len() == 0 {
            self.storage@
        } else {
            self.storage@.take(self.argument_start@[0] as int)
        }
    }

    /// The arguments accumulated so far: each spans its offset up to the next
    /// one, and the last up to the end of the storage.
    closed spec fn pargs(&self) -> Seq<Seq<u8>> {
        Seq::new(
            self.argument_start@.len(),
            |i: int|
                self.storage@.subrange(
                    self.argument_start@[i] as int,
                    if i + 1 < self.argument_start@.len() {
                        self.argument_start@[i + 1] as int
                    } else {
                        self.storage@.len() as int
                    },
                ),
        )
    }

    /// Structural invariant of the representation: the argument offsets are
    /// non-decreasing and within the storage, the message ID is within the
    /// positive signed 32-bit range, and no argument slot exists before the
    /// states that can create one.
    closed spec fn rep_inv(&self) -> bool {
        &&& forall|i: int, j: int|
            0 <= i <= j < self.argument_start@.len() ==> self.argument_start@[i]
                <= self.argument_start@[j]
        &&& forall|i: int|
            0 <= i < self.argument_start@.len() ==> self.argument_start@[i]
                <= self.storage@.len()
        &&& self.mid is Some ==> self.mid.unwrap() <= 0x7fffffff
        &&& match self.state {
            State::Start | State::Empty | State::BeforeName | State::Name | State::BeforeId
            | State::Id | State::AfterId => self.argument_start@.len() == 0,
            _ => true,
        }
    }

    /// Well-formedness of the parser: the representation invariant together
    /// with the model invariant of its view.  It holds between any two calls;
    /// every public operation preserves it.
    pub closed spec fn wf(&self) -> bool {
        self.rep_inv() && pv_wf(self@)
    }

    /// A well-formed parser's view satisfies the model invariant
    /// [`pv_wf`]: in particular, the buffered line length never exceeds the
    /// configured maximum, whatever was appended.
    pub proof fn lemma_wf_view(&self)
        requires
            self.wf(),
        ensures
            pv_wf(self@),
    {
    }

    /// Create a new parser.
    pub fn new(max_line_length: usize) -> (r: Parser)
        ensures
            r.wf(),
            r@ == init_view(max_line_length as nat),
    {
        let r = Parser {
            state: State::Start,
            line_length: 0,
            max_line_length,
            mtype: None,
            mid: None,
            argument_start: Vec::new(),
            storage: Vec::new(),
            error: None,
        };
        proof {
            assert(r@.args =~= init_view(max_line_length as nat).args);
            assert(r@ == init_view(max_line_length as nat));
        }
        r
    }

    /// Number of bytes currently buffered for an incomplete line.
    ///
    /// This is capped at the maximum line length, even if a longer
    /// (overflowing) line is in progress.
    pub fn buffer_size(&self) -> (r: usize)
        ensures
            r as nat == self@.line_length,
    {
        self.line_length
    }

    /// Return the parser to its initial state, from any state, clearing all
    /// in-progress fields and the pending error.
    pub fn reset(&mut self)
        ensures
            final(self).wf(),
            final(self)@ == init_view(old(self)@.max_line_length),
    {
        self.state = State::Start;
        self.line_length = 0;
        self.mtype = None;
        self.mid = None;
        self.argument_start.clear();
        self.storage.clear();
        self.error = None;
        proof {
            assert(self@.args =~= init_view(old(self)@.max_line_length).args);
            assert(self@ == init_view(old(self)@.max_line_length));
        }
    }

    /// Record an error at a position on the current line: enter the error
    /// state, keep the first error recorded on the line, and free the
    /// in-progress buffers.
    fn error_at(&mut self, message: String, position: usize)
        requires
            old(self).rep_inv(),
        ensures
            final(self).rep_inv(),
            final(self)@ == pv_error_at(old(self)@, message@, position as int),
    {
        match self.state {
            State::ErrorEndOfLine => {},
            _ => {
                self.state = State::Error;
            },
        }
        if self.error.is_none() {
            self.error = Some(ParseError::new(message, position));
        }
        self.argument_start.clear();
        self.storage.clear();
        proof {
            assert(self@.args =~= pv_error_at(old(self)@, message@, position as int).args);
            assert(self@ == pv_error_at(old(self)@, message@, position as int));
        }
    }

    /// Apply an action to the parser, for a whole chunk of bytes at once.
    ///
    /// `position` is the 1-based position of the first byte of the chunk on
    /// the current line.  The current state has already been advanced to the
    /// entry's next state; when it is terminal, the completed line's outcome
    /// is emitted and the parser resets itself.
    fn apply(&mut self, a: Action, chunk: &[u8], position: usize) -> (r: Option<
        Result<Message, ParseError>,
    >)
        requires
            old(self).rep_inv(),
            a is Name ==> old(self).argument_start@.len() == 0,
            (a is Argument || a is ArgumentEscaped) ==> old(self).argument_start@.len() >= 1,
            a is Id ==> forall|j: int| 0 <= j < chunk@.len() ==> is_digit(chunk@[j]),
            old(self).state is EndOfLine ==> old(self)@.mtype is Some && !(a is SetType) && !(a
                is Error) && !(a is Id),
            old(self).state is ErrorEndOfLine ==> (a is Error || old(self)@.error is Some),
        ensures
            final(self).rep_inv(),
            ({
                let done = finish(apply_chunk(old(self)@, a, chunk@, position as int));
                &&& final(self)@ == done.0
                &&& (match r {
                    Option::None => done.1 is None,
                    Option::Some(Result::Ok(m)) => done.1 == Some(
                        Result::<MsgView, ErrView>::Ok(m@),
                    ),
                    Option::Some(Result::Err(e)) => done.1 == Some(
                        Result::<MsgView, ErrView>::Err(e@),
                    ),
                })
            }),
    {
        let ghost v4 = apply_chunk(old(self)@, a, chunk@, position as int);
        match a {
            Action::SetType(t) => {
                self.mtype = Some(t);
            },
            Action::Name => {
                self.storage.extend_from_slice(chunk);
                proof {
                    assert(self@.name =~= v4.name);
                    assert(self@.args =~~= v4.args);
                }
            },
            Action::Id => {
                self.apply_id(chunk, position);
            },
            Action::Argument => {
                self.storage.extend_from_slice(chunk);
                proof {
                    assert(self@.name =~= v4.name);
                    assert(self@.args =~~= v4.args);
                }
            },
            Action::ArgumentEscaped(c) => {
                self.storage.push(c);
                proof {
                    assert(self@.name =~= v4.name);
                    assert(self@.args =~~= v4.args);
                }
            },
            Action::ResetLineLength => {
                self.line_length = 0;
            },
            Action::Nothing => {},
            Action::Error => {
                self.error_at(String::from_str("Invalid character"), position);
            },
        }
        proof {
            assert(self@ == v4);
            if a is Id {
                crate::model::lemma_id_chunk_state(old(self)@, chunk@, position as int);
            }
        }
        match self.state {
            State::EndOfLine => {
                proof {
                    assert(old(self).state is EndOfLine);
                    assert(self.mtype is Some);
                }
                self.argument_start.push(self.storage.len());
                let mut storage: Vec<u8> = Vec::new();
                let mut argument_start: Vec<usize> = Vec::new();
                core::mem::swap(&mut storage, &mut self.storage);
                core::mem::swap(&mut argument_start, &mut self.argument_start);
                let msg = Message {
                    mtype: self.mtype.unwrap(),
                    mid: self.mid,
                    argument_start,
                    storage,
                };
                proof {
                    assert(msg@.name =~= v4.name);
                    assert(msg@.args =~~= v4.args);
                }
                self.reset();
                Some(Ok(msg))
            },
            State::ErrorEndOfLine => {
                proof {
                    assert(self.error is Some);
                }
                let e = self.error.take().unwrap();
                self.reset();
                Some(Err(e))
            },
            _ => None,
        }
    }

    /// One iteration of the parsing loop: consume one maximal-run chunk of
    /// `data` starting at index `i`.
    ///
    /// `gip` is the position at which a run of message-ID digits in progress
    /// started; it is `None` whenever the byte at `i` cannot extend such a
    /// run.  Returns the outcome if the chunk completed a line, and the
    /// number of bytes consumed.
    #[verifier::rlimit(100)]
    fn step_chunk(&mut self, data: &[u8], i: usize, gip: Ghost<Option<int>>) -> (r: (
        Option<Result<Message, ParseError>>,
        usize,
    ))
        requires
            old(self).wf(),
            i < data@.len(),
            old(self)@.line_length + (data@.len() - i) < usize::MAX,
            gip@ is Some ==> entry_spec(old(self)@.state, data@[i as int]).action != Action::Id,
        ensures
            final(self).wf(),
            final(self)@.max_line_length == old(self)@.max_line_length,
            final(self)@.line_length <= old(self)@.line_length + r.1,
            1 <= r.1 <= data@.len() - i,
            ({
                let piece = run_from(old(self)@, data@.skip(i as int).take(r.1 as int), gip@);
                &&& final(self)@ == piece.0
                &&& piece.1 == outcome_of(r.0)
                &&& (r.0 is Some ==> piece.2 is None)
                &&& (piece.2 is Some ==> i + r.1 == data@.len() || entry_spec(
                    final(self)@.state,
                    data@[i + r.1],
                ).action != Action::Id)
            }),
            r.0 is Some ==> r.1 == 1,
    {
        let ghost v_top = self@;
        // A line that has reached the maximum length without completing fails
        // before its next byte is interpreted.
        let over = self.line_length >= self.max_line_length;
        let in_error = match self.state {
            State::Error => true,
            _ => false,
        };
        if over && !in_error {
            let pos = self.line_length + 1;
            self.error_at(String::from_str("Line too long"), pos);
        }
        let ghost v_checked = self@;
        proof {
            assert(v_checked == check_length(v_top));
        }
        let b = *slice_index_get(data, i);
        let e = lookup(self.state, b);
        if e.create_argument {
            self.argument_start.push(self.storage.len());
            proof {
                assert(self@.args =~~= v_checked.args.push(Seq::<u8>::empty()));
                assert(self@.name =~= v_checked.name);
                assert(self@ == (ParserView {
                    args: v_checked.args.push(Seq::empty()),
                    ..v_checked
                }));
            }
        }
        let ghost v1g = self@;
        self.state = e.state;
        let ghost v2g = self@;
        proof {
            assert(v2g == (ParserView { state: e.state, ..v1g }));
        }
        // Fast path: extend the chunk over following bytes that share the
        // entry's action, capped so the line length never passes the maximum
        // mid-chunk.
        let mut p: usize = 1;
        let remaining = data.len() - i;
        let max_len: usize = if self.line_length >= self.max_line_length {
            remaining
        } else {
            let cap = self.max_line_length - self.line_length;
            if remaining < cap {
                remaining
            } else {
                cap
            }
        };
        while p < max_len && fast_allows(e.state, e.action, *slice_index_get(data, i + p))
            invariant
                1 <= p <= max_len,
                max_len <= data@.len() - i,
                i < data@.len(),
                data@.len() <= usize::MAX,
                forall|j: int| 1 <= j < p ==> fast_spec(e.state, e.action, #[trigger] data@[i
                    + j]),
            decreases max_len - p,
        {
            p += 1;
        }
        let position = self.line_length + 1;
        if self.line_length < self.max_line_length {
            self.line_length += p;
        }
        let ghost v3g = self@;
        proof {
            assert(v3g == bump_line_length(v2g, p as int));
        }
        let chunk = slice_subrange(data, i, i + p);
        proof {
            assert(chunk@ == data@.skip(i as int).take(p as int));
            assert(chunk@[0] == data@[i as int]);
            assert(e == entry_spec(v_checked.state, chunk@[0]));
            // The preconditions of `apply`, from the shape of the entry and
            // the parser invariant.
            if e.action is Name {
                assert(v_checked.state is BeforeName || v_checked.state is Name);
                assert(self.argument_start@.len() == 0);
            }
            if e.action is Argument || e.action is ArgumentEscaped {
                assert(self.argument_start@.len() >= 1);
            }
            if e.action is Id {
                assert(is_digit(chunk@[0]));
                assert forall|j: int| 0 <= j < chunk@.len() implies is_digit(
                    #[trigger] chunk@[j],
                ) by {
                    if j >= 1 {
                        assert(fast_spec(e.state, e.action, data@[i + j]));
                        assert(chunk@[j] == data@[i + j]);
                    }
                }
            }
            if e.state is EndOfLine {
                assert(self@.mtype is Some);
                assert(e.action is Nothing);
            }
            if e.state is ErrorEndOfLine {
                assert(e.action is Error);
            }
        }
        let res = self.apply(e.action, chunk, position);
        proof {
            // The chunk equals the byte model folded over its bytes.
            let d = data@.skip(i as int);
            assert(d[0] == data@[i as int]);
            assert forall|j: int| 1 <= j < p implies fast_spec(
                e.state,
                e.action,
                #[trigger] d[j],
            ) by {
                assert(d[j] == data@[i + j]);
            }
            if entry_spec(v_checked.state, d[0]).action is Id {
                assert(v_checked == v_top);
                assert(gip@ is None);
            }
            lemma_chunk_step(v_top, d, p as int, gip@);
            let done = chunk_result(v_top, d, p as int);
            assert(finish(apply_chunk(v3g, e.action, chunk@, position as int)) == done);
            lemma_run_from_wf(v_top, d.take(p as int), gip@);
            lemma_run_from_ll(v_top, d.take(p as int), gip@);
            let piece = run_from(v_top, d.take(p as int), gip@);
            if res is Some {
                // An outcome is only emitted from a terminal next state, and
                // nothing extends a run into one.
                assert(done.1 is Some);
                if e.action is Id {
                    crate::model::lemma_id_chunk_state(v3g, chunk@, position as int);
                }
                assert(e.state is EndOfLine || e.state is ErrorEndOfLine);
                assert(p == 1) by {
                    if p >= 2 {
                        assert(fast_spec(e.state, e.action, data@[i + 1]));
                    }
                }
            } else {
                // The ID-run position carries over only when the next byte
                // cannot extend the run.
                if piece.2 is Some {
                    assert(e.action is Id && done.0.state is Id && done.0.line_length
                        < done.0.max_line_length);
                    crate::model::lemma_id_chunk_state(v3g, chunk@, position as int);
                    assert(v_checked.line_length < v_checked.max_line_length) by {
                        if v_checked.line_length >= v_checked.max_line_length {
                            assert(v_checked.state is Error);
                        }
                    }
                    if i + p < data@.len() {
                        if p < max_len {
                            assert(!fast_spec(e.state, e.action, data@[i + p]));
                            assert(entry_spec(State::Id, data@[i + p]).action != Action::Id);
                        } else {
                            assert(p == max_len && max_len == v_checked.max_line_length
                                - v_checked.line_length);
                            assert(done.0.line_length == done.0.max_line_length);
                            assert(false);
                        }
                    }
                }
            }
        }
        (res, p)
    }

    /// Consume data until an end-of-line is seen.
    ///
    /// Returns the message or error from the first line completed within
    /// `data`, if any, together with the number of bytes consumed: the whole
    /// of `data` when no line was completed, and everything up to and
    /// including the completing byte otherwise.  The result and the parser's
    /// new state are exactly those of the byte model folded over the consumed
    /// prefix.
    pub fn next_message(&mut self, data: &[u8]) -> (r: (
        Option<Result<Message, ParseError>>,
        usize,
    ))
        requires
            old(self).wf(),
            old(self)@.line_length + data@.len() < usize::MAX,
        ensures
            final(self).wf(),
            final(self)@.max_line_length == old(self)@.max_line_length,
            r.1 <= data@.len(),
            ({
                let m = run_from(old(self)@, data@.take(r.1 as int), None);
                &&& final(self)@ == m.0
                &&& m.1 == outcome_of(r.0)
            }),
            r.0 is None ==> r.1 == data@.len(),
            r.0 is Some ==> r.1 >= 1 && run_from(old(self)@, data@.take(r.1 - 1), None).1
                == Seq::<Outcome>::empty(),
            r.0 is Some ==> run_from(old(self)@, data@.take(r.1 as int), None).2 is None,
    {
        let ghost v0 = self@;
        let mut i: usize = 0;
        let ghost mut gip: Option<int> = None;
        proof {
            assert(data@.take(0) =~= Seq::<u8>::empty());
        }
        while i < data.len()
            invariant
                v0 == old(self)@,
                i <= data@.len(),
                self.wf(),
                self@.max_line_length == v0.max_line_length,
                self@.line_length <= v0.line_length + i,
                v0.line_length + data@.len() < usize::MAX,
                run_from(v0, data@.take(i as int), None) == (self@, Seq::<Outcome>::empty(), gip),
                gip is Some ==> i == data@.len() || entry_spec(self@.state, data@[i as int]).action
                    != Action::Id,
            decreases data@.len() - i,
        {
            let ghost v_mid = self@;
            let (res, p) = self.step_chunk(data, i, Ghost(gip));
            proof {
                let piece = run_from(v_mid, data@.skip(i as int).take(p as int), gip);
                lemma_run_from_concat(
                    v0,
                    data@.take(i as int),
                    data@.skip(i as int).take(p as int),
                    None,
                );
                assert(data@.take(i as int) + data@.skip(i as int).take(p as int) =~= data@.take(
                    i + p,
                ));
                assert(Seq::<Outcome>::empty() + piece.1 =~= piece.1);
                assert(run_from(v0, data@.take(i + p), None) == (piece.0, piece.1, piece.2));
                gip = piece.2;
            }
            i += p;
            match res {
                None => {
                    proof {
                        assert(run_from(v0, data@.take(i as int), None).1
                            =~= Seq::<Outcome>::empty());
                    }
                },
                Some(out) => {
                    proof {
                        assert(run_from(v0, data@.take(i as int), None).0 == self@);
                        assert(run_from(v0, data@.take(i as int), None).1 == outcome_of(
                            Some(out),
                        ));
                        assert(run_from(v0, data@.take(i as int), None).2 is None);
                        assert(data@.take((i - 1) as int) == data@.take((i - p) as int));
                        assert(run_from(v0, data@.take((i - 1) as int), None).1
                            == Seq::<Outcome>::empty());
                    }
                    return (Some(out), i);
                },
            }
        }
        proof {
            assert(data@.take(data@.len() as int) =~= data@);
        }
        (None, i)
    }

    /// Add data to the parser and return the messages and parse errors that
    /// arise, in the order their terminating end-of-line bytes appear.
    ///
    /// The data need not be aligned to message boundaries: an incomplete line
    /// is buffered and continues with the next append.
    pub fn append(&mut self, data: &[u8]) -> (r: Vec<Result<Message, ParseError>>)
        requires
            old(self).wf(),
            old(self)@.line_length + data@.len() < usize::MAX,
        ensures
            final(self).wf(),
            final(self)@ == run(old(self)@, data@).0,
            results_view(r@) == run(old(self)@, data@).1,
    {
        let ghost v0 = self@;
        let mut out: Vec<Result<Message, ParseError>> = Vec::new();
        let mut i: usize = 0;
        proof {
            assert(data@.take(0) =~= Seq::<u8>::empty());
            assert(results_view(out@) =~= Seq::<Outcome>::empty());
        }
        while i < data.len()
            invariant
                v0 == old(self)@,
                i <= data@.len(),
                self.wf(),
                self@.max_line_length == v0.max_line_length,
                self@.line_length <= v0.line_length + i,
                v0.line_length + data@.len() < usize::MAX,
                ({
                    let whole = run_from(v0, data@.take(i as int), None);
                    &&& whole.0 == self@
                    &&& whole.1 == results_view(out@)
                    &&& (i < data@.len() ==> whole.2 is None)
                }),
            decreases data@.len() - i,
        {
            let ghost v_mid = self@;
            let ghost out_pre = out@;
            let rest = slice_subrange(data, i, data.len());
            let (msg, consumed) = self.next_message(rest);
            proof {
                let piece = run_from(v_mid, rest@.take(consumed as int), None);
                lemma_run_from_concat(v0, data@.take(i as int), rest@.take(consumed as int), None);
                assert(data@.take(i as int) + rest@.take(consumed as int) =~= data@.take(
                    i + consumed,
                ));
                lemma_run_from_ll(v0, data@.take(i + consumed), None);
            }
            i += consumed;
            match msg {
                Some(x) => {
                    proof {
                        assert(results_view(out_pre.push(x)) =~= results_view(out_pre) + seq![
                            result_view(x),
                        ]);
                    }
                    out.push(x);
                },
                None => {
                    proof {
                        assert(results_view(out@) + Seq::<Outcome>::empty() =~= results_view(
                            out@,
                        ));
                    }
                },
            }
        }
        proof {
            assert(data@.take(data@.len() as int) =~= data@);
        }
        out
    }

    /// Accumulate a chunk of message-ID digits, 64-bit arithmetic detecting
    /// overflow of the positive signed 32-bit range.  On overflow the error
    /// is recorded at `position`, the start of the chunk, and no further
    /// digits of the chunk are consumed.
    fn apply_id(&mut self, chunk: &[u8], position: usize)
        requires
            old(self).rep_inv(),
            forall|j: int| 0 <= j < chunk@.len() ==> is_digit(chunk@[j]),
        ensures
            final(self).rep_inv(),
            final(self)@ == id_chunk(old(self)@, chunk@, position as int),
    {
        let ghost target = id_chunk(old(self)@, chunk@, position as int);
        proof {
            assert(chunk@.skip(0) =~= chunk@);
        }
        let mut i: usize = 0;
        while i < chunk.len()
            invariant_except_break
                0 <= i <= chunk@.len(),
                forall|j: int| 0 <= j < chunk@.len() ==> is_digit(chunk@[j]),
                self.rep_inv(),
                target == id_chunk(self@, chunk@.skip(i as int), position as int),
            ensures
                self.rep_inv(),
                self@ == target,
            decreases chunk@.len() - i,
        {
            let d = chunk[i];
            let m: u64 = match self.mid {
                Some(x) => x as u64,
                None => 0u64,
            };
            let accum: u64 = m * 10 + ((d - 48) as u64);
            if accum <= 0x7fffffff {
                let ghost before = self@;
                self.mid = Some(accum as u32);
                proof {
                    assert(self@.name =~= before.name);
                    assert(self@.args =~~= before.args);
                    assert(self@ == (ParserView { mid: Some(accum as u32), ..before }));
                    assert(chunk@.skip(i as int)[0] == chunk@[i as int]);
                    assert(chunk@.skip(i as int).subrange(
                        1,
                        chunk@.skip(i as int).len() as int,
                    ) =~= chunk@.skip(i + 1));
                }
            } else {
                let ghost before = self@;
                self.error_at(String::from_str("Message ID overflowed"), position);
                proof {
                    assert(chunk@.skip(i as int)[0] == chunk@[i as int]);
                    assert(target == pv_error_at(before, crate::model::text_overflow(),
                        position as int));
                }
                break;
            }
            i += 1;
        }
        proof {
            if self@ != target {
                assert(chunk@.skip(chunk@.len() as int) =~= Seq::<u8>::empty());
            }
        }
    }
}

} // verus!
