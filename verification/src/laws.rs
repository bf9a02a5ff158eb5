//! The laws of the codec, stated and proved over the model.
//!
//! The central result is [`lemma_round_trip`]: formatting a well-formed
//! message and parsing the result yields exactly that message.  Beside it
//! stand the laws about streaming: outcomes are emitted only at end-of-line
//! bytes, an emission returns the parser to its initial state, and cutting
//! the input into chunks does not change the outcomes.

use vstd::prelude::*;

use crate::format::{
    args_wire, dec_digits, encode_arg, encode_byte, encode_bytes, mid_wire, sigil_of, wire,
};
use crate::fsm::{
    entry_spec, is_digit, is_letter, is_name_char, needs_escape, state_is_terminal, Action, State,
};
use crate::model::{
    check_length, init_view, msg_of, opt_outcomes, pv_wf, run, run_from, step, ErrView, MsgView,
    Outcome, ParserView,
};

verus! {

/// Well-formedness of a message, as constrained by the wire grammar: the
/// name is non-empty, starts with a letter and continues with letters, digits
/// and dashes; the message ID, when present, is positive and within the
/// signed 32-bit range.  Argument bytes are arbitrary.
pub open spec fn msg_wf(m: MsgView) -> bool {
    &&& m.name.len() >= 1
    &&& is_letter(m.name[0])
    &&& forall|i: int| 0 <= i < m.name.len() ==> is_name_char(#[trigger] m.name[i])
    &&& m.mid is Some ==> 1 <= m.mid.unwrap() && m.mid.unwrap() <= 0x7fffffff
}

/// Folding over a single byte is a single step.
proof fn lemma_run_one(v: ParserView, c: u8, ip: Option<int>)
    ensures
        run_from(v, seq![c], ip).0 == step(v, c, ip).0,
        run_from(v, seq![c], ip).1 == opt_outcomes(step(v, c, ip).1),
        run_from(v, seq![c], ip).2 == step(v, c, ip).2,
{
    let s = seq![c];
    assert(s[0] == c);
    assert(s.subrange(1, 1) =~= Seq::<u8>::empty());
    let first = step(v, c, ip);
    assert(run_from(first.0, s.subrange(1, 1), first.2) == (
        first.0,
        Seq::<Outcome>::empty(),
        first.2,
    ));
    assert(opt_outcomes(first.1) + Seq::<Outcome>::empty() =~= opt_outcomes(first.1));
}

/// Consuming a run of name characters in the `Name` state appends them to the
/// name and stays in `Name`.
proof fn lemma_run_name_chars(v: ParserView, s: Seq<u8>, ip: Option<int>)
    requires
        v.state is Name,
        forall|i: int| 0 <= i < s.len() ==> is_name_char(#[trigger] s[i]),
        v.line_length + s.len() <= v.max_line_length,
    ensures
        ({
            let r = run_from(v, s, ip);
            &&& r.0 == (ParserView {
                name: v.name + s,
                line_length: (v.line_length + s.len()) as nat,
                ..v
            })
            &&& r.1 == Seq::<Outcome>::empty()
            &&& r.2 == (if s.len() == 0 {
                ip
            } else {
                Option::<int>::None
            })
        }),
    decreases s.len(),
{
    if s.len() == 0 {
        assert(v.name + s =~= v.name);
    } else {
        let c = s[0];
        assert(is_name_char(c));
        assert(c != 9 && c != 13);
        assert(entry_spec(State::Name, c) == (crate::fsm::Entry {
            action: Action::Name,
            state: State::Name,
            create_argument: false,
        }));
        let first = step(v, c, ip);
        assert(first.0 == (ParserView {
            name: v.name.push(c),
            line_length: (v.line_length + 1) as nat,
            ..v
        }));
        lemma_run_name_chars(first.0, s.subrange(1, s.len() as int), first.2);
        assert(v.name.push(c) + s.subrange(1, s.len() as int) =~= v.name + s);
    }
}

/// Consuming the decimal digits of `m` from the `BeforeId` state accumulates
/// exactly `m` as the message ID: no prefix of the decimal representation of
/// a representable ID overflows.
proof fn lemma_run_decimal(v: ParserView, m: int, ip: Option<int>)
    requires
        v.state is BeforeId,
        v.mid is None,
        1 <= m <= 0x7fffffff,
        v.line_length + dec_digits(m).len() <= v.max_line_length,
    ensures
        ({
            let r = run_from(v, dec_digits(m), ip);
            &&& r.0 == (ParserView {
                state: State::Id,
                mid: Some(m as u32),
                line_length: (v.line_length + dec_digits(m).len()) as nat,
                ..v
            })
            &&& r.1 == Seq::<Outcome>::empty()
        }),
    decreases m,
{
    if m < 10 {
        let c = (48 + m) as u8;
        assert(dec_digits(m) == seq![c]);
        lemma_run_one(v, c, ip);
        assert(entry_spec(State::BeforeId, c) == (crate::fsm::Entry {
            action: Action::Id,
            state: State::Id,
            create_argument: false,
        }));
        assert(step(v, c, ip).0 == (ParserView {
            state: State::Id,
            mid: Some(m as u32),
            line_length: (v.line_length + 1) as nat,
            ..v
        }));
    } else {
        let q = m / 10;
        let c = (48 + m % 10) as u8;
        assert(1 <= q <= 0x7fffffff);
        assert(dec_digits(m) == dec_digits(q).push(c));
        assert(dec_digits(m) =~= dec_digits(q) + seq![c]);
        crate::model::lemma_run_from_concat(v, dec_digits(q), seq![c], ip);
        lemma_run_decimal(v, q, ip);
        let r1 = run_from(v, dec_digits(q), ip);
        lemma_run_one(r1.0, c, r1.2);
        assert(is_digit(c));
        assert(entry_spec(State::Id, c) == (crate::fsm::Entry {
            action: Action::Id,
            state: State::Id,
            create_argument: false,
        }));
        assert(q * 10 + (c - 48) == m) by {
            assert(m == 10 * (m / 10) + m % 10) by {
                vstd::arithmetic::div_mod::lemma_fundamental_div_mod(m, 10);
            }
        }
        assert(step(r1.0, c, r1.2).0 == (ParserView {
            state: State::Id,
            mid: Some(m as u32),
            line_length: (v.line_length + dec_digits(m).len()) as nat,
            ..v
        }));
        assert(Seq::<Outcome>::empty() + Seq::<Outcome>::empty() =~= Seq::<Outcome>::empty());
    }
}

/// Consuming the encoding of one argument byte in the `Argument` state
/// appends exactly that byte to the last argument.
proof fn lemma_run_arg_byte(v: ParserView, c: u8, ip: Option<int>)
    requires
        v.state is Argument,
        v.args.len() >= 1,
        v.line_length + encode_byte(c).len() <= v.max_line_length,
    ensures
        ({
            let r = run_from(v, encode_byte(c), ip);
            &&& r.0 == (ParserView {
                args: v.args.update(v.args.len() - 1, v.args.last().push(c)),
                line_length: (v.line_length + encode_byte(c).len()) as nat,
                ..v
            })
            &&& r.1 == Seq::<Outcome>::empty()
            &&& r.2 is None
        }),
{
    if needs_escape(c) {
        let sym = crate::fsm::escape_symbol_spec(c);
        assert(encode_byte(c) == seq![92u8, sym]);
        assert(encode_byte(c) =~= seq![92u8] + seq![sym]);
        crate::model::lemma_run_from_concat(v, seq![92u8], seq![sym], ip);
        lemma_run_one(v, 92, ip);
        let v1 = step(v, 92, ip).0;
        assert(v1 == (ParserView {
            state: State::ArgumentEscape,
            line_length: (v.line_length + 1) as nat,
            ..v
        }));
        lemma_run_one(v1, sym, step(v, 92, ip).2);
        assert(entry_spec(State::ArgumentEscape, sym) == (crate::fsm::Entry {
            action: Action::ArgumentEscaped(c),
            state: State::Argument,
            create_argument: false,
        }));
        assert(Seq::<Outcome>::empty() + Seq::<Outcome>::empty() =~= Seq::<Outcome>::empty());
    } else {
        assert(encode_byte(c) == seq![c]);
        lemma_run_one(v, c, ip);
        assert(c != 0 && c != 27 && c != 32 && c != 92 && c != 9 && c != 10 && c != 13);
        assert(entry_spec(State::Argument, c) == (crate::fsm::Entry {
            action: Action::Argument,
            state: State::Argument,
            create_argument: false,
        }));
    }
}

/// Consuming the encoding of a non-empty argument from the `BeforeArgument`
/// state creates one new argument holding exactly its bytes.
proof fn lemma_run_new_arg(v: ParserView, a: Seq<u8>, ip: Option<int>)
    requires
        v.state is BeforeArgument,
        a.len() >= 1,
        v.line_length + encode_bytes(a).len() <= v.max_line_length,
    ensures
        ({
            let r = run_from(v, encode_bytes(a), ip);
            &&& r.0 == (ParserView {
                state: State::Argument,
                args: v.args.push(a),
                line_length: (v.line_length + encode_bytes(a).len()) as nat,
                ..v
            })
            &&& r.1 == Seq::<Outcome>::empty()
            &&& r.2 is None
        }),
    decreases a.len(),
{
    if a.len() == 1 {
        let c = a[0];
        assert(a.drop_last() =~= Seq::<u8>::empty());
        assert(encode_bytes(a.drop_last()) == Seq::<u8>::empty());
        assert(encode_bytes(a) =~= encode_byte(c));
        if needs_escape(c) {
            let sym = crate::fsm::escape_symbol_spec(c);
            assert(encode_byte(c) == seq![92u8, sym]);
            assert(encode_byte(c) =~= seq![92u8] + seq![sym]);
            crate::model::lemma_run_from_concat(v, seq![92u8], seq![sym], ip);
            lemma_run_one(v, 92, ip);
            let v1 = step(v, 92, ip).0;
            assert(v1 == (ParserView {
                state: State::ArgumentEscape,
                args: v.args.push(Seq::empty()),
                line_length: (v.line_length + 1) as nat,
                ..v
            }));
            lemma_run_one(v1, sym, step(v, 92, ip).2);
            assert(entry_spec(State::ArgumentEscape, sym) == (crate::fsm::Entry {
                action: Action::ArgumentEscaped(c),
                state: State::Argument,
                create_argument: false,
            }));
            assert(v.args.push(Seq::empty()).update(v.args.len() as int, Seq::<u8>::empty().push(
                c,
            )) =~~= v.args.push(a));
            assert(Seq::<Outcome>::empty() + Seq::<Outcome>::empty()
                =~= Seq::<Outcome>::empty());
        } else {
            lemma_run_one(v, c, ip);
            assert(c != 0 && c != 27 && c != 32 && c != 92 && c != 9 && c != 10 && c != 13);
            assert(entry_spec(State::BeforeArgument, c) == (crate::fsm::Entry {
                action: Action::Argument,
                state: State::Argument,
                create_argument: true,
            }));
            assert(v.args.push(Seq::empty()).update(v.args.len() as int, Seq::<u8>::empty().push(
                c,
            )) =~~= v.args.push(a));
        }
    } else {
        let pre = a.drop_last();
        let c = a.last();
        assert(encode_bytes(a) == encode_bytes(pre) + encode_byte(c));
        crate::model::lemma_run_from_concat(v, encode_bytes(pre), encode_byte(c), ip);
        lemma_run_new_arg(v, pre, ip);
        let r1 = run_from(v, encode_bytes(pre), ip);
        lemma_run_arg_byte(r1.0, c, r1.2);
        assert(v.args.push(pre).update(v.args.len() as int, pre.push(c)) =~~= v.args.push(a));
        assert(Seq::<Outcome>::empty() + Seq::<Outcome>::empty() =~= Seq::<Outcome>::empty());
    }
}

/// Consuming `\@` from the `BeforeArgument` state creates one new empty
/// argument.
proof fn lemma_run_empty_arg(v: ParserView, ip: Option<int>)
    requires
        v.state is BeforeArgument,
        v.line_length + 2 <= v.max_line_length,
    ensures
        ({
            let r = run_from(v, encode_arg(Seq::empty()), ip);
            &&& r.0 == (ParserView {
                state: State::Argument,
                args: v.args.push(Seq::empty()),
                line_length: (v.line_length + 2) as nat,
                ..v
            })
            &&& r.1 == Seq::<Outcome>::empty()
            &&& r.2 is None
        }),
{
    assert(encode_arg(Seq::empty()) == seq![92u8, 64u8]);
    assert(encode_arg(Seq::<u8>::empty()) =~= seq![92u8] + seq![64u8]);
    crate::model::lemma_run_from_concat(v, seq![92u8], seq![64u8], ip);
    lemma_run_one(v, 92, ip);
    let v1 = step(v, 92, ip).0;
    assert(v1 == (ParserView {
        state: State::ArgumentEscape,
        args: v.args.push(Seq::empty()),
        line_length: (v.line_length + 1) as nat,
        ..v
    }));
    lemma_run_one(v1, 64, step(v, 92, ip).2);
    assert(entry_spec(State::ArgumentEscape, 64) == (crate::fsm::Entry {
        action: Action::Nothing,
        state: State::Argument,
        create_argument: false,
    }));
    assert(Seq::<Outcome>::empty() + Seq::<Outcome>::empty() =~= Seq::<Outcome>::empty());
}

/// Consuming the encoded argument list appends exactly those arguments, each
/// preceded by one separating space.
proof fn lemma_run_args(v: ParserView, args: Seq<Seq<u8>>, ip: Option<int>)
    requires
        v.state is Name || v.state is AfterId || v.state is Argument,
        v.state is Argument ==> v.args.len() >= 1,
        v.line_length + args_wire(args).len() <= v.max_line_length,
    ensures
        ({
            let r = run_from(v, args_wire(args), ip);
            &&& r.0 == (if args.len() == 0 {
                v
            } else {
                ParserView {
                    state: State::Argument,
                    args: v.args + args,
                    line_length: (v.line_length + args_wire(args).len()) as nat,
                    ..v
                }
            })
            &&& r.1 == Seq::<Outcome>::empty()
            &&& r.2 == (if args.len() == 0 {
                ip
            } else {
                Option::<int>::None
            })
        }),
    decreases args.len(),
{
    if args.len() == 0 {
        assert(args_wire(args) == Seq::<u8>::empty());
    } else {
        let pre = args.drop_last();
        let a = args.last();
        assert(args_wire(args) == args_wire(pre) + seq![32u8] + encode_arg(a));
        assert(args_wire(args) =~= args_wire(pre) + (seq![32u8] + encode_arg(a)));
        crate::model::lemma_run_from_concat(v, args_wire(pre), seq![32u8] + encode_arg(a), ip);
        lemma_run_args(v, pre, ip);
        let r1 = run_from(v, args_wire(pre), ip);
        crate::model::lemma_run_from_concat(r1.0, seq![32u8], encode_arg(a), r1.2);
        lemma_run_one(r1.0, 32, r1.2);
        assert(entry_spec(r1.0.state, 32) == (crate::fsm::Entry {
            action: Action::Nothing,
            state: State::BeforeArgument,
            create_argument: false,
        }));
        let v2 = step(r1.0, 32, r1.2).0;
        assert(v2 == (ParserView {
            state: State::BeforeArgument,
            line_length: (r1.0.line_length + 1) as nat,
            ..r1.0
        }));
        let r2 = run_from(r1.0, seq![32u8], r1.2);
        if a.len() == 0 {
            lemma_run_empty_arg(v2, r2.2);
        } else {
            lemma_run_new_arg(v2, a, r2.2);
        }
        if pre.len() == 0 {
            assert(v.args + args =~~= v.args.push(a));
        } else {
            assert((v.args + pre).push(a) =~~= v.args + args);
        }
        let r3 = run_from(v2, encode_arg(a), r2.2);
        assert(r3.0.state is Argument);
        assert(r3.0.args =~~= v.args + args);
        assert(r3.0.line_length == v.line_length + args_wire(args).len());
        assert(r3.0.max_line_length == v.max_line_length);
        assert(r3.0.mtype == v.mtype);
        assert(r3.0.mid == v.mid);
        assert(r3.0.name == v.name);
        assert(r3.0.error == v.error);
        assert(r3.0 == (ParserView {
            state: State::Argument,
            args: v.args + args,
            line_length: (v.line_length + args_wire(args).len()) as nat,
            ..v
        }));
        assert(run_from(v, args_wire(args), ip).0 == r3.0);
        assert(run_from(v, args_wire(args), ip).2 == r3.2);
        assert(Seq::<Outcome>::empty() + Seq::<Outcome>::empty() =~= Seq::<Outcome>::empty());
        assert(Seq::<Outcome>::empty() + (Seq::<Outcome>::empty() + Seq::<Outcome>::empty())
            =~= Seq::<Outcome>::empty());
        assert(run_from(v, args_wire(args), ip).1 =~= Seq::<Outcome>::empty());
    }
}

/// Consuming the encoded message ID (if any) from the `Name` state records
/// exactly that ID.
proof fn lemma_run_mid(v: ParserView, mid: Option<u32>, ip: Option<int>)
    requires
        v.state is Name,
        v.mid is None,
        mid is Some ==> 1 <= mid.unwrap() && mid.unwrap() <= 0x7fffffff,
        v.line_length + mid_wire(mid).len() <= v.max_line_length,
    ensures
        ({
            let r = run_from(v, mid_wire(mid), ip);
            &&& r.0 == (if mid is None {
                v
            } else {
                ParserView {
                    state: State::AfterId,
                    mid,
                    line_length: (v.line_length + mid_wire(mid).len()) as nat,
                    ..v
                }
            })
            &&& r.1 == Seq::<Outcome>::empty()
        }),
{
    if mid is Some {
        let m = mid.unwrap() as int;
        let digits = dec_digits(m);
        assert(mid_wire(mid) == seq![91u8] + digits + seq![93u8]);
        assert(mid_wire(mid) =~= seq![91u8] + (digits + seq![93u8]));
        crate::model::lemma_run_from_concat(v, seq![91u8], digits + seq![93u8], ip);
        lemma_run_one(v, 91, ip);
        assert(!is_name_char(91));
        assert(entry_spec(State::Name, 91) == (crate::fsm::Entry {
            action: Action::Nothing,
            state: State::BeforeId,
            create_argument: false,
        }));
        let v1 = step(v, 91, ip).0;
        assert(v1 == (ParserView {
            state: State::BeforeId,
            line_length: (v.line_length + 1) as nat,
            ..v
        }));
        let r1 = run_from(v, seq![91u8], ip);
        crate::model::lemma_run_from_concat(v1, digits, seq![93u8], r1.2);
        lemma_run_decimal(v1, m, r1.2);
        let r2 = run_from(v1, digits, r1.2);
        assert(r2.0 == (ParserView {
            state: State::Id,
            mid: Some(m as u32),
            line_length: (v.line_length + 1 + digits.len()) as nat,
            ..v
        }));
        lemma_run_one(r2.0, 93, r2.2);
        assert(entry_spec(State::Id, 93) == (crate::fsm::Entry {
            action: Action::Nothing,
            state: State::AfterId,
            create_argument: false,
        }));
        assert(m as u32 == mid.unwrap());
        let r = run_from(v, mid_wire(mid), ip);
        assert(r.0.state is AfterId);
        assert(r.0.mid == mid);
        assert(r.0.line_length == v.line_length + mid_wire(mid).len());
        assert(r.0 == (ParserView {
            state: State::AfterId,
            mid,
            line_length: (v.line_length + mid_wire(mid).len()) as nat,
            ..v
        }));
        assert(Seq::<Outcome>::empty() + Seq::<Outcome>::empty() =~= Seq::<Outcome>::empty());
        assert(r.1 =~= Seq::<Outcome>::empty());
    } else {
        assert(mid_wire(mid) == Seq::<u8>::empty());
    }
}

/// Round trip: parsing the wire representation of any well-formed message
/// that fits within the line-length limit yields exactly one outcome, the
/// message itself, and returns the parser to its initial state.
#[verifier::rlimit(100)]
pub proof fn lemma_round_trip(m: MsgView, max_line_length: nat)
    requires
        msg_wf(m),
        wire(m).len() <= max_line_length,
    ensures
        run(init_view(max_line_length), wire(m)) == (
            init_view(max_line_length),
            seq![Result::<MsgView, ErrView>::Ok(m)],
        ),
{
    let v0 = init_view(max_line_length);
    let sig = sigil_of(m.mtype);
    let s_nr = m.name.subrange(1, m.name.len() as int);
    let s_mid = mid_wire(m.mid);
    let s_args = args_wire(m.args);
    let w = wire(m);
    let tail1 = seq![m.name[0]] + (s_nr + (s_mid + (s_args + seq![10u8])));
    assert(w =~= seq![sig] + tail1);
    assert(w.len() == 2 + s_nr.len() + s_mid.len() + s_args.len() + 1);

    // Sigil: record the message type.
    crate::model::lemma_run_from_concat(v0, seq![sig], tail1, None);
    lemma_run_one(v0, sig, None);
    assert(entry_spec(State::Start, sig) == (crate::fsm::Entry {
        action: Action::SetType(m.mtype),
        state: State::BeforeName,
        create_argument: false,
    }));
    let r1 = run_from(v0, seq![sig], None);
    assert(r1.0 == (ParserView {
        state: State::BeforeName,
        mtype: Some(m.mtype),
        line_length: 1,
        ..v0
    }));

    // First name byte: a letter.
    let tail2 = s_nr + (s_mid + (s_args + seq![10u8]));
    crate::model::lemma_run_from_concat(r1.0, seq![m.name[0]], tail2, r1.2);
    lemma_run_one(r1.0, m.name[0], r1.2);
    assert(is_letter(m.name[0]) && m.name[0] != 9 && m.name[0] != 13);
    assert(entry_spec(State::BeforeName, m.name[0]) == (crate::fsm::Entry {
        action: Action::Name,
        state: State::Name,
        create_argument: false,
    }));
    let r2 = run_from(r1.0, seq![m.name[0]], r1.2);
    assert(r2.0 == (ParserView {
        state: State::Name,
        mtype: Some(m.mtype),
        name: Seq::<u8>::empty().push(m.name[0]),
        line_length: 2,
        ..v0
    }));

    // Rest of the name.
    let tail3 = s_mid + (s_args + seq![10u8]);
    crate::model::lemma_run_from_concat(r2.0, s_nr, tail3, r2.2);
    assert forall|i: int| 0 <= i < s_nr.len() implies is_name_char(#[trigger] s_nr[i]) by {
        assert(s_nr[i] == m.name[i + 1]);
    }
    lemma_run_name_chars(r2.0, s_nr, r2.2);
    let r3 = run_from(r2.0, s_nr, r2.2);
    assert(Seq::<u8>::empty().push(m.name[0]) + s_nr =~= m.name);
    assert(r3.0 == (ParserView {
        state: State::Name,
        mtype: Some(m.mtype),
        name: m.name,
        line_length: (1 + m.name.len()) as nat,
        ..v0
    }));

    // Message ID, if any.
    let tail4 = s_args + seq![10u8];
    crate::model::lemma_run_from_concat(r3.0, s_mid, tail4, r3.2);
    lemma_run_mid(r3.0, m.mid, r3.2);
    let r4 = run_from(r3.0, s_mid, r3.2);
    assert(r4.0.mtype == Some(m.mtype) && r4.0.mid == m.mid && r4.0.name == m.name
        && r4.0.args == v0.args && r4.0.error is None && r4.0.max_line_length
        == max_line_length);
    assert(r4.0.state is Name || r4.0.state is AfterId);
    assert(r4.0.line_length == 1 + m.name.len() + s_mid.len());

    // Arguments.
    crate::model::lemma_run_from_concat(r4.0, s_args, seq![10u8], r4.2);
    lemma_run_args(r4.0, m.args, r4.2);
    let r5 = run_from(r4.0, s_args, r4.2);
    assert(v0.args + m.args =~~= m.args);
    assert(r5.0.mtype == Some(m.mtype) && r5.0.mid == m.mid && r5.0.name == m.name
        && r5.0.args =~~= m.args && r5.0.error is None && r5.0.max_line_length
        == max_line_length);
    assert(r5.0.state is Name || r5.0.state is AfterId || r5.0.state is Argument);
    assert(r5.0.line_length == w.len() - 1);

    // The terminating line feed completes the message.
    lemma_run_one(r5.0, 10, r5.2);
    assert(entry_spec(r5.0.state, 10) == (crate::fsm::Entry {
        action: Action::Nothing,
        state: State::EndOfLine,
        create_argument: false,
    }));
    let fin = step(r5.0, 10, r5.2);
    assert(fin.0 == init_view(max_line_length));
    assert(fin.1 == Some(Result::<MsgView, ErrView>::Ok(msg_of(ParserView {
        state: State::EndOfLine,
        line_length: w.len() as nat,
        ..r5.0
    }))));
    assert(msg_of(ParserView { state: State::EndOfLine, line_length: w.len() as nat, ..r5.0 })
        == m);

    // Assemble the pieces.
    let whole = run_from(v0, w, None);
    assert(whole.0 == fin.0);
    assert(whole.1 =~= seq![Result::<MsgView, ErrView>::Ok(m)]);
}

/// Ordering: an outcome is emitted only when an end-of-line byte is
/// consumed.  Since [`run_from`] folds the input strictly left to right,
/// appending each byte's outcome in turn, messages emerge in the order of
/// their terminating end-of-line bytes.
pub proof fn lemma_emit_only_at_eol(v: ParserView, ch: u8, ip: Option<int>)
    ensures
        step(v, ch, ip).1 is Some ==> ch == 10 || ch == 13,
{
    if !(ch == 10 || ch == 13) {
        let v0 = check_length(v);
        let e = entry_spec(v0.state, ch);
        assert(!state_is_terminal(e.state));
    }
}

/// A step that emits an outcome leaves the parser exactly as freshly
/// constructed, carrying nothing over to the next line.
pub proof fn lemma_emission_resets(v: ParserView, ch: u8, ip: Option<int>)
    requires
        pv_wf(v),
    ensures
        step(v, ch, ip).1 is Some ==> step(v, ch, ip).0 == init_view(v.max_line_length)
            && step(v, ch, ip).2 is None,
{
    crate::model::lemma_step_wf(v, ch, ip);
}

/// Error locality: after any line completes — with a message or with an
/// error — the parse of the following bytes is exactly the parse of those
/// bytes by a fresh parser.  An error on one line cannot alter any later
/// line.
///
/// `line` is a byte sequence whose final byte completes exactly one line:
/// folding it yields one outcome, and folding all but its last byte yields
/// none.
pub proof fn lemma_error_locality(v: ParserView, line: Seq<u8>, rest: Seq<u8>)
    requires
        pv_wf(v),
        line.len() >= 1,
        run(v, line).1.len() == 1,
        run(v, line.take(line.len() - 1)).1.len() == 0,
    ensures
        run(v, line + rest).0 == run(init_view(v.max_line_length), rest).0,
        run(v, line + rest).1 == run(v, line).1 + run(init_view(v.max_line_length), rest).1,
{
    let pre = line.take(line.len() - 1);
    let last = line.last();
    assert(line =~= pre + seq![last]);
    crate::model::lemma_run_from_concat(v, pre, seq![last], None);
    let r1 = run_from(v, pre, None);
    crate::model::lemma_run_from_wf(v, pre, None);
    lemma_run_one(r1.0, last, r1.2);
    let fin = step(r1.0, last, r1.2);
    assert(run(v, line).1 =~= r1.1 + opt_outcomes(fin.1));
    assert(r1.1.len() == 0);
    assert(fin.1 is Some);
    crate::model::lemma_step_wf(r1.0, last, r1.2);
    assert(fin.0 == init_view(v.max_line_length) && fin.2 is None);
    assert(run_from(v, line, None).0 == init_view(v.max_line_length));
    assert(run_from(v, line, None).2 is None);
    crate::model::lemma_run_from_concat(v, line, rest, None);
    assert(run(v, line + rest).1 =~= run(v, line).1 + run(init_view(v.max_line_length), rest).1);
}

/// Buffer-size bound: a well-formed parser never counts more than the
/// maximum line length as buffered, whatever was appended.
pub proof fn lemma_buffer_size_bound(v: ParserView)
    requires
        pv_wf(v),
    ensures
        v.line_length <= v.max_line_length,
{
}

/// Two parse errors match when they carry the same text, and the same
/// position unless the text is the message-ID overflow.  The parser reports
/// that one error at the start of the run of digits it was consuming when the
/// ID overflowed, and where the input is cut into chunks can move the start
/// of a run.
pub open spec fn err_match(x: ErrView, y: ErrView) -> bool {
    &&& x.message == y.message
    &&& x.position == y.position || x.message == crate::model::text_overflow()
}

/// Two parser states match when they agree on everything but the position of
/// a pending message-ID overflow error.
pub open spec fn pv_match(a: ParserView, b: ParserView) -> bool {
    &&& a.state == b.state
    &&& a.line_length == b.line_length
    &&& a.max_line_length == b.max_line_length
    &&& a.mtype == b.mtype
    &&& a.mid == b.mid
    &&& a.name == b.name
    &&& a.args == b.args
    &&& match (a.error, b.error) {
        (Option::None, Option::None) => true,
        (Option::Some(x), Option::Some(y)) => err_match(x, y),
        _ => false,
    }
}

/// Two outcomes match when they are equal messages, or matching errors.
pub open spec fn outcome_match(x: Outcome, y: Outcome) -> bool {
    match (x, y) {
        (Result::Ok(mx), Result::Ok(my)) => mx == my,
        (Result::Err(ex), Result::Err(ey)) => err_match(ex, ey),
        _ => false,
    }
}

/// Two outcome sequences match pairwise.
pub open spec fn outcomes_match(xs: Seq<Outcome>, ys: Seq<Outcome>) -> bool {
    &&& xs.len() == ys.len()
    &&& forall|i: int| 0 <= i < xs.len() ==> outcome_match(#[trigger] xs[i], #[trigger] ys[i])
}

/// One step preserves matching, for any pair of ID-run positions: the run
/// position influences nothing but the position recorded for an overflow
/// error.
proof fn lemma_step_match(a: ParserView, b: ParserView, ch: u8, ipa: Option<int>, ipb: Option<
    int,
>)
    requires
        pv_match(a, b),
    ensures
        pv_match(step(a, ch, ipa).0, step(b, ch, ipb).0),
        step(a, ch, ipa).1 is Some <==> step(b, ch, ipb).1 is Some,
        step(a, ch, ipa).1 is Some ==> outcome_match(
            step(a, ch, ipa).1.unwrap(),
            step(b, ch, ipb).1.unwrap(),
        ),
{
}

/// Folding preserves matching, for any pair of ID-run positions: the
/// outcomes match pairwise and the final states match.
proof fn lemma_run_match(
    a: ParserView,
    b: ParserView,
    data: Seq<u8>,
    ipa: Option<int>,
    ipb: Option<int>,
)
    requires
        pv_match(a, b),
    ensures
        pv_match(run_from(a, data, ipa).0, run_from(b, data, ipb).0),
        outcomes_match(run_from(a, data, ipa).1, run_from(b, data, ipb).1),
    decreases data.len(),
{
    if data.len() > 0 {
        let fa = step(a, data[0], ipa);
        let fb = step(b, data[0], ipb);
        lemma_step_match(a, b, data[0], ipa, ipb);
        lemma_run_match(fa.0, fb.0, data.subrange(1, data.len() as int), fa.2, fb.2);
        let ra = run_from(fa.0, data.subrange(1, data.len() as int), fa.2);
        let rb = run_from(fb.0, data.subrange(1, data.len() as int), fb.2);
        assert forall|i: int| 0 <= i < (opt_outcomes(fa.1) + ra.1).len() implies outcome_match(
            #[trigger] (opt_outcomes(fa.1) + ra.1)[i],
            #[trigger] (opt_outcomes(fb.1) + rb.1)[i],
        ) by {
            if i >= opt_outcomes(fa.1).len() {
                assert((opt_outcomes(fa.1) + ra.1)[i] == ra.1[i - opt_outcomes(fa.1).len()]);
                assert((opt_outcomes(fb.1) + rb.1)[i] == rb.1[i - opt_outcomes(fb.1).len()]);
            }
        }
    }
}

/// Stream insensitivity: appending two chunks in order yields the same
/// outcomes as appending their concatenation in one call, in the same order,
/// and leaves matching parsers.
///
/// Outcomes and states are compared with [`outcomes_match`] and
/// [`pv_match`]: they are equal in every field except the position reported
/// for a message-ID overflow, which names the start of the run of digits the
/// parser was consuming and so may differ when a cut falls inside the digits
/// of an overflowing ID.  Any partition into more chunks follows by applying
/// this law to each seam in turn.
pub proof fn lemma_stream_insensitive(v: ParserView, a: Seq<u8>, b: Seq<u8>)
    ensures
        ({
            let whole = run(v, a + b);
            let first = run(v, a);
            let second = run(first.0, b);
            &&& pv_match(whole.0, second.0)
            &&& outcomes_match(whole.1, first.1 + second.1)
        }),
{
    crate::model::lemma_run_from_concat(v, a, b, None);
    let f = run_from(v, a, None);
    let x = run_from(f.0, b, f.2);
    let second = run_from(f.0, b, None);
    lemma_run_match(f.0, f.0, b, f.2, None);
    assert forall|i: int| 0 <= i < (f.1 + x.1).len() implies outcome_match(
        #[trigger] (f.1 + x.1)[i],
        #[trigger] (f.1 + second.1)[i],
    ) by {
        if i < f.1.len() {
            assert(outcome_match(f.1[i], f.1[i]));
        } else {
            assert((f.1 + x.1)[i] == x.1[i - f.1.len()]);
            assert((f.1 + second.1)[i] == second.1[i - f.1.len()]);
        }
    }
}

/// Matching of outcome sequences is transitive.
proof fn lemma_outcomes_match_trans(a: Seq<Outcome>, b: Seq<Outcome>, c: Seq<Outcome>)
    requires
        outcomes_match(a, b),
        outcomes_match(b, c),
    ensures
        outcomes_match(a, c),
{
    assert forall|i: int| 0 <= i < a.len() implies outcome_match(
        #[trigger] a[i],
        #[trigger] c[i],
    ) by {
        assert(outcome_match(a[i], b[i]));
        assert(outcome_match(b[i], c[i]));
    }
}

/// Appending the chunks of a partition in turn: the final state and the
/// outcomes of each append, concatenated in order.
pub open spec fn run_pieces(v: ParserView, pieces: Seq<Seq<u8>>) -> (ParserView, Seq<Outcome>)
    decreases pieces.len(),
{
    if pieces.len() == 0 {
        (v, Seq::empty())
    } else {
        let f = run(v, pieces.first());
        let rest = run_pieces(f.0, pieces.drop_first());
        (rest.0, f.1 + rest.1)
    }
}

/// Stream insensitivity for any partition: cutting a byte sequence into any
/// number of chunks and appending them in order yields matching outcomes, in
/// the same order, and a matching final state ([`outcomes_match`],
/// [`pv_match`]).
pub proof fn lemma_partition_insensitive(v: ParserView, pieces: Seq<Seq<u8>>)
    ensures
        pv_match(run(v, pieces.flatten()).0, run_pieces(v, pieces).0),
        outcomes_match(run(v, pieces.flatten()).1, run_pieces(v, pieces).1),
    decreases pieces.len(),
{
    if pieces.len() == 0 {
        assert(pv_match(v, v));
    } else {
        let p0 = pieces.first();
        let rest = pieces.drop_first();
        assert(pieces.flatten() == p0 + rest.flatten());
        lemma_stream_insensitive(v, p0, rest.flatten());
        let whole = run(v, pieces.flatten());
        let first = run(v, p0);
        let second = run(first.0, rest.flatten());
        lemma_partition_insensitive(first.0, rest);
        let rp = run_pieces(first.0, rest);
        assert(outcomes_match(first.1 + second.1, first.1 + rp.1)) by {
            assert forall|i: int| 0 <= i < (first.1 + second.1).len() implies outcome_match(
                #[trigger] (first.1 + second.1)[i],
                #[trigger] (first.1 + rp.1)[i],
            ) by {
                if i < first.1.len() {
                    assert(outcome_match(first.1[i], first.1[i]));
                } else {
                    assert((first.1 + second.1)[i] == second.1[i - first.1.len()]);
                    assert((first.1 + rp.1)[i] == rp.1[i - first.1.len()]);
                }
            }
        }
        lemma_outcomes_match_trans(whole.1, first.1 + second.1, first.1 + rp.1);
    }
}

} // verus!
