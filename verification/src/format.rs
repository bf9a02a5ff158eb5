//! Formatting of messages into their wire representation.
//!
//! [`wire`] is the specification of the encoding: sigil, name, optional
//! bracketed decimal message ID, each argument preceded by one space and
//! escaped byte by byte, and a terminating line feed.  [`Message::write_size`]
//! computes the exact encoded length, [`Message::write_out`] appends the
//! encoded bytes to a caller-supplied buffer, and [`Message::to_vec`]
//! allocates a buffer of the exact size and fills it.

use vstd::prelude::*;

use crate::fsm::{escape_flag, escape_symbol, escape_symbol_spec, needs_escape, MessageType};
use crate::model::MsgView;

verus! {

/// The sigil byte that encodes a message type.
pub open spec fn sigil_of(t: MessageType) -> u8 {
    match t {
        MessageType::Request => 63,
        MessageType::Reply => 33,
        MessageType::Inform => 35,
    }
}

/// The decimal digits of `n`, most significant first.
pub open spec fn dec_digits(n: int) -> Seq<u8>
    decreases n,
{
    if n < 10 {
        seq![(48 + n) as u8]
    } else {
        dec_digits(n / 10).push((48 + n % 10) as u8)
    }
}

/// The encoding of one argument byte: the byte itself, or a backslash
/// followed by its escape letter.
pub open spec fn encode_byte(c: u8) -> Seq<u8> {
    if needs_escape(c) {
        seq![92u8, escape_symbol_spec(c)]
    } else {
        seq![c]
    }
}

/// The encoding of a sequence of argument bytes.
pub open spec fn encode_bytes(a: Seq<u8>) -> Seq<u8>
    decreases a.len(),
{
    if a.len() == 0 {
        Seq::empty()
    } else {
        encode_bytes(a.drop_last()) + encode_byte(a.last())
    }
}

/// The encoding of one argument: `\@` for the empty argument, otherwise the
/// bytes with escapes applied.
pub open spec fn encode_arg(a: Seq<u8>) -> Seq<u8> {
    if a.len() == 0 {
        seq![92u8, 64u8]
    } else {
        encode_bytes(a)
    }
}

/// The encoding of the argument list: each argument preceded by one space.
pub open spec fn args_wire(args: Seq<Seq<u8>>) -> Seq<u8>
    decreases args.len(),
{
    if args.len() == 0 {
        Seq::empty()
    } else {
        args_wire(args.drop_last()) + seq![32u8] + encode_arg(args.last())
    }
}

/// The encoding of the optional message ID: nothing, or the decimal digits in
/// square brackets.
pub open spec fn mid_wire(mid: Option<u32>) -> Seq<u8> {
    match mid {
        None => Seq::empty(),
        Some(m) => seq![91u8] + dec_digits(m as int) + seq![93u8],
    }
}

/// The wire representation of a message.
pub open spec fn wire(m: MsgView) -> Seq<u8> {
    seq![sigil_of(m.mtype)] + m.name + mid_wire(m.mid) + args_wire(m.args) + seq![10u8]
}

/// Taking one more element extends the encoding by that element's encoding.
pub proof fn lemma_encode_bytes_take_step(a: Seq<u8>, i: int)
    requires
        0 <= i < a.len(),
    ensures
        encode_bytes(a.take(i + 1)) == encode_bytes(a.take(i)) + encode_byte(a[i]),
{
    assert(a.take(i + 1).drop_last() =~= a.take(i));
    assert(a.take(i + 1).last() == a[i]);
}

/// The encoding of a prefix is no longer than the encoding of the whole.
pub proof fn lemma_encode_bytes_take_le(a: Seq<u8>, i: int)
    requires
        0 <= i <= a.len(),
    ensures
        encode_bytes(a.take(i)).len() <= encode_bytes(a).len(),
    decreases a.len(),
{
    if i < a.len() {
        assert(a.take(i) =~= a.drop_last().take(i));
        lemma_encode_bytes_take_le(a.drop_last(), i);
    } else {
        assert(a.take(i) =~= a);
    }
}

/// Taking one more argument extends the encoding by a space and that
/// argument's encoding.
pub proof fn lemma_args_wire_take_step(args: Seq<Seq<u8>>, i: int)
    requires
        0 <= i < args.len(),
    ensures
        args_wire(args.take(i + 1)) == args_wire(args.take(i)) + seq![32u8] + encode_arg(
            args[i],
        ),
{
    assert(args.take(i + 1).drop_last() =~= args.take(i));
    assert(args.take(i + 1).last() == args[i]);
}

/// The encoding of a prefix of the argument list is no longer than the
/// encoding of the whole list.
pub proof fn lemma_args_wire_take_le(args: Seq<Seq<u8>>, i: int)
    requires
        0 <= i <= args.len(),
    ensures
        args_wire(args.take(i)).len() <= args_wire(args).len(),
    decreases args.len(),
{
    if i < args.len() {
        assert(args.take(i) =~= args.drop_last().take(i));
        lemma_args_wire_take_le(args.drop_last(), i);
    } else {
        assert(args.take(i) =~= args);
    }
}

/// A KATCP message, as handed to the formatter.
///
/// The name has a restricted character set, but the arguments may contain
/// arbitrary bytes.  The message ID and name are *not* validated on
/// construction: using an invalid value for either will not panic, but leads
/// to output that no parser accepts as the same message.
pub struct Message {
    /// Message type.
    pub mtype: MessageType,
    /// Message name.
    pub name: Vec<u8>,
    /// Message ID, if present.  It must be positive.
    pub mid: Option<u32>,
    /// Message arguments.
    pub arguments: Vec<Vec<u8>>,
}

impl View for Message {
    type V = MsgView;

    open spec fn view(&self) -> MsgView {
        MsgView {
            mtype: self.mtype,
            mid: self.mid,
            name: self.name@,
            args: self.arguments.deep_view(),
        }
    }
}

/// Append the decimal digits of `m` to `target`.
fn push_decimal(target: &mut Vec<u8>, m: u32)
    ensures
        final(target)@ == old(target)@ + dec_digits(m as int),
    decreases m,
{
    if m >= 10 {
        push_decimal(target, m / 10);
    }
    target.push(48 + (m % 10) as u8);
}

/// Append the encoding of one argument to `target`.
fn push_arg(target: &mut Vec<u8>, arg: &Vec<u8>)
    ensures
        final(target)@ == old(target)@ + encode_arg(arg@),
{
    if arg.len() == 0 {
        target.push(92);
        target.push(64);
        assert(target@ =~= old(target)@ + encode_arg(arg@));
    } else {
        let ghost base = target@;
        for i in 0..arg.len()
            invariant
                target@ == base + encode_bytes(arg@.take(i as int)),
        {
            proof {
                lemma_encode_bytes_take_step(arg@, i as int);
            }
            let c = arg[i];
            let esc = escape_symbol(c);
            if esc == 0 {
                target.push(c);
            } else {
                target.push(92);
                target.push(esc);
            }
        }
        assert(arg@.take(arg@.len() as int) =~= arg@);
    }
}

/// The encoded length of one argument.
fn arg_size(arg: &Vec<u8>) -> (r: usize)
    requires
        encode_arg(arg@).len() <= usize::MAX,
    ensures
        r == encode_arg(arg@).len(),
{
    if arg.len() == 0 {
        return 2;
    }
    let mut size: usize = 0;
    for i in 0..arg.len()
        invariant
            size == encode_bytes(arg@.take(i as int)).len(),
            encode_bytes(arg@).len() <= usize::MAX,
    {
        proof {
            lemma_encode_bytes_take_step(arg@, i as int);
            lemma_encode_bytes_take_le(arg@, i + 1);
        }
        if escape_flag(arg[i]) {
            size += 2;
        } else {
            size += 1;
        }
    }
    assert(arg@.take(arg@.len() as int) =~= arg@);
    size
}

/// The byte that encodes a message type on the wire.
fn type_symbol(mtype: MessageType) -> (r: u8)
    ensures
        r == sigil_of(mtype),
{
    match mtype {
        MessageType::Request => 63,
        MessageType::Reply => 33,
        MessageType::Inform => 35,
    }
}

impl Message {
    /// Create a new message.
    pub fn new(mtype: MessageType, name: Vec<u8>, mid: Option<u32>, arguments: Vec<Vec<u8>>) -> (r:
        Message)
        ensures
            r@ == (MsgView { mtype, mid, name: name@, args: arguments.deep_view() }),
    {
        Message { mtype, name, mid, arguments }
    }

    /// Get the number of bytes needed by [`write_out`](Self::write_out).
    ///
    /// The encoded size must fit in `usize`; an implementation cannot produce
    /// the encoding otherwise.
    pub fn write_size(&self) -> (r: usize)
        requires
            wire(self@).len() <= usize::MAX,
        ensures
            r == wire(self@).len(),
    {
        let ghost whole = wire(self@);
        let ghost head = seq![sigil_of(self@.mtype)] + self@.name + mid_wire(self@.mid);
        let mut size: usize = 1;
        assert(whole.len() == head.len() + args_wire(self@.args).len() + 1);
        size += self.name.len();
        if let Some(m) = self.mid {
            let mut digits: Vec<u8> = Vec::new();
            push_decimal(&mut digits, m);
            size += 2;
            size += digits.len();
        }
        assert(size == head.len());
        for i in 0..self.arguments.len()
            invariant
                size == head.len() + args_wire(self@.args.take(i as int)).len(),
                whole == wire(self@),
                head == seq![sigil_of(self@.mtype)] + self@.name + mid_wire(self@.mid),
                whole.len() == head.len() + args_wire(self@.args).len() + 1,
                whole.len() <= usize::MAX,
                self@.args.len() == self.arguments.len(),
        {
            proof {
                lemma_args_wire_take_step(self@.args, i as int);
                lemma_args_wire_take_le(self@.args, i + 1);
                assert(self@.args[i as int] == self.arguments[i as int]@);
                assert(encode_arg(self.arguments[i as int]@).len() <= usize::MAX);
            }
            size += 1;
            size += arg_size(&self.arguments[i]);
        }
        proof {
            assert(self@.args.take(self@.args.len() as int) =~= self@.args);
        }
        size += 1;
        size
    }

    /// Append the wire representation of the message to `target`.
    ///
    /// Exactly [`write_size`](Self::write_size) bytes are appended.
    pub fn write_out(&self, target: &mut Vec<u8>)
        ensures
            final(target)@ == old(target)@ + wire(self@),
    {
        let ghost base = target@;
        target.push(type_symbol(self.mtype));
        target.extend_from_slice(self.name.as_slice());
        if let Some(m) = self.mid {
            target.push(91);
            push_decimal(target, m);
            target.push(93);
        }
        let ghost head = base + seq![sigil_of(self@.mtype)] + self@.name + mid_wire(self@.mid);
        assert(target@ =~= head);
        for i in 0..self.arguments.len()
            invariant
                target@ == head + args_wire(self@.args.take(i as int)),
                head == base + seq![sigil_of(self@.mtype)] + self@.name + mid_wire(self@.mid),
                self@.args.len() == self.arguments.len(),
        {
            proof {
                lemma_args_wire_take_step(self@.args, i as int);
                assert(self@.args[i as int] == self.arguments[i as int]@);
            }
            target.push(32);
            push_arg(target, &self.arguments[i]);
        }
        proof {
            assert(self@.args.take(self@.args.len() as int) =~= self@.args);
        }
        target.push(10);
        assert(target@ =~= base + wire(self@));
    }

    /// Encode the message into a freshly allocated buffer of the exact size.
    pub fn to_vec(&self) -> (r: Vec<u8>)
        requires
            wire(self@).len() <= usize::MAX,
        ensures
            r@ == wire(self@),
    {
        let size = self.write_size();
        let mut out: Vec<u8> = Vec::with_capacity(size);
        self.write_out(&mut out);
        out
    }
}

} // verus!
