//! The deterministic finite state machine underlying the parser.
//!
//! The machine is described by a pure transition function: for every
//! (state, input byte) pair, [`lookup`] returns an [`Entry`] carrying the
//! action to perform, the next state, and whether a new argument slot must be
//! created.  Tab behaves exactly as space and carriage return exactly as line
//! feed, and any byte that is invalid for the current state leads to the
//! `Error` state (or `ErrorEndOfLine` on an end-of-line byte).
//!
//! The module also holds the escape tables used by the formatter.

use vstd::prelude::*;

verus! {

/// Type of KATCP message.
#[derive(Copy, Clone, Debug, PartialEq, Eq, Structural)]
pub enum MessageType {
    /// A request, with sigil `?`.
    Request,
    /// A reply, with sigil `!`.
    Reply,
    /// An inform, with sigil `#`.
    Inform,
}

/// State in the state machine.
#[derive(Copy, Clone, Debug, PartialEq, Eq, Structural)]
pub enum State {
    /// Initial state.
    Start,
    /// Seen whitespace, so this can only legally be a blank line.
    Empty,
    /// Seen the type, haven't started the name.
    BeforeName,
    /// Middle of the name.
    Name,
    /// After `[` in message ID.
    BeforeId,
    /// Middle of the message ID.
    Id,
    /// After the `]` terminating the message ID.
    AfterId,
    /// Seen some whitespace, haven't started the next argument yet.
    BeforeArgument,
    /// Middle of an argument, not following a backslash.
    Argument,
    /// Seen a backslash in an argument.
    ArgumentEscape,
    /// Invalid character seen, waiting for the end-of-line.
    Error,
    /// Terminal state for a valid line.
    EndOfLine,
    /// Terminal state for an invalid line.
    ErrorEndOfLine,
}

impl State {
    /// Whether this state corresponds to an end of line.
    pub fn is_terminal(&self) -> (r: bool)
        ensures
            r == state_is_terminal(*self),
    {
        matches!(self, State::EndOfLine | State::ErrorEndOfLine)
    }
}

/// Whether a state corresponds to an end of line.
pub open spec fn state_is_terminal(s: State) -> bool {
    s is EndOfLine || s is ErrorEndOfLine
}

/// Transition action in the state machine.
#[derive(Copy, Clone, Debug, PartialEq, Eq, Structural)]
pub enum Action {
    /// No action needed (e.g. skipping whitespace).
    Nothing,
    /// Append the current byte to the name.
    Name,
    /// Append a digit to the message ID.
    Id,
    /// Append the current byte to the argument.
    Argument,
    /// Append a specific byte to the argument.
    ArgumentEscaped(u8),
    /// Set the message type.
    SetType(MessageType),
    /// Set the line length back to 0 (after an empty line).
    ResetLineLength,
    /// Record an error message.
    Error,
}

impl Action {
    /// Whether runs of bytes with this action can be consumed in bulk.
    pub fn is_mergeable(&self) -> (r: bool)
        ensures
            r == action_is_mergeable(*self),
    {
        matches!(
            self,
            Action::Nothing | Action::Name | Action::Id | Action::Argument | Action::Error
        )
    }
}

/// Whether runs of bytes with this action can be consumed in bulk.
pub open spec fn action_is_mergeable(a: Action) -> bool {
    a is Nothing || a is Name || a is Id || a is Argument || a is Error
}

/// (state, byte) entry in the state machine.
#[derive(Copy, Clone, Debug, PartialEq, Eq, Structural)]
pub struct Entry {
    /// Action to apply.
    pub action: Action,
    /// Next state.
    pub state: State,
    /// Whether to create a new argument slot before applying the action.
    pub create_argument: bool,
}

/// Whether a byte is an ASCII letter.
pub open spec fn is_letter(c: u8) -> bool {
    (65 <= c && c <= 90) || (97 <= c && c <= 122)
}

/// Whether a byte is an ASCII digit.
pub open spec fn is_digit(c: u8) -> bool {
    48 <= c && c <= 57
}

/// Whether a byte may appear in a message name after the first byte.
pub open spec fn is_name_char(c: u8) -> bool {
    is_letter(c) || is_digit(c) || c == 45
}

/// Tab behaves as space and carriage return as line feed, everywhere.
pub open spec fn normalize_byte(ch: u8) -> u8 {
    if ch == 9 {
        32
    } else if ch == 13 {
        10
    } else {
        ch
    }
}

/// The entry that signals an invalid byte in the middle of a line.
pub open spec fn error_entry() -> Entry {
    Entry { action: Action::Error, state: State::Error, create_argument: false }
}

/// The entry that signals an invalid byte at the end of a line.
pub open spec fn error_eol_entry() -> Entry {
    Entry { action: Action::Error, state: State::ErrorEndOfLine, create_argument: false }
}

/// The transition table: the entry for one (state, byte) pair.
///
/// Terminal states are given all-error rows; the parser never rests in them.
pub open spec fn entry_spec(s: State, ch: u8) -> Entry {
    let c = normalize_byte(ch);
    match s {
        State::Start => if c == 32 {
            Entry { action: Action::Nothing, state: State::Empty, create_argument: false }
        } else if c == 63 {
            Entry {
                action: Action::SetType(MessageType::Request),
                state: State::BeforeName,
                create_argument: false,
            }
        } else if c == 33 {
            Entry {
                action: Action::SetType(MessageType::Reply),
                state: State::BeforeName,
                create_argument: false,
            }
        } else if c == 35 {
            Entry {
                action: Action::SetType(MessageType::Inform),
                state: State::BeforeName,
                create_argument: false,
            }
        } else if c == 10 {
            Entry { action: Action::ResetLineLength, state: State::Start, create_argument: false }
        } else {
            error_entry()
        },
        State::Empty => if c == 32 {
            Entry { action: Action::Nothing, state: State::Empty, create_argument: false }
        } else if c == 10 {
            Entry { action: Action::ResetLineLength, state: State::Start, create_argument: false }
        } else {
            error_entry()
        },
        State::BeforeName => if is_letter(c) {
            Entry { action: Action::Name, state: State::Name, create_argument: false }
        } else if c == 10 {
            error_eol_entry()
        } else {
            error_entry()
        },
        State::Name => if is_name_char(c) {
            Entry { action: Action::Name, state: State::Name, create_argument: false }
        } else if c == 32 {
            Entry { action: Action::Nothing, state: State::BeforeArgument, create_argument: false }
        } else if c == 91 {
            Entry { action: Action::Nothing, state: State::BeforeId, create_argument: false }
        } else if c == 10 {
            Entry { action: Action::Nothing, state: State::EndOfLine, create_argument: false }
        } else {
            error_entry()
        },
        State::BeforeId => if 49 <= c && c <= 57 {
            Entry { action: Action::Id, state: State::Id, create_argument: false }
        } else if c == 10 {
            error_eol_entry()
        } else {
            error_entry()
        },
        State::Id => if is_digit(c) {
            Entry { action: Action::Id, state: State::Id, create_argument: false }
        } else if c == 93 {
            Entry { action: Action::Nothing, state: State::AfterId, create_argument: false }
        } else if c == 10 {
            error_eol_entry()
        } else {
            error_entry()
        },
        State::AfterId => if c == 32 {
            Entry { action: Action::Nothing, state: State::BeforeArgument, create_argument: false }
        } else if c == 10 {
            Entry { action: Action::Nothing, state: State::EndOfLine, create_argument: false }
        } else {
            error_entry()
        },
        State::BeforeArgument => argument_entry(c, true),
        State::Argument => argument_entry(c, false),
        State::ArgumentEscape => if c == 64 {
            Entry { action: Action::Nothing, state: State::Argument, create_argument: false }
        } else if c == 92 {
            Entry { action: Action::ArgumentEscaped(92), state: State::Argument, create_argument: false }
        } else if c == 95 {
            Entry { action: Action::ArgumentEscaped(32), state: State::Argument, create_argument: false }
        } else if c == 48 {
            Entry { action: Action::ArgumentEscaped(0), state: State::Argument, create_argument: false }
        } else if c == 110 {
            Entry { action: Action::ArgumentEscaped(10), state: State::Argument, create_argument: false }
        } else if c == 114 {
            Entry { action: Action::ArgumentEscaped(13), state: State::Argument, create_argument: false }
        } else if c == 101 {
            Entry { action: Action::ArgumentEscaped(27), state: State::Argument, create_argument: false }
        } else if c == 116 {
            Entry { action: Action::ArgumentEscaped(9), state: State::Argument, create_argument: false }
        } else if c == 10 {
            error_eol_entry()
        } else {
            error_entry()
        },
        State::Error => if c == 10 {
            error_eol_entry()
        } else {
            error_entry()
        },
        State::EndOfLine => if c == 10 {
            error_eol_entry()
        } else {
            error_entry()
        },
        State::ErrorEndOfLine => if c == 10 {
            error_eol_entry()
        } else {
            error_entry()
        },
    }
}

/// The rows for `BeforeArgument` and `Argument`, which differ only in whether
/// a non-space byte starts a new argument slot.
pub open spec fn argument_entry(c: u8, create_argument: bool) -> Entry {
    if c == 32 {
        Entry { action: Action::Nothing, state: State::BeforeArgument, create_argument: false }
    } else if c == 10 {
        Entry { action: Action::Nothing, state: State::EndOfLine, create_argument: false }
    } else if c == 92 {
        Entry { action: Action::Nothing, state: State::ArgumentEscape, create_argument }
    } else if c == 0 || c == 27 {
        error_entry()
    } else {
        Entry { action: Action::Argument, state: State::Argument, create_argument }
    }
}

/// Look up the transition for one (state, byte) pair.
pub fn lookup(s: State, ch: u8) -> (e: Entry)
    ensures
        e == entry_spec(s, ch),
{
    let c: u8 = if ch == 9 {
        32
    } else if ch == 13 {
        10
    } else {
        ch
    };
    let err = Entry { action: Action::Error, state: State::Error, create_argument: false };
    let err_eol = Entry { action: Action::Error, state: State::ErrorEndOfLine, create_argument: false };
    match s {
        State::Start => if c == 32 {
            Entry { action: Action::Nothing, state: State::Empty, create_argument: false }
        } else if c == 63 {
            Entry {
                action: Action::SetType(MessageType::Request),
                state: State::BeforeName,
                create_argument: false,
            }
        } else if c == 33 {
            Entry {
                action: Action::SetType(MessageType::Reply),
                state: State::BeforeName,
                create_argument: false,
            }
        } else if c == 35 {
            Entry {
                action: Action::SetType(MessageType::Inform),
                state: State::BeforeName,
                create_argument: false,
            }
        } else if c == 10 {
            Entry { action: Action::ResetLineLength, state: State::Start, create_argument: false }
        } else {
            err
        },
        State::Empty => if c == 32 {
            Entry { action: Action::Nothing, state: State::Empty, create_argument: false }
        } else if c == 10 {
            Entry { action: Action::ResetLineLength, state: State::Start, create_argument: false }
        } else {
            err
        },
        State::BeforeName => if (65 <= c && c <= 90) || (97 <= c && c <= 122) {
            Entry { action: Action::Name, state: State::Name, create_argument: false }
        } else if c == 10 {
            err_eol
        } else {
            err
        },
        State::Name => if (65 <= c && c <= 90) || (97 <= c && c <= 122) || (48 <= c && c <= 57)
            || c == 45 {
            Entry { action: Action::Name, state: State::Name, create_argument: false }
        } else if c == 32 {
            Entry { action: Action::Nothing, state: State::BeforeArgument, create_argument: false }
        } else if c == 91 {
            Entry { action: Action::Nothing, state: State::BeforeId, create_argument: false }
        } else if c == 10 {
            Entry { action: Action::Nothing, state: State::EndOfLine, create_argument: false }
        } else {
            err
        },
        State::BeforeId => if 49 <= c && c <= 57 {
            Entry { action: Action::Id, state: State::Id, create_argument: false }
        } else if c == 10 {
            err_eol
        } else {
            err
        },
        State::Id => if 48 <= c && c <= 57 {
            Entry { action: Action::Id, state: State::Id, create_argument: false }
        } else if c == 93 {
            Entry { action: Action::Nothing, state: State::AfterId, create_argument: false }
        } else if c == 10 {
            err_eol
        } else {
            err
        },
        State::AfterId => if c == 32 {
            Entry { action: Action::Nothing, state: State::BeforeArgument, create_argument: false }
        } else if c == 10 {
            Entry { action: Action::Nothing, state: State::EndOfLine, create_argument: false }
        } else {
            err
        },
        State::BeforeArgument => lookup_argument(c, true),
        State::Argument => lookup_argument(c, false),
        State::ArgumentEscape => if c == 64 {
            Entry { action: Action::Nothing, state: State::Argument, create_argument: false }
        } else if c == 92 {
            Entry { action: Action::ArgumentEscaped(92), state: State::Argument, create_argument: false }
        } else if c == 95 {
            Entry { action: Action::ArgumentEscaped(32), state: State::Argument, create_argument: false }
        } else if c == 48 {
            Entry { action: Action::ArgumentEscaped(0), state: State::Argument, create_argument: false }
        } else if c == 110 {
            Entry { action: Action::ArgumentEscaped(10), state: State::Argument, create_argument: false }
        } else if c == 114 {
            Entry { action: Action::ArgumentEscaped(13), state: State::Argument, create_argument: false }
        } else if c == 101 {
            Entry { action: Action::ArgumentEscaped(27), state: State::Argument, create_argument: false }
        } else if c == 116 {
            Entry { action: Action::ArgumentEscaped(9), state: State::Argument, create_argument: false }
        } else if c == 10 {
            err_eol
        } else {
            err
        },
        State::Error => if c == 10 {
            err_eol
        } else {
            err
        },
        State::EndOfLine => if c == 10 {
            err_eol
        } else {
            err
        },
        State::ErrorEndOfLine => if c == 10 {
            err_eol
        } else {
            err
        },
    }
}

/// Look up the transition for a normalized byte in `BeforeArgument` or
/// `Argument`.
fn lookup_argument(c: u8, create_argument: bool) -> (e: Entry)
    requires
        c == normalize_byte(c),
    ensures
        e == argument_entry(c, create_argument),
{
    if c == 32 {
        Entry { action: Action::Nothing, state: State::BeforeArgument, create_argument: false }
    } else if c == 10 {
        Entry { action: Action::Nothing, state: State::EndOfLine, create_argument: false }
    } else if c == 92 {
        Entry { action: Action::Nothing, state: State::ArgumentEscape, create_argument }
    } else if c == 0 || c == 27 {
        Entry { action: Action::Error, state: State::Error, create_argument: false }
    } else {
        Entry { action: Action::Argument, state: State::Argument, create_argument }
    }
}

/// Whether a byte can be absorbed into a run that began with an entry whose
/// action was `a` and whose next state was `t`: the byte must keep the machine
/// in `t` with an action of the same kind, without starting a new argument.
///
/// This is the fast-path test that lets the parser consume long runs of name,
/// ID digit, argument or error bytes in bulk.
pub open spec fn fast_spec(t: State, a: Action, ch: u8) -> bool {
    action_is_mergeable(a) && !state_is_terminal(t) && {
        let e = entry_spec(t, ch);
        e.state == t && e.action == a && !e.create_argument
    }
}

/// Decide [`fast_spec`] for one byte.
pub fn fast_allows(t: State, a: Action, ch: u8) -> (r: bool)
    ensures
        r == fast_spec(t, a, ch),
{
    if !a.is_mergeable() || t.is_terminal() {
        return false;
    }
    let e = lookup(t, ch);
    e.state == t && e.action == a && !e.create_argument
}

/// The escape letter for a byte that needs escaping in an argument, or 0.
pub open spec fn escape_symbol_spec(c: u8) -> u8 {
    if c == 13 {
        114
    } else if c == 10 {
        110
    } else if c == 9 {
        116
    } else if c == 27 {
        101
    } else if c == 0 {
        48
    } else if c == 92 {
        92
    } else if c == 32 {
        95
    } else {
        0
    }
}

/// Whether a byte must be escaped when it appears in an argument.
pub open spec fn needs_escape(c: u8) -> bool {
    escape_symbol_spec(c) != 0
}

/// The escape letter for a byte that needs escaping in an argument, or 0.
pub fn escape_symbol(c: u8) -> (r: u8)
    ensures
        r == escape_symbol_spec(c),
{
    if c == 13 {
        114
    } else if c == 10 {
        110
    } else if c == 9 {
        116
    } else if c == 27 {
        101
    } else if c == 0 {
        48
    } else if c == 92 {
        92
    } else if c == 32 {
        95
    } else {
        0
    }
}

/// Whether a byte must be escaped when it appears in an argument.
pub fn escape_flag(c: u8) -> (r: bool)
    ensures
        r == needs_escape(c),
{
    escape_symbol(c) != 0
}

} // verus!
