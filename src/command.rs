//! What a line typed at the client's terminal asks for.

use vstd::prelude::*;
use vstd::string::*;

verus! {

/// A request typed by the user: `send <text>`, `leave`, or anything else.
#[derive(Debug)]
pub enum Command {
    Send(String),
    Leave,
    Invalid,
}

/// The model of a [`Command`].
pub enum Request {
    Send(Seq<char>),
    Leave,
    Invalid,
}

impl View for Command {
    type V = Request;

    open spec fn view(&self) -> Request {
        match self {
            Command::Send(t) => Request::Send(t@),
            Command::Leave => Request::Leave,
            Command::Invalid => Request::Invalid,
        }
    }
}

/// Unicode's `White_Space` property, the whitespace of `char::is_whitespace`.
pub open spec fn is_white_space(c: char) -> bool {
    ||| '\t' <= c <= '\r'
    ||| c == ' '
    ||| c == '\u{85}'
    ||| c == '\u{a0}'
    ||| c == '\u{1680}'
    ||| '\u{2000}' <= c <= '\u{200a}'
    ||| c == '\u{2028}'
    ||| c == '\u{2029}'
    ||| c == '\u{202f}'
    ||| c == '\u{205f}'
    ||| c == '\u{3000}'
}

/// The line without its leading whitespace.
pub open spec fn trim_start(s: Seq<char>) -> Seq<char>
    decreases s.len(),
{
    if s.len() > 0 && is_white_space(s[0]) {
        trim_start(s.drop_first())
    } else {
        s
    }
}

/// The line without its trailing whitespace.
pub open spec fn trim_end(s: Seq<char>) -> Seq<char>
    decreases s.len(),
{
    if s.len() > 0 && is_white_space(s.last()) {
        trim_end(s.drop_last())
    } else {
        s
    }
}

/// The line without its leading and trailing whitespace.
pub open spec fn trimmed(s: Seq<char>) -> Seq<char> {
    trim_end(trim_start(s))
}

/// Relies on `str::trim`: it removes leading and trailing whitespace, as
/// Unicode's `White_Space` property defines it.
#[verifier::external_body]
fn trim(s: &str) -> (r: &str)
    ensures
        r@ == trimmed(s@),
{
    s.trim()
}

pub open spec fn send_prefix() -> Seq<char> {
    seq!['s', 'e', 'n', 'd', ' ']
}

pub open spec fn leave_word() -> Seq<char> {
    seq!['l', 'e', 'a', 'v', 'e']
}

/// The request that an already trimmed line makes.
pub open spec fn request_of(t: Seq<char>) -> Request {
    if t.len() >= 5 && t.take(5) == send_prefix() {
        Request::Send(t.skip(5))
    } else if t == leave_word() {
        Request::Leave
    } else {
        Request::Invalid
    }
}

impl Command {
    /// Reads a request from a line that has already been trimmed.
    pub fn from_trimmed(t: &str) -> (r: Command)
        ensures
            r@ == request_of(t@),
    {
        let n = t.unicode_len();
        if n >= 5 {
            let head = t.substring_char(0, 5);
            if head.get_char(0) == 's' && head.get_char(1) == 'e' && head.get_char(2) == 'n'
                && head.get_char(3) == 'd' && head.get_char(4) == ' ' {
                assert(head@ =~= send_prefix());
                return Command::Send(String::from_str(t.substring_char(5, n)));
            }
            assert(head@ != send_prefix()) by {
                if head@ == send_prefix() {
                    assert(head@[0] == 's');
                }
            }
        }
        if n == 5 && t.get_char(0) == 'l' && t.get_char(1) == 'e' && t.get_char(2) == 'a'
            && t.get_char(3) == 'v' && t.get_char(4) == 'e' {
            assert(t@ =~= leave_word());
            return Command::Leave;
        }
        assert(t@ != leave_word()) by {
            if t@ == leave_word() {
                assert(t@[0] == 'l');
            }
        }
        Command::Invalid
    }

    /// Reads a request from a raw terminal line.
    pub fn from_input(input: &str) -> (r: Command)
        ensures
            r@ == request_of(trimmed(input@)),
    {
        Command::from_trimmed(trim(input))
    }
}

} // verus!
