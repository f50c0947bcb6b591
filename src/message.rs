//! The wire codec: a frame is one line `<username>|<type code>|<payload>`.

use vstd::prelude::*;
use vstd::std_specs::iter::IteratorSpec;
use vstd::string::*;

verus! {

const AUTH: u16 = 1;
const MSG: u16 = 2;
const JOIN: u16 = 3;
const LEAVE: u16 = 4;
const INVALID: u16 = 5;
const ALREADYTAKEN: u16 = 6;
const UNAUTHENTICATED: u16 = 7;

/// One unit of the chat protocol.
#[derive(Debug)]
pub enum Message {
    AUTH(String),
    MSG(String, String),
    JOIN(String),
    LEAVE(String),
    ALREADYTAKEN,
    UNAUTHENTICATED,
    INVALID,
}

/// The mathematical model of a [`Message`]: the same variants over character sequences.
pub enum Frame {
    Auth(Seq<char>),
    Chat(Seq<char>, Seq<char>),
    Join(Seq<char>),
    Leave(Seq<char>),
    NameTaken,
    Unauthenticated,
    Invalid,
}

impl View for Message {
    type V = Frame;

    open spec fn view(&self) -> Frame {
        match self {
            Message::AUTH(u) => Frame::Auth(u@),
            Message::MSG(u, t) => Frame::Chat(u@, t@),
            Message::JOIN(u) => Frame::Join(u@),
            Message::LEAVE(u) => Frame::Leave(u@),
            Message::ALREADYTAKEN => Frame::NameTaken,
            Message::UNAUTHENTICATED => Frame::Unauthenticated,
            Message::INVALID => Frame::Invalid,
        }
    }
}

/// The three characters `|<code>|` that follow the username for a one-digit code.
pub open spec fn code_field(code: u16) -> Seq<char> {
    seq!['|', code_digit(code), '|']
}

/// The digit that writes a type code below ten.
pub open spec fn code_digit(code: u16) -> char {
    match code {
        1 => '1',
        2 => '2',
        3 => '3',
        4 => '4',
        5 => '5',
        6 => '6',
        7 => '7',
        8 => '8',
        _ => '9',
    }
}

/// The line that encodes a frame.
pub open spec fn encode(f: Frame) -> Seq<char> {
    match f {
        Frame::Auth(u) => u + code_field(1),
        Frame::Chat(u, t) => u + code_field(2) + t,
        Frame::Join(u) => u + code_field(3),
        Frame::Leave(u) => u + code_field(4),
        Frame::NameTaken => code_field(6),
        Frame::Unauthenticated => code_field(7),
        Frame::Invalid => code_field(5),
    }
}

/// The fields of a line split at every `|` (a line without `|` is one field).
pub open spec fn pieces(s: Seq<char>) -> Seq<Seq<char>>
    decreases s.len(),
{
    if s.len() == 0 {
        seq![Seq::<char>::empty()]
    } else {
        let rest = pieces(s.drop_first());
        if s[0] == '|' {
            seq![Seq::<char>::empty()] + rest
        } else {
            rest.update(0, seq![s[0]] + rest[0])
        }
    }
}

pub open spec fn is_digit(c: char) -> bool {
    '0' <= c <= '9'
}

pub open spec fn all_digits(s: Seq<char>) -> bool {
    forall|i: int| 0 <= i < s.len() ==> is_digit(#[trigger] s[i])
}

/// The number that a string of decimal digits denotes.
pub open spec fn decimal_value(s: Seq<char>) -> int
    decreases s.len(),
{
    if s.len() == 0 {
        0
    } else {
        decimal_value(s.drop_last()) * 10 + (s.last() as int - '0' as int)
    }
}

/// The digits of an unsigned number: one leading `+` is dropped when more follows.
pub open spec fn unsigned_digits(s: Seq<char>) -> Seq<char> {
    if s.len() > 1 && s[0] == '+' {
        s.drop_first()
    } else {
        s
    }
}

/// The `u16` that a type-code field denotes, if any.
pub open spec fn parse_code(s: Seq<char>) -> Option<u16> {
    let d = unsigned_digits(s);
    if d.len() > 0 && all_digits(d) && decimal_value(d) <= 65535 {
        Some(decimal_value(d) as u16)
    } else {
        None
    }
}

/// The frame that a line decodes to; every line decodes to some frame.
pub open spec fn decode(s: Seq<char>) -> Frame {
    let p = pieces(s);
    if p.len() != 3 {
        Frame::Invalid
    } else {
        match parse_code(p[1]) {
            Some(1) => Frame::Auth(p[0]),
            Some(2) => Frame::Chat(p[0], p[2]),
            Some(3) => Frame::Join(p[0]),
            Some(4) => Frame::Leave(p[0]),
            Some(6) => Frame::NameTaken,
            Some(7) => Frame::Unauthenticated,
            _ => Frame::Invalid,
        }
    }
}


/// Whether the sequence holds a `|`.
pub open spec fn has_pipe(s: Seq<char>) -> bool {
    exists|i: int| 0 <= i < s.len() && s[i] == '|'
}

proof fn lemma_pieces_nonempty(s: Seq<char>)
    ensures
        pieces(s).len() >= 1,
    decreases s.len(),
{
    if s.len() > 0 {
        lemma_pieces_nonempty(s.drop_first());
    }
}

/// A line without `|` is a single field.
proof fn lemma_pieces_no_pipe(s: Seq<char>)
    requires
        !has_pipe(s),
    ensures
        pieces(s) == seq![s],
    decreases s.len(),
{
    if s.len() > 0 {
        let t = s.drop_first();
        assert(!has_pipe(t)) by {
            if has_pipe(t) {
                let i = choose|i: int| 0 <= i < t.len() && t[i] == '|';
                assert(s[i + 1] == '|');
            }
        }
        lemma_pieces_no_pipe(t);
        assert(s[0] != '|');
        assert(seq![s[0]] + t =~= s);
        assert(pieces(s) =~= seq![s]);
    } else {
        assert(s =~= Seq::<char>::empty());
    }
}

/// The first `|` of a line ends its first field; the rest splits on its own.
proof fn lemma_pieces_split(s: Seq<char>, a: int)
    requires
        0 <= a < s.len(),
        s[a] == '|',
        !has_pipe(s.take(a)),
    ensures
        pieces(s) == seq![s.take(a)] + pieces(s.skip(a + 1)),
    decreases a,
{
    if a == 0 {
        assert(s.take(0) =~= Seq::<char>::empty());
        assert(s.skip(1) =~= s.drop_first());
    } else {
        let t = s.drop_first();
        assert(s[0] != '|') by {
            assert(s.take(a)[0] == s[0]);
        }
        assert(!has_pipe(t.take(a - 1))) by {
            let u = t.take(a - 1);
            if has_pipe(u) {
                let i = choose|i: int| 0 <= i < u.len() && u[i] == '|';
                assert(s.take(a)[i + 1] == '|');
            }
        }
        lemma_pieces_split(t, a - 1);
        assert(t.skip(a) =~= s.skip(a + 1));
        assert(seq![s[0]] + t.take(a - 1) =~= s.take(a));
        assert(pieces(s) =~= seq![s.take(a)] + pieces(s.skip(a + 1)));
    }
}

/// The value of a digit string is at least the value of each of its prefixes.
proof fn lemma_decimal_prefix(s: Seq<char>, k: int)
    requires
        0 <= k <= s.len(),
        all_digits(s),
    ensures
        decimal_value(s.take(k)) <= decimal_value(s),
        decimal_value(s) >= 0,
    decreases s.len(),
{
    if s.len() > 0 {
        let t = s.drop_last();
        assert(all_digits(t)) by {
            assert forall|i: int| 0 <= i < t.len() implies is_digit(#[trigger] t[i]) by {
                assert(s[i] == t[i]);
            }
        }
        assert(is_digit(s[s.len() - 1]));
        if k < s.len() {
            lemma_decimal_prefix(t, k);
            assert(t.take(k) =~= s.take(k));
        } else {
            lemma_decimal_prefix(t, 0);
            assert(s.take(k) =~= s);
        }
    } else {
        assert(s.take(k) =~= s);
    }
}

/// The type code that a field denotes, as `str::parse::<u16>` reads it.
fn parse_code_field(f: &str) -> (r: Option<u16>)
    ensures
        r == parse_code(f@),
{
    let n = f.unicode_len();
    let mut start: usize = 0;
    if n > 1 && f.get_char(0) == '+' {
        start = 1;
    }
    let ghost d = unsigned_digits(f@);
    assert(d =~= f@.skip(start as int));
    if start == n {
        return None;
    }
    let mut value: u32 = 0;
    let mut i: usize = start;
    while i < n
        invariant
            start <= i <= n,
            n == f@.len(),
            d == f@.skip(start as int),
            d == unsigned_digits(f@),
            value as int == decimal_value(d.take(i - start)),
            value <= 65535,
            all_digits(d.take(i - start)),
        decreases n - i,
    {
        let c = f.get_char(i);
        if c < '0' || c > '9' {
            assert(d[i - start] == c);
            assert(!all_digits(d));
            return None;
        }
        let ghost prev = d.take(i - start);
        assert(d.take(i - start + 1).drop_last() =~= prev);
        value = value * 10 + (c as u32 - '0' as u32);
        assert(d.take(i - start + 1).last() == c);
        assert(value as int == decimal_value(d.take(i - start + 1)));
        assert(all_digits(d.take(i - start + 1))) by {
            assert forall|j: int| 0 <= j < i - start + 1 implies is_digit(
                #[trigger] d.take(i - start + 1)[j],
            ) by {
                if j < i - start {
                    assert(prev[j] == d.take(i - start + 1)[j]);
                }
            }
        }
        i = i + 1;
        if value > 65535 {
            proof {
                if all_digits(d) {
                    lemma_decimal_prefix(d, i - start);
                }
            }
            return None;
        }
    }
    assert(d.take(n - start) =~= d);
    Some(value as u16)
}


proof fn lemma_no_pipe_after(s: Seq<char>, m: int)
    requires
        0 <= m <= s.len(),
        forall|j: int| m <= j < s.len() ==> s[j] != '|',
    ensures
        !has_pipe(s.skip(m)),
{
    let t = s.skip(m);
    if has_pipe(t) {
        let j = choose|j: int| 0 <= j < t.len() && t[j] == '|';
        assert(s[j + m] == '|');
    }
}

/// The pipes of `s` in order, where `k` of them have been found: cutting at the
/// first one leaves the others, shifted, in what follows it.
proof fn lemma_pieces_at(s: Seq<char>, pos: Seq<int>)
    requires
        pos.len() >= 1,
        forall|k: int| 0 <= k < pos.len() ==> 0 <= pos[k] < s.len() && s[pos[k]] == '|',
        forall|k1: int, k2: int| 0 <= k1 < k2 < pos.len() ==> pos[k1] < pos[k2],
        forall|j: int|
            0 <= j < pos[pos.len() - 1] && s[j] == '|' ==> exists|k: int|
                0 <= k < pos.len() && pos[k] == j,
    ensures
        pieces(s).len() >= pos.len() + 1,
        pieces(s)[0] == s.take(pos[0]),
        pos.len() >= 2 ==> pieces(s)[1] == s.subrange(pos[0] + 1, pos[1]),
        pos.len() == 2 && !has_pipe(s.skip(pos[1] + 1)) ==> pieces(s) == seq![
            s.take(pos[0]),
            s.subrange(pos[0] + 1, pos[1]),
            s.skip(pos[1] + 1),
        ],
        pos.len() == 1 && !has_pipe(s.skip(pos[0] + 1)) ==> pieces(s) == seq![
            s.take(pos[0]),
            s.skip(pos[0] + 1),
        ],
    decreases pos.len(),
{
    let a = pos[0];
    assert(!has_pipe(s.take(a))) by {
        if has_pipe(s.take(a)) {
            let j = choose|j: int| 0 <= j < s.take(a).len() && s.take(a)[j] == '|';
            assert(s[j] == '|');
            let k = choose|k: int| 0 <= k < pos.len() && pos[k] == j;
            if k > 0 {
                assert(pos[0] < pos[k]);
            }
        }
    }
    lemma_pieces_split(s, a);
    let t = s.skip(a + 1);
    lemma_pieces_nonempty(t);
    if pos.len() == 1 {
        if !has_pipe(t) {
            lemma_pieces_no_pipe(t);
            assert(pieces(s) =~= seq![s.take(a), t]);
        }
    } else {
        let rest = pos.drop_first().map_values(|p: int| p - a - 1);
        assert forall|k: int| 0 <= k < rest.len() implies 0 <= rest[k] < t.len() && t[rest[k]]
            == '|' by {
            assert(pos[0] < pos[k + 1]);
        }
        assert forall|k1: int, k2: int| 0 <= k1 < k2 < rest.len() implies rest[k1] < rest[k2] by {
            assert(pos[k1 + 1] < pos[k2 + 1]);
        }
        assert forall|j: int| 0 <= j < rest[rest.len() - 1] && t[j] == '|' implies exists|k: int|
            0 <= k < rest.len() && rest[k] == j by {
            assert(s[j + a + 1] == '|');
            let k = choose|k: int| 0 <= k < pos.len() && pos[k] == j + a + 1;
            assert(k > 0);
            assert(rest[k - 1] == j);
        }
        assert(t.skip(rest[0] + 1) =~= s.skip(pos[1] + 1));
        lemma_pieces_at(t, rest);
        assert(t.take(rest[0]) =~= s.subrange(pos[0] + 1, pos[1]));
        if pos.len() == 2 && !has_pipe(s.skip(pos[1] + 1)) {
            assert(pieces(s) =~= seq![
                s.take(pos[0]),
                s.subrange(pos[0] + 1, pos[1]),
                s.skip(pos[1] + 1),
            ]);
        }
    }
}

/// [`lemma_pieces_at`] for pipe positions found by an executable scan.
proof fn lemma_pieces_at_indices(s: Seq<char>, pos: Seq<usize>)
    requires
        pos.len() >= 1,
        forall|k: int| 0 <= k < pos.len() ==> pos[k] < s.len() && s[pos[k] as int] == '|',
        forall|k1: int, k2: int| 0 <= k1 < k2 < pos.len() ==> pos[k1] < pos[k2],
        forall|j: int|
            0 <= j < pos[pos.len() - 1] && s[j] == '|' ==> exists|k: int|
                0 <= k < pos.len() && pos[k] == j,
    ensures
        ({
            let ip = pos.map_values(|p: usize| p as int);
            &&& pieces(s).len() >= pos.len() + 1
            &&& pieces(s)[0] == s.take(ip[0])
            &&& pos.len() == 2 && !has_pipe(s.skip(ip[1] + 1)) ==> pieces(s) == seq![
                s.take(ip[0]),
                s.subrange(ip[0] + 1, ip[1]),
                s.skip(ip[1] + 1),
            ]
            &&& pos.len() == 1 && !has_pipe(s.skip(ip[0] + 1)) ==> pieces(s) == seq![
                s.take(ip[0]),
                s.skip(ip[0] + 1),
            ]
        }),
{
    let ip = pos.map_values(|p: usize| p as int);
    assert forall|j: int| 0 <= j < ip[ip.len() - 1] && s[j] == '|' implies exists|k: int|
        0 <= k < ip.len() && ip[k] == j by {
        let k = choose|k: int| 0 <= k < pos.len() && pos[k] == j;
        assert(ip[k] == j);
    }
    lemma_pieces_at(s, ip);
}

/// Appends `|<code>|` to `out`.
fn push_code(out: &mut String, code: u16)
    requires
        1 <= code <= 7,
    ensures
        final(out)@ == old(out)@ + code_field(code),
{
    let s: &str = if code == AUTH {
        "|1|"
    } else if code == MSG {
        "|2|"
    } else if code == JOIN {
        "|3|"
    } else if code == LEAVE {
        "|4|"
    } else if code == INVALID {
        "|5|"
    } else if code == ALREADYTAKEN {
        "|6|"
    } else {
        "|7|"
    };
    proof {
        reveal_strlit("|1|");
        reveal_strlit("|2|");
        reveal_strlit("|3|");
        reveal_strlit("|4|");
        reveal_strlit("|5|");
        reveal_strlit("|6|");
        reveal_strlit("|7|");
        assert(s@ =~= code_field(code));
    }
    out.append(s);
}

impl Message {
    /// Decodes one line; a line that is not a well-formed frame gives `INVALID`.
    pub fn from(input: String) -> (r: Message)
        ensures
            r@ == decode(input@),
    {
        let s = input.as_str();
        let n = s.unicode_len();
        let mut pos: Vec<usize> = Vec::new();
        let mut it = s.chars();
        let mut i: usize = 0;
        while i < n && pos.len() < 3
            invariant
                i <= n,
                n == s@.len(),
                it.remaining() == s@.skip(i as int),
                pos@.len() <= 3,
                forall|k: int| 0 <= k < pos@.len() ==> pos@[k] < i && s@[pos@[k] as int] == '|',
                forall|k1: int, k2: int| 0 <= k1 < k2 < pos@.len() ==> pos@[k1] < pos@[k2],
                forall|j: int|
                    0 <= j < i && s@[j] == '|' ==> exists|k: int|
                        0 <= k < pos@.len() && pos@[k] == j,
            decreases n - i,
        {
            match it.next() {
                Some(c) => {
                    assert(c == s@[i as int]);
                    let ghost before = pos@;
                    if c == '|' {
                        pos.push(i);
                    }
                    assert forall|j: int| 0 <= j < i + 1 && s@[j] == '|' implies exists|k: int|
                        0 <= k < pos@.len() && pos@[k] == j by {
                        if j == i {
                            assert(pos@[pos@.len() - 1] == j);
                        } else {
                            let k = choose|k: int| 0 <= k < before.len() && before[k] == j;
                            assert(pos@[k] == j);
                        }
                    }
                    assert(s@.skip(i as int).drop_first() =~= s@.skip(i + 1));
                    i = i + 1;
                },
                None => {},
            }
        }
        if pos.len() != 2 {
            proof {
                if pos@.len() == 0 {
                    lemma_pieces_no_pipe(s@);
                } else {
                    let last = pos@[pos@.len() - 1] as int;
                    lemma_pieces_at_indices(s@, pos@);
                    if pos@.len() == 1 {
                        lemma_no_pipe_after(s@, last + 1);
                    }
                }
            }
            return Message::INVALID;
        }
        let a = pos[0];
        let b = pos[1];
        proof {
            assert forall|j: int| b + 1 <= j < s@.len() implies s@[j] != '|' by {
                if s@[j] == '|' {
                    let k = choose|k: int| 0 <= k < pos@.len() && pos@[k] == j;
                }
            }
            lemma_no_pipe_after(s@, b + 1);
            lemma_pieces_at_indices(s@, pos@);
        }
        let username = String::from_str(s.substring_char(0, a));
        let code = parse_code_field(s.substring_char(a + 1, b));
        let text = String::from_str(s.substring_char(b + 1, n));
        match code {
            Some(c) => {
                if c == AUTH {
                    Message::AUTH(username)
                } else if c == MSG {
                    Message::MSG(username, text)
                } else if c == JOIN {
                    Message::JOIN(username)
                } else if c == LEAVE {
                    Message::LEAVE(username)
                } else if c == ALREADYTAKEN {
                    Message::ALREADYTAKEN
                } else if c == UNAUTHENTICATED {
                    Message::UNAUTHENTICATED
                } else {
                    Message::INVALID
                }
            },
            None => Message::INVALID,
        }
    }

    /// Encodes the frame as one line.
    pub fn to_string(self) -> (r: String)
        ensures
            r@ == encode(self@),
    {
        let mut out = String::new();
        match self {
            Message::AUTH(username) => {
                out.append(username.as_str());
                push_code(&mut out, AUTH);
            },
            Message::JOIN(username) => {
                out.append(username.as_str());
                push_code(&mut out, JOIN);
            },
            Message::LEAVE(username) => {
                out.append(username.as_str());
                push_code(&mut out, LEAVE);
            },
            Message::MSG(username, text) => {
                out.append(username.as_str());
                push_code(&mut out, MSG);
                out.append(text.as_str());
            },
            Message::ALREADYTAKEN => {
                push_code(&mut out, ALREADYTAKEN);
            },
            Message::UNAUTHENTICATED => {
                push_code(&mut out, UNAUTHENTICATED);
            },
            Message::INVALID => {
                push_code(&mut out, INVALID);
            },
        }
        out
    }
}

} // verus!

verus! {

/// A frame whose username and text hold no `|`, so that its fields survive encoding.
pub open spec fn is_encodable(f: Frame) -> bool {
    match f {
        Frame::Auth(u) => !has_pipe(u),
        Frame::Chat(u, t) => !has_pipe(u) && !has_pipe(t),
        Frame::Join(u) => !has_pipe(u),
        Frame::Leave(u) => !has_pipe(u),
        _ => true,
    }
}

/// A line `u|<digit>|t` with no other `|` splits into exactly those three fields.
proof fn lemma_pieces_of_line(u: Seq<char>, code: u16, t: Seq<char>)
    requires
        !has_pipe(u),
        !has_pipe(t),
        1 <= code <= 9,
    ensures
        pieces(u + code_field(code) + t) == seq![u, seq![code_digit(code)], t],
{
    let s = u + code_field(code) + t;
    assert(s.len() == u.len() + 3 + t.len());
    let a = u.len() as int;
    let b = u.len() + 2int;
    let pos = seq![a, b];
    assert forall|j: int| 0 <= j < b && s[j] == '|' implies exists|k: int|
        0 <= k < pos.len() && pos[k] == j by {
        if j < a {
            assert(s[j] == u[j]);
        } else {
            assert(pos[0] == j);
        }
    }
    assert forall|j: int| 0 <= j < t.len() implies s.skip(b + 1)[j] == t[j] by {
        assert((u + code_field(code)).len() == b + 1);
        assert(s[b + 1 + j] == t[j]);
    }
    assert(s.skip(b + 1) =~= t);
    lemma_pieces_at(s, pos);
    assert(s.take(a) =~= u);
    assert(s.subrange(a + 1, b) =~= seq![code_digit(code)]);
}

proof fn lemma_parse_one_digit(code: u16)
    requires
        1 <= code <= 9,
    ensures
        parse_code(seq![code_digit(code)]) == Some(code),
{
    let d = seq![code_digit(code)];
    assert(unsigned_digits(d) == d);
    assert(d.drop_last() =~= Seq::<char>::empty());
    assert(decimal_value(d) == decimal_value(d.drop_last()) * 10 + (d.last() as int - '0' as int));
    assert(code_digit(code) as int - '0' as int == code);
}

/// Decoding an encoded frame gives the frame back, for every frame whose
/// username and text hold no `|`.
pub proof fn lemma_round_trip(f: Frame)
    requires
        is_encodable(f),
    ensures
        decode(encode(f)) == f,
{
    let e = Seq::<char>::empty();
    assert(!has_pipe(e));
    match f {
        Frame::Auth(u) => {
            assert(encode(f) =~= u + code_field(1) + e);
            lemma_pieces_of_line(u, 1, e);
            lemma_parse_one_digit(1);
        },
        Frame::Chat(u, t) => {
            lemma_pieces_of_line(u, 2, t);
            lemma_parse_one_digit(2);
        },
        Frame::Join(u) => {
            assert(encode(f) =~= u + code_field(3) + e);
            lemma_pieces_of_line(u, 3, e);
            lemma_parse_one_digit(3);
        },
        Frame::Leave(u) => {
            assert(encode(f) =~= u + code_field(4) + e);
            lemma_pieces_of_line(u, 4, e);
            lemma_parse_one_digit(4);
        },
        Frame::NameTaken => {
            assert(encode(f) =~= e + code_field(6) + e);
            lemma_pieces_of_line(e, 6, e);
            lemma_parse_one_digit(6);
        },
        Frame::Unauthenticated => {
            assert(encode(f) =~= e + code_field(7) + e);
            lemma_pieces_of_line(e, 7, e);
            lemma_parse_one_digit(7);
        },
        Frame::Invalid => {
            assert(encode(f) =~= e + code_field(5) + e);
            lemma_pieces_of_line(e, 5, e);
            lemma_parse_one_digit(5);
        },
    }
}

/// The type codes that name a frame other than `Invalid`.
pub open spec fn is_known_code(c: u16) -> bool {
    1 <= c <= 4 || c == 6 || c == 7
}

/// Decoding never fails: a line that does not split into exactly three fields,
/// or whose middle field is not a known type code, decodes to `Invalid`.
pub proof fn lemma_decode_total(s: Seq<char>)
    ensures
        pieces(s).len() != 3 ==> decode(s) == Frame::Invalid,
        pieces(s).len() == 3 && parse_code(pieces(s)[1]) is None ==> decode(s) == Frame::Invalid,
        pieces(s).len() == 3 && parse_code(pieces(s)[1]) is Some && !is_known_code(
            parse_code(pieces(s)[1])->0,
        ) ==> decode(s) == Frame::Invalid,
{
}

} // verus!
