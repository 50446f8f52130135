//! The frames exchanged with a peer, as JSON text.

use crate::outside::{json_string, json_text, json_text_of};
use vstd::prelude::*;

verus! {

/// A lowercase hexadecimal digit, for `d` below sixteen.
pub open spec fn hex_digit(d: nat) -> char {
    if d < 10 {
        digit_char(d)
    } else if d == 10 {
        'a'
    } else if d == 11 {
        'b'
    } else if d == 12 {
        'c'
    } else if d == 13 {
        'd'
    } else if d == 14 {
        'e'
    } else {
        'f'
    }
}

/// How one character is written inside a JSON string literal: a quote, a
/// backslash and the control characters below U+0020 are escaped, with the
/// short forms where JSON has one; every other character stands as it is.
pub open spec fn escaped_char(c: char) -> Seq<char> {
    if c == '"' {
        seq!['\\', '"']
    } else if c == '\\' {
        seq!['\\', '\\']
    } else if c == '\u{8}' {
        seq!['\\', 'b']
    } else if c == '\t' {
        seq!['\\', 't']
    } else if c == '\n' {
        seq!['\\', 'n']
    } else if c == '\u{c}' {
        seq!['\\', 'f']
    } else if c == '\r' {
        seq!['\\', 'r']
    } else if (c as u32) < 0x20u32 {
        seq![
            '\\',
            'u',
            '0',
            '0',
            hex_digit(((c as u32) / 16) as nat),
            hex_digit(((c as u32) % 16) as nat),
        ]
    } else {
        seq![c]
    }
}

/// The characters of `s`, each written as inside a JSON string literal.
pub open spec fn escaped(s: Seq<char>) -> Seq<char>
    decreases s.len(),
{
    if s.len() == 0 {
        Seq::empty()
    } else {
        escaped(s.drop_last()) + escaped_char(s.last())
    }
}

/// The JSON string literal of `s`.
pub open spec fn json_string_of(s: Seq<char>) -> Seq<char> {
    seq!['"'] + escaped(s) + seq!['"']
}

/// No character of `s` needs an escape in a JSON string literal: none is a
/// quote, a backslash or a control character below U+0020.
pub open spec fn needs_no_escape(s: Seq<char>) -> bool {
    forall|i: int|
        0 <= i < s.len() ==> s[i] != '"' && s[i] != '\\' && (s[i] as u32) >= 0x20u32
}

/// A string with nothing to escape is written as it stands.
pub proof fn lemma_plain_string(s: Seq<char>)
    requires
        needs_no_escape(s),
    ensures
        escaped(s) == s,
    decreases s.len(),
{
    if s.len() > 0 {
        assert(needs_no_escape(s.drop_last()));
        lemma_plain_string(s.drop_last());
        assert(s.last() == s[s.len() - 1]);
        assert(s =~= s.drop_last() + seq![s.last()]);
    }
}

/// A frame that the server sends to a peer.
pub enum Message {
    /// Sent once, right after the handshake: the path at which callers reach
    /// this connection.
    Open(String),
    /// A call, with the number that its reply will carry.
    Request { call: serde_json::Value, number: u32 },
}

/// A frame that a peer sends back.
pub enum MessageReply {
    /// The result of the call with this number.
    Reply { result: serde_json::Value, number: u32 },
}

/// The path under which the connection `addr` is reached: `/rpc/<addr>`.
pub open spec fn rpc_path_of(addr: nat) -> Seq<char> {
    seq!['/', 'r', 'p', 'c', '/'] + decimal(addr)
}

/// `{"kind":"open","body":<body>}`, where `body` is JSON text.
pub open spec fn open_frame(body: Seq<char>) -> Seq<char> {
    "{\"kind\":\"open\",\"body\":"@ + body + "}"@
}

/// `{"kind":"request","body":{"call":<call>,"number":<number>}}`, where
/// `call` is JSON text.
pub open spec fn request_frame(call: Seq<char>, number: nat) -> Seq<char> {
    "{\"kind\":\"request\",\"body\":{\"call\":"@ + call + ",\"number\":"@ + decimal(number)
        + "}}"@
}

/// The decimal digit `d`, for `d` below ten.
pub open spec fn digit_char(d: nat) -> char {
    if d == 0 {
        '0'
    } else if d == 1 {
        '1'
    } else if d == 2 {
        '2'
    } else if d == 3 {
        '3'
    } else if d == 4 {
        '4'
    } else if d == 5 {
        '5'
    } else if d == 6 {
        '6'
    } else if d == 7 {
        '7'
    } else if d == 8 {
        '8'
    } else {
        '9'
    }
}

/// The decimal notation of `n`, without leading zeros.
pub open spec fn decimal(n: nat) -> Seq<char>
    decreases n,
{
    if n < 10 {
        seq![digit_char(n)]
    } else {
        decimal(n / 10) + seq![digit_char(n % 10)]
    }
}

/// The digit `d` as a one-character string.
fn digit_str(d: u64) -> (r: &'static str)
    requires
        d < 10,
    ensures
        r@ == seq![digit_char(d as nat)],
{
    proof {
        reveal_strlit("0");
        reveal_strlit("1");
        reveal_strlit("2");
        reveal_strlit("3");
        reveal_strlit("4");
        reveal_strlit("5");
        reveal_strlit("6");
        reveal_strlit("7");
        reveal_strlit("8");
        reveal_strlit("9");
    }
    let r = if d == 0 {
        "0"
    } else if d == 1 {
        "1"
    } else if d == 2 {
        "2"
    } else if d == 3 {
        "3"
    } else if d == 4 {
        "4"
    } else if d == 5 {
        "5"
    } else if d == 6 {
        "6"
    } else if d == 7 {
        "7"
    } else if d == 8 {
        "8"
    } else {
        "9"
    };
    assert(r@ =~= seq![digit_char(d as nat)]);
    r
}

/// Appends the decimal notation of `n` to `out`.
pub fn push_decimal(out: &mut String, n: u64)
    ensures
        final(out)@ == old(out)@ + decimal(n as nat),
    decreases n,
{
    if n >= 10 {
        push_decimal(out, n / 10);
    }
    let d = digit_str(n % 10);
    out.append(d);
    assert(final(out)@ =~= old(out)@ + decimal(n as nat));
}

/// Every character of a decimal notation is a digit.
pub proof fn lemma_decimal_digits(n: nat)
    ensures
        forall|i: int|
            0 <= i < decimal(n).len() ==> '0' <= #[trigger] decimal(n)[i] && decimal(n)[i] <= '9',
    decreases n,
{
    if n >= 10 {
        lemma_decimal_digits(n / 10);
        let d = decimal(n);
        assert forall|i: int| 0 <= i < d.len() implies '0' <= #[trigger] d[i] && d[i] <= '9' by {
            if i < decimal(n / 10).len() {
                assert(d[i] == decimal(n / 10)[i]);
            }
        }
    }
}

/// A path of the form `/rpc/<digits>` is written into JSON as it stands.
pub proof fn lemma_rpc_path_needs_no_escape(addr: nat)
    ensures
        needs_no_escape(rpc_path_of(addr)),
{
    lemma_decimal_digits(addr);
    let p = rpc_path_of(addr);
    assert forall|i: int| 0 <= i < p.len() implies p[i] != '"' && p[i] != '\\' && (p[i] as u32)
        >= 0x20u32 by {
        if i >= 5 {
            assert(p[i] == decimal(addr)[i - 5]);
        }
    }
}

/// The path under which callers reach the connection `addr`.
pub fn rpc_path(addr: u64) -> (r: String)
    ensures
        r@ == rpc_path_of(addr as nat),
{
    let mut out = String::from_str("/rpc/");
    proof {
        reveal_strlit("/rpc/");
    }
    push_decimal(&mut out, addr);
    assert(out@ =~= rpc_path_of(addr as nat));
    out
}

/// The frame that announces `path` to a peer.
pub fn encode_open(path: &str) -> (r: String)
    ensures
        r@ == open_frame(json_string_of(path@)),
        needs_no_escape(path@) ==> r@ == open_frame(seq!['"'] + path@ + seq!['"']),
{
    let mut out = String::from_str("{\"kind\":\"open\",\"body\":");
    let body = json_string(path);
    proof {
        if needs_no_escape(path@) {
            lemma_plain_string(path@);
        }
    }
    out.append(body.as_str());
    out.append("}");
    assert(out@ =~= open_frame(json_string_of(path@)));
    out
}

/// The frame of the call `number` whose arguments are the JSON text `call`.
pub fn encode_request(call: &str, number: u32) -> (r: String)
    ensures
        r@ == request_frame(call@, number as nat),
{
    let mut out = String::from_str("{\"kind\":\"request\",\"body\":{\"call\":");
    out.append(call);
    out.append(",\"number\":");
    push_decimal(&mut out, number as u64);
    out.append("}}");
    assert(out@ =~= request_frame(call@, number as nat));
    out
}

impl Message {
    /// The frame as JSON text, tagged by `kind` with the content under `body`.
    pub fn encode(&self) -> (r: String)
        ensures
            match self {
                Message::Open(path) => r@ == open_frame(json_string_of(path@)),
                Message::Request { call, number } => r@ == request_frame(
                    json_text_of(*call),
                    *number as nat,
                ),
            },
    {
        match self {
            Message::Open(path) => encode_open(path.as_str()),
            Message::Request { call, number } => {
                let text = json_text(call);
                encode_request(text.as_str(), *number)
            },
        }
    }
}

/// `c` is one of the ten decimal digits.
pub open spec fn is_digit(c: char) -> bool {
    '0' <= c && c <= '9'
}

/// The number that a string of decimal digits stands for.
pub open spec fn digits_value(s: Seq<char>) -> nat
    decreases s.len(),
{
    if s.len() == 0 {
        0
    } else {
        digits_value(s.drop_last()) * 10 + ((s.last() as u32) - ('0' as u32)) as nat
    }
}

/// The address that a gateway path names: `/rpc/` followed by one or more
/// decimal digits; any other path names none.
pub open spec fn rpc_target(path: Seq<char>) -> Option<nat> {
    if path.len() > 5 && path.subrange(0, 5) == seq!['/', 'r', 'p', 'c', '/'] && (forall|i: int|
        5 <= i < path.len() ==> is_digit(#[trigger] path[i])) {
        Some(digits_value(path.subrange(5, path.len() as int)))
    } else {
        None
    }
}

/// The digit character of `d` stands for `d`.
proof fn lemma_digit_char_value(d: nat)
    requires
        d < 10,
    ensures
        is_digit(digit_char(d)),
        ((digit_char(d) as u32) - ('0' as u32)) as nat == d,
{
}

/// The value of the decimal notation of `n` is `n`.
proof fn lemma_decimal_value(n: nat)
    ensures
        digits_value(decimal(n)) == n,
    decreases n,
{
    lemma_digit_char_value(n % 10);
    let d = decimal(n);
    assert(d.len() > 0);
    assert(digits_value(d) == digits_value(d.drop_last()) * 10 + ((d.last() as u32) - ('0' as u32)) as nat);
    if n >= 10 {
        lemma_decimal_value(n / 10);
        assert(decimal(n).drop_last() =~= decimal(n / 10));
        assert(decimal(n).last() == digit_char(n % 10));
        assert((n / 10) * 10 + n % 10 == n) by (nonlinear_arith);
    } else {
        assert(decimal(n).drop_last() =~= Seq::<char>::empty());
        assert(decimal(n).last() == digit_char(n));
    }
}

/// The address named by the gateway path `path`, where it names one that
/// fits in a `u64`.
pub fn parse_rpc_path(path: &str) -> (r: Option<u64>)
    ensures
        r == (match rpc_target(path@) {
            Some(a) => if a <= u64::MAX {
                Some(a as u64)
            } else {
                None
            },
            None => None,
        }),
{
    let len = path.unicode_len();
    if len <= 5 {
        return None;
    }
    if !(path.get_char(0) == '/' && path.get_char(1) == 'r' && path.get_char(2) == 'p'
        && path.get_char(3) == 'c' && path.get_char(4) == '/') {
        assert(path@.subrange(0, 5)[0] == path@[0]);
        assert(path@.subrange(0, 5)[1] == path@[1]);
        assert(path@.subrange(0, 5)[2] == path@[2]);
        assert(path@.subrange(0, 5)[3] == path@[3]);
        assert(path@.subrange(0, 5)[4] == path@[4]);
        return None;
    }
    assert(path@.subrange(0, 5) =~= seq!['/', 'r', 'p', 'c', '/']);
    let ghost digits = path@.subrange(5, len as int);
    let mut acc: u64 = 0;
    let mut i: usize = 5;
    let mut fits = true;
    while i < len
        invariant
            5 <= i <= len,
            len == path@.len(),
            forall|k: int| 5 <= k < i ==> is_digit(#[trigger] path@[k]),
            fits ==> acc as nat == digits_value(path@.subrange(5, i as int)),
            !fits ==> digits_value(path@.subrange(5, i as int)) > u64::MAX,
        decreases len - i,
    {
        let c = path.get_char(i);
        if !('0' <= c && c <= '9') {
            assert(!is_digit(path@[i as int]));
            return None;
        }
        let d = ((c as u32) - ('0' as u32)) as u64;
        proof {
            assert(path@.subrange(5, i + 1).drop_last() =~= path@.subrange(5, i as int));
        }
        let ghost before = digits_value(path@.subrange(5, i as int));
        assert(digits_value(path@.subrange(5, i + 1)) == before * 10 + d);
        if fits {
            if acc > (u64::MAX - d) / 10 {
                fits = false;
            } else {
                acc = acc * 10 + d;
            }
        } else {
            assert(before * 10 + d >= before) by (nonlinear_arith)
                requires
                    d >= 0,
                    before >= 0,
            ;
        }
        i = i + 1;
    }
    if fits {
        assert(path@.subrange(5, len as int) =~= digits);
        Some(acc)
    } else {
        assert(path@.subrange(5, len as int) =~= digits);
        None
    }
}

/// The gateway path of an address names that address.
pub proof fn lemma_rpc_path_round_trip(addr: nat)
    ensures
        rpc_target(rpc_path_of(addr)) == Some(addr),
{
    lemma_decimal_digits(addr);
    lemma_decimal_value(addr);
    let p = rpc_path_of(addr);
    assert(p.subrange(0, 5) =~= seq!['/', 'r', 'p', 'c', '/']);
    assert(p.subrange(5, p.len() as int) =~= decimal(addr));
    assert forall|i: int| 5 <= i < p.len() implies is_digit(#[trigger] p[i]) by {
        assert(p[i] == decimal(addr)[i - 5]);
    }
}

} // verus!
