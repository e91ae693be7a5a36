use vstd::prelude::*;
use vstd::string::{StrSliceExecFns, StringExecFns};

verus! {

/// Relies on `String::push` from std: it appends the given character to
/// the end of the string, which vstd does not specify.
pub assume_specification[ String::push ](s: &mut String, ch: char)
    ensures
        final(s)@ == old(s)@.push(ch),
;

/// The hexadecimal digit (lower case) for a value below sixteen.
pub open spec fn hex_digit(n: int) -> char {
    if n == 0 {
        '0'
    } else if n == 1 {
        '1'
    } else if n == 2 {
        '2'
    } else if n == 3 {
        '3'
    } else if n == 4 {
        '4'
    } else if n == 5 {
        '5'
    } else if n == 6 {
        '6'
    } else if n == 7 {
        '7'
    } else if n == 8 {
        '8'
    } else if n == 9 {
        '9'
    } else if n == 10 {
        'a'
    } else if n == 11 {
        'b'
    } else if n == 12 {
        'c'
    } else if n == 13 {
        'd'
    } else if n == 14 {
        'e'
    } else {
        'f'
    }
}

/// The value of one hexadecimal digit, upper or lower case.
pub open spec fn hex_val(c: char) -> Option<u32> {
    let v = c as u32;
    if 48 <= v <= 57 {
        Some((v - 48) as u32)
    } else if 97 <= v <= 102 {
        Some((v - 87) as u32)
    } else if 65 <= v <= 70 {
        Some((v - 55) as u32)
    } else {
        None
    }
}

/// The value of a four-digit hexadecimal escape.
pub open spec fn hex_val4(a: char, b: char, c: char, d: char) -> Option<u32> {
    match (hex_val(a), hex_val(b), hex_val(c), hex_val(d)) {
        (Some(x), Some(y), Some(z), Some(w)) => Some((x * 4096 + y * 256 + z * 16 + w) as u32),
        _ => None,
    }
}

/// The character a simple backslash escape stands for.
pub open spec fn unescape_simple(e: char) -> Option<char> {
    if e == '"' {
        Some('"')
    } else if e == '\\' {
        Some('\\')
    } else if e == '/' {
        Some('/')
    } else if e == 'n' {
        Some('\n')
    } else if e == 'r' {
        Some('\r')
    } else if e == 't' {
        Some('\t')
    } else if e == 'b' {
        Some('\u{8}')
    } else if e == 'f' {
        Some('\u{c}')
    } else {
        None
    }
}

/// How one character of a message body appears inside a JSON string:
/// quote, backslash and the common control characters take their short
/// escapes, any other control character takes a four-digit hexadecimal
/// escape, and everything else stands for itself.
pub open spec fn escaped_char(c: char) -> Seq<char> {
    if c == '"' {
        seq!['\\', '"']
    } else if c == '\\' {
        seq!['\\', '\\']
    } else if c == '\n' {
        seq!['\\', 'n']
    } else if c == '\r' {
        seq!['\\', 'r']
    } else if c == '\t' {
        seq!['\\', 't']
    } else if c == '\u{8}' {
        seq!['\\', 'b']
    } else if c == '\u{c}' {
        seq!['\\', 'f']
    } else if (c as u32) < 32 {
        seq![
            '\\',
            'u',
            '0',
            '0',
            hex_digit(((c as u32) / 16) as int),
            hex_digit(((c as u32) % 16) as int),
        ]
    } else {
        seq![c]
    }
}

/// A whole text rendered as the inside of a JSON string.
pub open spec fn json_escaped(s: Seq<char>) -> Seq<char>
    decreases s.len(),
{
    if s.len() == 0 {
        Seq::empty()
    } else {
        escaped_char(s[0]) + json_escaped(s.skip(1))
    }
}

/// Escaping distributes over appending one character at the end.
pub proof fn lemma_json_escaped_snoc(s: Seq<char>, c: char)
    ensures
        json_escaped(s.push(c)) == json_escaped(s) + escaped_char(c),
    decreases s.len(),
{
    if s.len() == 0 {
        assert(s.push(c).len() == 1);
        assert(s.push(c)[0] == c);
        assert(s.push(c).skip(1) =~= Seq::<char>::empty());
        assert(json_escaped(s.push(c)) == escaped_char(c) + json_escaped(s.push(c).skip(1)));
        assert(json_escaped(s.push(c).skip(1)) == Seq::<char>::empty());
        assert(json_escaped(s) == Seq::<char>::empty());
        assert(json_escaped(s.push(c)) =~= json_escaped(s) + escaped_char(c));
    } else {
        assert(s.push(c)[0] == s[0]);
        assert(s.push(c).skip(1) =~= s.skip(1).push(c));
        lemma_json_escaped_snoc(s.skip(1), c);
        assert(json_escaped(s.push(c)) == escaped_char(s[0]) + json_escaped(s.skip(1).push(c)));
        assert(json_escaped(s) == escaped_char(s[0]) + json_escaped(s.skip(1)));
        assert(json_escaped(s.push(c)) =~= json_escaped(s) + escaped_char(c));
    }
}

/// The fixed opening of an inbound chat frame, up to the quote that opens
/// the message body.
pub open spec fn inbound_prefix() -> Seq<char> {
    seq!['{', '"', 'm', 'e', 's', 's', 'a', 'g', 'e', '"', ':', '"']
}

/// The inbound wire shape for a message body.
pub open spec fn inbound_frame(m: Seq<char>) -> Seq<char> {
    inbound_prefix() + json_escaped(m) + seq!['"', '}']
}

/// The outbound wire shape for an enriched message: the sender's display
/// name and the body.
pub open spec fn outbound_frame(user: Seq<char>, m: Seq<char>) -> Seq<char> {
    seq!['{', '"', 'u', 's', 'e', 'r', '"', ':', '"'] + json_escaped(user) + seq![
        '"',
        ',',
        '"',
        'm',
        'e',
        's',
        's',
        'a',
        'g',
        'e',
        '"',
        ':',
        '"',
    ] + json_escaped(m) + seq!['"', '}']
}

/// The decoded characters of a JSON string body up to its closing quote,
/// together with what follows the quote; `None` when the input is not a
/// string body this decoder accepts.  Four-digit escapes are accepted for
/// seven-bit values only.
pub open spec fn parse_string_body(s: Seq<char>) -> Option<(Seq<char>, Seq<char>)>
    decreases s.len(),
{
    if s.len() == 0 {
        None
    } else if s[0] == '"' {
        Some((Seq::empty(), s.skip(1)))
    } else if s[0] == '\\' {
        if s.len() < 2 {
            None
        } else if s[1] == 'u' {
            if s.len() < 6 {
                None
            } else {
                match hex_val4(s[2], s[3], s[4], s[5]) {
                    Some(v) => if v < 128 {
                        match parse_string_body(s.skip(6)) {
                            Some(p) => Some((seq![((v as u8) as char)] + p.0, p.1)),
                            None => None,
                        }
                    } else {
                        None
                    },
                    None => None,
                }
            }
        } else {
            match unescape_simple(s[1]) {
                Some(c) => match parse_string_body(s.skip(2)) {
                    Some(p) => Some((seq![c] + p.0, p.1)),
                    None => None,
                },
                None => None,
            }
        }
    } else {
        match parse_string_body(s.skip(1)) {
            Some(p) => Some((seq![s[0]] + p.0, p.1)),
            None => None,
        }
    }
}

/// Prefix already-decoded characters onto the outcome of parsing the rest
/// of a string body.
pub open spec fn prepend_parse(pre: Seq<char>, p: Option<(Seq<char>, Seq<char>)>) -> Option<
    (Seq<char>, Seq<char>),
> {
    match p {
        Some(q) => Some((pre + q.0, q.1)),
        None => None,
    }
}

/// Prefixing decoded characters in two steps is the same as prefixing
/// their concatenation at once.
proof fn lemma_prepend_assoc(a: Seq<char>, b: Seq<char>, p: Option<(Seq<char>, Seq<char>)>)
    ensures
        prepend_parse(a, prepend_parse(b, p)) == prepend_parse(a + b, p),
{
    match p {
        Some(q) => {
            assert(a + (b + q.0) =~= (a + b) + q.0);
        },
        None => {},
    }
}

/// What an inbound frame decodes to: the message body when the frame has
/// exactly the wire shape, `None` for anything else.
pub open spec fn decode_inbound_spec(s: Seq<char>) -> Option<Seq<char>> {
    if s.len() >= 12 && s.take(12) == inbound_prefix() {
        match parse_string_body(s.skip(12)) {
            Some(p) => if p.1 == seq!['}'] {
                Some(p.0)
            } else {
                None
            },
            None => None,
        }
    } else {
        None
    }
}

/// A hexadecimal digit the encoder writes reads back as its value.
proof fn lemma_hex_digit_val(n: int)
    requires
        0 <= n < 16,
    ensures
        hex_val(hex_digit(n)) == Some(n as u32),
{
}

/// A string body written by the escaper parses back to exactly the
/// original characters, with everything after the closing quote untouched.
proof fn lemma_parse_escaped(m: Seq<char>)
    ensures
        parse_string_body(json_escaped(m) + seq!['"', '}']) == Some((m, seq!['}'])),
    decreases m.len(),
{
    let s = json_escaped(m) + seq!['"', '}'];
    if m.len() == 0 {
        assert(json_escaped(m) == Seq::<char>::empty());
        assert(s =~= seq!['"', '}']);
        assert(s[0] == '"');
        assert(s.skip(1) =~= seq!['}']);
        assert(parse_string_body(s) == Some((Seq::<char>::empty(), seq!['}'])));
        assert(Seq::<char>::empty() =~= m);
    } else {
        let c = m[0];
        let e = escaped_char(c);
        let rest = json_escaped(m.skip(1)) + seq!['"', '}'];
        lemma_parse_escaped(m.skip(1));
        assert(json_escaped(m) == e + json_escaped(m.skip(1)));
        assert(s =~= e + rest);
        assert(seq![c] + m.skip(1) =~= m);
        if c == '"' || c == '\\' || c == '\n' || c == '\r' || c == '\t' || c == '\u{8}' || c
            == '\u{c}' {
            assert(s[0] == '\\');
            assert(s.len() >= 2);
            assert(s[1] == e[1]);
            assert(s[1] != 'u');
            assert(unescape_simple(s[1]) == Some(c));
            assert(s.skip(2) =~= rest);
            assert(parse_string_body(s) == Some((seq![c] + m.skip(1), seq!['}'])));
        } else if (c as u32) < 32 {
            assert(s[0] == '\\');
            assert(s[1] == 'u');
            assert(s.len() >= 6);
            assert(s[2] == '0');
            assert(s[3] == '0');
            assert(s[4] == hex_digit(((c as u32) / 16) as int));
            assert(s[5] == hex_digit(((c as u32) % 16) as int));
            lemma_hex_digit_val(((c as u32) / 16) as int);
            lemma_hex_digit_val(((c as u32) % 16) as int);
            let v: u32 = (((c as u32) / 16) * 16 + ((c as u32) % 16)) as u32;
            assert(hex_val4(s[2], s[3], s[4], s[5]) == Some(v));
            assert(v == c as u32);
            assert(v < 128);
            assert(((v as u8) as char) == c) by {
                vstd::utf8::char_u32_cast(c, c as u32);
                assert((v as u8) as u32 == c as u32);
            }
            assert(s.skip(6) =~= rest);
            assert(parse_string_body(s) == Some((seq![c] + m.skip(1), seq!['}'])));
        } else {
            assert(e =~= seq![c]);
            assert(s[0] == c);
            assert(c != '"' && c != '\\');
            assert(s.skip(1) =~= rest);
            assert(parse_string_body(s) == Some((seq![c] + m.skip(1), seq!['}'])));
        }
    }
}

/// Round trip: a frame built by the inbound encoder decodes back to
/// exactly the message body that was encoded.
pub proof fn lemma_inbound_round_trip(m: Seq<char>)
    ensures
        decode_inbound_spec(inbound_frame(m)) == Some(m),
{
    let f = inbound_frame(m);
    assert(f.take(12) =~= inbound_prefix());
    assert(f.skip(12) =~= json_escaped(m) + seq!['"', '}']);
    lemma_parse_escaped(m);
}

/// The hexadecimal digit (lower case) for a value below sixteen.
fn hex_digit_exec(n: u32) -> (c: char)
    requires
        n < 16,
    ensures
        c == hex_digit(n as int),
{
    match n {
        0 => '0',
        1 => '1',
        2 => '2',
        3 => '3',
        4 => '4',
        5 => '5',
        6 => '6',
        7 => '7',
        8 => '8',
        9 => '9',
        10 => 'a',
        11 => 'b',
        12 => 'c',
        13 => 'd',
        14 => 'e',
        _ => 'f',
    }
}

/// Append one message character to the output in its escaped form.
fn push_escaped(out: &mut String, c: char)
    ensures
        final(out)@ == old(out)@ + escaped_char(c),
{
    if c == '"' {
        out.push('\\');
        out.push('"');
    } else if c == '\\' {
        out.push('\\');
        out.push('\\');
    } else if c == '\n' {
        out.push('\\');
        out.push('n');
    } else if c == '\r' {
        out.push('\\');
        out.push('r');
    } else if c == '\t' {
        out.push('\\');
        out.push('t');
    } else if c == '\u{8}' {
        out.push('\\');
        out.push('b');
    } else if c == '\u{c}' {
        out.push('\\');
        out.push('f');
    } else if (c as u32) < 32 {
        out.push('\\');
        out.push('u');
        out.push('0');
        out.push('0');
        out.push(hex_digit_exec((c as u32) / 16));
        out.push(hex_digit_exec((c as u32) % 16));
    } else {
        out.push(c);
    }
    proof {
        assert(out@ =~= old(out)@ + escaped_char(c));
    }
}

/// Append a whole text to the output in its escaped form.
fn append_escaped(out: &mut String, s: &str)
    ensures
        final(out)@ == old(out)@ + json_escaped(s@),
{
    let ghost out0 = out@;
    let n = s.unicode_len();
    let mut i: usize = 0;
    while i < n
        invariant
            n == s@.len(),
            i <= n,
            out@ == out0 + json_escaped(s@.take(i as int)),
        decreases n - i,
    {
        let c = s.get_char(i);
        push_escaped(out, c);
        proof {
            assert(s@.take(i + 1) =~= s@.take(i as int).push(c));
            lemma_json_escaped_snoc(s@.take(i as int), c);
            assert(out@ =~= out0 + json_escaped(s@.take(i + 1)));
        }
        i = i + 1;
    }
    proof {
        assert(s@.take(n as int) =~= s@);
    }
}

/// Encode an enriched message for the wire.
pub fn encode_outbound(user: &str, message: &str) -> (r: String)
    ensures
        r@ == outbound_frame(user@, message@),
{
    let mut out = String::new();
    out.push('{');
    out.push('"');
    out.push('u');
    out.push('s');
    out.push('e');
    out.push('r');
    out.push('"');
    out.push(':');
    out.push('"');
    append_escaped(&mut out, user);
    out.push('"');
    out.push(',');
    out.push('"');
    out.push('m');
    out.push('e');
    out.push('s');
    out.push('s');
    out.push('a');
    out.push('g');
    out.push('e');
    out.push('"');
    out.push(':');
    out.push('"');
    append_escaped(&mut out, message);
    out.push('"');
    out.push('}');
    proof {
        assert(out@ =~= outbound_frame(user@, message@));
    }
    out
}

/// Encode a message body as an inbound frame, as a well-behaved client
/// would send it.
pub fn encode_inbound(message: &str) -> (r: String)
    ensures
        r@ == inbound_frame(message@),
{
    let mut out = String::new();
    out.push('{');
    out.push('"');
    out.push('m');
    out.push('e');
    out.push('s');
    out.push('s');
    out.push('a');
    out.push('g');
    out.push('e');
    out.push('"');
    out.push(':');
    out.push('"');
    append_escaped(&mut out, message);
    out.push('"');
    out.push('}');
    proof {
        assert(out@ =~= inbound_frame(message@));
    }
    out
}

/// The value of one hexadecimal digit, upper or lower case.
fn hex_val_exec(c: char) -> (r: Option<u32>)
    ensures
        r == hex_val(c),
{
    let v = c as u32;
    if 48 <= v && v <= 57 {
        Some(v - 48)
    } else if 97 <= v && v <= 102 {
        Some(v - 87)
    } else if 65 <= v && v <= 70 {
        Some(v - 55)
    } else {
        None
    }
}

/// The character a simple backslash escape stands for.
fn unescape_simple_exec(e: char) -> (r: Option<char>)
    ensures
        r == unescape_simple(e),
{
    if e == '"' {
        Some('"')
    } else if e == '\\' {
        Some('\\')
    } else if e == '/' {
        Some('/')
    } else if e == 'n' {
        Some('\n')
    } else if e == 'r' {
        Some('\r')
    } else if e == 't' {
        Some('\t')
    } else if e == 'b' {
        Some('\u{8}')
    } else if e == 'f' {
        Some('\u{c}')
    } else {
        None
    }
}

/// The character at one position of the fixed frame opening.
fn inbound_prefix_char(k: usize) -> (c: char)
    requires
        k < 12,
    ensures
        c == inbound_prefix()[k as int],
{
    match k {
        0 => '{',
        1 => '"',
        2 => 'm',
        3 => 'e',
        4 => 's',
        5 => 's',
        6 => 'a',
        7 => 'g',
        8 => 'e',
        9 => '"',
        10 => ':',
        _ => '"',
    }
}

/// Decode one inbound frame into its message body.  `None` is the
/// silent-discard case: the frame is not a chat message of the wire shape
/// and is ignored.
pub fn decode_inbound(frame: &str) -> (r: Option<String>)
    ensures
        match r {
            Some(m) => decode_inbound_spec(frame@) == Some(m@),
            None => decode_inbound_spec(frame@) == None::<Seq<char>>,
        },
{
    let n = frame.unicode_len();
    if n < 12 {
        return None;
    }
    let mut k: usize = 0;
    while k < 12
        invariant
            n == frame@.len(),
            n >= 12,
            k <= 12,
            forall|j: int| 0 <= j < k ==> frame@[j] == inbound_prefix()[j],
        decreases 12 - k,
    {
        let c = frame.get_char(k);
        if c != inbound_prefix_char(k) {
            proof {
                assert(frame@.take(12) != inbound_prefix()) by {
                    assert(frame@.take(12)[k as int] == frame@[k as int]);
                    if frame@.take(12) == inbound_prefix() {
                        assert(frame@.take(12)[k as int] == inbound_prefix()[k as int]);
                    }
                }
            }
            return None;
        }
        k = k + 1;
    }
    proof {
        assert(frame@.take(12) =~= inbound_prefix());
    }
    let mut i: usize = 12;
    let mut body = String::new();
    loop
        invariant
            n == frame@.len(),
            12 <= i <= n,
            frame@.take(12) == inbound_prefix(),
            parse_string_body(frame@.skip(12)) == prepend_parse(
                body@,
                parse_string_body(frame@.skip(i as int)),
            ),
        decreases n - i,
    {
        let ghost s_i = frame@.skip(i as int);
        if i == n {
            proof {
                assert(s_i.len() == 0);
                assert(parse_string_body(s_i) == None::<(Seq<char>, Seq<char>)>);
            }
            return None;
        }
        let c = frame.get_char(i);
        proof {
            assert(s_i[0] == frame@[i as int]);
        }
        if c == '"' {
            proof {
                assert(s_i.skip(1) =~= frame@.skip(i + 1));
                assert(parse_string_body(s_i) == Some(
                    (Seq::<char>::empty(), frame@.skip(i + 1)),
                ));
                assert(body@ + Seq::<char>::empty() =~= body@);
                assert(parse_string_body(frame@.skip(12)) == Some((body@, frame@.skip(i + 1))));
            }
            if n - i == 2 {
                let cb = frame.get_char(i + 1);
                if cb == '}' {
                    proof {
                        assert(frame@.skip(i + 1) =~= seq!['}']) by {
                            assert(frame@.skip(i + 1).len() == 1);
                            assert(frame@.skip(i + 1)[0] == frame@[i + 1]);
                        }
                    }
                    return Some(body);
                }
                proof {
                    assert(frame@.skip(i + 1) != seq!['}']) by {
                        assert(frame@.skip(i + 1)[0] == frame@[i + 1]);
                        if frame@.skip(i + 1) == seq!['}'] {
                            assert(frame@.skip(i + 1)[0] == '}');
                        }
                    }
                }
                return None;
            } else {
                proof {
                    assert(frame@.skip(i + 1).len() != 1);
                    assert(frame@.skip(i + 1) != seq!['}']);
                }
                return None;
            }
        } else if c == '\\' {
            if n - i < 2 {
                proof {
                    assert(s_i.len() < 2);
                    assert(parse_string_body(s_i) == None::<(Seq<char>, Seq<char>)>);
                }
                return None;
            }
            let e = frame.get_char(i + 1);
            proof {
                assert(s_i[1] == frame@[i + 1]);
            }
            if e == 'u' {
                if n - i < 6 {
                    proof {
                        assert(s_i.len() < 6);
                        assert(parse_string_body(s_i) == None::<(Seq<char>, Seq<char>)>);
                    }
                    return None;
                }
                proof {
                    assert(s_i[2] == frame@[i + 2]);
                    assert(s_i[3] == frame@[i + 3]);
                    assert(s_i[4] == frame@[i + 4]);
                    assert(s_i[5] == frame@[i + 5]);
                }
                let h0 = hex_val_exec(frame.get_char(i + 2));
                let h1 = hex_val_exec(frame.get_char(i + 3));
                let h2 = hex_val_exec(frame.get_char(i + 4));
                let h3 = hex_val_exec(frame.get_char(i + 5));
                match (h0, h1, h2, h3) {
                    (Some(x), Some(y), Some(z), Some(w)) => {
                        let v = x * 4096 + y * 256 + z * 16 + w;
                        proof {
                            assert(hex_val4(s_i[2], s_i[3], s_i[4], s_i[5]) == Some(v));
                        }
                        if v < 128 {
                            let ghost pre_body = body@;
                            let decoded = (v as u8) as char;
                            body.push(decoded);
                            proof {
                                assert(s_i.skip(6) =~= frame@.skip(i + 6));
                                assert(parse_string_body(s_i) == prepend_parse(
                                    seq![decoded],
                                    parse_string_body(frame@.skip(i + 6)),
                                ));
                                lemma_prepend_assoc(
                                    pre_body,
                                    seq![decoded],
                                    parse_string_body(frame@.skip(i + 6)),
                                );
                                assert(pre_body + seq![decoded] =~= body@);
                            }
                            i = i + 6;
                        } else {
                            proof {
                                assert(parse_string_body(s_i) == None::<(Seq<char>, Seq<char>)>);
                            }
                            return None;
                        }
                    },
                    _ => {
                        proof {
                            assert(hex_val4(s_i[2], s_i[3], s_i[4], s_i[5]) == None::<u32>);
                            assert(parse_string_body(s_i) == None::<(Seq<char>, Seq<char>)>);
                        }
                        return None;
                    },
                }
            } else {
                match unescape_simple_exec(e) {
                    Some(c2) => {
                        let ghost pre_body = body@;
                        body.push(c2);
                        proof {
                            assert(s_i.skip(2) =~= frame@.skip(i + 2));
                            assert(parse_string_body(s_i) == prepend_parse(
                                seq![c2],
                                parse_string_body(frame@.skip(i + 2)),
                            ));
                            lemma_prepend_assoc(
                                pre_body,
                                seq![c2],
                                parse_string_body(frame@.skip(i + 2)),
                            );
                            assert(pre_body + seq![c2] =~= body@);
                        }
                        i = i + 2;
                    },
                    None => {
                        proof {
                            assert(parse_string_body(s_i) == None::<(Seq<char>, Seq<char>)>);
                        }
                        return None;
                    },
                }
            }
        } else {
            let ghost pre_body = body@;
            body.push(c);
            proof {
                assert(s_i.skip(1) =~= frame@.skip(i + 1));
                assert(parse_string_body(s_i) == prepend_parse(
                    seq![c],
                    parse_string_body(frame@.skip(i + 1)),
                ));
                lemma_prepend_assoc(pre_body, seq![c], parse_string_body(frame@.skip(i + 1)));
                assert(pre_body + seq![c] =~= body@);
            }
            i = i + 1;
        }
    }
}

} // verus!
