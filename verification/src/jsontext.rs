//! The canonical JSON text this library writes and reads: string escaping
//! with its strict inverse, and helpers for emitting quoted strings and
//! decimal numbers. Canonical producers emit no superfluous whitespace and
//! escape exactly `"`, `\`, and control characters.
use vstd::prelude::*;

verus! {

/// Lowercase hexadecimal digit for a value below 16.
pub open spec fn hex_lo_spec(d: nat) -> char {
    if d == 0 {
        '0'
    } else if d == 1 {
        '1'
    } else if d == 2 {
        '2'
    } else if d == 3 {
        '3'
    } else if d == 4 {
        '4'
    } else if d == 5 {
        '5'
    } else if d == 6 {
        '6'
    } else if d == 7 {
        '7'
    } else if d == 8 {
        '8'
    } else if d == 9 {
        '9'
    } else if d == 10 {
        'a'
    } else if d == 11 {
        'b'
    } else if d == 12 {
        'c'
    } else if d == 13 {
        'd'
    } else if d == 14 {
        'e'
    } else if d == 15 {
        'f'
    } else {
        'f'
    }
}

fn hex_lo(d: u8) -> (r: char)
    requires
        d < 16,
    ensures
        r == hex_lo_spec(d as nat),
{
    if d == 0 {
        '0'
    } else if d == 1 {
        '1'
    } else if d == 2 {
        '2'
    } else if d == 3 {
        '3'
    } else if d == 4 {
        '4'
    } else if d == 5 {
        '5'
    } else if d == 6 {
        '6'
    } else if d == 7 {
        '7'
    } else if d == 8 {
        '8'
    } else if d == 9 {
        '9'
    } else if d == 10 {
        'a'
    } else if d == 11 {
        'b'
    } else if d == 12 {
        'c'
    } else if d == 13 {
        'd'
    } else if d == 14 {
        'e'
    } else if d == 15 {
        'f'
    } else {
        'f'
    }
}

/// Value of a lowercase hexadecimal digit character.
pub open spec fn hex_val_spec(c: char) -> Option<u8> {
    if c == '0' {
        Option::Some(0)
    } else if c == '1' {
        Option::Some(1)
    } else if c == '2' {
        Option::Some(2)
    } else if c == '3' {
        Option::Some(3)
    } else if c == '4' {
        Option::Some(4)
    } else if c == '5' {
        Option::Some(5)
    } else if c == '6' {
        Option::Some(6)
    } else if c == '7' {
        Option::Some(7)
    } else if c == '8' {
        Option::Some(8)
    } else if c == '9' {
        Option::Some(9)
    } else if c == 'a' {
        Option::Some(10)
    } else if c == 'b' {
        Option::Some(11)
    } else if c == 'c' {
        Option::Some(12)
    } else if c == 'd' {
        Option::Some(13)
    } else if c == 'e' {
        Option::Some(14)
    } else if c == 'f' {
        Option::Some(15)
    } else {
        Option::None
    }
}

fn hex_val(c: char) -> (r: Option<u8>)
    ensures
        r == hex_val_spec(c),
        r matches Some(d) ==> d < 16,
{
    if c == '0' {
        Option::Some(0)
    } else if c == '1' {
        Option::Some(1)
    } else if c == '2' {
        Option::Some(2)
    } else if c == '3' {
        Option::Some(3)
    } else if c == '4' {
        Option::Some(4)
    } else if c == '5' {
        Option::Some(5)
    } else if c == '6' {
        Option::Some(6)
    } else if c == '7' {
        Option::Some(7)
    } else if c == '8' {
        Option::Some(8)
    } else if c == '9' {
        Option::Some(9)
    } else if c == 'a' {
        Option::Some(10)
    } else if c == 'b' {
        Option::Some(11)
    } else if c == 'c' {
        Option::Some(12)
    } else if c == 'd' {
        Option::Some(13)
    } else if c == 'e' {
        Option::Some(14)
    } else if c == 'f' {
        Option::Some(15)
    } else {
        Option::None
    }
}

proof fn lemma_hex_roundtrip(d: nat)
    requires
        d < 16,
    ensures
        hex_val_spec(hex_lo_spec(d)) == Option::Some(d as u8),
{
}

/// The character with a given control code.
fn control_char(code: u8) -> (r: char)
    requires
        code < 32,
    ensures
        r == code as char,
{
    let c =
    match code {
        0 => '\u{0}',
        1 => '\u{1}',
        2 => '\u{2}',
        3 => '\u{3}',
        4 => '\u{4}',
        5 => '\u{5}',
        6 => '\u{6}',
        7 => '\u{7}',
        8 => '\u{8}',
        9 => '\u{9}',
        10 => '\u{a}',
        11 => '\u{b}',
        12 => '\u{c}',
        13 => '\u{d}',
        14 => '\u{e}',
        15 => '\u{f}',
        16 => '\u{10}',
        17 => '\u{11}',
        18 => '\u{12}',
        19 => '\u{13}',
        20 => '\u{14}',
        21 => '\u{15}',
        22 => '\u{16}',
        23 => '\u{17}',
        24 => '\u{18}',
        25 => '\u{19}',
        26 => '\u{1a}',
        27 => '\u{1b}',
        28 => '\u{1c}',
        29 => '\u{1d}',
        30 => '\u{1e}',
        _ => '\u{1f}',
    };
    proof {
        broadcast use vstd::utf8::char_u32_cast;

        assert((code as u32) as char == c);
    }
    c
}

/// How one character appears inside a canonical JSON string.
pub open spec fn esc_char(c: char) -> Seq<char> {
    if c == '"' {
        seq!['\\', '"']
    } else if c == '\\' {
        seq!['\\', '\\']
    } else if c == '\n' {
        seq!['\\', 'n']
    } else if c == '\r' {
        seq!['\\', 'r']
    } else if c == '\t' {
        seq!['\\', 't']
    } else if (c as u32) < 32 {
        seq!['\\', 'u', '0', '0', hex_lo_spec(((c as u32) / 16) as nat), hex_lo_spec(
            ((c as u32) % 16) as nat,
        )]
    } else {
        seq![c]
    }
}

/// A character sequence escaped for a canonical JSON string.
pub open spec fn esc_str(s: Seq<char>) -> Seq<char>
    decreases s.len(),
{
    if s.len() == 0 {
        Seq::empty()
    } else {
        esc_char(s[0]) + esc_str(s.drop_first())
    }
}

pub proof fn lemma_esc_str_push(s: Seq<char>, c: char)
    ensures
        esc_str(s.push(c)) == esc_str(s) + esc_char(c),
    decreases s.len(),
{
    let p = s.push(c);
    if s.len() == 0 {
        assert(p.len() == 1);
        assert(p[0] == c);
        assert(p.drop_first() =~= Seq::<char>::empty());
        assert(esc_str(p.drop_first()) == Seq::<char>::empty());
        assert(esc_str(p) == esc_char(c) + esc_str(p.drop_first()));
        assert(esc_char(c) + Seq::<char>::empty() =~= esc_char(c));
        assert(esc_str(s) == Seq::<char>::empty());
        assert(esc_str(s) + esc_char(c) =~= esc_char(c));
    } else {
        assert(p[0] == s[0]);
        assert(p.drop_first() =~= s.drop_first().push(c));
        lemma_esc_str_push(s.drop_first(), c);
        assert(esc_str(p) == esc_char(s[0]) + (esc_str(s.drop_first()) + esc_char(c)));
        assert(esc_char(s[0]) + (esc_str(s.drop_first()) + esc_char(c)) =~= (esc_char(s[0])
            + esc_str(s.drop_first())) + esc_char(c));
    }
}

/// A whole canonical JSON string literal: quote, escaped body, quote.
pub open spec fn jstr_spec(s: Seq<char>) -> Seq<char> {
    seq!['"'] + esc_str(s) + seq!['"']
}

/// Append the escaped form of one character.
fn push_esc_char(out: &mut Vec<char>, c: char)
    ensures
        final(out)@ == old(out)@ + esc_char(c),
{
    let u = c as u32;
    if c == '"' {
        out.push('\\');
        out.push('"');
        proof {
            assert(out@ =~= old(out)@ + esc_char(c));
        }
    } else if c == '\\' {
        out.push('\\');
        out.push('\\');
        proof {
            assert(out@ =~= old(out)@ + esc_char(c));
        }
    } else if c == '\n' {
        out.push('\\');
        out.push('n');
        proof {
            assert(out@ =~= old(out)@ + esc_char(c));
        }
    } else if c == '\r' {
        out.push('\\');
        out.push('r');
        proof {
            assert(out@ =~= old(out)@ + esc_char(c));
        }
    } else if c == '\t' {
        out.push('\\');
        out.push('t');
        proof {
            assert(out@ =~= old(out)@ + esc_char(c));
        }
    } else if u < 32 {
        out.push('\\');
        out.push('u');
        out.push('0');
        out.push('0');
        out.push(hex_lo((u / 16) as u8));
        out.push(hex_lo((u % 16) as u8));
        proof {
            assert(out@ =~= old(out)@ + esc_char(c));
        }
    } else {
        out.push(c);
        proof {
            assert(out@ =~= old(out)@ + esc_char(c));
        }
    }
}

/// Append a canonical JSON string literal for `s`.
pub fn push_json_string(out: &mut Vec<char>, s: &str)
    ensures
        final(out)@ == old(out)@ + jstr_spec(s@),
{
    let v = crate::text::chars_vec(s);
    out.push('"');
    let mut i: usize = 0;
    while i < v.len()
        invariant
            i <= v.len(),
            v@ == s@,
            out@ == old(out)@ + seq!['"'] + esc_str(v@.subrange(0, i as int)),
        decreases v.len() - i,
    {
        let ghost pre = v@.subrange(0, i as int);
        push_esc_char(out, v[i]);
        i = i + 1;
        proof {
            assert(v@.subrange(0, i as int) =~= pre.push(v@[i - 1]));
            lemma_esc_str_push(pre, v@[i - 1]);
            assert(out@ =~= old(out)@ + seq!['"'] + esc_str(v@.subrange(0, i as int)));
        }
    }
    out.push('"');
    proof {
        assert(v@.subrange(0, v@.len() as int) =~= v@);
        assert(out@ =~= old(out)@ + jstr_spec(s@));
    }
}

/// Append the decimal rendering of an unsigned number.
pub fn push_dec_u64(out: &mut Vec<char>, n: u64)
    ensures
        final(out)@ == old(out)@ + crate::text::dec_spec(n as nat),
{
    let d = crate::text::dec_u64(n);
    crate::text::push_all(out, &d);
}

/// The canonical decimal rendering of a signed number.
pub open spec fn dec_i64_spec(n: int) -> Seq<char> {
    if n < 0 {
        seq!['-'] + crate::text::dec_spec((-n) as nat)
    } else {
        crate::text::dec_spec(n as nat)
    }
}

/// Append the decimal rendering of a signed number.
pub fn push_dec_i64(out: &mut Vec<char>, n: i64)
    ensures
        final(out)@ == old(out)@ + dec_i64_spec(n as int),
{
    if n < 0 {
        out.push('-');
        let m: u64 = if n == i64::MIN {
            9223372036854775808u64
        } else {
            (-n) as u64
        };
        proof {
            assert(m as nat == (-(n as int)) as nat);
        }
        let d = crate::text::dec_u64(m);
        crate::text::push_all(out, &d);
        proof {
            assert(out@ =~= old(out)@ + dec_i64_spec(n as int));
        }
    } else {
        let d = crate::text::dec_u64(n as u64);
        crate::text::push_all(out, &d);
    }
}

/// Read a canonical JSON string body starting after the opening quote:
/// the decoded content and the count of characters consumed, the closing
/// quote included. `None` when the text is not in canonical form.
pub open spec fn parse_body_spec(t: Seq<char>) -> Option<(Seq<char>, nat)>
    decreases t.len(),
{
    if t.len() == 0 {
        Option::None
    } else if t[0] == '"' {
        Option::Some((Seq::empty(), 1 as nat))
    } else if t[0] == '\\' {
        if t.len() < 2 {
            Option::None
        } else if t[1] == '"' || t[1] == '\\' || t[1] == 'n' || t[1] == 'r' || t[1] == 't' {
            let c = if t[1] == '"' {
                '"'
            } else if t[1] == '\\' {
                '\\'
            } else if t[1] == 'n' {
                '\n'
            } else if t[1] == 'r' {
                '\r'
            } else {
                '\t'
            };
            match parse_body_spec(t.skip(2)) {
                Option::Some((tail, used)) => Option::Some((seq![c] + tail, used + 2)),
                Option::None => Option::None,
            }
        } else if t[1] == 'u' {
            if t.len() < 6 {
                Option::None
            } else if t[2] != '0' || t[3] != '0' {
                Option::None
            } else {
                match (hex_val_spec(t[4]), hex_val_spec(t[5])) {
                    (Option::Some(h), Option::Some(l)) => {
                        let code = h * 16 + l;
                        if code < 32 && code != 10 && code != 13 && code != 9 {
                            match parse_body_spec(t.skip(6)) {
                                Option::Some((tail, used)) => Option::Some(
                                    (seq![(code as u32) as char] + tail, used + 6),
                                ),
                                Option::None => Option::None,
                            }
                        } else {
                            Option::None
                        }
                    },
                    _ => Option::None,
                }
            }
        } else {
            Option::None
        }
    } else if (t[0] as u32) < 32 {
        Option::None
    } else {
        match parse_body_spec(t.skip(1)) {
            Option::Some((tail, used)) => Option::Some((seq![t[0]] + tail, used + 1)),
            Option::None => Option::None,
        }
    }
}

/// Read a canonical JSON string literal at the front of `t`: the decoded
/// content and the count of characters consumed, both quotes included.
pub open spec fn parse_jstr_spec(t: Seq<char>) -> Option<(Seq<char>, nat)> {
    if t.len() == 0 || t[0] != '"' {
        Option::None
    } else {
        match parse_body_spec(t.skip(1)) {
            Option::Some((content, used)) => Option::Some((content, used + 1)),
            Option::None => Option::None,
        }
    }
}

/// Reading a canonical string body back yields the original content.
pub proof fn lemma_parse_body_roundtrip(s: Seq<char>, rest: Seq<char>)
    ensures
        parse_body_spec(esc_str(s) + seq!['"'] + rest) == Option::<(Seq<char>, nat)>::Some(
            (s, (esc_str(s).len() + 1) as nat),
        ),
    decreases s.len(),
{
    let t = esc_str(s) + seq!['"'] + rest;
    if s.len() == 0 {
        assert(esc_str(s).len() == 0);
        assert(t[0] == '"');
        assert(s =~= Seq::<char>::empty());
    } else {
        let c = s[0];
        let e = esc_char(c);
        assert(esc_str(s) == e + esc_str(s.drop_first()));
        lemma_parse_body_roundtrip(s.drop_first(), rest);
        let t2 = esc_str(s.drop_first()) + seq!['"'] + rest;
        if c == '"' {
            assert(t[0] == '\\' && t[1] == '"');
            assert(t.skip(2) =~= t2);
            assert(seq![c] + s.drop_first() =~= s);
        } else if c == '\\' {
            assert(t[0] == '\\' && t[1] == '\\');
            assert(t.skip(2) =~= t2);
            assert(seq![c] + s.drop_first() =~= s);
        } else if c == '\n' {
            assert(t[0] == '\\' && t[1] == 'n');
            assert(t.skip(2) =~= t2);
            assert(seq![c] + s.drop_first() =~= s);
        } else if c == '\r' {
            assert(t[0] == '\\' && t[1] == 'r');
            assert(t.skip(2) =~= t2);
            assert(seq![c] + s.drop_first() =~= s);
        } else if c == '\t' {
            assert(t[0] == '\\' && t[1] == 't');
            assert(t.skip(2) =~= t2);
            assert(seq![c] + s.drop_first() =~= s);
        } else if (c as u32) < 32 {
            let u = c as u32;
            assert(t[0] == '\\' && t[1] == 'u' && t[2] == '0' && t[3] == '0');
            assert(t[4] == hex_lo_spec((u / 16) as nat));
            assert(t[5] == hex_lo_spec((u % 16) as nat));
            lemma_hex_roundtrip((u / 16) as nat);
            lemma_hex_roundtrip((u % 16) as nat);
            let h = (u / 16) as u8;
            let l = (u % 16) as u8;
            assert(h * 16 + l == u) by (nonlinear_arith)
                requires
                    h == u / 16,
                    l == u % 16,
                    u < 32,
            ;
            assert(u != 10 && u != 13 && u != 9) by {
                if u == 10 {
                    vstd::utf8::char_u32_cast(c, 10u32);
                    vstd::utf8::char_u32_cast('\n', 10u32);
                    assert(c == '\n');
                }
                if u == 13 {
                    vstd::utf8::char_u32_cast(c, 13u32);
                    vstd::utf8::char_u32_cast('\r', 13u32);
                    assert(c == '\r');
                }
                if u == 9 {
                    vstd::utf8::char_u32_cast(c, 9u32);
                    vstd::utf8::char_u32_cast('\t', 9u32);
                    assert(c == '\t');
                }
            }
            assert(t.skip(6) =~= t2);
            assert(((h * 16 + l) as u32) as char == c) by {
                vstd::utf8::char_u32_cast(c, (h * 16 + l) as u32);
            }
            assert(seq![c] + s.drop_first() =~= s);
        } else {
            assert(e =~= seq![c]);
            assert(t[0] == c);
            assert(t[0] != '"' && t[0] != '\\');
            assert(t.skip(1) =~= t2);
            assert(seq![c] + s.drop_first() =~= s);
        }
    }
}

/// Reading a canonical string literal back yields the original content.
pub proof fn lemma_parse_jstr_roundtrip(s: Seq<char>, rest: Seq<char>)
    ensures
        parse_jstr_spec(jstr_spec(s) + rest) == Option::<(Seq<char>, nat)>::Some(
            (s, (jstr_spec(s).len()) as nat),
        ),
{
    let t = jstr_spec(s) + rest;
    assert(t[0] == '"');
    assert(t.skip(1) =~= esc_str(s) + seq!['"'] + rest);
    lemma_parse_body_roundtrip(s, rest);
}

/// Read a canonical JSON string literal starting at index `i`; on success
/// the content and the index just past the closing quote.
pub fn parse_json_string_at(v: &Vec<char>, i: usize) -> (r: Option<(Vec<char>, usize)>)
    requires
        i <= v@.len(),
    ensures
        match r {
            Option::Some((content, next)) => {
                &&& parse_jstr_spec(v@.skip(i as int)) == Option::<(Seq<char>, nat)>::Some(
                    (content@, (next - i) as nat),
                )
                &&& i < next <= v@.len()
            },
            Option::None => parse_jstr_spec(v@.skip(i as int)) is None,
        },
{
    let n = v.len();
    if i >= n || v[i] != '"' {
        proof {
            if i < n {
                assert(v@.skip(i as int)[0] == v@[i as int]);
            }
        }
        return Option::None;
    }
    proof {
        assert(v@.skip(i as int)[0] == v@[i as int]);
        assert(v@.skip(i as int).skip(1) =~= v@.skip(i + 1));
    }
    let mut out: Vec<char> = Vec::new();
    let mut j: usize = i + 1;
    loop
        invariant
            i + 1 <= j <= n,
            n == v@.len(),
            v@[i as int] == '"',
            v@.skip(i as int)[0] == '"',
            v@.skip(i as int).skip(1) == v@.skip(i + 1),
            match parse_body_spec(v@.skip(j as int)) {
                Option::Some((tail, used)) => parse_body_spec(v@.skip(i + 1)) == Option::<
                    (Seq<char>, nat),
                >::Some((out@ + tail, ((j - i - 1) + used) as nat)),
                Option::None => parse_body_spec(v@.skip(i + 1)) is None,
            },
        decreases n - j,
    {
        let ghost t = v@.skip(j as int);
        if j >= n {
            proof {
                assert(t.len() == 0);
            }
            return Option::None;
        }
        proof {
            assert(t[0] == v@[j as int]);
            assert(t.len() > 0);
        }
        let c = v[j];
        if c == '"' {
            proof {
                assert(parse_body_spec(t) == Option::<(Seq<char>, nat)>::Some(
                    (Seq::<char>::empty(), 1 as nat),
                ));
                assert(out@ + Seq::<char>::empty() =~= out@);
            }
            return Option::Some((out, j + 1));
        }
        if c == '\\' {
            if j + 1 >= n {
                proof {
                    assert(t.len() < 2);
                }
                return Option::None;
            }
            let e = v[j + 1];
            proof {
                assert(t[1] == v@[j + 1]);
            }
            if e == '"' || e == '\\' || e == 'n' || e == 'r' || e == 't' {
                let decoded = if e == '"' {
                    '"'
                } else if e == '\\' {
                    '\\'
                } else if e == 'n' {
                    '\n'
                } else if e == 'r' {
                    '\r'
                } else {
                    '\t'
                };
                let ghost old_out = out@;
                out.push(decoded);
                j = j + 2;
                proof {
                    assert(t.skip(2) =~= v@.skip(j as int));
                    assert(out@ =~= old_out.push(decoded));
                    if parse_body_spec(v@.skip(j as int)) is Some {
                        let (tail, used) = parse_body_spec(v@.skip(j as int))->Some_0;
                        assert(parse_body_spec(t) == Option::<(Seq<char>, nat)>::Some(
                            (seq![decoded] + tail, used + 2),
                        ));
                        assert(old_out + (seq![decoded] + tail) =~= out@ + tail);
                    }
                }
            } else if e == 'u' {
                if n - j < 6 {
                    proof {
                        assert(t.len() < 6);
                    }
                    return Option::None;
                }
                proof {
                    assert(t[2] == v@[j + 2]);
                    assert(t[3] == v@[j + 3]);
                    assert(t[4] == v@[j + 4]);
                    assert(t[5] == v@[j + 5]);
                }
                if v[j + 2] != '0' || v[j + 3] != '0' {
                    return Option::None;
                }
                let h = match hex_val(v[j + 4]) {
                    Option::Some(d) => d,
                    Option::None => {
                        return Option::None;
                    },
                };
                let l = match hex_val(v[j + 5]) {
                    Option::Some(d) => d,
                    Option::None => {
                        return Option::None;
                    },
                };
                let code = h * 16 + l;
                if !(code < 32 && code != 10 && code != 13 && code != 9) {
                    return Option::None;
                }
                let decoded = control_char(code);
                let ghost old_out = out@;
                out.push(decoded);
                j = j + 6;
                proof {
                    assert(t.skip(6) =~= v@.skip(j as int));
                    assert(out@ =~= old_out.push(decoded));
                    if parse_body_spec(v@.skip(j as int)) is Some {
                        let (tail, used) = parse_body_spec(v@.skip(j as int))->Some_0;
                        assert(parse_body_spec(t) == Option::<(Seq<char>, nat)>::Some(
                            (seq![decoded] + tail, used + 6),
                        ));
                        assert(old_out + (seq![decoded] + tail) =~= out@ + tail);
                    }
                }
            } else {
                return Option::None;
            }
        } else {
            let u = c as u32;
            if u < 32 {
                return Option::None;
            }
            let ghost old_out = out@;
            out.push(c);
            j = j + 1;
            proof {
                assert(t.skip(1) =~= v@.skip(j as int));
                assert(out@ =~= old_out.push(c));
                if parse_body_spec(v@.skip(j as int)) is Some {
                    let (tail, used) = parse_body_spec(v@.skip(j as int))->Some_0;
                    assert(parse_body_spec(t) == Option::<(Seq<char>, nat)>::Some(
                        (seq![c] + tail, used + 1),
                    ));
                    assert(old_out + (seq![c] + tail) =~= out@ + tail);
                }
            }
        }
    }
}

/// Whether the characters of `p` stand at position `i` of `v`.
pub open spec fn lit_at(v: Seq<char>, i: int, p: Seq<char>) -> bool {
    0 <= i && i + p.len() <= v.len() && v.subrange(i, i + p.len() as int) == p
}

/// Check that the literal `p` stands at position `i`; on success the index
/// just past it.
pub fn expect_lit(v: &Vec<char>, i: usize, p: &str) -> (r: Option<usize>)
    requires
        i <= v@.len(),
    ensures
        match r {
            Option::Some(next) => lit_at(v@, i as int, p@) && next == i + p@.len(),
            Option::None => !lit_at(v@, i as int, p@),
        },
{
    let pv = crate::text::chars_vec(p);
    if pv.len() > v.len() - i {
        return Option::None;
    }
    let mut k: usize = 0;
    while k < pv.len()
        invariant
            i + pv.len() <= v@.len(),
            v@.len() <= usize::MAX,
            k <= pv.len(),
            pv@ == p@,
            forall|m: int| 0 <= m < k ==> v@[i + m] == p@[m],
        decreases pv.len() - k,
    {
        if v[i + k] != pv[k] {
            proof {
                assert(v@.subrange(i as int, i + p@.len() as int)[k as int] == v@[i + k]);
            }
            return Option::None;
        }
        k = k + 1;
    }
    proof {
        assert(v@.subrange(i as int, i + p@.len() as int) =~= p@);
    }
    Option::Some(i + pv.len())
}

} // verus!
