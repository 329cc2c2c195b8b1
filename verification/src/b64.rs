//! Base64 encoding and decoding, verified: the standard alphabet with
//! padding (shared secrets, signatures, transferred file bytes) and the
//! URL-safe alphabet without padding (invite codes). Decoding is strict:
//! it accepts exactly the canonical encodings this module produces.
use vstd::prelude::*;

verus! {

/// The alphabet character for a six-bit value; `url` picks the URL-safe
/// alphabet, which differs only in the last two characters.
#[verifier::opaque]
pub open spec fn sextet_char(n: u8, url: bool) -> char {
    if n == 0 {
        'A'
    } else if n == 1 {
        'B'
    } else if n == 2 {
        'C'
    } else if n == 3 {
        'D'
    } else if n == 4 {
        'E'
    } else if n == 5 {
        'F'
    } else if n == 6 {
        'G'
    } else if n == 7 {
        'H'
    } else if n == 8 {
        'I'
    } else if n == 9 {
        'J'
    } else if n == 10 {
        'K'
    } else if n == 11 {
        'L'
    } else if n == 12 {
        'M'
    } else if n == 13 {
        'N'
    } else if n == 14 {
        'O'
    } else if n == 15 {
        'P'
    } else if n == 16 {
        'Q'
    } else if n == 17 {
        'R'
    } else if n == 18 {
        'S'
    } else if n == 19 {
        'T'
    } else if n == 20 {
        'U'
    } else if n == 21 {
        'V'
    } else if n == 22 {
        'W'
    } else if n == 23 {
        'X'
    } else if n == 24 {
        'Y'
    } else if n == 25 {
        'Z'
    } else if n == 26 {
        'a'
    } else if n == 27 {
        'b'
    } else if n == 28 {
        'c'
    } else if n == 29 {
        'd'
    } else if n == 30 {
        'e'
    } else if n == 31 {
        'f'
    } else if n == 32 {
        'g'
    } else if n == 33 {
        'h'
    } else if n == 34 {
        'i'
    } else if n == 35 {
        'j'
    } else if n == 36 {
        'k'
    } else if n == 37 {
        'l'
    } else if n == 38 {
        'm'
    } else if n == 39 {
        'n'
    } else if n == 40 {
        'o'
    } else if n == 41 {
        'p'
    } else if n == 42 {
        'q'
    } else if n == 43 {
        'r'
    } else if n == 44 {
        's'
    } else if n == 45 {
        't'
    } else if n == 46 {
        'u'
    } else if n == 47 {
        'v'
    } else if n == 48 {
        'w'
    } else if n == 49 {
        'x'
    } else if n == 50 {
        'y'
    } else if n == 51 {
        'z'
    } else if n == 52 {
        '0'
    } else if n == 53 {
        '1'
    } else if n == 54 {
        '2'
    } else if n == 55 {
        '3'
    } else if n == 56 {
        '4'
    } else if n == 57 {
        '5'
    } else if n == 58 {
        '6'
    } else if n == 59 {
        '7'
    } else if n == 60 {
        '8'
    } else if n == 61 {
        '9'
    } else if n == 62 {
        if url {
            '-'
        } else {
            '+'
        }
    } else {
        if url {
            '_'
        } else {
            '/'
        }
    }
}

/// The six-bit value of an alphabet character, `None` for characters
/// outside the alphabet.
#[verifier::opaque]
pub open spec fn sextet_val(c: char, url: bool) -> Option<u8> {
    if c == 'A' {
        Option::Some(0)
    } else if c == 'B' {
        Option::Some(1)
    } else if c == 'C' {
        Option::Some(2)
    } else if c == 'D' {
        Option::Some(3)
    } else if c == 'E' {
        Option::Some(4)
    } else if c == 'F' {
        Option::Some(5)
    } else if c == 'G' {
        Option::Some(6)
    } else if c == 'H' {
        Option::Some(7)
    } else if c == 'I' {
        Option::Some(8)
    } else if c == 'J' {
        Option::Some(9)
    } else if c == 'K' {
        Option::Some(10)
    } else if c == 'L' {
        Option::Some(11)
    } else if c == 'M' {
        Option::Some(12)
    } else if c == 'N' {
        Option::Some(13)
    } else if c == 'O' {
        Option::Some(14)
    } else if c == 'P' {
        Option::Some(15)
    } else if c == 'Q' {
        Option::Some(16)
    } else if c == 'R' {
        Option::Some(17)
    } else if c == 'S' {
        Option::Some(18)
    } else if c == 'T' {
        Option::Some(19)
    } else if c == 'U' {
        Option::Some(20)
    } else if c == 'V' {
        Option::Some(21)
    } else if c == 'W' {
        Option::Some(22)
    } else if c == 'X' {
        Option::Some(23)
    } else if c == 'Y' {
        Option::Some(24)
    } else if c == 'Z' {
        Option::Some(25)
    } else if c == 'a' {
        Option::Some(26)
    } else if c == 'b' {
        Option::Some(27)
    } else if c == 'c' {
        Option::Some(28)
    } else if c == 'd' {
        Option::Some(29)
    } else if c == 'e' {
        Option::Some(30)
    } else if c == 'f' {
        Option::Some(31)
    } else if c == 'g' {
        Option::Some(32)
    } else if c == 'h' {
        Option::Some(33)
    } else if c == 'i' {
        Option::Some(34)
    } else if c == 'j' {
        Option::Some(35)
    } else if c == 'k' {
        Option::Some(36)
    } else if c == 'l' {
        Option::Some(37)
    } else if c == 'm' {
        Option::Some(38)
    } else if c == 'n' {
        Option::Some(39)
    } else if c == 'o' {
        Option::Some(40)
    } else if c == 'p' {
        Option::Some(41)
    } else if c == 'q' {
        Option::Some(42)
    } else if c == 'r' {
        Option::Some(43)
    } else if c == 's' {
        Option::Some(44)
    } else if c == 't' {
        Option::Some(45)
    } else if c == 'u' {
        Option::Some(46)
    } else if c == 'v' {
        Option::Some(47)
    } else if c == 'w' {
        Option::Some(48)
    } else if c == 'x' {
        Option::Some(49)
    } else if c == 'y' {
        Option::Some(50)
    } else if c == 'z' {
        Option::Some(51)
    } else if c == '0' {
        Option::Some(52)
    } else if c == '1' {
        Option::Some(53)
    } else if c == '2' {
        Option::Some(54)
    } else if c == '3' {
        Option::Some(55)
    } else if c == '4' {
        Option::Some(56)
    } else if c == '5' {
        Option::Some(57)
    } else if c == '6' {
        Option::Some(58)
    } else if c == '7' {
        Option::Some(59)
    } else if c == '8' {
        Option::Some(60)
    } else if c == '9' {
        Option::Some(61)
    } else if !url && c == '+' {
        Option::Some(62)
    } else if !url && c == '/' {
        Option::Some(63)
    } else if url && c == '-' {
        Option::Some(62)
    } else if url && c == '_' {
        Option::Some(63)
    } else {
        Option::None
    }
}

fn sextet_char_exec(n: u8, url: bool) -> (r: char)
    requires
        n < 64,
    ensures
        r == sextet_char(n, url),
{
    proof {
        reveal(sextet_char);
    }
    if n == 0 {
        'A'
    } else if n == 1 {
        'B'
    } else if n == 2 {
        'C'
    } else if n == 3 {
        'D'
    } else if n == 4 {
        'E'
    } else if n == 5 {
        'F'
    } else if n == 6 {
        'G'
    } else if n == 7 {
        'H'
    } else if n == 8 {
        'I'
    } else if n == 9 {
        'J'
    } else if n == 10 {
        'K'
    } else if n == 11 {
        'L'
    } else if n == 12 {
        'M'
    } else if n == 13 {
        'N'
    } else if n == 14 {
        'O'
    } else if n == 15 {
        'P'
    } else if n == 16 {
        'Q'
    } else if n == 17 {
        'R'
    } else if n == 18 {
        'S'
    } else if n == 19 {
        'T'
    } else if n == 20 {
        'U'
    } else if n == 21 {
        'V'
    } else if n == 22 {
        'W'
    } else if n == 23 {
        'X'
    } else if n == 24 {
        'Y'
    } else if n == 25 {
        'Z'
    } else if n == 26 {
        'a'
    } else if n == 27 {
        'b'
    } else if n == 28 {
        'c'
    } else if n == 29 {
        'd'
    } else if n == 30 {
        'e'
    } else if n == 31 {
        'f'
    } else if n == 32 {
        'g'
    } else if n == 33 {
        'h'
    } else if n == 34 {
        'i'
    } else if n == 35 {
        'j'
    } else if n == 36 {
        'k'
    } else if n == 37 {
        'l'
    } else if n == 38 {
        'm'
    } else if n == 39 {
        'n'
    } else if n == 40 {
        'o'
    } else if n == 41 {
        'p'
    } else if n == 42 {
        'q'
    } else if n == 43 {
        'r'
    } else if n == 44 {
        's'
    } else if n == 45 {
        't'
    } else if n == 46 {
        'u'
    } else if n == 47 {
        'v'
    } else if n == 48 {
        'w'
    } else if n == 49 {
        'x'
    } else if n == 50 {
        'y'
    } else if n == 51 {
        'z'
    } else if n == 52 {
        '0'
    } else if n == 53 {
        '1'
    } else if n == 54 {
        '2'
    } else if n == 55 {
        '3'
    } else if n == 56 {
        '4'
    } else if n == 57 {
        '5'
    } else if n == 58 {
        '6'
    } else if n == 59 {
        '7'
    } else if n == 60 {
        '8'
    } else if n == 61 {
        '9'
    } else if n == 62 {
        if url {
            '-'
        } else {
            '+'
        }
    } else {
        if url {
            '_'
        } else {
            '/'
        }
    }
}

fn sextet_val_exec(c: char, url: bool) -> (r: Option<u8>)
    ensures
        r == sextet_val(c, url),
        r matches Some(n) ==> n < 64 && c != '=',
{
    proof {
        reveal(sextet_val);
    }
    if c == 'A' {
        Option::Some(0)
    } else if c == 'B' {
        Option::Some(1)
    } else if c == 'C' {
        Option::Some(2)
    } else if c == 'D' {
        Option::Some(3)
    } else if c == 'E' {
        Option::Some(4)
    } else if c == 'F' {
        Option::Some(5)
    } else if c == 'G' {
        Option::Some(6)
    } else if c == 'H' {
        Option::Some(7)
    } else if c == 'I' {
        Option::Some(8)
    } else if c == 'J' {
        Option::Some(9)
    } else if c == 'K' {
        Option::Some(10)
    } else if c == 'L' {
        Option::Some(11)
    } else if c == 'M' {
        Option::Some(12)
    } else if c == 'N' {
        Option::Some(13)
    } else if c == 'O' {
        Option::Some(14)
    } else if c == 'P' {
        Option::Some(15)
    } else if c == 'Q' {
        Option::Some(16)
    } else if c == 'R' {
        Option::Some(17)
    } else if c == 'S' {
        Option::Some(18)
    } else if c == 'T' {
        Option::Some(19)
    } else if c == 'U' {
        Option::Some(20)
    } else if c == 'V' {
        Option::Some(21)
    } else if c == 'W' {
        Option::Some(22)
    } else if c == 'X' {
        Option::Some(23)
    } else if c == 'Y' {
        Option::Some(24)
    } else if c == 'Z' {
        Option::Some(25)
    } else if c == 'a' {
        Option::Some(26)
    } else if c == 'b' {
        Option::Some(27)
    } else if c == 'c' {
        Option::Some(28)
    } else if c == 'd' {
        Option::Some(29)
    } else if c == 'e' {
        Option::Some(30)
    } else if c == 'f' {
        Option::Some(31)
    } else if c == 'g' {
        Option::Some(32)
    } else if c == 'h' {
        Option::Some(33)
    } else if c == 'i' {
        Option::Some(34)
    } else if c == 'j' {
        Option::Some(35)
    } else if c == 'k' {
        Option::Some(36)
    } else if c == 'l' {
        Option::Some(37)
    } else if c == 'm' {
        Option::Some(38)
    } else if c == 'n' {
        Option::Some(39)
    } else if c == 'o' {
        Option::Some(40)
    } else if c == 'p' {
        Option::Some(41)
    } else if c == 'q' {
        Option::Some(42)
    } else if c == 'r' {
        Option::Some(43)
    } else if c == 's' {
        Option::Some(44)
    } else if c == 't' {
        Option::Some(45)
    } else if c == 'u' {
        Option::Some(46)
    } else if c == 'v' {
        Option::Some(47)
    } else if c == 'w' {
        Option::Some(48)
    } else if c == 'x' {
        Option::Some(49)
    } else if c == 'y' {
        Option::Some(50)
    } else if c == 'z' {
        Option::Some(51)
    } else if c == '0' {
        Option::Some(52)
    } else if c == '1' {
        Option::Some(53)
    } else if c == '2' {
        Option::Some(54)
    } else if c == '3' {
        Option::Some(55)
    } else if c == '4' {
        Option::Some(56)
    } else if c == '5' {
        Option::Some(57)
    } else if c == '6' {
        Option::Some(58)
    } else if c == '7' {
        Option::Some(59)
    } else if c == '8' {
        Option::Some(60)
    } else if c == '9' {
        Option::Some(61)
    } else if !url && c == '+' {
        Option::Some(62)
    } else if !url && c == '/' {
        Option::Some(63)
    } else if url && c == '-' {
        Option::Some(62)
    } else if url && c == '_' {
        Option::Some(63)
    } else {
        Option::None
    }
}

/// Alphabet values round-trip through their characters, and no alphabet
/// character is the padding character or whitespace.
pub proof fn lemma_sextet_roundtrip(n: u8, url: bool)
    requires
        n < 64,
    ensures
        sextet_val(sextet_char(n, url), url) == Option::Some(n),
        sextet_char(n, url) != '=',
        !crate::text::is_space_char(sextet_char(n, url)),
{
    reveal(sextet_char);
    reveal(sextet_val);
}

/// No character of a base64 rendering is whitespace.
pub proof fn lemma_b64_encode_no_space(b: Seq<u8>, url: bool, pad: bool)
    ensures
        forall|i: int|
            0 <= i < b64_encode_spec(b, url, pad).len() ==> !crate::text::is_space_char(
                #[trigger] b64_encode_spec(b, url, pad)[i],
            ),
    decreases b.len(),
{
    let e = b64_encode_spec(b, url, pad);
    if b.len() == 0 {
    } else if b.len() == 1 {
        lemma_sextet_roundtrip((b[0] / 4) as u8, url);
        lemma_sextet_roundtrip(((b[0] % 4) * 16) as u8, url);
        assert forall|i: int| 0 <= i < e.len() implies !crate::text::is_space_char(
            #[trigger] e[i],
        ) by {
            assert(!crate::text::is_space_char('='));
        }
    } else if b.len() == 2 {
        lemma_sextet_roundtrip((b[0] / 4) as u8, url);
        lemma_sextet_roundtrip(((b[0] % 4) * 16 + b[1] / 16) as u8, url);
        lemma_sextet_roundtrip(((b[1] % 16) * 4) as u8, url);
        assert forall|i: int| 0 <= i < e.len() implies !crate::text::is_space_char(
            #[trigger] e[i],
        ) by {
            assert(!crate::text::is_space_char('='));
        }
    } else {
        lemma_sextet_roundtrip((b[0] / 4) as u8, url);
        lemma_sextet_roundtrip(((b[0] % 4) * 16 + b[1] / 16) as u8, url);
        lemma_sextet_roundtrip(((b[1] % 16) * 4 + b[2] / 64) as u8, url);
        lemma_sextet_roundtrip((b[2] % 64) as u8, url);
        lemma_b64_encode_no_space(b.skip(3), url, pad);
        let rest = b64_encode_spec(b.skip(3), url, pad);
        assert forall|i: int| 0 <= i < e.len() implies !crate::text::is_space_char(
            #[trigger] e[i],
        ) by {
            if i >= 4 {
                assert(e[i] == rest[i - 4]);
            }
        }
    }
}

/// The base64 rendering of a byte sequence.
pub open spec fn b64_encode_spec(b: Seq<u8>, url: bool, pad: bool) -> Seq<char>
    decreases b.len(),
{
    if b.len() == 0 {
        Seq::empty()
    } else if b.len() == 1 {
        let s0 = (b[0] / 4) as u8;
        let s1 = ((b[0] % 4) * 16) as u8;
        let base = seq![sextet_char(s0, url), sextet_char(s1, url)];
        if pad {
            base + seq!['=', '=']
        } else {
            base
        }
    } else if b.len() == 2 {
        let s0 = (b[0] / 4) as u8;
        let s1 = ((b[0] % 4) * 16 + b[1] / 16) as u8;
        let s2 = ((b[1] % 16) * 4) as u8;
        let base = seq![sextet_char(s0, url), sextet_char(s1, url), sextet_char(s2, url)];
        if pad {
            base + seq!['=']
        } else {
            base
        }
    } else {
        let s0 = (b[0] / 4) as u8;
        let s1 = ((b[0] % 4) * 16 + b[1] / 16) as u8;
        let s2 = ((b[1] % 16) * 4 + b[2] / 64) as u8;
        let s3 = (b[2] % 64) as u8;
        seq![
            sextet_char(s0, url),
            sextet_char(s1, url),
            sextet_char(s2, url),
            sextet_char(s3, url),
        ] + b64_encode_spec(b.skip(3), url, pad)
    }
}

/// The bytes a base64 text stands for, `None` when the text is not a
/// canonical encoding.
pub open spec fn b64_decode_spec(s: Seq<char>, url: bool, pad: bool) -> Option<Seq<u8>>
    decreases s.len(),
{
    if s.len() == 0 {
        Option::Some(Seq::empty())
    } else if s.len() < 4 && pad {
        Option::None
    } else if s.len() == 1 {
        Option::None
    } else if s.len() == 2 {
        match (sextet_val(s[0], url), sextet_val(s[1], url)) {
            (Option::Some(a), Option::Some(b)) => if b % 16 == 0 {
                Option::Some(seq![(a * 4 + b / 16) as u8])
            } else {
                Option::None
            },
            _ => Option::None,
        }
    } else if s.len() == 3 {
        match (sextet_val(s[0], url), sextet_val(s[1], url), sextet_val(s[2], url)) {
            (Option::Some(a), Option::Some(b), Option::Some(c)) => if c % 4 == 0 {
                Option::Some(seq![(a * 4 + b / 16) as u8, ((b % 16) * 16 + c / 4) as u8])
            } else {
                Option::None
            },
            _ => Option::None,
        }
    } else if s.len() == 4 && pad && s[3] == '=' {
        if s[2] == '=' {
            match (sextet_val(s[0], url), sextet_val(s[1], url)) {
                (Option::Some(a), Option::Some(b)) => if b % 16 == 0 {
                    Option::Some(seq![(a * 4 + b / 16) as u8])
                } else {
                    Option::None
                },
                _ => Option::None,
            }
        } else {
            match (sextet_val(s[0], url), sextet_val(s[1], url), sextet_val(s[2], url)) {
                (Option::Some(a), Option::Some(b), Option::Some(c)) => if c % 4 == 0 {
                    Option::Some(seq![(a * 4 + b / 16) as u8, ((b % 16) * 16 + c / 4) as u8])
                } else {
                    Option::None
                },
                _ => Option::None,
            }
        }
    } else {
        match (
            sextet_val(s[0], url),
            sextet_val(s[1], url),
            sextet_val(s[2], url),
            sextet_val(s[3], url),
        ) {
            (Option::Some(a), Option::Some(b), Option::Some(c), Option::Some(d)) => {
                match b64_decode_spec(s.skip(4), url, pad) {
                    Option::Some(rest) => Option::Some(
                        seq![
                            (a * 4 + b / 16) as u8,
                            ((b % 16) * 16 + c / 4) as u8,
                            ((c % 4) * 64 + d) as u8,
                        ] + rest,
                    ),
                    Option::None => Option::None,
                }
            },
            _ => Option::None,
        }
    }
}

/// Render bytes in base64.
#[verifier::rlimit(100)]
pub fn b64_encode(bytes: &Vec<u8>, url: bool, pad: bool) -> (r: Vec<char>)
    ensures
        r@ == b64_encode_spec(bytes@, url, pad),
{
    let mut out: Vec<char> = Vec::new();
    let mut i: usize = 0;
    let n = bytes.len();
    proof {
        assert(bytes@.skip(0) =~= bytes@);
    }
    while n - i >= 3
        invariant
            i <= n,
            n == bytes@.len(),
            b64_encode_spec(bytes@, url, pad) == out@ + b64_encode_spec(
                bytes@.skip(i as int),
                url,
                pad,
            ),
        decreases n - i,
    {
        let b0 = bytes[i];
        let b1 = bytes[i + 1];
        let b2 = bytes[i + 2];
        let ghost rem = bytes@.skip(i as int);
        proof {
            assert(rem.len() >= 3);
            assert(rem[0] == bytes@[i as int]);
            assert(rem[1] == bytes@[i + 1]);
            assert(rem[2] == bytes@[i + 2]);
            assert(rem.skip(3) =~= bytes@.skip(i + 3));
        }
        out.push(sextet_char_exec(b0 / 4, url));
        out.push(sextet_char_exec((b0 % 4) * 16 + b1 / 16, url));
        out.push(sextet_char_exec((b1 % 16) * 4 + b2 / 64, url));
        out.push(sextet_char_exec(b2 % 64, url));
        i = i + 3;
        proof {
            assert(b64_encode_spec(bytes@, url, pad) =~= out@ + b64_encode_spec(
                bytes@.skip(i as int),
                url,
                pad,
            ));
        }
    }
    let ghost rem = bytes@.skip(i as int);
    if n - i == 1 {
        let b0 = bytes[i];
        proof {
            assert(rem.len() == 1);
            assert(rem[0] == bytes@[i as int]);
        }
        out.push(sextet_char_exec(b0 / 4, url));
        out.push(sextet_char_exec((b0 % 4) * 16, url));
        if pad {
            out.push('=');
            out.push('=');
        }
        proof {
            assert(out@ =~= b64_encode_spec(bytes@, url, pad));
        }
    } else if n - i == 2 {
        let b0 = bytes[i];
        let b1 = bytes[i + 1];
        proof {
            assert(rem.len() == 2);
            assert(rem[0] == bytes@[i as int]);
            assert(rem[1] == bytes@[i + 1]);
        }
        out.push(sextet_char_exec(b0 / 4, url));
        out.push(sextet_char_exec((b0 % 4) * 16 + b1 / 16, url));
        out.push(sextet_char_exec((b1 % 16) * 4, url));
        if pad {
            out.push('=');
        }
        proof {
            assert(out@ =~= b64_encode_spec(bytes@, url, pad));
        }
    } else {
        proof {
            assert(rem.len() == 0);
            assert(out@ =~= b64_encode_spec(bytes@, url, pad));
        }
    }
    out
}

/// Read bytes back out of base64 text; `None` when the text is not a
/// canonical encoding.
#[verifier::rlimit(100)]
pub fn b64_decode(s: &Vec<char>, url: bool, pad: bool) -> (r: Option<Vec<u8>>)
    ensures
        match r {
            Option::Some(b) => b64_decode_spec(s@, url, pad) == Option::Some(b@),
            Option::None => b64_decode_spec(s@, url, pad) is None,
        },
{
    let n = s.len();
    let mut out: Vec<u8> = Vec::new();
    let mut i: usize = 0;
    proof {
        assert(s@.skip(0) =~= s@);
    }
    while n - i > 4 || (!pad && n - i == 4)
        invariant
            i <= n,
            n == s@.len(),
            match b64_decode_spec(s@.skip(i as int), url, pad) {
                Option::Some(t) => b64_decode_spec(s@, url, pad) == Option::Some(out@ + t),
                Option::None => b64_decode_spec(s@, url, pad) is None,
            },
        decreases n - i,
    {
        let ghost rem = s@.skip(i as int);
        proof {
            assert(rem.len() >= 4);
            assert(rem[0] == s@[i as int]);
            assert(rem[1] == s@[i + 1]);
            assert(rem[2] == s@[i + 2]);
            assert(rem[3] == s@[i + 3]);
            assert(rem.skip(4) =~= s@.skip(i + 4));
        }
        let a = match sextet_val_exec(s[i], url) {
            Option::Some(v) => v,
            Option::None => {
                return Option::None;
            },
        };
        let b = match sextet_val_exec(s[i + 1], url) {
            Option::Some(v) => v,
            Option::None => {
                return Option::None;
            },
        };
        let c = match sextet_val_exec(s[i + 2], url) {
            Option::Some(v) => v,
            Option::None => {
                return Option::None;
            },
        };
        let d = match sextet_val_exec(s[i + 3], url) {
            Option::Some(v) => v,
            Option::None => {
                return Option::None;
            },
        };
        let ghost old_out = out@;
        out.push(a * 4 + b / 16);
        out.push((b % 16) * 16 + c / 4);
        out.push((c % 4) * 64 + d);
        i = i + 4;
        proof {
            assert(out@ =~= old_out + seq![
                (a * 4 + b / 16) as u8,
                ((b % 16) * 16 + c / 4) as u8,
                ((c % 4) * 64 + d) as u8,
            ]);
            if b64_decode_spec(s@.skip(i as int), url, pad) is Some {
                let t = b64_decode_spec(s@.skip(i as int), url, pad)->Some_0;
                assert(old_out + (seq![
                    (a * 4 + b / 16) as u8,
                    ((b % 16) * 16 + c / 4) as u8,
                    ((c % 4) * 64 + d) as u8,
                ] + t) =~= out@ + t);
            }
        }
    }
    let ghost rem = s@.skip(i as int);
    let left = n - i;
    if left == 0 {
        proof {
            assert(rem.len() == 0);
            assert(out@ + Seq::<u8>::empty() =~= out@);
        }
        return Option::Some(out);
    }
    proof {
        assert(rem.len() == left);
        assert(forall|k: int| 0 <= k < rem.len() ==> rem[k] == s@[i + k]);
    }
    if pad {
        if left != 4 {
            return Option::None;
        }
        let a = match sextet_val_exec(s[i], url) {
            Option::Some(v) => v,
            Option::None => {
                return Option::None;
            },
        };
        let b = match sextet_val_exec(s[i + 1], url) {
            Option::Some(v) => v,
            Option::None => {
                return Option::None;
            },
        };
        if s[i + 3] == '=' {
            if s[i + 2] == '=' {
                if b % 16 != 0 {
                    return Option::None;
                }
                let ghost old_out = out@;
                out.push(a * 4 + b / 16);
                proof {
                    assert(out@ =~= old_out + seq![(a * 4 + b / 16) as u8]);
                }
                return Option::Some(out);
            }
            let c = match sextet_val_exec(s[i + 2], url) {
                Option::Some(v) => v,
                Option::None => {
                    return Option::None;
                },
            };
            if c % 4 != 0 {
                return Option::None;
            }
            let ghost old_out = out@;
            out.push(a * 4 + b / 16);
            out.push((b % 16) * 16 + c / 4);
            proof {
                assert(out@ =~= old_out + seq![(a * 4 + b / 16) as u8, ((b % 16) * 16 + c / 4) as u8]);
            }
            return Option::Some(out);
        }
        let c = match sextet_val_exec(s[i + 2], url) {
            Option::Some(v) => v,
            Option::None => {
                return Option::None;
            },
        };
        let d = match sextet_val_exec(s[i + 3], url) {
            Option::Some(v) => v,
            Option::None => {
                return Option::None;
            },
        };
        let ghost old_out = out@;
        out.push(a * 4 + b / 16);
        out.push((b % 16) * 16 + c / 4);
        out.push((c % 4) * 64 + d);
        proof {
            assert(rem.skip(4) =~= Seq::<char>::empty());
            assert(b64_decode_spec(rem.skip(4), url, pad) == Option::Some(Seq::<u8>::empty()));
            assert(rem[3] != '=');
            assert(b64_decode_spec(rem, url, pad) == Option::Some(seq![
                (a * 4 + b / 16) as u8,
                ((b % 16) * 16 + c / 4) as u8,
                ((c % 4) * 64 + d) as u8,
            ] + Seq::<u8>::empty()));
            assert(out@ =~= old_out + (seq![
                (a * 4 + b / 16) as u8,
                ((b % 16) * 16 + c / 4) as u8,
                ((c % 4) * 64 + d) as u8,
            ] + Seq::<u8>::empty()));
        }
        return Option::Some(out);
    }
    if left == 1 {
        return Option::None;
    }
    let a = match sextet_val_exec(s[i], url) {
        Option::Some(v) => v,
        Option::None => {
            return Option::None;
        },
    };
    let b = match sextet_val_exec(s[i + 1], url) {
        Option::Some(v) => v,
        Option::None => {
            return Option::None;
        },
    };
    if left == 2 {
        if b % 16 != 0 {
            return Option::None;
        }
        let ghost old_out = out@;
        out.push(a * 4 + b / 16);
        proof {
            assert(out@ =~= old_out + seq![(a * 4 + b / 16) as u8]);
        }
        return Option::Some(out);
    }
    let c = match sextet_val_exec(s[i + 2], url) {
        Option::Some(v) => v,
        Option::None => {
            return Option::None;
        },
    };
    if c % 4 != 0 {
        return Option::None;
    }
    let ghost old_out = out@;
    out.push(a * 4 + b / 16);
    out.push((b % 16) * 16 + c / 4);
    proof {
        assert(out@ =~= old_out + seq![(a * 4 + b / 16) as u8, ((b % 16) * 16 + c / 4) as u8]);
    }
    return Option::Some(out);
}

/// Decoding recovers exactly what encoding produced.
#[verifier::rlimit(100)]
pub proof fn lemma_b64_roundtrip(b: Seq<u8>, url: bool, pad: bool)
    ensures
        b64_decode_spec(b64_encode_spec(b, url, pad), url, pad) == Option::Some(b),
    decreases b.len(),
{
    let e = b64_encode_spec(b, url, pad);
    if b.len() == 0 {
        assert(e.len() == 0);
        assert(b64_decode_spec(e, url, pad) == Option::Some(Seq::<u8>::empty()));
        assert(Seq::<u8>::empty() =~= b);
    } else if b.len() == 1 {
        let s0 = (b[0] / 4) as u8;
        let s1 = ((b[0] % 4) * 16) as u8;
        lemma_sextet_roundtrip(s0, url);
        lemma_sextet_roundtrip(s1, url);
        assert(s1 % 16 == 0) by (nonlinear_arith)
            requires
                s1 == (b[0] % 4) * 16,
        ;
        assert(s0 * 4 + s1 / 16 == b[0]) by (nonlinear_arith)
            requires
                s0 == b[0] / 4,
                s1 == (b[0] % 4) * 16,
        ;
        assert(seq![(s0 * 4 + s1 / 16) as u8] =~= b);
    } else if b.len() == 2 {
        let s0 = (b[0] / 4) as u8;
        let s1 = ((b[0] % 4) * 16 + b[1] / 16) as u8;
        let s2 = ((b[1] % 16) * 4) as u8;
        lemma_sextet_roundtrip(s0, url);
        lemma_sextet_roundtrip(s1, url);
        lemma_sextet_roundtrip(s2, url);
        assert(s2 % 4 == 0) by (nonlinear_arith)
            requires
                s2 == (b[1] % 16) * 4,
        ;
        assert(s0 * 4 + s1 / 16 == b[0] && (s1 % 16) * 16 + s2 / 4 == b[1]) by (nonlinear_arith)
            requires
                s0 == b[0] / 4,
                s1 == (b[0] % 4) * 16 + b[1] / 16,
                s2 == (b[1] % 16) * 4,
        ;
        assert(seq![(s0 * 4 + s1 / 16) as u8, ((s1 % 16) * 16 + s2 / 4) as u8] =~= b);
    } else {
        let s0 = (b[0] / 4) as u8;
        let s1 = ((b[0] % 4) * 16 + b[1] / 16) as u8;
        let s2 = ((b[1] % 16) * 4 + b[2] / 64) as u8;
        let s3 = (b[2] % 64) as u8;
        lemma_sextet_roundtrip(s0, url);
        lemma_sextet_roundtrip(s1, url);
        lemma_sextet_roundtrip(s2, url);
        lemma_sextet_roundtrip(s3, url);
        lemma_b64_roundtrip(b.skip(3), url, pad);
        let rest = b64_encode_spec(b.skip(3), url, pad);
        assert(e =~= seq![
            sextet_char(s0, url),
            sextet_char(s1, url),
            sextet_char(s2, url),
            sextet_char(s3, url),
        ] + rest);
        assert(e[0] == sextet_char(s0, url));
        assert(e[1] == sextet_char(s1, url));
        assert(e[2] == sextet_char(s2, url));
        assert(e[3] == sextet_char(s3, url));
        assert(e.skip(4) =~= rest);
        assert(s0 * 4 + s1 / 16 == b[0] && (s1 % 16) * 16 + s2 / 4 == b[1] && (s2 % 4) * 64 + s3
            == b[2]) by (nonlinear_arith)
            requires
                s0 == b[0] / 4,
                s1 == (b[0] % 4) * 16 + b[1] / 16,
                s2 == (b[1] % 16) * 4 + b[2] / 64,
                s3 == b[2] % 64,
        ;
        if b.skip(3).len() == 0 {
            assert(rest.len() == 0);
            assert(e.len() == 4);
            if pad {
                assert(e[3] != '=');
                assert(e[2] != '=');
            }
            assert(b64_decode_spec(e, url, pad) == Option::Some(seq![
                (s0 * 4 + s1 / 16) as u8,
                ((s1 % 16) * 16 + s2 / 4) as u8,
                ((s2 % 4) * 64 + s3) as u8,
            ] + b.skip(3)));
        } else {
            assert(rest.len() >= 2);
            assert(e.len() > 4);
            if pad && e.len() == 4 {
                assert(false);
            }
        }
        assert(seq![
            (s0 * 4 + s1 / 16) as u8,
            ((s1 % 16) * 16 + s2 / 4) as u8,
            ((s2 % 4) * 64 + s3) as u8,
        ] + b.skip(3) =~= b);
    }
}

/// Encode bytes with the standard alphabet and padding.
pub fn b64std_encode(bytes: &Vec<u8>) -> (r: String)
    ensures
        r@ == b64_encode_spec(bytes@, false, true),
{
    let chars = b64_encode(bytes, false, true);
    crate::text::string_from_chars(&chars)
}

/// Decode standard-alphabet padded base64 text.
pub fn b64std_decode(s: &str) -> (r: Option<Vec<u8>>)
    ensures
        match r {
            Option::Some(b) => b64_decode_spec(s@, false, true) == Option::Some(b@),
            Option::None => b64_decode_spec(s@, false, true) is None,
        },
{
    let chars = crate::text::chars_vec(s);
    b64_decode(&chars, false, true)
}

/// Encode bytes with the URL-safe alphabet, without padding.
pub fn b64url_encode(bytes: &Vec<u8>) -> (r: String)
    ensures
        r@ == b64_encode_spec(bytes@, true, false),
{
    let chars = b64_encode(bytes, true, false);
    crate::text::string_from_chars(&chars)
}

/// Decode URL-safe unpadded base64 text.
pub fn b64url_decode(s: &str) -> (r: Option<Vec<u8>>)
    ensures
        match r {
            Option::Some(b) => b64_decode_spec(s@, true, false) == Option::Some(b@),
            Option::None => b64_decode_spec(s@, true, false) is None,
        },
{
    let chars = crate::text::chars_vec(s);
    b64_decode(&chars, true, false)
}

} // verus!
