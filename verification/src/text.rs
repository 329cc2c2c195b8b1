//! Character-level helpers shared across the library: converting between
//! `String` and `Vec<char>`, whitespace trimming, ASCII case folding,
//! lexicographic ordering of character sequences, and decimal formatting.
use vstd::prelude::*;

verus! {

/// Relies on String::push: it appends exactly the given character.
pub assume_specification[ String::push ](s: &mut String, ch: char)
    ensures
        final(s)@ == old(s)@.push(ch),
;

/// The characters Rust's `char::is_whitespace` accepts.
pub open spec fn is_space_char(c: char) -> bool {
    let u = c as u32;
    (9 <= u && u <= 13) || u == 32 || u == 0x85 || u == 0xa0 || u == 0x1680 || (0x2000 <= u && u
        <= 0x200a) || u == 0x2028 || u == 0x2029 || u == 0x202f || u == 0x205f || u == 0x3000
}

pub fn is_space(c: char) -> (r: bool)
    ensures
        r == is_space_char(c),
{
    let u = c as u32;
    (9 <= u && u <= 13) || u == 32 || u == 0x85 || u == 0xa0 || u == 0x1680 || (0x2000 <= u && u
        <= 0x200a) || u == 0x2028 || u == 0x2029 || u == 0x202f || u == 0x205f || u == 0x3000
}

/// Lower-case counterpart of an ASCII letter; any other character is
/// unchanged. Case folding throughout this library is deliberately
/// ASCII-only: keys, algorithm names and paths are machine identifiers,
/// and an ASCII fold keeps their canonical forms locale-independent.
pub open spec fn lower_char_spec(c: char) -> char {
    match c {
        'A' => 'a',
        'B' => 'b',
        'C' => 'c',
        'D' => 'd',
        'E' => 'e',
        'F' => 'f',
        'G' => 'g',
        'H' => 'h',
        'I' => 'i',
        'J' => 'j',
        'K' => 'k',
        'L' => 'l',
        'M' => 'm',
        'N' => 'n',
        'O' => 'o',
        'P' => 'p',
        'Q' => 'q',
        'R' => 'r',
        'S' => 's',
        'T' => 't',
        'U' => 'u',
        'V' => 'v',
        'W' => 'w',
        'X' => 'x',
        'Y' => 'y',
        'Z' => 'z',
        _ => c,
    }
}

pub fn lower_char(c: char) -> (r: char)
    ensures
        r == lower_char_spec(c),
{
    match c {
        'A' => 'a',
        'B' => 'b',
        'C' => 'c',
        'D' => 'd',
        'E' => 'e',
        'F' => 'f',
        'G' => 'g',
        'H' => 'h',
        'I' => 'i',
        'J' => 'j',
        'K' => 'k',
        'L' => 'l',
        'M' => 'm',
        'N' => 'n',
        'O' => 'o',
        'P' => 'p',
        'Q' => 'q',
        'R' => 'r',
        'S' => 's',
        'T' => 't',
        'U' => 'u',
        'V' => 'v',
        'W' => 'w',
        'X' => 'x',
        'Y' => 'y',
        'Z' => 'z',
        _ => c,
    }
}

/// Lower-cased form of a character sequence (ASCII letters only).
pub open spec fn lower_spec(s: Seq<char>) -> Seq<char> {
    s.map_values(|c: char| lower_char_spec(c))
}

/// The characters of a string as a vector, for index-based processing.
pub fn chars_vec(s: &str) -> (r: Vec<char>)
    ensures
        r@ == s@,
{
    let n = s.unicode_len();
    let mut out: Vec<char> = Vec::new();
    let mut i: usize = 0;
    while i < n
        invariant
            n == s@.len(),
            i <= n,
            out@ == s@.subrange(0, i as int),
        decreases n - i,
    {
        out.push(s.get_char(i));
        i = i + 1;
        proof {
            assert(out@ =~= s@.subrange(0, i as int));
        }
    }
    proof {
        assert(out@ =~= s@);
    }
    out
}

/// Rebuild a string from a vector of characters.
pub fn string_from_chars(v: &Vec<char>) -> (r: String)
    ensures
        r@ == v@,
{
    let mut out = String::new();
    let mut i: usize = 0;
    while i < v.len()
        invariant
            i <= v.len(),
            out@ == v@.subrange(0, i as int),
        decreases v.len() - i,
    {
        out.push(v[i]);
        i = i + 1;
        proof {
            assert(out@ =~= v@.subrange(0, i as int));
        }
    }
    proof {
        assert(out@ =~= v@);
    }
    out
}

/// Append every character of `src` to `dst`.
pub fn push_all(dst: &mut Vec<char>, src: &Vec<char>)
    ensures
        final(dst)@ == old(dst)@ + src@,
{
    let mut i: usize = 0;
    while i < src.len()
        invariant
            i <= src.len(),
            dst@ == old(dst)@ + src@.subrange(0, i as int),
        decreases src.len() - i,
    {
        dst.push(src[i]);
        i = i + 1;
        proof {
            assert(dst@ =~= old(dst)@ + src@.subrange(0, i as int));
        }
    }
    proof {
        assert(dst@ =~= old(dst)@ + src@);
    }
}

/// Append every character of the string literal `src` to `dst`.
pub fn push_str_chars(dst: &mut Vec<char>, src: &str)
    ensures
        final(dst)@ == old(dst)@ + src@,
{
    let v = chars_vec(src);
    push_all(dst, &v);
}

/// `s` with all whitespace removed and ASCII letters lower-cased.
pub open spec fn despace_lower_spec(s: Seq<char>) -> Seq<char>
    decreases s.len(),
{
    if s.len() == 0 {
        Seq::empty()
    } else if is_space_char(s[0]) {
        despace_lower_spec(s.drop_first())
    } else {
        seq![lower_char_spec(s[0])] + despace_lower_spec(s.drop_first())
    }
}

/// `s` without its leading whitespace.
pub open spec fn trim_start_spec(s: Seq<char>) -> Seq<char>
    decreases s.len(),
{
    if s.len() > 0 && is_space_char(s[0]) {
        trim_start_spec(s.drop_first())
    } else {
        s
    }
}

/// `s` without its trailing whitespace.
pub open spec fn trim_end_spec(s: Seq<char>) -> Seq<char>
    decreases s.len(),
{
    if s.len() > 0 && is_space_char(s[s.len() - 1]) {
        trim_end_spec(s.drop_last())
    } else {
        s
    }
}

/// `s` without leading and trailing whitespace, as Rust's `str::trim`.
pub open spec fn trim_spec(s: Seq<char>) -> Seq<char> {
    trim_end_spec(trim_start_spec(s))
}

proof fn lemma_trim_start_skip(s: Seq<char>, i: int)
    requires
        0 <= i <= s.len(),
        forall|k: int| 0 <= k < i ==> is_space_char(s[k]),
    ensures
        trim_start_spec(s) == trim_start_spec(s.subrange(i, s.len() as int)),
    decreases i,
{
    if i > 0 {
        assert(is_space_char(s[0]));
        let t = s.drop_first();
        assert(trim_start_spec(s) == trim_start_spec(t));
        lemma_trim_start_skip(t, i - 1);
        assert(t.subrange(i - 1, t.len() as int) =~= s.subrange(i, s.len() as int));
    } else {
        assert(s.subrange(0, s.len() as int) =~= s);
    }
}

proof fn lemma_trim_start_clean(s: Seq<char>)
    requires
        s.len() == 0 || !is_space_char(s[0]),
    ensures
        trim_start_spec(s) == s,
{
}

proof fn lemma_trim_end_take(s: Seq<char>, j: int)
    requires
        0 <= j <= s.len(),
        forall|k: int| j <= k < s.len() ==> is_space_char(s[k]),
    ensures
        trim_end_spec(s) == trim_end_spec(s.subrange(0, j)),
    decreases s.len() - j,
{
    if j < s.len() {
        assert(is_space_char(s[s.len() - 1]));
        let t = s.drop_last();
        assert(trim_end_spec(s) == trim_end_spec(t));
        assert(forall|k: int| j <= k < t.len() ==> is_space_char(t[k]));
        lemma_trim_end_take(t, j);
        assert(t.subrange(0, j) =~= s.subrange(0, j));
    } else {
        assert(s.subrange(0, s.len() as int) =~= s);
    }
}

proof fn lemma_trim_end_clean(s: Seq<char>)
    requires
        s.len() == 0 || !is_space_char(s[s.len() - 1]),
    ensures
        trim_end_spec(s) == s,
{
}

/// Trimming the empty sequence yields the empty sequence.
pub proof fn lemma_trim_empty()
    ensures
        trim_spec(Seq::<char>::empty()) == Seq::<char>::empty(),
{
}

/// Characters of `v` with leading and trailing whitespace removed.
pub fn trim_chars(v: &Vec<char>) -> (r: Vec<char>)
    ensures
        r@ == trim_spec(v@),
{
    let n = v.len();
    let mut start: usize = 0;
    while start < n && is_space(v[start])
        invariant
            n == v.len(),
            start <= n,
            forall|k: int| 0 <= k < start ==> is_space_char(v@[k]),
        decreases n - start,
    {
        start = start + 1;
    }
    let mut end: usize = n;
    while end > start && is_space(v[end - 1])
        invariant
            n == v.len(),
            start <= end <= n,
            forall|k: int| 0 <= k < start ==> is_space_char(v@[k]),
            forall|k: int| end <= k < n ==> is_space_char(v@[k]),
        decreases end,
    {
        end = end - 1;
    }
    let mut out: Vec<char> = Vec::new();
    let mut i: usize = start;
    while i < end
        invariant
            start <= i <= end <= v.len(),
            out@ == v@.subrange(start as int, i as int),
        decreases end - i,
    {
        out.push(v[i]);
        i = i + 1;
        proof {
            assert(out@ =~= v@.subrange(start as int, i as int));
        }
    }
    proof {
        lemma_trim_start_skip(v@, start as int);
        let tail = v@.subrange(start as int, v@.len() as int);
        if start < n && end == start {
            assert(!is_space_char(v@[start as int]));
            assert(tail[0] == v@[start as int]);
            lemma_trim_start_clean(tail);
        } else if end > start {
            assert(!is_space_char(v@[start as int]));
            assert(tail[0] == v@[start as int]);
            lemma_trim_start_clean(tail);
        } else {
            assert(start == n && end == n);
            assert(tail.len() == 0);
            lemma_trim_start_clean(tail);
        }
        assert(trim_start_spec(v@) == tail);
        lemma_trim_end_take(tail, end - start);
        let mid = tail.subrange(0, end - start);
        if end > start {
            assert(mid[mid.len() - 1] == v@[end - 1]);
            assert(!is_space_char(mid[mid.len() - 1]));
        }
        lemma_trim_end_clean(mid);
        assert(out@ =~= mid);
    }
    out
}

/// Lower-cased copy of `v` (ASCII letters only).
pub fn lower_chars(v: &Vec<char>) -> (r: Vec<char>)
    ensures
        r@ == lower_spec(v@),
{
    let mut out: Vec<char> = Vec::new();
    let mut i: usize = 0;
    while i < v.len()
        invariant
            i <= v.len(),
            out@.len() == i,
            forall|k: int| 0 <= k < i ==> out@[k] == lower_char_spec(v@[k]),
        decreases v.len() - i,
    {
        out.push(lower_char(v[i]));
        i = i + 1;
    }
    proof {
        assert(out@ =~= lower_spec(v@));
    }
    out
}

/// Trimmed and lower-cased copy of a string, the normalization most keys use.
pub fn trim_lower(s: &str) -> (r: String)
    ensures
        r@ == lower_spec(trim_spec(s@)),
{
    let v = chars_vec(s);
    let t = trim_chars(&v);
    let l = lower_chars(&t);
    string_from_chars(&l)
}

/// Trimmed copy of a string.
pub fn trim_string(s: &str) -> (r: String)
    ensures
        r@ == trim_spec(s@),
{
    let v = chars_vec(s);
    let t = trim_chars(&v);
    string_from_chars(&t)
}

/// A character absent from a sequence is absent from its trimmed form.
pub proof fn lemma_trim_keeps_absence(s: Seq<char>, c: char)
    requires
        !s.contains(c),
    ensures
        !trim_spec(s).contains(c),
{
    lemma_trim_start_absence(s, c);
    lemma_trim_end_absence(trim_start_spec(s), c);
}

proof fn lemma_trim_start_absence(s: Seq<char>, c: char)
    requires
        !s.contains(c),
    ensures
        !trim_start_spec(s).contains(c),
    decreases s.len(),
{
    if s.len() > 0 && is_space_char(s[0]) {
        let t = s.drop_first();
        assert(!t.contains(c)) by {
            if t.contains(c) {
                let w = choose|w: int| 0 <= w < t.len() && t[w] == c;
                assert(s[w + 1] == c);
                assert(s.contains(c));
            }
        }
        lemma_trim_start_absence(t, c);
    }
}

proof fn lemma_trim_end_absence(s: Seq<char>, c: char)
    requires
        !s.contains(c),
    ensures
        !trim_end_spec(s).contains(c),
    decreases s.len(),
{
    if s.len() > 0 && is_space_char(s[s.len() - 1]) {
        let t = s.drop_last();
        assert(!t.contains(c)) by {
            if t.contains(c) {
                let w = choose|w: int| 0 <= w < t.len() && t[w] == c;
                assert(s[w] == c);
                assert(s.contains(c));
            }
        }
        lemma_trim_end_absence(t, c);
    }
}

/// Trimming a sequence without whitespace leaves it unchanged.
pub proof fn lemma_trim_no_space(s: Seq<char>)
    requires
        forall|i: int| 0 <= i < s.len() ==> !is_space_char(#[trigger] s[i]),
    ensures
        trim_spec(s) == s,
{
    if s.len() > 0 {
        assert(!is_space_char(s[0]));
        assert(!is_space_char(s[s.len() - 1]));
    }
}

/// Every character of a decimal rendering is a digit.
pub proof fn lemma_dec_all_digits(n: nat)
    ensures
        forall|i: int|
            0 <= i < dec_spec(n).len() ==> digit_val_spec(#[trigger] dec_spec(n)[i]) is Some,
    decreases n,
{
    let d = dec_spec(n);
    if n < 10 {
        assert(d == seq![digit_char_spec(n)]);
        assert(digit_val_spec(digit_char_spec(n)) is Some);
    } else {
        lemma_dec_all_digits(n / 10);
        assert(d == dec_spec(n / 10).push(digit_char_spec(n % 10)));
        assert forall|i: int| 0 <= i < d.len() implies digit_val_spec(#[trigger] d[i]) is Some by {
            if i < d.len() - 1 {
                assert(d[i] == dec_spec(n / 10)[i]);
            } else {
                assert(d[i] == digit_char_spec(n % 10));
                assert(digit_val_spec(digit_char_spec(n % 10)) is Some);
            }
        }
    }
}

/// Lexicographic order on character sequences by code point; reflexive.
pub open spec fn seq_le(a: Seq<char>, b: Seq<char>) -> bool
    decreases a.len(),
{
    if a.len() == 0 {
        true
    } else if b.len() == 0 {
        false
    } else if (a[0] as u32) < (b[0] as u32) {
        true
    } else if (a[0] as u32) > (b[0] as u32) {
        false
    } else {
        seq_le(a.drop_first(), b.drop_first())
    }
}

pub proof fn lemma_seq_le_refl(a: Seq<char>)
    ensures
        seq_le(a, a),
    decreases a.len(),
{
    if a.len() > 0 {
        lemma_seq_le_refl(a.drop_first());
    }
}

pub proof fn lemma_seq_le_total(a: Seq<char>, b: Seq<char>)
    ensures
        seq_le(a, b) || seq_le(b, a),
    decreases a.len(),
{
    if a.len() > 0 && b.len() > 0 && a[0] == b[0] {
        assert((a[0] as u32) == (b[0] as u32));
        lemma_seq_le_total(a.drop_first(), b.drop_first());
    } else if a.len() > 0 && b.len() > 0 {
        crate::text::lemma_char_cast_injective(a[0], b[0]);
    }
}

/// Distinct characters have distinct code points.
pub proof fn lemma_char_cast_injective(x: char, y: char)
    ensures
        (x as u32) == (y as u32) ==> x == y,
{
    assert((x as u32) == (y as u32) ==> x == y);
}

pub proof fn lemma_seq_le_antisym(a: Seq<char>, b: Seq<char>)
    requires
        seq_le(a, b),
        seq_le(b, a),
    ensures
        a == b,
    decreases a.len(),
{
    if a.len() == 0 {
        assert(b.len() == 0);
        assert(a =~= b);
    } else {
        assert(b.len() > 0);
        assert((a[0] as u32) == (b[0] as u32));
        lemma_char_cast_injective(a[0], b[0]);
        lemma_seq_le_antisym(a.drop_first(), b.drop_first());
        let at = a.drop_first();
        let bt = b.drop_first();
        assert(at == bt);
        assert forall|i: int| 0 <= i < a.len() implies a[i] == b[i] by {
            if i > 0 {
                assert(a[i] == at[i - 1]);
                assert(b[i] == bt[i - 1]);
            }
        }
        assert(a =~= b);
    }
}

pub proof fn lemma_seq_le_trans(a: Seq<char>, b: Seq<char>, c: Seq<char>)
    requires
        seq_le(a, b),
        seq_le(b, c),
    ensures
        seq_le(a, c),
    decreases a.len(),
{
    if a.len() > 0 && b.len() > 0 && c.len() > 0 {
        if (a[0] as u32) == (b[0] as u32) && (b[0] as u32) == (c[0] as u32) {
            lemma_seq_le_trans(a.drop_first(), b.drop_first(), c.drop_first());
        }
    }
}

/// Compare two character vectors in lexicographic order.
pub fn chars_le(a: &Vec<char>, b: &Vec<char>) -> (r: bool)
    ensures
        r == seq_le(a@, b@),
{
    let mut i: usize = 0;
    proof {
        assert(a@.subrange(0, a@.len() as int) =~= a@);
        assert(b@.subrange(0, b@.len() as int) =~= b@);
    }
    loop
        invariant
            i <= a.len(),
            i <= b.len(),
            forall|k: int| 0 <= k < i ==> a@[k] == b@[k],
            seq_le(a@, b@) == seq_le(a@.subrange(i as int, a@.len() as int), b@.subrange(
                i as int,
                b@.len() as int,
            )),
        decreases a.len() - i,
    {
        proof {
            let ra = a@.subrange(i as int, a@.len() as int);
            let rb = b@.subrange(i as int, b@.len() as int);
            if i < a.len() && i < b.len() && a@[i as int] == b@[i as int] {
                assert(ra[0] == rb[0]);
                assert(ra.drop_first() =~= a@.subrange(i + 1, a@.len() as int));
                assert(rb.drop_first() =~= b@.subrange(i + 1, b@.len() as int));
            }
        }
        if i >= a.len() {
            proof {
                assert(a@.subrange(i as int, a@.len() as int).len() == 0);
            }
            return true;
        }
        if i >= b.len() {
            proof {
                assert(b@.subrange(i as int, b@.len() as int).len() == 0);
                assert(a@.subrange(i as int, a@.len() as int).len() > 0);
            }
            return false;
        }
        let ca = a[i] as u32;
        let cb = b[i] as u32;
        proof {
            let ra = a@.subrange(i as int, a@.len() as int);
            let rb = b@.subrange(i as int, b@.len() as int);
            assert(ra[0] == a@[i as int]);
            assert(rb[0] == b@[i as int]);
        }
        if ca < cb {
            return true;
        }
        if ca > cb {
            return false;
        }
        proof {
            lemma_char_cast_injective(a@[i as int], b@[i as int]);
        }
        i = i + 1;
    }
}

/// Whether two character sequences are equal.
pub fn chars_eq(a: &Vec<char>, b: &Vec<char>) -> (r: bool)
    ensures
        r == (a@ == b@),
{
    if a.len() != b.len() {
        proof {
            assert(a@.len() != b@.len());
        }
        return false;
    }
    let mut i: usize = 0;
    while i < a.len()
        invariant
            a.len() == b.len(),
            i <= a.len(),
            forall|k: int| 0 <= k < i ==> a@[k] == b@[k],
        decreases a.len() - i,
    {
        if a[i] != b[i] {
            return false;
        }
        i = i + 1;
    }
    proof {
        assert(a@ =~= b@);
    }
    true
}

/// Whether two strings hold the same characters.
pub fn str_eq(a: &String, b: &String) -> (r: bool)
    ensures
        r == (a@ == b@),
{
    let va = chars_vec(a.as_str());
    let vb = chars_vec(b.as_str());
    chars_eq(&va, &vb)
}

/// Whether `a` comes strictly before `b` in lexicographic order.
pub fn str_lt_probe(a: &String, b: &String) -> (r: bool)
    ensures
        r == (seq_le(a@, b@) && a@ != b@),
{
    let va = chars_vec(a.as_str());
    let vb = chars_vec(b.as_str());
    let le = chars_le(&va, &vb);
    let eq = chars_eq(&va, &vb);
    le && !eq
}

/// Whether `s` equals `t` ignoring ASCII case.
pub fn eq_ignore_case(s: &str, t: &str) -> (r: bool)
    ensures
        r == (lower_spec(s@) == lower_spec(t@)),
{
    let a = chars_vec(s);
    let b = chars_vec(t);
    let la = lower_chars(&a);
    let lb = lower_chars(&b);
    chars_eq(&la, &lb)
}

/// Whether `p` is a prefix of `s`.
pub open spec fn has_prefix(s: Seq<char>, p: Seq<char>) -> bool {
    p.len() <= s.len() && s.subrange(0, p.len() as int) == p
}

pub fn chars_have_prefix(s: &Vec<char>, p: &Vec<char>) -> (r: bool)
    ensures
        r == has_prefix(s@, p@),
{
    if p.len() > s.len() {
        return false;
    }
    let mut i: usize = 0;
    while i < p.len()
        invariant
            p.len() <= s.len(),
            i <= p.len(),
            forall|k: int| 0 <= k < i ==> s@[k] == p@[k],
        decreases p.len() - i,
    {
        if s[i] != p[i] {
            proof {
                assert(s@.subrange(0, p@.len() as int)[i as int] != p@[i as int]);
            }
            return false;
        }
        i = i + 1;
    }
    proof {
        assert(s@.subrange(0, p@.len() as int) =~= p@);
    }
    true
}

/// Decimal digits of `n`, most significant first.
pub open spec fn dec_spec(n: nat) -> Seq<char>
    decreases n,
{
    if n < 10 {
        seq![digit_char_spec(n)]
    } else {
        dec_spec(n / 10).push(digit_char_spec(n % 10))
    }
}

/// The character for a single decimal digit.
pub open spec fn digit_char_spec(d: nat) -> char {
    if d == 0 {
        '0'
    } else if d == 1 {
        '1'
    } else if d == 2 {
        '2'
    } else if d == 3 {
        '3'
    } else if d == 4 {
        '4'
    } else if d == 5 {
        '5'
    } else if d == 6 {
        '6'
    } else if d == 7 {
        '7'
    } else if d == 8 {
        '8'
    } else {
        '9'
    }
}

/// Numeric value of a decimal digit character, if it is one.
pub open spec fn digit_val_spec(c: char) -> Option<nat> {
    if c == '0' {
        Option::Some(0 as nat)
    } else if c == '1' {
        Option::Some(1 as nat)
    } else if c == '2' {
        Option::Some(2 as nat)
    } else if c == '3' {
        Option::Some(3 as nat)
    } else if c == '4' {
        Option::Some(4 as nat)
    } else if c == '5' {
        Option::Some(5 as nat)
    } else if c == '6' {
        Option::Some(6 as nat)
    } else if c == '7' {
        Option::Some(7 as nat)
    } else if c == '8' {
        Option::Some(8 as nat)
    } else if c == '9' {
        Option::Some(9 as nat)
    } else {
        Option::None
    }
}

fn digit_char(d: u64) -> (r: char)
    requires
        d < 10,
    ensures
        r == digit_char_spec(d as nat),
{
    if d == 0 {
        '0'
    } else if d == 1 {
        '1'
    } else if d == 2 {
        '2'
    } else if d == 3 {
        '3'
    } else if d == 4 {
        '4'
    } else if d == 5 {
        '5'
    } else if d == 6 {
        '6'
    } else if d == 7 {
        '7'
    } else if d == 8 {
        '8'
    } else {
        '9'
    }
}

/// Decimal rendering of an unsigned 64-bit number.
pub fn dec_u64(n: u64) -> (r: Vec<char>)
    ensures
        r@ == dec_spec(n as nat),
{
    let mut rev: Vec<char> = Vec::new();
    let mut m: u64 = n;
    if m == 0 {
        rev.push('0');
        proof {
            assert(rev@ =~= dec_spec(0));
        }
        return rev;
    }
    while m > 0
        invariant
            m <= n,
            n > 0,
            m > 0 ==> dec_spec(n as nat) == dec_spec(m as nat) + rev_digits(rev@),
            m == 0 ==> rev@.len() > 0 && dec_spec(n as nat) == rev_digits(rev@),
        decreases m,
    {
        let d = m % 10;
        let ghost old_m = m as nat;
        let ghost old_rev = rev@;
        rev.push(digit_char(d));
        m = m / 10;
        proof {
            assert(rev@ =~= old_rev.push(digit_char_spec((old_m % 10) as nat)));
            lemma_rev_digits_push(old_rev, digit_char_spec((old_m % 10) as nat));
            if m > 0 {
                assert(dec_spec(old_m) == dec_spec(old_m / 10).push(
                    digit_char_spec((old_m % 10) as nat),
                ));
                assert(dec_spec(old_m) + rev_digits(old_rev) =~= dec_spec(old_m / 10) + (seq![
                    digit_char_spec((old_m % 10) as nat)] + rev_digits(old_rev)));
            } else {
                assert(old_m < 10);
                assert(dec_spec(old_m) == seq![digit_char_spec(old_m % 10)]);
                assert(dec_spec(old_m) + rev_digits(old_rev) =~= seq![
                    digit_char_spec((old_m % 10) as nat)] + rev_digits(old_rev));
            }
        }
    }
    let mut out: Vec<char> = Vec::new();
    let mut i: usize = rev.len();
    while i > 0
        invariant
            i <= rev.len(),
            out@.len() == rev@.len() - i,
            forall|k: int| 0 <= k < out@.len() ==> out@[k] == rev@[rev@.len() - 1 - k],
        decreases i,
    {
        i = i - 1;
        out.push(rev[i]);
    }
    proof {
        assert(out@ =~= rev_digits(rev@)) by {
            lemma_rev_digits_index(rev@);
            assert(forall|k: int|
                0 <= k < out@.len() ==> out@[k] == rev_digits(rev@)[k] && out@[k] == rev@[rev@.len()
                    - 1 - k]);
        }
    }
    out
}

/// A digit sequence reversed.
pub open spec fn rev_digits(s: Seq<char>) -> Seq<char>
    decreases s.len(),
{
    if s.len() == 0 {
        Seq::empty()
    } else {
        seq![s[s.len() - 1]] + rev_digits(s.drop_last())
    }
}

proof fn lemma_rev_digits_push(s: Seq<char>, c: char)
    ensures
        rev_digits(s.push(c)) == seq![c] + rev_digits(s),
{
    let p = s.push(c);
    assert(p.len() == s.len() + 1);
    assert(p[p.len() - 1] == c);
    assert(p.drop_last() =~= s);
}

proof fn lemma_rev_digits_index(s: Seq<char>)
    ensures
        rev_digits(s).len() == s.len(),
        forall|k: int| 0 <= k < s.len() ==> rev_digits(s)[k] == s[s.len() - 1 - k],
    decreases s.len(),
{
    if s.len() > 0 {
        lemma_rev_digits_index(s.drop_last());
        assert(forall|k: int|
            1 <= k < s.len() ==> rev_digits(s)[k] == rev_digits(s.drop_last())[k - 1]);
    }
}

/// Mathematical value of a digit sequence, `None` when empty or non-digit.
pub open spec fn parse_dec_spec(s: Seq<char>) -> Option<nat>
    decreases s.len(),
{
    if s.len() == 0 {
        Option::None
    } else if s.len() == 1 {
        digit_val_spec(s[0])
    } else {
        match (parse_dec_spec(s.drop_last()), digit_val_spec(s[s.len() - 1])) {
            (Option::Some(hi), Option::Some(d)) => Option::Some(hi * 10 + d),
            _ => Option::None,
        }
    }
}

/// Reading back the decimal rendering of a number yields the number.
pub proof fn lemma_dec_roundtrip(n: nat)
    ensures
        parse_dec_spec(dec_spec(n)) == Option::Some(n),
    decreases n,
{
    if n < 10 {
        assert(dec_spec(n) == seq![digit_char_spec(n)]);
        assert(digit_val_spec(digit_char_spec(n)) == Option::Some(n));
    } else {
        lemma_dec_roundtrip(n / 10);
        let s = dec_spec(n);
        assert(s == dec_spec(n / 10).push(digit_char_spec(n % 10)));
        assert(s.drop_last() =~= dec_spec(n / 10));
        assert(s[s.len() - 1] == digit_char_spec(n % 10));
        assert(dec_spec(n / 10).len() >= 1);
        assert(s.len() >= 2);
        assert(parse_dec_spec(s) == Option::Some((n / 10) * 10 + n % 10));
        assert((n / 10) * 10 + n % 10 == n) by (nonlinear_arith);
    }
}

fn digit_val(c: char) -> (r: Option<u64>)
    ensures
        match r {
            Option::Some(d) => digit_val_spec(c) == Option::Some(d as nat) && d < 10,
            Option::None => digit_val_spec(c) is None,
        },
{
    match c {
        '0' => Option::Some(0),
        '1' => Option::Some(1),
        '2' => Option::Some(2),
        '3' => Option::Some(3),
        '4' => Option::Some(4),
        '5' => Option::Some(5),
        '6' => Option::Some(6),
        '7' => Option::Some(7),
        '8' => Option::Some(8),
        '9' => Option::Some(9),
        _ => Option::None,
    }
}

/// Parse a decimal number no larger than `bound`; `None` on empty input,
/// a non-digit, or a value over the bound.
pub fn parse_dec_bounded(v: &Vec<char>, start: usize, end: usize, bound: u64) -> (r: Option<u64>)
    requires
        start <= end <= v@.len(),
    ensures
        match r {
            Option::Some(n) => parse_dec_spec(v@.subrange(start as int, end as int))
                == Option::Some(n as nat) && n <= bound,
            Option::None => match parse_dec_spec(v@.subrange(start as int, end as int)) {
                Option::Some(m) => m > bound,
                Option::None => true,
            },
        },
{
    if start == end {
        proof {
            assert(v@.subrange(start as int, end as int).len() == 0);
        }
        return Option::None;
    }
    let mut acc: u64 = 0;
    let mut i: usize = start;
    while i < end
        invariant
            start <= i <= end <= v@.len(),
            i > start ==> parse_dec_spec(v@.subrange(start as int, i as int)) == Option::Some(
                acc as nat,
            ),
            i == start ==> acc == 0,
            acc <= bound,
            bound <= u64::MAX,
        decreases end - i,
    {
        let d = match digit_val(v[i]) {
            Option::Some(d) => d,
            Option::None => {
                proof {
                    let s = v@.subrange(start as int, end as int);
                    assert(s[i - start] == v@[i as int]);
                    lemma_parse_dec_bad_digit(s, i - start);
                }
                return Option::None;
            },
        };
        let ghost pre = v@.subrange(start as int, i as int);
        proof {
            let cur = v@.subrange(start as int, i + 1);
            assert(cur.drop_last() =~= pre);
            assert(cur[cur.len() - 1] == v@[i as int]);
        }
        if acc > bound / 10 || (acc == bound / 10 && d > bound % 10) {
            proof {
                assert(acc as nat * 10 + d as nat > bound as nat) by (nonlinear_arith)
                    requires
                        (acc as nat) > (bound as nat) / 10 || (acc as nat == (bound as nat) / 10
                            && (d as nat) > (bound as nat) % 10),
                        d < 10,
                ;
                if i == start {
                    assert(parse_dec_spec(v@.subrange(start as int, i + 1)) == Option::Some(
                        d as nat,
                    ));
                } else {
                    assert(parse_dec_spec(v@.subrange(start as int, i + 1)) == Option::Some(
                        acc as nat * 10 + d as nat,
                    ));
                }
                let s = v@.subrange(start as int, end as int);
                assert(s.subrange(0, i + 1 - start) =~= v@.subrange(start as int, i + 1));
                lemma_parse_dec_monotone(s, i + 1 - start);
            }
            return Option::None;
        }
        proof {
            assert(acc as nat * 10 + d as nat <= bound as nat) by (nonlinear_arith)
                requires
                    d < 10,
                    (acc as nat) < (bound as nat) / 10 || (acc as nat == (bound as nat) / 10 && (d as nat)
                        <= (bound as nat) % 10),
            ;
        }
        let ghost old_acc = acc as nat;
        acc = acc * 10 + d;
        proof {
            if i == start {
                assert(pre.len() == 0);
                assert(parse_dec_spec(v@.subrange(start as int, i + 1)) == digit_val_spec(
                    v@[i as int],
                ));
                assert(old_acc == 0);
            }
        }
        i = i + 1;
    }
    Option::Some(acc)
}

/// If a proper prefix of a digit run fails or exceeds, the whole fails or exceeds.
proof fn lemma_parse_dec_bad_digit(s: Seq<char>, i: int)
    requires
        0 <= i < s.len(),
        digit_val_spec(s[i]) is None,
    ensures
        parse_dec_spec(s) is None,
    decreases s.len(),
{
    if s.len() > 1 && i < s.len() - 1 {
        lemma_parse_dec_bad_digit(s.drop_last(), i);
    }
}

/// If some prefix of the digit run already parses over a value, the whole
/// parse is at least that value or fails.
proof fn lemma_parse_dec_monotone(s: Seq<char>, j: int)
    requires
        0 < j <= s.len(),
    ensures
        match (parse_dec_spec(s.subrange(0, j)), parse_dec_spec(s)) {
            (Option::Some(a), Option::Some(b)) => a <= b,
            (Option::None, Option::Some(_)) => false,
            _ => true,
        },
    decreases s.len() - j,
{
    if j == s.len() {
        assert(s.subrange(0, j) =~= s);
    } else {
        lemma_parse_dec_monotone(s, j + 1);
        let p = s.subrange(0, j);
        let q = s.subrange(0, j + 1);
        assert(q.drop_last() =~= p);
        assert(q[q.len() - 1] == s[j]);
        if parse_dec_spec(p) is Some {
            let a = parse_dec_spec(p)->Some_0;
            match digit_val_spec(s[j]) {
                Option::Some(d) => {
                    assert(parse_dec_spec(q) == Option::Some(a * 10 + d));
                    assert(a <= a * 10 + d) by (nonlinear_arith)
                        requires
                            d >= 0,
                    ;
                },
                Option::None => {
                    assert(parse_dec_spec(q) is None);
                },
            }
        }
    }
}

} // verus!
