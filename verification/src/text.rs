//! Character-level text utilities: the library manipulates document text as
//! `Vec<char>` internally, with `String` only at the public boundary.

use vstd::prelude::*;

verus! {

broadcast use vstd::string::group_string_axioms;

// ---------------------------------------------------------------------------
// Character classes
// ---------------------------------------------------------------------------

/// The whitespace characters recognized by `str::trim`.
pub open spec fn is_space_char(c: char) -> bool {
    ||| c == ' '
    ||| c == '\t'
    ||| c == '\n'
    ||| c == '\r'
    ||| c == '\u{b}'
    ||| c == '\u{c}'
    ||| c == '\u{85}'
    ||| c == '\u{a0}'
    ||| c == '\u{1680}'
    ||| ('\u{2000}' <= c && c <= '\u{200a}')
    ||| c == '\u{2028}'
    ||| c == '\u{2029}'
    ||| c == '\u{202f}'
    ||| c == '\u{205f}'
    ||| c == '\u{3000}'
}

pub fn is_space(c: char) -> (r: bool)
    ensures
        r == is_space_char(c),
{
    c == ' ' || c == '\t' || c == '\n' || c == '\r' || c == '\u{b}' || c == '\u{c}'
        || c == '\u{85}' || c == '\u{a0}' || c == '\u{1680}' || ('\u{2000}' <= c && c
        <= '\u{200a}') || c == '\u{2028}' || c == '\u{2029}' || c == '\u{202f}' || c == '\u{205f}'
        || c == '\u{3000}'
}

/// The whitespace characters recognized by `char::is_ascii_whitespace`.
pub open spec fn is_ascii_space_char(c: char) -> bool {
    c == ' ' || c == '\t' || c == '\n' || c == '\u{c}' || c == '\r'
}

pub fn is_ascii_space(c: char) -> (r: bool)
    ensures
        r == is_ascii_space_char(c),
{
    c == ' ' || c == '\t' || c == '\n' || c == '\u{c}' || c == '\r'
}

pub open spec fn is_digit_char(c: char) -> bool {
    '0' <= c && c <= '9'
}

pub fn is_digit(c: char) -> (r: bool)
    ensures
        r == is_digit_char(c),
{
    '0' <= c && c <= '9'
}

pub open spec fn is_lower_char(c: char) -> bool {
    'a' <= c && c <= 'z'
}

pub open spec fn is_upper_char(c: char) -> bool {
    'A' <= c && c <= 'Z'
}

pub open spec fn is_ascii_alnum_char(c: char) -> bool {
    is_digit_char(c) || is_lower_char(c) || is_upper_char(c)
}

pub fn is_ascii_alnum(c: char) -> (r: bool)
    ensures
        r == is_ascii_alnum_char(c),
{
    ('0' <= c && c <= '9') || ('a' <= c && c <= 'z') || ('A' <= c && c <= 'Z')
}

/// ASCII lower-casing of one character, as `char::to_ascii_lowercase` does it.
pub open spec fn lower_char(c: char) -> char {
    if c == 'A' { 'a' } else if c == 'B' { 'b' } else if c == 'C' { 'c' } else if c == 'D' { 'd' }
    else if c == 'E' { 'e' } else if c == 'F' { 'f' } else if c == 'G' { 'g' }
    else if c == 'H' { 'h' } else if c == 'I' { 'i' } else if c == 'J' { 'j' }
    else if c == 'K' { 'k' } else if c == 'L' { 'l' } else if c == 'M' { 'm' }
    else if c == 'N' { 'n' } else if c == 'O' { 'o' } else if c == 'P' { 'p' }
    else if c == 'Q' { 'q' } else if c == 'R' { 'r' } else if c == 'S' { 's' }
    else if c == 'T' { 't' } else if c == 'U' { 'u' } else if c == 'V' { 'v' }
    else if c == 'W' { 'w' } else if c == 'X' { 'x' } else if c == 'Y' { 'y' }
    else if c == 'Z' { 'z' } else { c }
}

pub fn to_lower(c: char) -> (r: char)
    ensures
        r == lower_char(c),
{
    if c == 'A' { 'a' } else if c == 'B' { 'b' } else if c == 'C' { 'c' } else if c == 'D' { 'd' }
    else if c == 'E' { 'e' } else if c == 'F' { 'f' } else if c == 'G' { 'g' }
    else if c == 'H' { 'h' } else if c == 'I' { 'i' } else if c == 'J' { 'j' }
    else if c == 'K' { 'k' } else if c == 'L' { 'l' } else if c == 'M' { 'm' }
    else if c == 'N' { 'n' } else if c == 'O' { 'o' } else if c == 'P' { 'p' }
    else if c == 'Q' { 'q' } else if c == 'R' { 'r' } else if c == 'S' { 's' }
    else if c == 'T' { 't' } else if c == 'U' { 'u' } else if c == 'V' { 'v' }
    else if c == 'W' { 'w' } else if c == 'X' { 'x' } else if c == 'Y' { 'y' }
    else if c == 'Z' { 'z' } else { c }
}

/// ASCII upper-casing of one character, as `char::to_ascii_uppercase` does it.
pub open spec fn upper_char(c: char) -> char {
    if c == 'a' { 'A' } else if c == 'b' { 'B' } else if c == 'c' { 'C' } else if c == 'd' { 'D' }
    else if c == 'e' { 'E' } else if c == 'f' { 'F' } else if c == 'g' { 'G' }
    else if c == 'h' { 'H' } else if c == 'i' { 'I' } else if c == 'j' { 'J' }
    else if c == 'k' { 'K' } else if c == 'l' { 'L' } else if c == 'm' { 'M' }
    else if c == 'n' { 'N' } else if c == 'o' { 'O' } else if c == 'p' { 'P' }
    else if c == 'q' { 'Q' } else if c == 'r' { 'R' } else if c == 's' { 'S' }
    else if c == 't' { 'T' } else if c == 'u' { 'U' } else if c == 'v' { 'V' }
    else if c == 'w' { 'W' } else if c == 'x' { 'X' } else if c == 'y' { 'Y' }
    else if c == 'z' { 'Z' } else { c }
}

pub fn to_upper(c: char) -> (r: char)
    ensures
        r == upper_char(c),
{
    if c == 'a' { 'A' } else if c == 'b' { 'B' } else if c == 'c' { 'C' } else if c == 'd' { 'D' }
    else if c == 'e' { 'E' } else if c == 'f' { 'F' } else if c == 'g' { 'G' }
    else if c == 'h' { 'H' } else if c == 'i' { 'I' } else if c == 'j' { 'J' }
    else if c == 'k' { 'K' } else if c == 'l' { 'L' } else if c == 'm' { 'M' }
    else if c == 'n' { 'N' } else if c == 'o' { 'O' } else if c == 'p' { 'P' }
    else if c == 'q' { 'Q' } else if c == 'r' { 'R' } else if c == 's' { 'S' }
    else if c == 't' { 'T' } else if c == 'u' { 'U' } else if c == 'v' { 'V' }
    else if c == 'w' { 'W' } else if c == 'x' { 'X' } else if c == 'y' { 'Y' }
    else if c == 'z' { 'Z' } else { c }
}

/// ASCII lower-casing of a whole sequence.
pub open spec fn lower_seq(s: Seq<char>) -> Seq<char> {
    s.map_values(|c: char| lower_char(c))
}

pub fn lower_chars(s: &Vec<char>) -> (r: Vec<char>)
    ensures
        r@ == lower_seq(s@),
{
    let mut r: Vec<char> = Vec::new();
    let mut i: usize = 0;
    while i < s.len()
        invariant
            i <= s.len(),
            r@ =~= lower_seq(s@).take(i as int),
        decreases s.len() - i,
    {
        r.push(to_lower(s[i]));
        i = i + 1;
    }
    assert(r@ =~= lower_seq(s@));
    r
}

// ---------------------------------------------------------------------------
// String boundary
// ---------------------------------------------------------------------------

/// The characters of a string slice, as a vector.
pub fn chars_of(s: &str) -> (r: Vec<char>)
    ensures
        r@ == s@,
{
    let mut r: Vec<char> = Vec::new();
    for c in it: s.chars()
        invariant
            it.seq() == s@,
            r@ =~= it.seq().take(it.index() as int),
    {
        r.push(c);
    }
    assert(r@ =~= s@);
    r
}

/// Relies on `String`'s `FromIterator<char>` implementation: collecting the
/// characters of a vector yields the string whose characters they are.
#[verifier::external_body]
pub fn string_of(s: &Vec<char>) -> (r: String)
    ensures
        r@ == s@,
{
    s.iter().collect()
}

// ---------------------------------------------------------------------------
// Vector helpers
// ---------------------------------------------------------------------------

/// Append a copy of `src` to `dst`.
pub fn push_all(dst: &mut Vec<char>, src: &Vec<char>)
    ensures
        final(dst)@ == old(dst)@ + src@,
{
    let mut i: usize = 0;
    while i < src.len()
        invariant
            i <= src.len(),
            dst@ =~= old(dst)@ + src@.take(i as int),
        decreases src.len() - i,
    {
        dst.push(src[i]);
        i = i + 1;
    }
    assert(dst@ =~= old(dst)@ + src@);
}

/// Append the characters of a string slice to `dst`.
pub fn push_str_chars(dst: &mut Vec<char>, s: &str)
    ensures
        final(dst)@ == old(dst)@ + s@,
{
    let cs = chars_of(s);
    push_all(dst, &cs);
}

pub fn eq_chars(a: &Vec<char>, b: &Vec<char>) -> (r: bool)
    ensures
        r == (a@ == b@),
{
    if a.len() != b.len() {
        return false;
    }
    let mut i: usize = 0;
    while i < a.len()
        invariant
            i <= a.len(),
            a@.len() == b@.len(),
            forall|j: int| 0 <= j < i ==> a@[j] == b@[j],
        decreases a.len() - i,
    {
        if a[i] != b[i] {
            return false;
        }
        i = i + 1;
    }
    assert(a@ =~= b@);
    true
}

/// A copy of `s[from..to]`.
pub fn sub_chars(s: &Vec<char>, from: usize, to: usize) -> (r: Vec<char>)
    requires
        from <= to <= s@.len(),
    ensures
        r@ == s@.subrange(from as int, to as int),
{
    let mut r: Vec<char> = Vec::new();
    let mut i: usize = from;
    while i < to
        invariant
            from <= i <= to <= s@.len(),
            r@ =~= s@.subrange(from as int, i as int),
        decreases to - i,
    {
        r.push(s[i]);
        i = i + 1;
    }
    assert(r@ =~= s@.subrange(from as int, to as int));
    r
}

// ---------------------------------------------------------------------------
// Prefix and search
// ---------------------------------------------------------------------------

pub open spec fn starts_with(s: Seq<char>, p: Seq<char>) -> bool {
    p.len() <= s.len() && s.subrange(0, p.len() as int) == p
}

/// Does `s[at..]` start with `p`?
pub fn has_prefix_at(s: &Vec<char>, at: usize, p: &Vec<char>) -> (r: bool)
    requires
        at <= s@.len(),
    ensures
        r == starts_with(s@.skip(at as int), p@),
{
    if s.len() - at < p.len() {
        return false;
    }
    let mut i: usize = 0;
    while i < p.len()
        invariant
            at + p@.len() <= s@.len(),
            s@.len() <= usize::MAX,
            i <= p@.len(),
            forall|j: int| 0 <= j < i ==> s@[at + j] == p@[j],
        decreases p.len() - i,
    {
        if s[at + i] != p[i] {
            assert(s@.skip(at as int).subrange(0, p@.len() as int)[i as int] != p@[i as int]);
            return false;
        }
        i = i + 1;
    }
    assert(s@.skip(at as int).subrange(0, p@.len() as int) =~= p@);
    true
}

pub fn has_prefix(s: &Vec<char>, p: &Vec<char>) -> (r: bool)
    ensures
        r == starts_with(s@, p@),
{
    let r = has_prefix_at(s, 0, p);
    assert(s@.skip(0) =~= s@);
    r
}

/// Index of the first occurrence of `p` in `s`, or -1 if there is none.
pub open spec fn find_sub(s: Seq<char>, p: Seq<char>) -> int
    decreases s.len(),
{
    if starts_with(s, p) {
        0
    } else if s.len() == 0 {
        -1
    } else {
        let r = find_sub(s.skip(1), p);
        if r == -1 {
            -1
        } else {
            1 + r
        }
    }
}

pub proof fn lemma_find_sub_from(s: Seq<char>, p: Seq<char>, i: int)
    requires
        0 <= i <= s.len(),
        forall|j: int| 0 <= j < i ==> !starts_with(#[trigger] s.skip(j), p),
    ensures
        starts_with(s.skip(i), p) ==> find_sub(s, p) == i,
        i == s.len() && !starts_with(s.skip(i), p) ==> find_sub(s, p) == -1,
    decreases i,
{
    if i == 0 {
        if starts_with(s.skip(0), p) {
            assert(s.skip(0) =~= s);
        } else {
            assert(s.skip(0) =~= s);
            if s.len() == 0 {
            }
        }
    } else {
        assert(s.skip(0) =~= s);
        assert(!starts_with(s, p));
        let t = s.skip(1);
        assert(forall|j: int| 0 <= j < i - 1 ==> t.skip(j) =~= s.skip(j + 1));
        assert(forall|j: int|
            0 <= j < i - 1 ==> !starts_with(#[trigger] t.skip(j), p)) by {
            assert(forall|j: int|
                0 <= j < i - 1 ==> #[trigger] t.skip(j) == s.skip(j + 1));
        }
        lemma_find_sub_from(t, p, i - 1);
        assert(t.skip(i - 1) =~= s.skip(i));
        if starts_with(s.skip(i), p) {
            assert(find_sub(t, p) == i - 1);
        }
    }
}

/// First occurrence of `p` in `s`, scanning left to right.
pub fn find_subseq(s: &Vec<char>, p: &Vec<char>) -> (r: Option<usize>)
    ensures
        match r {
            Some(i) => i == find_sub(s@, p@) && i + p@.len() <= s@.len(),
            None => find_sub(s@, p@) == -1,
        },
{
    let mut i: usize = 0;
    while i < s.len()
        invariant
            i <= s@.len(),
            forall|j: int| 0 <= j < i ==> !starts_with(#[trigger] s@.skip(j), p@),
        decreases s.len() - i,
    {
        if has_prefix_at(s, i, p) {
            proof {
                lemma_find_sub_from(s@, p@, i as int);
            }
            return Some(i);
        }
        i = i + 1;
    }
    if has_prefix_at(s, s.len(), p) {
        proof {
            lemma_find_sub_from(s@, p@, s@.len() as int);
        }
        return Some(s.len());
    }
    proof {
        lemma_find_sub_from(s@, p@, s@.len() as int);
    }
    None
}

pub proof fn lemma_find_sub_range(s: Seq<char>, p: Seq<char>)
    ensures
        find_sub(s, p) >= -1,
    decreases s.len(),
{
    if !starts_with(s, p) && s.len() > 0 {
        lemma_find_sub_range(s.skip(1), p);
    }
}

/// No occurrence of `p` anywhere in `s` when `find_sub` reports none.
pub proof fn lemma_find_sub_none(s: Seq<char>, p: Seq<char>)
    requires
        find_sub(s, p) == -1,
    ensures
        forall|j: int| 0 <= j <= s.len() ==> !starts_with(#[trigger] s.skip(j), p),
    decreases s.len(),
{
    assert(s.skip(0) =~= s);
    if s.len() > 0 {
        lemma_find_sub_range(s.skip(1), p);
        lemma_find_sub_none(s.skip(1), p);
        assert forall|j: int| 0 <= j <= s.len() implies !starts_with(#[trigger] s.skip(j), p) by {
            if j > 0 {
                assert(s.skip(1).skip(j - 1) =~= s.skip(j));
            }
        }
    }
}

/// Index of the last occurrence of `c` in `s`, or -1 if there is none.
pub open spec fn rfind_char(s: Seq<char>, c: char) -> int
    decreases s.len(),
{
    if s.len() == 0 {
        -1
    } else if s[s.len() - 1] == c {
        s.len() - 1
    } else {
        rfind_char(s.drop_last(), c)
    }
}

pub fn rfind(s: &Vec<char>, c: char) -> (r: Option<usize>)
    ensures
        match r {
            Some(i) => i == rfind_char(s@, c) && i < s@.len(),
            None => rfind_char(s@, c) == -1,
        },
{
    let mut i: usize = s.len();
    proof {
        assert(s@.take(s@.len() as int) =~= s@);
    }
    while i > 0
        invariant
            i <= s@.len(),
            rfind_char(s@, c) == rfind_char(s@.take(i as int), c),
        decreases i,
    {
        i = i - 1;
        if s[i] == c {
            proof {
                assert(s@.take(i + 1)[i as int] == c);
            }
            return Some(i);
        }
        proof {
            assert(s@.take(i + 1).drop_last() =~= s@.take(i as int));
        }
    }
    proof {
        assert(s@.take(0) =~= Seq::<char>::empty());
    }
    None
}


// ---------------------------------------------------------------------------
// Suffixes
// ---------------------------------------------------------------------------

pub open spec fn ends_with(s: Seq<char>, p: Seq<char>) -> bool {
    p.len() <= s.len() && s.subrange(s.len() - p.len(), s.len() as int) == p
}

pub fn has_suffix(s: &Vec<char>, p: &Vec<char>) -> (r: bool)
    ensures
        r == ends_with(s@, p@),
{
    if p.len() > s.len() {
        return false;
    }
    let at = s.len() - p.len();
    let r = has_prefix_at(s, at, p);
    assert(s@.skip(at as int) =~= s@.subrange(s@.len() - p@.len(), s@.len() as int));
    if r {
        assert(s@.skip(at as int).subrange(0, p@.len() as int) =~= s@.subrange(
            s@.len() - p@.len(),
            s@.len() as int,
        ));
    } else {
        assert(s@.skip(at as int).subrange(0, p@.len() as int) =~= s@.subrange(
            s@.len() - p@.len(),
            s@.len() as int,
        ));
    }
    r
}

// ---------------------------------------------------------------------------
// Decimal numbers
// ---------------------------------------------------------------------------

pub open spec fn digit_char(d: nat) -> char {
    if d == 0 { '0' } else if d == 1 { '1' } else if d == 2 { '2' } else if d == 3 { '3' }
    else if d == 4 { '4' } else if d == 5 { '5' } else if d == 6 { '6' }
    else if d == 7 { '7' } else if d == 8 { '8' } else { '9' }
}

pub open spec fn char_digit(c: char) -> nat {
    if c == '0' { 0 } else if c == '1' { 1 } else if c == '2' { 2 } else if c == '3' { 3 }
    else if c == '4' { 4 } else if c == '5' { 5 } else if c == '6' { 6 }
    else if c == '7' { 7 } else if c == '8' { 8 } else { 9 }
}

/// The decimal digits of `n`, most significant first, no padding.
pub open spec fn spec_digits(n: nat) -> Seq<char>
    decreases n,
{
    if n < 10 {
        seq![digit_char(n)]
    } else {
        spec_digits(n / 10).push(digit_char(n % 10))
    }
}

/// The decimal digits of `n`, zero-padded on the left to at least four digits.
pub open spec fn spec_fmt4(n: u32) -> Seq<char> {
    if n < 10 {
        seq!['0', '0', '0'] + spec_digits(n as nat)
    } else if n < 100 {
        seq!['0', '0'] + spec_digits(n as nat)
    } else if n < 1000 {
        seq!['0'] + spec_digits(n as nat)
    } else {
        spec_digits(n as nat)
    }
}

pub fn digit_to_char(d: u32) -> (c: char)
    requires
        d < 10,
    ensures
        c == digit_char(d as nat),
{
    if d == 0 { '0' } else if d == 1 { '1' } else if d == 2 { '2' } else if d == 3 { '3' }
    else if d == 4 { '4' } else if d == 5 { '5' } else if d == 6 { '6' }
    else if d == 7 { '7' } else if d == 8 { '8' } else { '9' }
}

pub fn char_to_digit(c: char) -> (d: u32)
    requires
        is_digit_char(c),
    ensures
        d == char_digit(c),
        d < 10,
{
    if c == '0' { 0 } else if c == '1' { 1 } else if c == '2' { 2 } else if c == '3' { 3 }
    else if c == '4' { 4 } else if c == '5' { 5 } else if c == '6' { 6 }
    else if c == '7' { 7 } else { if c == '8' { 8 } else { 9 } }
}

fn push_digits(out: &mut Vec<char>, n: u32)
    ensures
        final(out)@ == old(out)@ + spec_digits(n as nat),
    decreases n,
{
    if n < 10 {
        out.push(digit_to_char(n));
        assert(out@ =~= old(out)@ + spec_digits(n as nat));
    } else {
        push_digits(out, n / 10);
        out.push(digit_to_char(n % 10));
        assert(out@ =~= old(out)@ + spec_digits(n as nat));
    }
}

/// The decimal digits of `n`, no padding.
pub fn dec_chars(n: u32) -> (r: Vec<char>)
    ensures
        r@ == spec_digits(n as nat),
{
    let mut r: Vec<char> = Vec::new();
    push_digits(&mut r, n);
    assert(r@ =~= spec_digits(n as nat));
    r
}

/// `n` zero-padded to at least four digits, as record numbers are displayed.
pub fn fmt4(n: u32) -> (r: Vec<char>)
    ensures
        r@ == spec_fmt4(n),
{
    let mut r: Vec<char> = Vec::new();
    if n < 10 {
        r.push('0');
        r.push('0');
        r.push('0');
    } else if n < 100 {
        r.push('0');
        r.push('0');
    } else if n < 1000 {
        r.push('0');
    }
    push_digits(&mut r, n);
    assert(r@ =~= spec_fmt4(n));
    r
}

pub open spec fn all_digits(s: Seq<char>) -> bool {
    forall|i: int| 0 <= i < s.len() ==> is_digit_char(#[trigger] s[i])
}

/// The numeric value of a sequence of decimal digits.
pub open spec fn digits_val(s: Seq<char>) -> nat
    decreases s.len(),
{
    if s.len() == 0 {
        0
    } else {
        digits_val(s.drop_last()) * 10 + char_digit(s.last())
    }
}

/// What `str::parse::<u32>` accepts: an optional leading `+`, then at least
/// one decimal digit, with a value that fits in `u32`.
pub open spec fn numeral_body(s: Seq<char>) -> Seq<char> {
    if s.len() > 0 && s[0] == '+' {
        s.skip(1)
    } else {
        s
    }
}

pub open spec fn is_u32_numeral(s: Seq<char>) -> bool {
    numeral_body(s).len() > 0 && all_digits(numeral_body(s)) && digits_val(numeral_body(s))
        <= u32::MAX
}

pub open spec fn numeral_val(s: Seq<char>) -> nat {
    digits_val(numeral_body(s))
}

proof fn lemma_digits_val_grows(s: Seq<char>, j: int)
    requires
        0 <= j <= s.len(),
    ensures
        digits_val(s) >= digits_val(s.take(j)),
    decreases s.len() - j,
{
    if j < s.len() {
        lemma_digits_val_grows(s, j + 1);
        assert(s.take(j + 1).drop_last() =~= s.take(j));
        assert(digits_val(s.take(j + 1)) == digits_val(s.take(j)) * 10 + char_digit(s[j]));
    } else {
        assert(s.take(j) =~= s);
    }
}

/// Parse the digits of `s[from..]` as a `u32`, as `str::parse::<u32>` does.
pub fn parse_u32(s: &Vec<char>, from: usize) -> (r: Option<u32>)
    requires
        from <= s@.len(),
    ensures
        match r {
            Some(v) => is_u32_numeral(s@.skip(from as int)) && v as nat == numeral_val(
                s@.skip(from as int),
            ),
            None => !is_u32_numeral(s@.skip(from as int)),
        },
{
    let ghost whole: Seq<char> = s@.skip(from as int);
    let mut i: usize = from;
    if i < s.len() && s[i] == '+' {
        i = i + 1;
    }
    let start: usize = i;
    let ghost body: Seq<char> = s@.skip(start as int);
    proof {
        assert(numeral_body(whole) =~= body);
    }
    if start == s.len() {
        return None;
    }
    let mut acc: u32 = 0;
    while i < s.len()
        invariant
            from <= start <= i <= s@.len(),
            s@.len() <= usize::MAX,
            body == s@.skip(start as int),
            body == numeral_body(s@.skip(from as int)),
            all_digits(body.take(i - start)),
            acc as nat == digits_val(body.take(i - start)),
        decreases s.len() - i,
    {
        let c = s[i];
        if !is_digit(c) {
            assert(body[i - start] == c);
            return None;
        }
        let d = char_to_digit(c);
        if acc > u32::MAX / 10 {
            proof {
                assert(body.take(i - start + 1).drop_last() =~= body.take(i - start));
                assert(digits_val(body.take(i - start + 1)) > u32::MAX);
                lemma_digits_val_grows(body, i - start + 1);
            }
            return None;
        }
        let m = acc * 10;
        if d > u32::MAX - m {
            proof {
                assert(body.take(i - start + 1).drop_last() =~= body.take(i - start));
                assert(digits_val(body.take(i - start + 1)) > u32::MAX);
                lemma_digits_val_grows(body, i - start + 1);
            }
            return None;
        }
        acc = m + d;
        proof {
            assert(body.take(i - start + 1).drop_last() =~= body.take(i - start));
        }
        i = i + 1;
    }
    proof {
        assert(body.take(s@.len() - start) =~= body);
    }
    Some(acc)
}

// ---------------------------------------------------------------------------
// Trimming
// ---------------------------------------------------------------------------

pub open spec fn trim_start_spec(s: Seq<char>) -> Seq<char>
    decreases s.len(),
{
    if s.len() > 0 && is_space_char(s[0]) {
        trim_start_spec(s.skip(1))
    } else {
        s
    }
}

pub open spec fn trim_end_spec(s: Seq<char>) -> Seq<char>
    decreases s.len(),
{
    if s.len() > 0 && is_space_char(s.last()) {
        trim_end_spec(s.drop_last())
    } else {
        s
    }
}

/// What `str::trim` leaves: the text with leading and trailing whitespace gone.
pub open spec fn spec_trim(s: Seq<char>) -> Seq<char> {
    trim_end_spec(trim_start_spec(s))
}

pub fn trim_chars(s: &Vec<char>) -> (r: Vec<char>)
    ensures
        r@ == spec_trim(s@),
{
    let mut lo: usize = 0;
    proof {
        assert(s@.skip(0) =~= s@);
    }
    while lo < s.len() && is_space(s[lo])
        invariant
            lo <= s@.len(),
            trim_start_spec(s@) == trim_start_spec(s@.skip(lo as int)),
        decreases s.len() - lo,
    {
        proof {
            assert(s@.skip(lo as int).skip(1) =~= s@.skip(lo + 1));
        }
        lo = lo + 1;
    }
    proof {
        if lo == s@.len() {
            assert(s@.skip(lo as int) =~= Seq::<char>::empty());
        }
        assert(trim_start_spec(s@) == s@.skip(lo as int));
    }
    let ghost t: Seq<char> = s@.skip(lo as int);
    let mut hi: usize = s.len();
    proof {
        assert(t.take(s@.len() - lo) =~= t);
    }
    while hi > lo && is_space(s[hi - 1])
        invariant
            lo <= hi <= s@.len(),
            t == s@.skip(lo as int),
            trim_end_spec(t) == trim_end_spec(t.take(hi - lo)),
        decreases hi,
    {
        proof {
            assert(t.take(hi - lo).last() == s@[hi - 1]);
            assert(t.take(hi - lo).drop_last() =~= t.take(hi - 1 - lo));
        }
        hi = hi - 1;
    }
    proof {
        if hi == lo {
            assert(t.take(0) =~= Seq::<char>::empty());
        } else {
            assert(t.take(hi - lo).last() == s@[hi - 1]);
        }
        assert(trim_end_spec(t) == t.take(hi - lo));
    }
    let r = sub_chars(s, lo, hi);
    assert(r@ =~= t.take(hi - lo));
    r
}


// ---------------------------------------------------------------------------
// Lines
// ---------------------------------------------------------------------------

/// Index of the first occurrence of `c` in `s`, or -1 if there is none.
pub open spec fn find_char_at(s: Seq<char>, c: char) -> int
    decreases s.len(),
{
    if s.len() == 0 {
        -1
    } else if s[0] == c {
        0
    } else {
        let r = find_char_at(s.skip(1), c);
        if r == -1 {
            -1
        } else {
            1 + r
        }
    }
}

/// Everything `find_char_at` reports: range, the hit itself, and that no
/// earlier position hits.
pub proof fn lemma_find_char_found(s: Seq<char>, c: char)
    ensures
        find_char_at(s, c) == -1 || (0 <= find_char_at(s, c) < s.len()),
        find_char_at(s, c) >= 0 ==> s[find_char_at(s, c)] == c,
        find_char_at(s, c) == -1 ==> forall|j: int| 0 <= j < s.len() ==> s[j] != c,
        forall|j: int| 0 <= j < find_char_at(s, c) ==> s[j] != c,
    decreases s.len(),
{
    if s.len() == 0 {
    } else if s[0] == c {
    } else {
        let t = s.skip(1);
        lemma_find_char_found(t, c);
        let r = find_char_at(t, c);
        assert(forall|j: int| 0 <= j < t.len() ==> t[j] == s[j + 1]);
        if r == -1 {
            assert forall|j: int| 0 <= j < s.len() implies s[j] != c by {
                if j > 0 {
                    assert(t[j - 1] != c);
                }
            }
        } else {
            assert(find_char_at(s, c) == 1 + r);
            assert(s[1 + r] == t[r]);
            assert forall|j: int| 0 <= j < 1 + r implies s[j] != c by {
                if j > 0 {
                    assert(t[j - 1] != c);
                }
            }
        }
    }
}

pub proof fn lemma_find_char_first(s: Seq<char>, c: char, i: int)
    requires
        0 <= i <= s.len(),
        forall|j: int| 0 <= j < i ==> s[j] != c,
    ensures
        i < s.len() && s[i] == c ==> find_char_at(s, c) == i,
        i == s.len() ==> find_char_at(s, c) == -1,
{
    lemma_find_char_found(s, c);
    let k = find_char_at(s, c);
    if i < s.len() && s[i] == c {
        if k == -1 {
            assert(s[i] != c);
        } else {
            if k < i {
                assert(s[k] != c);
            }
            if k > i {
                assert(s[i] != c);
            }
        }
    }
    if i == s.len() && k >= 0 {
        assert(s[k] != c);
    }
}

/// First occurrence of `c` in `s` at or after `from`.
pub fn find_char_pos(s: &Vec<char>, from: usize, c: char) -> (r: Option<usize>)
    requires
        from <= s@.len(),
    ensures
        match r {
            Some(j) => from <= j < s@.len() && j - from == find_char_at(s@.skip(from as int), c)
                && s@[j as int] == c,
            None => find_char_at(s@.skip(from as int), c) == -1,
        },
{
    let mut j: usize = from;
    while j < s.len()
        invariant
            from <= j <= s@.len(),
            forall|m: int| from <= m < j ==> s@[m] != c,
        decreases s.len() - j,
    {
        if s[j] == c {
            proof {
                lemma_find_char_first(s@.skip(from as int), c, j - from);
            }
            return Some(j);
        }
        j = j + 1;
    }
    proof {
        lemma_find_char_first(s@.skip(from as int), c, s@.len() - from);
    }
    None
}

/// Raw split of `s` on `sep`: always at least one segment, empty segments kept.
pub open spec fn split_all(s: Seq<char>, sep: char) -> Seq<Seq<char>>
    decreases s.len(),
{
    if s.len() == 0 {
        seq![Seq::<char>::empty()]
    } else if s[0] == sep {
        seq![Seq::<char>::empty()] + split_all(s.skip(1), sep)
    } else {
        let r = split_all(s.skip(1), sep);
        seq![seq![s[0]] + r[0]] + r.skip(1)
    }
}

pub proof fn lemma_split_all_len(s: Seq<char>, sep: char)
    ensures
        split_all(s, sep).len() >= 1,
    decreases s.len(),
{
    if s.len() > 0 {
        lemma_split_all_len(s.skip(1), sep);
    }
}

/// `split_all` decomposed at the first separator.
pub proof fn lemma_split_all_find(s: Seq<char>, sep: char)
    ensures
        find_char_at(s, sep) == -1 ==> split_all(s, sep) == seq![s],
        find_char_at(s, sep) >= 0 ==> split_all(s, sep) == seq![
            s.take(find_char_at(s, sep)),
        ] + split_all(s.skip(find_char_at(s, sep) + 1), sep),
    decreases s.len(),
{
    lemma_find_char_found(s, sep);
    let k = find_char_at(s, sep);
    if s.len() == 0 {
        assert(s =~= Seq::<char>::empty());
        assert(split_all(s, sep) =~~= seq![s]);
    } else if s[0] == sep {
        assert(k == 0);
        assert(s.take(0) =~= Seq::<char>::empty());
        assert(split_all(s, sep) =~~= seq![s.take(0)] + split_all(s.skip(1), sep));
    } else {
        let t = s.skip(1);
        lemma_split_all_find(t, sep);
        lemma_split_all_len(t, sep);
        lemma_find_char_found(t, sep);
        let r = split_all(t, sep);
        if k == -1 {
            assert(find_char_at(t, sep) == -1);
            assert(r == seq![t]);
            assert(seq![seq![s[0]] + r[0]] + r.skip(1) =~~= seq![seq![s[0]] + t]);
            assert(seq![s[0]] + t =~= s);
            assert(split_all(s, sep) =~~= seq![s]);
        } else {
            assert(k >= 1);
            assert(find_char_at(t, sep) == k - 1);
            assert(r == seq![t.take(k - 1)] + split_all(t.skip(k), sep));
            assert(r[0] == t.take(k - 1));
            assert(seq![s[0]] + t.take(k - 1) =~= s.take(k));
            assert(r.skip(1) =~~= split_all(t.skip(k), sep));
            assert(t.skip(k) =~= s.skip(k + 1));
            assert(split_all(s, sep) =~~= seq![s.take(k)] + split_all(s.skip(k + 1), sep));
        }
    }
}

/// One trailing carriage return removed, as `str::lines` does per line.
pub open spec fn strip_cr(l: Seq<char>) -> Seq<char> {
    if l.len() > 0 && l.last() == '\r' {
        l.drop_last()
    } else {
        l
    }
}

/// What `str::lines` yields: split on newlines, one trailing carriage return
/// removed per line, and no empty final line after a terminating newline.
pub open spec fn spec_lines(s: Seq<char>) -> Seq<Seq<char>> {
    if s.len() == 0 {
        Seq::<Seq<char>>::empty()
    } else {
        let raw = split_all(s, '\n');
        let segs = if s.last() == '\n' {
            raw.drop_last()
        } else {
            raw
        };
        segs.map_values(|l: Seq<char>| strip_cr(l))
    }
}

/// `spec_lines` decomposed at the first newline.
pub proof fn lemma_lines_decomp(t: Seq<char>)
    requires
        t.len() > 0,
    ensures
        find_char_at(t, '\n') == -1 ==> spec_lines(t) == seq![strip_cr(t)],
        find_char_at(t, '\n') >= 0 ==> spec_lines(t) == seq![
            strip_cr(t.take(find_char_at(t, '\n'))),
        ] + spec_lines(t.skip(find_char_at(t, '\n') + 1)),
{
    lemma_find_char_found(t, '\n');
    lemma_split_all_find(t, '\n');
    let k = find_char_at(t, '\n');
    if k == -1 {
        assert(t.last() != '\n');
        assert(split_all(t, '\n').map_values(|l: Seq<char>| strip_cr(l)) =~~= seq![strip_cr(t)]);
    } else {
        let u = t.skip(k + 1);
        let raw = split_all(t, '\n');
        let raw_u = split_all(u, '\n');
        lemma_split_all_len(u, '\n');
        assert(raw == seq![t.take(k)] + raw_u);
        if u.len() == 0 {
            assert(k == t.len() - 1);
            assert(t.last() == '\n');
            assert(raw_u =~~= seq![Seq::<char>::empty()]);
            assert(raw.drop_last() =~~= seq![t.take(k)]);
            assert(raw.drop_last().map_values(|l: Seq<char>| strip_cr(l)) =~~= seq![
                strip_cr(t.take(k)),
            ]);
            assert(spec_lines(u) =~~= Seq::<Seq<char>>::empty());
            assert(spec_lines(t) =~~= seq![strip_cr(t.take(k))] + spec_lines(u));
        } else {
            assert(u.last() == t.last());
            if t.last() == '\n' {
                assert(raw.drop_last() =~~= seq![t.take(k)] + raw_u.drop_last());
                assert((seq![t.take(k)] + raw_u.drop_last()).map_values(
                    |l: Seq<char>| strip_cr(l),
                ) =~~= seq![strip_cr(t.take(k))] + raw_u.drop_last().map_values(
                    |l: Seq<char>| strip_cr(l),
                ));
                assert(spec_lines(t) =~~= seq![strip_cr(t.take(k))] + spec_lines(u));
            } else {
                assert((seq![t.take(k)] + raw_u).map_values(|l: Seq<char>| strip_cr(l)) =~~= seq![
                    strip_cr(t.take(k)),
                ] + raw_u.map_values(|l: Seq<char>| strip_cr(l)));
                assert(spec_lines(t) =~~= seq![strip_cr(t.take(k))] + spec_lines(u));
            }
        }
    }
}

/// The lines of `s`, as `str::lines` yields them.
pub fn split_lines(s: &Vec<char>) -> (r: Vec<Vec<char>>)
    ensures
        r.deep_view() == spec_lines(s@),
{
    let mut out: Vec<Vec<char>> = Vec::new();
    let total = s.len();
    let mut start: usize = 0;
    proof {
        assert(s@.skip(0) =~= s@);
        assert(out.deep_view() =~~= Seq::<Seq<char>>::empty());
    }
    while start < total
        invariant
            start <= s@.len(),
            total == s@.len(),
            spec_lines(s@) == out.deep_view() + spec_lines(s@.skip(start as int)),
        decreases total - start,
    {
        let ghost rest: Seq<char> = s@.skip(start as int);
        match find_char_pos(s, start, '\n') {
            Some(j) => {
                let mut seg = sub_chars(s, start, j);
                proof {
                    assert(seg@ =~= rest.take(j - start));
                }
                if seg.len() > 0 && seg[seg.len() - 1] == '\r' {
                    seg.pop();
                }
                proof {
                    assert(seg@ =~= strip_cr(rest.take(j - start)));
                    lemma_lines_decomp(rest);
                    assert(rest.skip(j - start + 1) =~= s@.skip(j + 1));
                }
                let ghost prev: Seq<Seq<char>> = out.deep_view();
                out.push(seg);
                proof {
                    assert(out.deep_view() =~~= prev.push(seg@));
                    assert(prev.push(seg@) + spec_lines(s@.skip(j + 1)) =~~= prev + spec_lines(
                        rest,
                    ));
                }
                start = j + 1;
            },
            None => {
                let mut seg = sub_chars(s, start, total);
                proof {
                    assert(seg@ =~= rest);
                }
                if seg.len() > 0 && seg[seg.len() - 1] == '\r' {
                    seg.pop();
                }
                proof {
                    assert(seg@ =~= strip_cr(rest));
                    lemma_lines_decomp(rest);
                }
                let ghost prev: Seq<Seq<char>> = out.deep_view();
                out.push(seg);
                proof {
                    assert(out.deep_view() =~~= prev.push(seg@));
                    assert(prev.push(seg@) =~~= prev + spec_lines(rest));
                    assert(spec_lines(s@.skip(s@.len() as int)) =~~= Seq::<Seq<char>>::empty());
                    assert(out.deep_view() + spec_lines(s@.skip(s@.len() as int)) =~~= prev
                        + spec_lines(rest));
                }
                start = total;
            },
        }
    }
    proof {
        assert(spec_lines(s@.skip(start as int)) =~~= Seq::<Seq<char>>::empty());
        assert(out.deep_view() =~~= spec_lines(s@));
    }
    out
}

/// Segments joined with a separator character between them.
pub open spec fn join_sep(ls: Seq<Seq<char>>, sep: char) -> Seq<char>
    decreases ls.len(),
{
    if ls.len() == 0 {
        Seq::<char>::empty()
    } else if ls.len() == 1 {
        ls[0]
    } else {
        ls[0] + seq![sep] + join_sep(ls.skip(1), sep)
    }
}

pub proof fn lemma_join_push(ls: Seq<Seq<char>>, w: Seq<char>, sep: char)
    ensures
        ls.len() == 0 ==> join_sep(ls.push(w), sep) == w,
        ls.len() > 0 ==> join_sep(ls.push(w), sep) == join_sep(ls, sep) + seq![sep] + w,
    decreases ls.len(),
{
    if ls.len() == 0 {
        assert(join_sep(ls.push(w), sep) == ls.push(w)[0]);
        assert(ls.push(w)[0] == w);
    } else if ls.len() == 1 {
        assert(ls.push(w).len() == 2);
        assert(ls.push(w)[0] == ls[0]);
        assert(ls.push(w).skip(1) =~~= seq![w]);
        assert(join_sep(seq![w], sep) == w);
        assert(join_sep(ls.push(w), sep) == ls[0] + seq![sep] + w);
    } else {
        lemma_join_push(ls.skip(1), w, sep);
        assert(ls.push(w).skip(1) =~~= ls.skip(1).push(w));
        assert(ls.push(w)[0] == ls[0]);
        assert(join_sep(ls.push(w), sep) == ls[0] + seq![sep] + join_sep(ls.skip(1).push(w), sep));
        assert(ls[0] + seq![sep] + (join_sep(ls.skip(1), sep) + seq![sep] + w) =~= (ls[0]
            + seq![sep] + join_sep(ls.skip(1), sep)) + seq![sep] + w);
    }
}

/// Join segments with a separator, as `[&str]::join` would.
pub fn join_chars(ls: &Vec<Vec<char>>, sep: char) -> (r: Vec<char>)
    ensures
        r@ == join_sep(ls.deep_view(), sep),
{
    let mut r: Vec<char> = Vec::new();
    let mut i: usize = 0;
    while i < ls.len()
        invariant
            i <= ls@.len(),
            ls.deep_view().len() == ls@.len(),
            r@ == join_sep(ls.deep_view().take(i as int), sep),
        decreases ls.len() - i,
    {
        if i > 0 {
            r.push(sep);
        }
        push_all(&mut r, &ls[i]);
        proof {
            let ghost dv = ls.deep_view();
            lemma_join_push(dv.take(i as int), dv[i as int], sep);
            assert(dv.take(i as int).push(dv[i as int]) =~~= dv.take(i + 1));
            assert(dv[i as int] =~= ls@[i as int]@);
            if i > 0 {
                assert(r@ =~= join_sep(dv.take(i as int), sep) + seq![sep] + dv[i as int]);
            } else {
                assert(r@ =~= dv[i as int]);
            }
        }
        i = i + 1;
    }
    proof {
        assert(ls.deep_view().take(ls@.len() as int) =~~= ls.deep_view());
    }
    r
}


/// All segments of `s` split on `sep`, empty segments kept.
pub fn split_all_chars(s: &Vec<char>, sep: char) -> (r: Vec<Vec<char>>)
    ensures
        r.deep_view() == split_all(s@, sep),
{
    let mut out: Vec<Vec<char>> = Vec::new();
    let total = s.len();
    let mut start: usize = 0;
    proof {
        assert(s@.skip(0) =~= s@);
        assert(out.deep_view() =~~= Seq::<Seq<char>>::empty());
    }
    loop
        invariant_except_break
            start <= total,
            total == s@.len(),
            split_all(s@, sep) == out.deep_view() + split_all(s@.skip(start as int), sep),
        ensures
            out.deep_view() == split_all(s@, sep),
        decreases total - start,
    {
        let ghost rest: Seq<char> = s@.skip(start as int);
        match find_char_pos(s, start, sep) {
            Some(j) => {
                let seg = sub_chars(s, start, j);
                proof {
                    assert(seg@ =~= rest.take(j - start));
                    lemma_split_all_find(rest, sep);
                    assert(rest.skip(j - start + 1) =~= s@.skip(j + 1));
                }
                let ghost prev: Seq<Seq<char>> = out.deep_view();
                out.push(seg);
                proof {
                    assert(out.deep_view() =~~= prev.push(seg@));
                    assert(prev.push(seg@) + split_all(s@.skip(j + 1), sep) =~~= prev + split_all(
                        rest,
                        sep,
                    ));
                }
                start = j + 1;
            },
            None => {
                let seg = sub_chars(s, start, total);
                proof {
                    assert(seg@ =~= rest);
                    lemma_split_all_find(rest, sep);
                }
                let ghost prev: Seq<Seq<char>> = out.deep_view();
                out.push(seg);
                proof {
                    assert(out.deep_view() =~~= prev.push(seg@));
                    assert(prev.push(seg@) =~~= prev + split_all(rest, sep));
                    assert(out.deep_view() =~~= split_all(s@, sep));
                }
                break;
            },
        }
    }
    out
}


pub open spec fn strip_lead(s: Seq<char>, c: char) -> Seq<char>
    decreases s.len(),
{
    if s.len() > 0 && s[0] == c {
        strip_lead(s.skip(1), c)
    } else {
        s
    }
}


/// First occurrence of `p` in `s` at or after `from`.
pub fn find_sub_pos(s: &Vec<char>, from: usize, p: &Vec<char>) -> (r: Option<usize>)
    requires
        from <= s@.len(),
    ensures
        match r {
            Some(j) => from <= j && j - from == find_sub(s@.skip(from as int), p@) && j + p@.len()
                <= s@.len(),
            None => find_sub(s@.skip(from as int), p@) == -1,
        },
{
    let ghost t: Seq<char> = s@.skip(from as int);
    let mut j: usize = from;
    while j < s.len()
        invariant
            from <= j <= s@.len(),
            t == s@.skip(from as int),
            forall|m: int| 0 <= m < j - from ==> !starts_with(#[trigger] t.skip(m), p@),
        decreases s.len() - j,
    {
        if has_prefix_at(s, j, p) {
            proof {
                assert(t.skip(j - from) =~= s@.skip(j as int));
                lemma_find_sub_from(t, p@, j - from);
            }
            return Some(j);
        }
        proof {
            assert(t.skip(j - from) =~= s@.skip(j as int));
        }
        j = j + 1;
    }
    if has_prefix_at(s, s.len(), p) {
        proof {
            assert(t.skip(s@.len() - from) =~= s@.skip(s@.len() as int));
            lemma_find_sub_from(t, p@, s@.len() - from);
        }
        return Some(s.len());
    }
    proof {
        assert(t.skip(s@.len() - from) =~= s@.skip(s@.len() as int));
        lemma_find_sub_from(t, p@, s@.len() - from);
    }
    None
}

/// Every non-overlapping occurrence of `pat` replaced by `rep`, left to
/// right, as `str::replace` does.
pub open spec fn replace_all(s: Seq<char>, pat: Seq<char>, rep: Seq<char>) -> Seq<char>
    decreases s.len(),
{
    let i = find_sub(s, pat);
    if pat.len() == 0 || i < 0 || i + pat.len() > s.len() {
        s
    } else {
        s.take(i) + rep + replace_all(s.skip(i + pat.len()), pat, rep)
    }
}

pub fn replace_chars(s: &Vec<char>, pat: &Vec<char>, rep: &Vec<char>) -> (r: Vec<char>)
    requires
        pat@.len() > 0,
    ensures
        r@ == replace_all(s@, pat@, rep@),
{
    let mut out: Vec<char> = Vec::new();
    let total = s.len();
    let mut rem: usize = 0;
    proof {
        assert(s@.skip(0) =~= s@);
        assert(out@ + replace_all(s@.skip(0), pat@, rep@) =~= replace_all(s@, pat@, rep@));
    }
    loop
        invariant_except_break
            rem <= total,
            total == s@.len(),
            pat@.len() > 0,
            replace_all(s@, pat@, rep@) == out@ + replace_all(s@.skip(rem as int), pat@, rep@),
        ensures
            out@ == replace_all(s@, pat@, rep@),
        decreases total - rem,
    {
        let ghost rest: Seq<char> = s@.skip(rem as int);
        match find_sub_pos(s, rem, pat) {
            Some(j) => {
                let ghost before = out@;
                let seg = sub_chars(s, rem, j);
                push_all(&mut out, &seg);
                push_all(&mut out, rep);
                proof {
                    assert(seg@ =~= rest.take(j - rem));
                    assert(rest.skip(j - rem + pat@.len()) =~= s@.skip(j + pat@.len()));
                    assert(out@ + replace_all(s@.skip(j + pat@.len() as int), pat@, rep@) =~=
                        before + (rest.take(j - rem) + rep@ + replace_all(
                        rest.skip(j - rem + pat@.len()),
                        pat@,
                        rep@,
                    )));
                }
                rem = j + pat.len();
            },
            None => {
                let seg = sub_chars(s, rem, total);
                push_all(&mut out, &seg);
                proof {
                    assert(seg@ =~= rest);
                    lemma_find_sub_range(rest, pat@);
                    assert(replace_all(rest, pat@, rep@) == rest);
                    assert(out@ =~= replace_all(s@, pat@, rep@));
                }
                break;
            },
        }
    }
    out
}

} // verus!
