//! The canonical record: its metadata fields, the slug/number codec, and the
//! filename convention that ties a record to its storage path.

use vstd::prelude::*;

use crate::text::{
    chars_of, char_to_digit, digits_val, ends_with, find_char_at, is_ascii_alnum,
    is_ascii_alnum_char, is_ascii_space, is_ascii_space_char, is_digit, is_digit_char,
    char_digit, is_u32_numeral, join_chars, join_sep, lemma_find_char_found, lower_char, numeral_val,
    parse_u32, rfind, rfind_char, spec_fmt4, spec_trim, split_all, split_all_chars, string_of,
    sub_chars, to_lower, to_upper, trim_chars, upper_char, fmt4, push_all, strip_lead,
};

verus! {

// ---------------------------------------------------------------------------
// The record
// ---------------------------------------------------------------------------

/// The canonical in-memory form of one record.
#[derive(Debug)]
pub struct AdrMeta {
    pub number: u32,
    pub title: String,
    pub status: String,
    pub date: String,
    pub supersedes: Option<u32>,
    pub superseded_by: Option<u32>,
    /// The filename under the document directory that the record came from.
    pub path: String,
}

/// The mathematical view of a record.
pub struct MetaView {
    pub number: u32,
    pub title: Seq<char>,
    pub status: Seq<char>,
    pub date: Seq<char>,
    pub supersedes: Option<u32>,
    pub superseded_by: Option<u32>,
    pub path: Seq<char>,
}

impl View for AdrMeta {
    type V = MetaView;

    open spec fn view(&self) -> MetaView {
        MetaView {
            number: self.number,
            title: self.title@,
            status: self.status@,
            date: self.date@,
            supersedes: self.supersedes,
            superseded_by: self.superseded_by,
            path: self.path@,
        }
    }
}

impl DeepView for AdrMeta {
    type V = MetaView;

    open spec fn deep_view(&self) -> MetaView {
        self.view()
    }
}

impl AdrMeta {
    /// A field-for-field copy.
    pub fn duplicate(&self) -> (r: AdrMeta)
        ensures
            r@ == self@,
    {
        AdrMeta {
            number: self.number,
            title: self.title.clone(),
            status: self.status.clone(),
            date: self.date.clone(),
            supersedes: self.supersedes,
            superseded_by: self.superseded_by,
            path: self.path.clone(),
        }
    }
}

// ---------------------------------------------------------------------------
// Errors
// ---------------------------------------------------------------------------

/// Why an operation refused or failed.
#[derive(Debug)]
pub enum AdrError {
    /// No record matched the requested number or title.
    NotFound(String),
    /// The input could not be read as a record number.
    InvalidNumber(String),
    /// A configured template path could not be read.
    TemplateUnreadable(String),
    /// A storage read or write failed.
    Io(String),
    /// The store no longer shows the record the operation just rewrote.
    Inconsistent(String),
}

impl AdrError {
    /// The human-readable description carried by the error.
    pub fn message(&self) -> (r: &String)
        ensures
            r@ == self.text(),
    {
        match self {
            AdrError::NotFound(m) => m,
            AdrError::InvalidNumber(m) => m,
            AdrError::TemplateUnreadable(m) => m,
            AdrError::Io(m) => m,
            AdrError::Inconsistent(m) => m,
        }
    }

    /// The description as a sequence of characters.
    pub open spec fn text(&self) -> Seq<char> {
        match self {
            AdrError::NotFound(m) => m@,
            AdrError::InvalidNumber(m) => m@,
            AdrError::TemplateUnreadable(m) => m@,
            AdrError::Io(m) => m@,
            AdrError::Inconsistent(m) => m@,
        }
    }
}

// ---------------------------------------------------------------------------
// Slugs
// ---------------------------------------------------------------------------

/// One left-to-right pass of slugification: ASCII-lowercase every character,
/// keep alphanumerics, turn each run of separators into a single dash, and
/// drop everything else.
pub open spec fn slug_core(s: Seq<char>, last_dash: bool) -> Seq<char>
    decreases s.len(),
{
    if s.len() == 0 {
        Seq::<char>::empty()
    } else {
        let c = lower_char(s[0]);
        if is_ascii_alnum_char(c) {
            seq![c] + slug_core(s.skip(1), false)
        } else if (is_ascii_space_char(c) || c == '-' || c == '_') && !last_dash {
            seq!['-'] + slug_core(s.skip(1), true)
        } else {
            slug_core(s.skip(1), last_dash)
        }
    }
}

pub open spec fn strip_trail(s: Seq<char>, c: char) -> Seq<char>
    decreases s.len(),
{
    if s.len() > 0 && s.last() == c {
        strip_trail(s.drop_last(), c)
    } else {
        s
    }
}

/// The slug of a title: the core pass with dangling dashes removed, or `adr`
/// when nothing is left.
pub open spec fn spec_slugify(s: Seq<char>) -> Seq<char> {
    let t = strip_lead(strip_trail(slug_core(s, false), '-'), '-');
    if t.len() == 0 {
        seq!['a', 'd', 'r']
    } else {
        t
    }
}

/// Lowercase, filesystem-safe form of a title.
pub fn slugify(s: &str) -> (r: String)
    ensures
        r@ == spec_slugify(s@),
{
    let cs = chars_of(s);
    let mut out: Vec<char> = Vec::new();
    let mut last_dash = false;
    let mut i: usize = 0;
    proof {
        assert(cs@.skip(0) =~= cs@);
    }
    while i < cs.len()
        invariant
            i <= cs@.len(),
            slug_core(cs@, false) == out@ + slug_core(cs@.skip(i as int), last_dash),
        decreases cs.len() - i,
    {
        let c = to_lower(cs[i]);
        let ghost rest: Seq<char> = cs@.skip(i as int);
        proof {
            assert(rest.skip(1) =~= cs@.skip(i + 1));
            assert(rest[0] == cs@[i as int]);
        }
        if is_ascii_alnum(c) {
            out.push(c);
            last_dash = false;
            proof {
                assert(out@ + slug_core(cs@.skip(i + 1), false) =~= (out@.drop_last() + (seq![c]
                    + slug_core(cs@.skip(i + 1), false))));
            }
        } else if is_ascii_space(c) || c == '-' || c == '_' {
            if !last_dash {
                out.push('-');
                last_dash = true;
                proof {
                    assert(out@ + slug_core(cs@.skip(i + 1), true) =~= (out@.drop_last() + (
                    seq!['-'] + slug_core(cs@.skip(i + 1), true))));
                }
            }
        }
        i = i + 1;
    }
    proof {
        assert(cs@.skip(cs@.len() as int) =~= Seq::<char>::empty());
        assert(out@ + Seq::<char>::empty() =~= out@);
    }
    let ghost core: Seq<char> = out@;
    while out.len() > 0 && out[out.len() - 1] == '-'
        invariant
            strip_trail(core, '-') == strip_trail(out@, '-'),
        decreases out.len(),
    {
        out.pop();
    }
    proof {
        assert(strip_trail(core, '-') == out@);
    }
    let mut j: usize = 0;
    proof {
        assert(out@.skip(0) =~= out@);
    }
    while j < out.len() && out[j] == '-'
        invariant
            j <= out@.len(),
            strip_lead(out@, '-') == strip_lead(out@.skip(j as int), '-'),
        decreases out.len() - j,
    {
        proof {
            assert(out@.skip(j as int).skip(1) =~= out@.skip(j + 1));
        }
        j = j + 1;
    }
    proof {
        if j == out@.len() {
            assert(out@.skip(j as int) =~= Seq::<char>::empty());
        }
        assert(strip_lead(out@, '-') == out@.skip(j as int));
    }
    let stripped = sub_chars(&out, j, out.len());
    proof {
        assert(stripped@ =~= out@.skip(j as int));
    }
    if stripped.len() == 0 {
        let mut fallback: Vec<char> = Vec::new();
        fallback.push('a');
        fallback.push('d');
        fallback.push('r');
        proof {
            assert(fallback@ =~= seq!['a', 'd', 'r']);
        }
        string_of(&fallback)
    } else {
        string_of(&stripped)
    }
}

// ---------------------------------------------------------------------------
// Numbers
// ---------------------------------------------------------------------------

/// How an identifier string is read as a record number: trim it, drop leading
/// zeros, read the empty remainder as zero, and anything else as a decimal
/// `u32`; `None` when that fails.
pub open spec fn spec_parse_number(s: Seq<char>) -> Option<u32> {
    let z = strip_lead(spec_trim(s), '0');
    if z.len() == 0 {
        Some(0u32)
    } else if is_u32_numeral(z) {
        Some(numeral_val(z) as u32)
    } else {
        None
    }
}

/// Read a record number from free text, zero-padded or not.
pub fn parse_number(s: &str) -> (r: Result<u32, AdrError>)
    ensures
        match r {
            Ok(v) => spec_parse_number(s@) == Some(v),
            Err(e) => spec_parse_number(s@) is None && e is InvalidNumber,
        },
{
    let cs = chars_of(s);
    let t = trim_chars(&cs);
    let mut z: usize = 0;
    proof {
        assert(t@.skip(0) =~= t@);
    }
    while z < t.len() && t[z] == '0'
        invariant
            z <= t@.len(),
            strip_lead(t@, '0') == strip_lead(t@.skip(z as int), '0'),
        decreases t.len() - z,
    {
        proof {
            assert(t@.skip(z as int).skip(1) =~= t@.skip(z + 1));
        }
        z = z + 1;
    }
    proof {
        if z == t@.len() {
            assert(t@.skip(z as int) =~= Seq::<char>::empty());
        }
        assert(strip_lead(t@, '0') == t@.skip(z as int));
    }
    if z == t.len() {
        return Ok(0);
    }
    match parse_u32(&t, z) {
        Some(v) => Ok(v),
        None => {
            let mut msg: Vec<char> = Vec::new();
            push_all(&mut msg, &chars_of("invalid ADR number: "));
            push_all(&mut msg, &cs);
            Err(AdrError::InvalidNumber(string_of(&msg)))
        },
    }
}

// ---------------------------------------------------------------------------
// Filenames
// ---------------------------------------------------------------------------

/// The filename a record is stored under: zero-padded number, slug, extension.
pub open spec fn spec_filename(n: u32, title: Seq<char>, ext: Seq<char>) -> Seq<char> {
    spec_fmt4(n) + seq!['-'] + spec_slugify(title) + seq!['.'] + ext
}

pub fn filename_for(number: u32, title: &str, ext: &str) -> (r: String)
    ensures
        r@ == spec_filename(number, title@, ext@),
{
    let mut out = fmt4(number);
    out.push('-');
    let slug = slugify(title);
    push_all(&mut out, &chars_of(slug.as_str()));
    out.push('.');
    push_all(&mut out, &chars_of(ext));
    proof {
        assert(out@ =~= spec_filename(number, title@, ext@));
    }
    string_of(&out)
}

/// A filename the repository manages: a four-digit number, a dash, then a
/// slug carrying some extension. The extension is not compared against the
/// configured one: a collection is heterogeneous across storage formats, and
/// reformatting must still find records kept under the previous format. The
/// `ext` argument records which configuration the check ran under.
#[verifier::opaque]
pub open spec fn is_managed_name(name: Seq<char>, ext: Seq<char>) -> bool {
    &&& name.len() >= 6
    &&& is_digit_char(name[0])
    &&& is_digit_char(name[1])
    &&& is_digit_char(name[2])
    &&& is_digit_char(name[3])
    &&& name[4] == '-'
    &&& rfind_char(name, '.') >= 5
}

pub fn check_managed_name(name: &Vec<char>, ext: &Vec<char>) -> (r: bool)
    ensures
        r == is_managed_name(name@, ext@),
{
    proof {
        reveal(is_managed_name);
    }
    if name.len() < 6 {
        return false;
    }
    if !(is_digit(name[0]) && is_digit(name[1]) && is_digit(name[2]) && is_digit(name[3])
        && name[4] == '-') {
        return false;
    }
    match rfind(name, '.') {
        Some(d) => d >= 5,
        None => false,
    }
}

/// The number carried in a managed filename's four-digit prefix.
pub open spec fn name_number(name: Seq<char>) -> nat {
    digits_val(name.take(4))
}

pub fn number_from_name(name: &Vec<char>) -> (r: u32)
    requires
        name@.len() >= 4,
        is_digit_char(name@[0]),
        is_digit_char(name@[1]),
        is_digit_char(name@[2]),
        is_digit_char(name@[3]),
    ensures
        r == name_number(name@),
        r <= 9999,
{
    let d0 = char_to_digit(name[0]);
    let d1 = char_to_digit(name[1]);
    let d2 = char_to_digit(name[2]);
    let d3 = char_to_digit(name[3]);
    let v = d0 * 1000 + d1 * 100 + d2 * 10 + d3;
    proof {
        assert(name@.take(4).drop_last() =~= name@.take(3));
        assert(name@.take(3).drop_last() =~= name@.take(2));
        assert(name@.take(2).drop_last() =~= name@.take(1));
        assert(name@.take(1).drop_last() =~= name@.take(0));
        assert(name@.take(0) =~= Seq::<char>::empty());
        assert(digits_val(name@.take(0)) == 0);
        assert(digits_val(name@.take(1)) == char_digit(name@[0]));
        assert(digits_val(name@.take(2)) == digits_val(name@.take(1)) * 10 + char_digit(name@[1]));
        assert(digits_val(name@.take(3)) == digits_val(name@.take(2)) * 10 + char_digit(name@[2]));
        assert(digits_val(name@.take(4)) == digits_val(name@.take(3)) * 10 + char_digit(name@[3]));
    }
    v
}

// ---------------------------------------------------------------------------
// Titles from filenames
// ---------------------------------------------------------------------------

/// The filename without its extension, as `Path::file_stem` computes it.
pub open spec fn spec_stem(name: Seq<char>) -> Seq<char> {
    let d = rfind_char(name, '.');
    if d <= 0 {
        name
    } else {
        name.take(d)
    }
}

/// A word with its first character ASCII-uppercased.
pub open spec fn cap_word(w: Seq<char>) -> Seq<char> {
    if w.len() == 0 {
        w
    } else {
        seq![upper_char(w[0])] + w.skip(1)
    }
}

/// Empty words dropped, the rest capitalized.
pub open spec fn cap_words(ws: Seq<Seq<char>>) -> Seq<Seq<char>>
    decreases ws.len(),
{
    if ws.len() == 0 {
        Seq::<Seq<char>>::empty()
    } else {
        let init = cap_words(ws.drop_last());
        if ws.last().len() == 0 {
            init
        } else {
            init.push(cap_word(ws.last()))
        }
    }
}

/// The display title recovered from a slugged filename: the part of the stem
/// after the first dash, split on dashes, each word capitalized, joined by
/// spaces; nothing when the stem has no dash or nothing after it.
pub open spec fn spec_title_from_filename(name: Seq<char>) -> Option<Seq<char>> {
    let stem = spec_stem(name);
    let e = find_char_at(stem, '-');
    if e == -1 {
        None
    } else if stem.skip(e + 1).len() == 0 {
        None
    } else {
        Some(join_sep(cap_words(split_all(stem.skip(e + 1), '-')), ' '))
    }
}

/// Recover a display title from a record's filename.
pub fn title_from_filename(name: &str) -> (r: Option<String>)
    ensures
        match r {
            Some(t) => spec_title_from_filename(name@) == Some(t@),
            None => spec_title_from_filename(name@) is None,
        },
{
    let cs = chars_of(name);
    let stem: Vec<char> = match rfind(&cs, '.') {
        Some(d) => {
            if d == 0 {
                sub_chars(&cs, 0, cs.len())
            } else {
                sub_chars(&cs, 0, d)
            }
        },
        None => sub_chars(&cs, 0, cs.len()),
    };
    proof {
        assert(cs@.subrange(0, cs@.len() as int) =~= cs@);
        assert(stem@ == spec_stem(name@));
    }
    let e = match crate::text::find_char_pos(&stem, 0, '-') {
        Some(e) => {
            proof {
                assert(stem@.skip(0) =~= stem@);
            }
            e
        },
        None => {
            proof {
                assert(stem@.skip(0) =~= stem@);
            }
            return None;
        },
    };
    if e + 1 == stem.len() {
        proof {
            assert(stem@.skip(e + 1) =~= Seq::<char>::empty());
        }
        return None;
    }
    let slug = sub_chars(&stem, e + 1, stem.len());
    proof {
        assert(slug@ =~= stem@.skip(e + 1));
    }
    let words = split_all_chars(&slug, '-');
    let mut cw: Vec<Vec<char>> = Vec::new();
    let mut i: usize = 0;
    proof {
        assert(words.deep_view().take(0) =~~= Seq::<Seq<char>>::empty());
        assert(cw.deep_view() =~~= cap_words(words.deep_view().take(0)));
    }
    while i < words.len()
        invariant
            i <= words@.len(),
            words.deep_view().len() == words@.len(),
            cw.deep_view() == cap_words(words.deep_view().take(i as int)),
        decreases words.len() - i,
    {
        let ghost dv = words.deep_view();
        proof {
            assert(dv.take(i + 1).drop_last() =~~= dv.take(i as int));
            assert(dv.take(i + 1).last() =~= dv[i as int]);
            assert(dv[i as int] =~= words@[i as int]@);
        }
        let w = &words[i];
        if w.len() > 0 {
            let mut c: Vec<char> = Vec::new();
            c.push(to_upper(w[0]));
            let tail = sub_chars(w, 1, w.len());
            push_all(&mut c, &tail);
            proof {
                assert(c@ =~= cap_word(words@[i as int]@));
            }
            let ghost prev = cw.deep_view();
            cw.push(c);
            proof {
                assert(cw.deep_view() =~~= prev.push(c@));
                assert(cw.deep_view() =~~= cap_words(dv.take(i + 1)));
            }
        } else {
            proof {
                assert(cw.deep_view() =~~= cap_words(dv.take(i + 1)));
            }
        }
        i = i + 1;
    }
    proof {
        assert(words.deep_view().take(words@.len() as int) =~~= words.deep_view());
    }
    let joined = join_chars(&cw, ' ');
    Some(string_of(&joined))
}

} // verus!
