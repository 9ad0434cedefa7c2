//! Quoting of string values for the structured front-matter block.

use vstd::prelude::*;

use crate::text::{
    chars_of, find_char_pos, is_digit, is_digit_char, is_lower_char, is_upper_char,
    lemma_find_char_found, string_of,
};

verus! {

pub open spec fn has_char(s: Seq<char>, c: char) -> bool {
    exists|i: int| 0 <= i < s.len() && s[i] == c
}

/// A leading Windows-drive shape (`C:\` or `C:/`), which exempts the value
/// from colon quoting.
pub open spec fn is_drive_path(s: Seq<char>) -> bool {
    &&& s.len() >= 3
    &&& (is_lower_char(s[0]) || is_upper_char(s[0]))
    &&& s[1] == ':'
    &&& (s[2] == '\\' || s[2] == '/')
}

/// When a front-matter value must be quoted: it contains a colon (and is not
/// a drive path), contains a quote of either kind, or starts with a digit.
pub open spec fn needs_quotes(s: Seq<char>) -> bool {
    ||| (has_char(s, ':') && !is_drive_path(s))
    ||| has_char(s, '"')
    ||| has_char(s, '\'')
    ||| (s.len() > 0 && is_digit_char(s[0]))
}

/// Every double quote preceded by a backslash.
pub open spec fn esc_quotes(s: Seq<char>) -> Seq<char>
    decreases s.len(),
{
    if s.len() == 0 {
        Seq::<char>::empty()
    } else if s[0] == '"' {
        seq!['\\', '"'] + esc_quotes(s.skip(1))
    } else {
        seq![s[0]] + esc_quotes(s.skip(1))
    }
}

/// The value as it is written into the front-matter block: quoted and escaped
/// when `needs_quotes` holds, verbatim otherwise.
pub open spec fn spec_escape_yaml(s: Seq<char>) -> Seq<char> {
    if needs_quotes(s) {
        seq!['"'] + esc_quotes(s) + seq!['"']
    } else {
        s
    }
}

fn contains_char(s: &Vec<char>, c: char) -> (r: bool)
    ensures
        r == has_char(s@, c),
{
    proof {
        assert(s@.skip(0) =~= s@);
    }
    match find_char_pos(s, 0, c) {
        Some(_) => true,
        None => {
            proof {
                lemma_find_char_found(s@, c);
            }
            false
        },
    }
}

/// Quote a value for the structured block when it needs it.
pub fn escape_yaml(input: &str) -> (r: String)
    ensures
        r@ == spec_escape_yaml(input@),
{
    let cs = chars_of(input);
    let is_drive = cs.len() >= 3 && {
        let c0 = cs[0];
        (('a' <= c0 && c0 <= 'z') || ('A' <= c0 && c0 <= 'Z')) && cs[1] == ':' && (cs[2] == '\\'
            || cs[2] == '/')
    };
    let has_colon = contains_char(&cs, ':');
    let has_dq = contains_char(&cs, '"');
    let has_sq = contains_char(&cs, '\'');
    let digit_start = cs.len() > 0 && is_digit(cs[0]);
    let quote = (has_colon && !is_drive) || has_dq || has_sq || digit_start;
    if quote {
        let mut out: Vec<char> = Vec::new();
        out.push('"');
        let mut i: usize = 0;
        proof {
            assert(cs@.skip(0) =~= cs@);
            assert(out@ =~= seq!['"'] + Seq::<char>::empty());
            assert(seq!['"'] + esc_quotes(cs@) =~= out@ + esc_quotes(cs@.skip(0)));
        }
        while i < cs.len()
            invariant
                i <= cs@.len(),
                seq!['"'] + esc_quotes(cs@) == out@ + esc_quotes(cs@.skip(i as int)),
            decreases cs.len() - i,
        {
            let c = cs[i];
            let ghost rest: Seq<char> = cs@.skip(i as int);
            proof {
                assert(rest.skip(1) =~= cs@.skip(i + 1));
                assert(rest[0] == cs@[i as int]);
            }
            let ghost before: Seq<char> = out@;
            if c == '"' {
                out.push('\\');
                out.push('"');
                proof {
                    assert(out@ + esc_quotes(cs@.skip(i + 1)) =~= before + (seq!['\\', '"']
                        + esc_quotes(cs@.skip(i + 1))));
                }
            } else {
                out.push(c);
                proof {
                    assert(out@ + esc_quotes(cs@.skip(i + 1)) =~= before + (seq![c] + esc_quotes(
                        cs@.skip(i + 1),
                    )));
                }
            }
            i = i + 1;
        }
        out.push('"');
        proof {
            assert(esc_quotes(cs@.skip(cs@.len() as int)) =~= Seq::<char>::empty());
            assert(out@ =~= seq!['"'] + esc_quotes(cs@) + seq!['"']);
        }
        string_of(&out)
    } else {
        string_of(&cs)
    }
}

} // verus!
