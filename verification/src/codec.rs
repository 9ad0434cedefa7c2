//! The document codec: recognizing metadata lines, updating status and
//! supersession fields in place, splitting off front matter, parsing a raw
//! document into a record, and rendering a record back out.

use vstd::prelude::*;

use crate::text::{
    chars_of, ends_with, find_char_at, find_sub, find_subseq, has_prefix, is_space_char,
    join_chars, join_sep, lemma_find_sub_none, lemma_find_sub_range, push_all, push_str_chars,
    rfind, rfind_char, spec_fmt4, spec_lines, spec_trim, split_lines, starts_with, sub_chars,
    trim_chars, fmt4, is_u32_numeral, numeral_val, parse_u32, string_of, is_digit_char, digits_val,
};

verus! {

// ---------------------------------------------------------------------------
// Managed metadata lines
// ---------------------------------------------------------------------------

pub open spec fn is_title_line(l: Seq<char>) -> bool {
    starts_with(l, "Title:"@)
}

pub open spec fn is_date_line(l: Seq<char>) -> bool {
    starts_with(l, "Date:"@)
}

pub open spec fn is_status_line(l: Seq<char>) -> bool {
    starts_with(l, "Status:"@)
}

pub open spec fn is_supersedes_line(l: Seq<char>) -> bool {
    starts_with(l, "Supersedes:"@)
}

pub open spec fn is_sb_line(l: Seq<char>) -> bool {
    starts_with(l, "Superseded-by:"@)
}

/// Any line the codec owns and may rewrite.
pub open spec fn is_meta_line(l: Seq<char>) -> bool {
    is_title_line(l) || is_date_line(l) || is_status_line(l) || is_supersedes_line(l)
        || is_sb_line(l)
}

/// The status line recording supersession by record `n`.
pub open spec fn sup_status_text(n: u32) -> Seq<char> {
    "Status: Superseded by "@ + spec_fmt4(n)
}

/// The link line naming the superseding record `n`.
pub open spec fn sb_text(n: u32) -> Seq<char> {
    "Superseded-by: "@ + spec_fmt4(n)
}

pub open spec fn status_text(word: Seq<char>) -> Seq<char> {
    "Status: "@ + word
}

pub open spec fn date_text(d: Seq<char>) -> Seq<char> {
    "Date: "@ + d
}

pub fn exec_sup_status_text(n: u32) -> (r: Vec<char>)
    ensures
        r@ == sup_status_text(n),
{
    let mut r: Vec<char> = Vec::new();
    push_str_chars(&mut r, "Status: Superseded by ");
    let digits = fmt4(n);
    push_all(&mut r, &digits);
    r
}

pub fn exec_sb_text(n: u32) -> (r: Vec<char>)
    ensures
        r@ == sb_text(n),
{
    let mut r: Vec<char> = Vec::new();
    push_str_chars(&mut r, "Superseded-by: ");
    let digits = fmt4(n);
    push_all(&mut r, &digits);
    r
}

// ---------------------------------------------------------------------------
// Last-match indices
// ---------------------------------------------------------------------------

/// Index of the last status line, or -1.
pub open spec fn last_status_idx(ls: Seq<Seq<char>>) -> int
    decreases ls.len(),
{
    if ls.len() == 0 {
        -1
    } else if is_status_line(ls.last()) {
        ls.len() - 1
    } else {
        last_status_idx(ls.drop_last())
    }
}

/// Index of the last `Superseded-by` line, or -1.
pub open spec fn last_sb_idx(ls: Seq<Seq<char>>) -> int
    decreases ls.len(),
{
    if ls.len() == 0 {
        -1
    } else if is_sb_line(ls.last()) {
        ls.len() - 1
    } else {
        last_sb_idx(ls.drop_last())
    }
}

pub proof fn lemma_last_status_idx(ls: Seq<Seq<char>>)
    ensures
        last_status_idx(ls) == -1 || (0 <= last_status_idx(ls) < ls.len()),
        last_status_idx(ls) == -1 ==> forall|i: int| 0 <= i < ls.len() ==> !is_status_line(
            #[trigger] ls[i],
        ),
        last_status_idx(ls) >= 0 ==> last_status_idx(ls) < ls.len() && is_status_line(
            ls[last_status_idx(ls)],
        ) && forall|i: int| last_status_idx(ls) < i < ls.len() ==> !is_status_line(
            #[trigger] ls[i],
        ),
    decreases ls.len(),
{
    if ls.len() > 0 && !is_status_line(ls.last()) {
        lemma_last_status_idx(ls.drop_last());
        assert(forall|i: int| 0 <= i < ls.len() - 1 ==> ls.drop_last()[i] == ls[i]);
    }
}

pub proof fn lemma_last_sb_idx(ls: Seq<Seq<char>>)
    ensures
        last_sb_idx(ls) == -1 || (0 <= last_sb_idx(ls) < ls.len()),
        last_sb_idx(ls) == -1 ==> forall|i: int| 0 <= i < ls.len() ==> !is_sb_line(
            #[trigger] ls[i],
        ),
        last_sb_idx(ls) >= 0 ==> last_sb_idx(ls) < ls.len() && is_sb_line(ls[last_sb_idx(ls)])
            && forall|i: int| last_sb_idx(ls) < i < ls.len() ==> !is_sb_line(#[trigger] ls[i]),
    decreases ls.len(),
{
    if ls.len() > 0 && !is_sb_line(ls.last()) {
        lemma_last_sb_idx(ls.drop_last());
        assert(forall|i: int| 0 <= i < ls.len() - 1 ==> ls.drop_last()[i] == ls[i]);
    }
}

/// Find the last status line and the last `Superseded-by` line by scanning.
fn scan_last_indices(ls: &Vec<Vec<char>>) -> (r: (Option<usize>, Option<usize>))
    ensures
        match r.0 {
            Some(i) => i == last_status_idx(ls.deep_view()),
            None => last_status_idx(ls.deep_view()) == -1,
        },
        match r.1 {
            Some(i) => i == last_sb_idx(ls.deep_view()),
            None => last_sb_idx(ls.deep_view()) == -1,
        },
{
    let status_lit = chars_of("Status:");
    let sb_lit = chars_of("Superseded-by:");
    let mut st: Option<usize> = None;
    let mut sb: Option<usize> = None;
    let ghost dv = ls.deep_view();
    let mut i: usize = 0;
    proof {
        assert(dv.take(0) =~~= Seq::<Seq<char>>::empty());
    }
    while i < ls.len()
        invariant
            i <= ls@.len(),
            dv == ls.deep_view(),
            dv.len() == ls@.len(),
            match st {
                Some(k) => k == last_status_idx(dv.take(i as int)),
                None => last_status_idx(dv.take(i as int)) == -1,
            },
            match sb {
                Some(k) => k == last_sb_idx(dv.take(i as int)),
                None => last_sb_idx(dv.take(i as int)) == -1,
            },
            status_lit@ == "Status:"@,
            sb_lit@ == "Superseded-by:"@,
        decreases ls.len() - i,
    {
        proof {
            assert(dv.take(i + 1).drop_last() =~~= dv.take(i as int));
            assert(dv.take(i + 1).last() =~= dv[i as int]);
            assert(dv[i as int] =~= ls@[i as int]@);
        }
        if has_prefix(&ls[i], &status_lit) {
            st = Some(i);
        }
        if has_prefix(&ls[i], &sb_lit) {
            sb = Some(i);
        }
        i = i + 1;
    }
    proof {
        assert(dv.take(dv.len() as int) =~~= dv);
    }
    (st, sb)
}

// ---------------------------------------------------------------------------
// Supersession surgery on a list of lines
// ---------------------------------------------------------------------------

/// Every status line rewritten to record supersession by `n`, every
/// `Superseded-by` line rewritten to name `n`.
pub open spec fn sup_mapped(ls: Seq<Seq<char>>, n: u32) -> Seq<Seq<char>> {
    ls.map_values(
        |l: Seq<char>|
            if is_status_line(l) {
                sup_status_text(n)
            } else if is_sb_line(l) {
                sb_text(n)
            } else {
                l
            },
    )
}

/// Where a missing status line is inserted: right after the heading for a
/// plain document with content, at the top otherwise.
pub open spec fn status_insert_at(ls: Seq<Seq<char>>, fm: bool) -> int {
    if fm {
        0
    } else if ls.len() > 0 {
        1
    } else {
        0
    }
}

/// The full supersession update on a list of lines: rewrite both managed
/// lines everywhere, insert a status line if there was none, and make the
/// `Superseded-by` line sit immediately after the last status line.
pub open spec fn supersede_lines(ls: Seq<Seq<char>>, n: u32, fm: bool) -> Seq<Seq<char>> {
    let m = sup_mapped(ls, n);
    let m2 = if last_status_idx(m) >= 0 {
        m
    } else {
        m.insert(status_insert_at(ls, fm), sup_status_text(n))
    };
    let s_idx = last_status_idx(m2);
    let sb_idx = last_sb_idx(m2);
    let desired = s_idx + 1;
    if sb_idx == -1 {
        m2.insert(desired, sb_text(n))
    } else if sb_idx == desired {
        m2
    } else {
        let removed = m2.remove(sb_idx);
        removed.insert(
            if sb_idx < desired {
                desired - 1
            } else {
                desired
            },
            sb_text(n),
        )
    }
}

/// The rewritten lines, spelled out.
#[verifier::rlimit(100)]
#[verifier::spinoff_prover]
pub fn exec_supersede_lines(ls: &Vec<Vec<char>>, n: u32, fm: bool) -> (r: Vec<Vec<char>>)
    ensures
        r.deep_view() == supersede_lines(ls.deep_view(), n, fm),
{
    let ghost dv = ls.deep_view();
    let status_lit = chars_of("Status:");
    let sb_lit = chars_of("Superseded-by:");
    let mut m: Vec<Vec<char>> = Vec::new();
    let mut i: usize = 0;
    proof {
        assert(m.deep_view() =~~= sup_mapped(dv, n).take(0));
    }
    while i < ls.len()
        invariant
            i <= ls@.len(),
            dv == ls.deep_view(),
            dv.len() == ls@.len(),
            m.deep_view() == sup_mapped(dv, n).take(i as int),
            status_lit@ == "Status:"@,
            sb_lit@ == "Superseded-by:"@,
        decreases ls.len() - i,
    {
        proof {
            assert(dv[i as int] =~= ls@[i as int]@);
        }
        let ghost prev = m.deep_view();
        if has_prefix(&ls[i], &status_lit) {
            m.push(exec_sup_status_text(n));
        } else if has_prefix(&ls[i], &sb_lit) {
            m.push(exec_sb_text(n));
        } else {
            m.push(sub_chars(&ls[i], 0, ls[i].len()));
            proof {
                assert(ls@[i as int]@.subrange(0, ls@[i as int]@.len() as int) =~= dv[i as int]);
            }
        }
        proof {
            assert(m.deep_view() =~~= prev.push(sup_mapped(dv, n)[i as int]));
            assert(m.deep_view() =~~= sup_mapped(dv, n).take(i + 1));
        }
        i = i + 1;
    }
    proof {
        assert(sup_mapped(dv, n).take(dv.len() as int) =~~= sup_mapped(dv, n));
    }
    let (st0, _) = scan_last_indices(&m);
    if st0.is_none() {
        let at: usize = if fm {
            0
        } else if ls.len() > 0 {
            1
        } else {
            0
        };
        let ghost before = m.deep_view();
        m.insert(at, exec_sup_status_text(n));
        proof {
            assert(m.deep_view() =~~= before.insert(at as int, sup_status_text(n)));
        }
    }
    let ghost m2 = m.deep_view();
    let (st, sb) = scan_last_indices(&m);
    let s_idx: usize = match st {
        Some(k) => k,
        None => {
            proof {
                lemma_last_status_idx(m2);
                if last_status_idx(sup_mapped(dv, n)) >= 0 {
                    lemma_last_status_idx(sup_mapped(dv, n));
                } else {
                    let at = status_insert_at(dv, fm);
                    assert(m2[at] == sup_status_text(n));
                    assert(is_status_line(m2[at])) by {
                        reveal_strlit("Status: Superseded by ");
                        reveal_strlit("Status:");
                        assert(sup_status_text(n).subrange(0, 7) =~= "Status:"@);
                    }
                }
                assert(false);
            }
            0
        },
    };
    proof {
        lemma_last_status_idx(m2);
        lemma_last_sb_idx(m2);
        assert(0 <= s_idx < m2.len());
    }
    let desired = s_idx + 1;
    match sb {
        Some(sb_idx) => {
            if sb_idx == desired {
                m
            } else {
                let ghost before = m.deep_view();
                let _ = m.remove(sb_idx);
                proof {
                    assert(m.deep_view() =~~= before.remove(sb_idx as int));
                }
                let at: usize = if sb_idx < desired {
                    desired - 1
                } else {
                    desired
                };
                let ghost mid = m.deep_view();
                m.insert(at, exec_sb_text(n));
                proof {
                    assert(m.deep_view() =~~= mid.insert(at as int, sb_text(n)));
                }
                m
            }
        },
        None => {
            let ghost before = m.deep_view();
            m.insert(desired, exec_sb_text(n));
            proof {
                assert(m.deep_view() =~~= before.insert(desired as int, sb_text(n)));
            }
            m
        },
    }
}


// ---------------------------------------------------------------------------
// Status/date transition surgery on a list of lines
// ---------------------------------------------------------------------------

pub open spec fn has_status_line(ls: Seq<Seq<char>>) -> bool {
    exists|i: int| 0 <= i < ls.len() && is_status_line(ls[i])
}

pub open spec fn has_date_line(ls: Seq<Seq<char>>) -> bool {
    exists|i: int| 0 <= i < ls.len() && is_date_line(ls[i])
}

/// Every status line replaced by the new status, every date line by today.
pub open spec fn trans_mapped(ls: Seq<Seq<char>>, word: Seq<char>, today: Seq<char>) -> Seq<
    Seq<char>,
> {
    ls.map_values(
        |l: Seq<char>|
            if is_status_line(l) {
                status_text(word)
            } else if is_date_line(l) {
                date_text(today)
            } else {
                l
            },
    )
}

/// The status/date update used by the accept and reject transitions: rewrite
/// the managed lines in place, and insert any that are missing near the top.
pub open spec fn transition_lines(
    ls: Seq<Seq<char>>,
    word: Seq<char>,
    today: Seq<char>,
    fm: bool,
) -> Seq<Seq<char>> {
    let m = trans_mapped(ls, word, today);
    let m2 = if has_status_line(ls) {
        m
    } else {
        m.insert(status_insert_at(ls, fm), status_text(word))
    };
    if has_date_line(ls) {
        m2
    } else {
        m2.insert(
            if fm {
                0
            } else {
                1
            },
            date_text(today),
        )
    }
}

/// The rewritten lines, spelled out.
#[verifier::rlimit(50)]
pub fn exec_transition_lines(ls: &Vec<Vec<char>>, word: &Vec<char>, today: &Vec<char>, fm: bool) -> (r:
    Vec<Vec<char>>)
    ensures
        r.deep_view() == transition_lines(ls.deep_view(), word@, today@, fm),
{
    let ghost dv = ls.deep_view();
    let status_lit = chars_of("Status:");
    let date_lit = chars_of("Date:");
    let mut status_line: Vec<char> = Vec::new();
    push_str_chars(&mut status_line, "Status: ");
    push_all(&mut status_line, word);
    let mut date_line: Vec<char> = Vec::new();
    push_str_chars(&mut date_line, "Date: ");
    push_all(&mut date_line, today);
    let mut m: Vec<Vec<char>> = Vec::new();
    let mut found_status = false;
    let mut found_date = false;
    let mut i: usize = 0;
    proof {
        assert(m.deep_view() =~~= trans_mapped(dv, word@, today@).take(0));
        assert(dv.take(0) =~~= Seq::<Seq<char>>::empty());
    }
    while i < ls.len()
        invariant
            i <= ls@.len(),
            dv == ls.deep_view(),
            dv.len() == ls@.len(),
            m.deep_view() == trans_mapped(dv, word@, today@).take(i as int),
            found_status == has_status_line(dv.take(i as int)),
            found_date == has_date_line(dv.take(i as int)),
            status_lit@ == "Status:"@,
            date_lit@ == "Date:"@,
            status_line@ == status_text(word@),
            date_line@ == date_text(today@),
        decreases ls.len() - i,
    {
        proof {
            assert(dv[i as int] =~= ls@[i as int]@);
            assert(dv.take(i + 1).drop_last() =~~= dv.take(i as int));
            assert(forall|k: int| 0 <= k < i + 1 ==> dv.take(i + 1)[k] == dv[k]);
        }
        let ghost prev = m.deep_view();
        let line_is_status = has_prefix(&ls[i], &status_lit);
        let line_is_date = has_prefix(&ls[i], &date_lit);
        found_status = found_status || line_is_status;
        found_date = found_date || line_is_date;
        if line_is_status {
            m.push(sub_chars(&status_line, 0, status_line.len()));
            proof {
                assert(status_line@.subrange(0, status_line@.len() as int) =~= status_text(word@));
            }
        } else if line_is_date {
            m.push(sub_chars(&date_line, 0, date_line.len()));
            proof {
                assert(date_line@.subrange(0, date_line@.len() as int) =~= date_text(today@));
            }
        } else {
            m.push(sub_chars(&ls[i], 0, ls[i].len()));
            proof {
                assert(ls@[i as int]@.subrange(0, ls@[i as int]@.len() as int) =~= dv[i as int]);
            }
        }
        proof {
            assert(m.deep_view() =~~= prev.push(trans_mapped(dv, word@, today@)[i as int]));
            assert(m.deep_view() =~~= trans_mapped(dv, word@, today@).take(i + 1));
            if line_is_status {
                assert(has_status_line(dv.take(i + 1)));
            }
            if line_is_date {
                assert(has_date_line(dv.take(i + 1)));
            }
            if !has_status_line(dv.take(i + 1)) {
                assert(!is_status_line(dv[i as int]));
            }
            if !has_date_line(dv.take(i + 1)) {
                assert(!is_date_line(dv[i as int]));
            }
        }
        i = i + 1;
    }
    proof {
        assert(trans_mapped(dv, word@, today@).take(dv.len() as int) =~~= trans_mapped(
            dv,
            word@,
            today@,
        ));
        assert(dv.take(dv.len() as int) =~~= dv);
    }
    if !found_status {
        let at: usize = if fm {
            0
        } else if ls.len() > 0 {
            1
        } else {
            0
        };
        let ghost before = m.deep_view();
        m.insert(at, sub_chars(&status_line, 0, status_line.len()));
        proof {
            assert(status_line@.subrange(0, status_line@.len() as int) =~= status_text(word@));
            assert(m.deep_view() =~~= before.insert(at as int, status_text(word@)));
        }
    }
    if !found_date {
        let at: usize = if fm {
            0
        } else {
            1
        };
        let ghost before = m.deep_view();
        m.insert(at, sub_chars(&date_line, 0, date_line.len()));
        proof {
            assert(date_line@.subrange(0, date_line@.len() as int) =~= date_text(today@));
            assert(m.deep_view() =~~= before.insert(at as int, date_text(today@)));
        }
    }
    m
}

// ---------------------------------------------------------------------------
// Front matter
// ---------------------------------------------------------------------------

/// Split a document that opens with a fenced front-matter block into the
/// block and the rest; nothing when there is no complete block.
pub open spec fn spec_fm_split(text: Seq<char>) -> Option<(Seq<char>, Seq<char>)> {
    if starts_with(text, "---\n"@) {
        let st = text.skip(4);
        let e = find_sub(st, "\n---\n"@);
        if e >= 0 {
            Some((st.take(e), st.skip(e + 5)))
        } else {
            None
        }
    } else {
        None
    }
}

pub fn fm_split(text: &Vec<char>) -> (r: Option<(Vec<char>, Vec<char>)>)
    ensures
        match r {
            Some(p) => spec_fm_split(text@) == Some((p.0@, p.1@)),
            None => spec_fm_split(text@) is None,
        },
{
    let open_lit = chars_of("---\n");
    proof {
        reveal_strlit("---\n");
    }
    if !has_prefix(text, &open_lit) {
        return None;
    }
    let st = sub_chars(text, 4, text.len());
    proof {
        assert(st@ =~= text@.skip(4));
    }
    let close_lit = chars_of("\n---\n");
    proof {
        reveal_strlit("\n---\n");
        assert(close_lit@.len() == 5);
    }
    match find_subseq(&st, &close_lit) {
        Some(e) => {
            let block = sub_chars(&st, 0, e);
            let rest = sub_chars(&st, e + 5, st.len());
            proof {
                assert(block@ =~= st@.take(e as int));
                assert(rest@ =~= st@.skip(e + 5));
            }
            Some((block, rest))
        },
        None => None,
    }
}

// ---------------------------------------------------------------------------
// Whole-document updates
// ---------------------------------------------------------------------------

/// The text with a trailing newline guaranteed.
pub open spec fn ensure_nl(s: Seq<char>) -> Seq<char> {
    if s.len() > 0 && s.last() == '\n' {
        s
    } else {
        s.push('\n')
    }
}

fn exec_ensure_nl(s: &mut Vec<char>)
    ensures
        final(s)@ == ensure_nl(old(s)@),
{
    if s.len() == 0 || s[s.len() - 1] != '\n' {
        s.push('\n');
    }
}

/// A status transition applied to raw document text: behind any front-matter
/// block the managed lines are rewritten; a document whose block never closes
/// is left untouched.
pub open spec fn spec_apply_transition(text: Seq<char>, word: Seq<char>, today: Seq<char>) -> Seq<
    char,
> {
    match spec_fm_split(text) {
        Some(p) => "---\n"@ + p.0 + "\n---\n"@ + join_sep(
            transition_lines(spec_lines(p.1), word, today, true),
            '\n',
        ) + seq!['\n'],
        None => {
            if starts_with(text, "---\n"@) {
                text
            } else {
                ensure_nl(join_sep(transition_lines(spec_lines(text), word, today, false), '\n'))
            }
        },
    }
}

/// Rewrite the document's status to `word` and its date to `today`.
pub fn apply_transition(text: &Vec<char>, word: &Vec<char>, today: &Vec<char>) -> (r: Vec<char>)
    ensures
        r@ == spec_apply_transition(text@, word@, today@),
{
    match fm_split(text) {
        Some(p) => {
            let (block, rest) = p;
            let body_lines = split_lines(&rest);
            let updated = exec_transition_lines(&body_lines, word, today, true);
            let joined = join_chars(&updated, '\n');
            let mut out: Vec<char> = Vec::new();
            push_str_chars(&mut out, "---\n");
            push_all(&mut out, &block);
            push_str_chars(&mut out, "\n---\n");
            push_all(&mut out, &joined);
            out.push('\n');
            proof {
                assert(out@ =~= spec_apply_transition(text@, word@, today@));
            }
            out
        },
        None => {
            let open_lit = chars_of("---\n");
            if has_prefix(text, &open_lit) {
                let r = sub_chars(text, 0, text.len());
                proof {
                    assert(r@ =~= text@);
                }
                r
            } else {
                let all_lines = split_lines(text);
                let updated = exec_transition_lines(&all_lines, word, today, false);
                let mut joined = join_chars(&updated, '\n');
                exec_ensure_nl(&mut joined);
                joined
            }
        },
    }
}

/// A supersession applied to raw document text, keeping the `Superseded-by`
/// line right after the status line; a document whose front-matter block
/// never closes is left untouched.
pub open spec fn spec_apply_supersede(text: Seq<char>, n: u32) -> Seq<char> {
    match spec_fm_split(text) {
        Some(p) => {
            let pl = supersede_lines(spec_lines(p.1), n, true);
            let mid = if !starts_with(p.1, "\n"@) && pl.len() > 0 && pl[0].len() > 0 {
                seq!['\n']
            } else {
                Seq::<char>::empty()
            };
            ensure_nl("---\n"@ + p.0 + "\n---\n"@ + mid + join_sep(pl, '\n'))
        },
        None => {
            if starts_with(text, "---\n"@) {
                text
            } else {
                ensure_nl(join_sep(supersede_lines(spec_lines(text), n, false), '\n'))
            }
        },
    }
}

/// Mark the document superseded by record `n`.
pub fn apply_supersede(text: &Vec<char>, n: u32) -> (r: Vec<char>)
    ensures
        r@ == spec_apply_supersede(text@, n),
{
    match fm_split(text) {
        Some(p) => {
            let (block, rest) = p;
            let body_lines = split_lines(&rest);
            let updated = exec_supersede_lines(&body_lines, n, true);
            let joined = join_chars(&updated, '\n');
            let mut out: Vec<char> = Vec::new();
            push_str_chars(&mut out, "---\n");
            push_all(&mut out, &block);
            push_str_chars(&mut out, "\n---\n");
            let nl_lit = chars_of("\n");
            if !has_prefix(&rest, &nl_lit) && updated.len() > 0 && updated[0].len() > 0 {
                out.push('\n');
            }
            proof {
                assert(updated.deep_view()[0] =~= updated@[0]@);
            }
            push_all(&mut out, &joined);
            exec_ensure_nl(&mut out);
            proof {
                assert(out@ =~= spec_apply_supersede(text@, n));
            }
            out
        },
        None => {
            let open_lit = chars_of("---\n");
            if has_prefix(text, &open_lit) {
                let r = sub_chars(text, 0, text.len());
                proof {
                    assert(r@ =~= text@);
                }
                r
            } else {
                let all_lines = split_lines(text);
                let updated = exec_supersede_lines(&all_lines, n, false);
                let mut joined = join_chars(&updated, '\n');
                exec_ensure_nl(&mut joined);
                joined
            }
        },
    }
}


// ---------------------------------------------------------------------------
// Parsing a document into a record
// ---------------------------------------------------------------------------

/// The metadata fields accumulated while scanning a document.
pub struct ParseFields {
    pub number: u32,
    pub title: Seq<char>,
    pub status: Seq<char>,
    pub date: Seq<char>,
    pub supersedes: Option<u32>,
    pub superseded_by: Option<u32>,
}

/// The fields before any line is read: the number from the filename's
/// four-digit prefix if it has one, status `Accepted`, everything else empty.
pub open spec fn init_fields(name: Seq<char>) -> ParseFields {
    ParseFields {
        number: if name.len() >= 5 && is_digit_char(name[0]) && is_digit_char(name[1])
            && is_digit_char(name[2]) && is_digit_char(name[3]) && name[4] == '-' {
            digits_val(name.take(4)) as u32
        } else {
            0u32
        },
        title: Seq::<char>::empty(),
        status: "Accepted"@,
        date: Seq::<char>::empty(),
        supersedes: None,
        superseded_by: None,
    }
}

/// What the first line contributes when it reads as a heading `.. N: Title`:
/// the word before the colon as the number, the rest as the title.
pub open spec fn heading_step(st: ParseFields, l: Seq<char>) -> ParseFields {
    let k = find_sub(l, ": "@);
    if k >= 0 {
        let head = l.take(k);
        let sp = rfind_char(head, ' ');
        ParseFields {
            number: if sp >= 0 && is_u32_numeral(head.skip(sp + 1)) {
                numeral_val(head.skip(sp + 1)) as u32
            } else {
                st.number
            },
            title: spec_trim(l.skip(k + 2)),
            status: st.status,
            date: st.date,
            supersedes: st.supersedes,
            superseded_by: st.superseded_by,
        }
    } else {
        st
    }
}

/// What one line contributes to the fields, at line index `i`.
pub open spec fn line_step(st: ParseFields, l: Seq<char>, i: int) -> ParseFields {
    let s0 = if i == 0 {
        heading_step(st, l)
    } else {
        st
    };
    ParseFields {
        number: s0.number,
        title: if is_title_line(l) {
            spec_trim(l.skip(6))
        } else {
            s0.title
        },
        status: if is_status_line(l) {
            spec_trim(l.skip(7))
        } else {
            s0.status
        },
        date: if is_date_line(l) {
            spec_trim(l.skip(5))
        } else {
            s0.date
        },
        supersedes: if is_supersedes_line(l) && is_u32_numeral(spec_trim(l.skip(11))) {
            Some(numeral_val(spec_trim(l.skip(11))) as u32)
        } else {
            s0.supersedes
        },
        superseded_by: if is_sb_line(l) && is_u32_numeral(spec_trim(l.skip(14))) {
            Some(numeral_val(spec_trim(l.skip(14))) as u32)
        } else {
            s0.superseded_by
        },
    }
}

pub open spec fn parse_fold(name: Seq<char>, ls: Seq<Seq<char>>) -> ParseFields
    decreases ls.len(),
{
    if ls.len() == 0 {
        init_fields(name)
    } else {
        line_step(parse_fold(name, ls.drop_last()), ls.last(), ls.len() - 1)
    }
}

/// Scanning is bounded: only a fixed prefix of lines is inspected.
pub open spec fn scan_bound() -> int {
    200
}

pub open spec fn scan_prefix(ls: Seq<Seq<char>>) -> Seq<Seq<char>> {
    if ls.len() <= scan_bound() {
        ls
    } else {
        ls.take(scan_bound())
    }
}

pub open spec fn spec_parse_fields(name: Seq<char>, text: Seq<char>) -> ParseFields {
    parse_fold(name, scan_prefix(spec_lines(text)))
}

/// The record read from a raw document: scanned fields, with the title
/// falling back to the filename, the date falling back to today, and the
/// filename kept as the record's path.
#[verifier::opaque]
pub open spec fn spec_parse_document(name: Seq<char>, text: Seq<char>, today: Seq<char>) -> crate::domain::MetaView {
    let f = spec_parse_fields(name, text);
    crate::domain::MetaView {
        number: f.number,
        title: if f.title.len() == 0 {
            match crate::domain::spec_title_from_filename(name) {
                Some(t) => t,
                None => "Untitled"@,
            }
        } else {
            f.title
        },
        status: f.status,
        date: if f.date.len() == 0 {
            today
        } else {
            f.date
        },
        supersedes: f.supersedes,
        superseded_by: f.superseded_by,
        path: name,
    }
}

/// Parse raw document text into a record. `today` fills in a missing date.
#[verifier::rlimit(100)]
#[verifier::spinoff_prover]
pub fn parse_document(name: &str, text: &str, today: &str) -> (m: crate::domain::AdrMeta)
    ensures
        m@ == spec_parse_document(name@, text@, today@),
        m@.path == name@,
{
    proof {
        reveal(spec_parse_document);
    }
    let name_cs = chars_of(name);
    let text_cs = chars_of(text);
    let lines = split_lines(&text_cs);
    let ghost scan = scan_prefix(spec_lines(text@));

    let mut number: u32 = 0;
    if name_cs.len() >= 5 {
        let all_digits_prefix = crate::text::is_digit(name_cs[0]) && crate::text::is_digit(
            name_cs[1],
        ) && crate::text::is_digit(name_cs[2]) && crate::text::is_digit(name_cs[3])
            && name_cs[4] == '-';
        if all_digits_prefix {
            number = crate::domain::number_from_name(&name_cs);
        }
    }
    let mut title: Vec<char> = Vec::new();
    let mut status: Vec<char> = chars_of("Accepted");
    let mut date: Vec<char> = Vec::new();
    let mut supersedes: Option<u32> = None;
    let mut superseded_by: Option<u32> = None;

    proof {
        assert(crate::domain::name_number(name@) == digits_val(name@.take(4)));
        assert(scan.take(0) =~~= Seq::<Seq<char>>::empty());
    }

    let bound: usize = if lines.len() > 200 {
        200
    } else {
        lines.len()
    };
    proof {
        assert(scan.len() == bound);
        assert(forall|k: int| 0 <= k < bound ==> scan[k] == lines.deep_view()[k]);
    }

    let colon_lit = chars_of(": ");
    let title_lit = chars_of("Title:");
    let date_lit = chars_of("Date:");
    let status_lit = chars_of("Status:");
    let sup_lit = chars_of("Supersedes:");
    let sb_lit = chars_of("Superseded-by:");
    proof {
        reveal_strlit(": ");
        reveal_strlit("Title:");
        reveal_strlit("Date:");
        reveal_strlit("Status:");
        reveal_strlit("Supersedes:");
        reveal_strlit("Superseded-by:");
    }

    let mut i: usize = 0;
    while i < bound
        invariant
            i <= bound,
            bound <= lines@.len(),
            scan.len() == bound,
            forall|k: int| 0 <= k < bound ==> scan[k] == lines.deep_view()[k],
            lines.deep_view().len() == lines@.len(),
            colon_lit@ == ": "@ && ": "@.len() == 2,
            title_lit@ == "Title:"@ && "Title:"@.len() == 6,
            date_lit@ == "Date:"@ && "Date:"@.len() == 5,
            status_lit@ == "Status:"@ && "Status:"@.len() == 7,
            sup_lit@ == "Supersedes:"@ && "Supersedes:"@.len() == 11,
            sb_lit@ == "Superseded-by:"@ && "Superseded-by:"@.len() == 14,
            parse_fold(name@, scan.take(i as int)) == (ParseFields {
                number,
                title: title@,
                status: status@,
                date: date@,
                supersedes,
                superseded_by,
            }),
        decreases bound - i,
    {
        let l = &lines[i];
        let ghost lv = lines.deep_view()[i as int];
        proof {
            assert(lv == l@);
            assert(scan.take(i + 1).drop_last() =~~= scan.take(i as int));
            assert(scan.take(i + 1).last() == scan[i as int]);
        }
        if i == 0 {
            match find_subseq(l, &colon_lit) {
                Some(k) => {
                    let head = sub_chars(l, 0, k);
                    proof {
                        assert(head@ =~= lv.take(k as int));
                    }
                    match rfind(&head, ' ') {
                        Some(sp) => {
                            match parse_u32(&head, sp + 1) {
                                Some(v) => {
                                    number = v;
                                },
                                None => {},
                            }
                        },
                        None => {},
                    }
                    let llen = l.len();
                    let rest = sub_chars(l, k + 2, llen);
                    title = trim_chars(&rest);
                    proof {
                        assert(rest@ =~= lv.skip(k + 2));
                    }
                },
                None => {},
            }
        }
        if has_prefix(l, &title_lit) {
            let v = sub_chars(l, 6, l.len());
            title = trim_chars(&v);
            proof {
                assert(v@ =~= lv.skip(6));
            }
        }
        if has_prefix(l, &date_lit) {
            let v = sub_chars(l, 5, l.len());
            date = trim_chars(&v);
            proof {
                assert(v@ =~= lv.skip(5));
            }
        }
        if has_prefix(l, &status_lit) {
            let v = sub_chars(l, 7, l.len());
            status = trim_chars(&v);
            proof {
                assert(v@ =~= lv.skip(7));
            }
        }
        if has_prefix(l, &sup_lit) {
            let v = sub_chars(l, 11, l.len());
            let t = trim_chars(&v);
            proof {
                assert(v@ =~= lv.skip(11));
                assert(t@.skip(0) =~= t@);
            }
            match parse_u32(&t, 0) {
                Some(n) => {
                    supersedes = Some(n);
                },
                None => {},
            }
        }
        if has_prefix(l, &sb_lit) {
            let v = sub_chars(l, 14, l.len());
            let t = trim_chars(&v);
            proof {
                assert(v@ =~= lv.skip(14));
                assert(t@.skip(0) =~= t@);
            }
            match parse_u32(&t, 0) {
                Some(n) => {
                    superseded_by = Some(n);
                },
                None => {},
            }
        }
        i = i + 1;
    }
    proof {
        assert(scan.take(bound as int) =~~= scan);
    }

    let final_title: String = if title.len() == 0 {
        match crate::domain::title_from_filename(name) {
            Some(t) => t,
            None => string_of(&chars_of("Untitled")),
        }
    } else {
        string_of(&title)
    };
    let final_date: String = if date.len() == 0 {
        string_of(&chars_of(today))
    } else {
        string_of(&date)
    };
    crate::domain::AdrMeta {
        number,
        title: final_title,
        status: string_of(&status),
        date: final_date,
        supersedes,
        superseded_by,
        path: string_of(&name_cs),
    }
}


// ---------------------------------------------------------------------------
// Extracting the body behind the metadata
// ---------------------------------------------------------------------------

/// How many leading lines the heading takes: the heading line itself and one
/// blank line after it.
pub open spec fn heading_skip(ls: Seq<Seq<char>>) -> int {
    if ls.len() > 0 && starts_with(ls[0], "# ADR "@) {
        if ls.len() > 1 && spec_trim(ls[1]).len() == 0 {
            2
        } else {
            1
        }
    } else {
        0
    }
}

/// Skip the contiguous run of managed metadata lines starting at `i`, and one
/// blank line that ends the run.
pub open spec fn skip_meta(ls: Seq<Seq<char>>, i: int) -> int
    decreases ls.len() - i,
{
    if 0 <= i < ls.len() && is_meta_line(ls[i]) {
        skip_meta(ls, i + 1)
    } else if 0 <= i < ls.len() && spec_trim(ls[i]).len() == 0 {
        i + 1
    } else {
        i
    }
}

pub proof fn lemma_skip_meta_bounds(ls: Seq<Seq<char>>, i: int)
    requires
        0 <= i <= ls.len(),
    ensures
        i <= skip_meta(ls, i) <= ls.len(),
    decreases ls.len() - i,
{
    if i < ls.len() && is_meta_line(ls[i]) {
        lemma_skip_meta_bounds(ls, i + 1);
    }
}

/// The document body behind any front matter, heading and metadata block:
/// preserved verbatim, with a trailing newline when it is not empty.
pub open spec fn spec_body_after_meta(raw: Seq<char>) -> Seq<char> {
    let rest = match spec_fm_split(raw) {
        Some(p) => p.1,
        None => raw,
    };
    let ls = spec_lines(rest);
    let i = skip_meta(ls, heading_skip(ls));
    let tail = join_sep(ls.skip(i), '\n');
    if tail.len() == 0 {
        tail
    } else {
        tail + seq!['\n']
    }
}

fn exec_is_meta_line(l: &Vec<char>) -> (r: bool)
    ensures
        r == is_meta_line(l@),
{
    let title_lit = chars_of("Title:");
    let date_lit = chars_of("Date:");
    let status_lit = chars_of("Status:");
    let sup_lit = chars_of("Supersedes:");
    let sb_lit = chars_of("Superseded-by:");
    has_prefix(l, &title_lit) || has_prefix(l, &date_lit) || has_prefix(l, &status_lit)
        || has_prefix(l, &sup_lit) || has_prefix(l, &sb_lit)
}

fn exec_is_blank(l: &Vec<char>) -> (r: bool)
    ensures
        r == (spec_trim(l@).len() == 0),
{
    let t = trim_chars(l);
    t.len() == 0
}

/// The body of a document, behind whatever metadata it opens with.
pub fn body_after_meta(raw: &Vec<char>) -> (r: Vec<char>)
    ensures
        r@ == spec_body_after_meta(raw@),
{
    let rest: Vec<char> = match fm_split(raw) {
        Some(p) => p.1,
        None => sub_chars(raw, 0, raw.len()),
    };
    proof {
        assert(raw@.subrange(0, raw@.len() as int) =~= raw@);
    }
    let lines = split_lines(&rest);
    let ghost ls = spec_lines(rest@);
    proof {
        if lines@.len() > 0 {
            assert(lines.deep_view()[0] =~= lines@[0]@);
        }
        if lines@.len() > 1 {
            assert(lines.deep_view()[1] =~= lines@[1]@);
        }
    }
    let mut i: usize = 0;
    if lines.len() > 0 {
        let adr_lit = chars_of("# ADR ");
        if has_prefix(&lines[0], &adr_lit) {
            i = 1;
            if lines.len() > 1 {
                if exec_is_blank(&lines[1]) {
                    i = 2;
                }
            }
        }
    }
    proof {
        assert(i == heading_skip(ls));
    }
    let ghost start = i as int;
    while i < lines.len() && exec_is_meta_line(&lines[i])
        invariant
            start <= i <= lines@.len(),
            ls == lines.deep_view(),
            ls.len() == lines@.len(),
            skip_meta(ls, start) == skip_meta(ls, i as int),
        decreases lines.len() - i,
    {
        proof {
            assert(ls[i as int] =~= lines@[i as int]@);
        }
        i = i + 1;
    }
    proof {
        if i < lines@.len() {
            assert(ls[i as int] =~= lines@[i as int]@);
        }
    }
    if i < lines.len() {
        if exec_is_blank(&lines[i]) {
            i = i + 1;
        }
    }
    proof {
        assert(i == skip_meta(ls, start));
    }
    let mut tail_lines: Vec<Vec<char>> = Vec::new();
    let mut j: usize = i;
    proof {
        assert(tail_lines.deep_view() =~~= ls.skip(i as int).take(0));
    }
    while j < lines.len()
        invariant
            i <= j <= lines@.len(),
            ls == lines.deep_view(),
            ls.len() == lines@.len(),
            tail_lines.deep_view() == ls.skip(i as int).take(j - i),
        decreases lines.len() - j,
    {
        let ghost prev = tail_lines.deep_view();
        tail_lines.push(sub_chars(&lines[j], 0, lines[j].len()));
        proof {
            assert(lines@[j as int]@.subrange(0, lines@[j as int]@.len() as int) =~= ls[j as int]);
            assert(tail_lines.deep_view() =~~= prev.push(ls[j as int]));
            assert(tail_lines.deep_view() =~~= ls.skip(i as int).take(j - i + 1));
        }
        j = j + 1;
    }
    proof {
        assert(ls.skip(i as int).take(lines@.len() - i) =~~= ls.skip(i as int));
    }
    let mut tail = join_chars(&tail_lines, '\n');
    if tail.len() > 0 {
        tail.push('\n');
        proof {
            assert(tail@ =~= spec_body_after_meta(raw@));
        }
    }
    tail
}

// ---------------------------------------------------------------------------
// Rendering a record
// ---------------------------------------------------------------------------

/// The managed metadata lines as reformatting writes them: date, status, the
/// `Superseded-by` link if any, and the supersedes reference if any.
pub open spec fn render_fields(
    date: Seq<char>,
    status: Seq<char>,
    superseded_by: Option<u32>,
    sup_display: Option<Seq<char>>,
) -> Seq<char> {
    date_text(date) + seq!['\n'] + status_text(status) + seq!['\n'] + (match superseded_by {
        Some(n) => sb_text(n) + seq!['\n'],
        None => Seq::<char>::empty(),
    }) + (match sup_display {
        Some(d) => "Supersedes: "@ + d + seq!['\n'],
        None => Seq::<char>::empty(),
    })
}

/// A whole document rendered fresh from a record's fields: front matter or a
/// plain heading, the managed metadata lines, a blank line, then the body.
pub open spec fn spec_render_document(
    number: u32,
    title: Seq<char>,
    date: Seq<char>,
    status: Seq<char>,
    superseded_by: Option<u32>,
    sup_display: Option<Seq<char>>,
    front_matter: bool,
    tail: Seq<char>,
) -> Seq<char> {
    if front_matter {
        "---\ntitle: "@ + crate::yaml_util::spec_escape_yaml(title) + "\n---\n\n"@ + render_fields(
            date,
            status,
            superseded_by,
            sup_display,
        ) + seq!['\n'] + tail
    } else {
        "# ADR "@ + spec_fmt4(number) + ": "@ + title + "\n\n"@ + render_fields(
            date,
            status,
            superseded_by,
            sup_display,
        ) + seq!['\n'] + tail
    }
}

/// Render a record's header and metadata over the given body.
#[verifier::rlimit(100)]
#[verifier::spinoff_prover]
pub fn render_document(
    number: u32,
    title: &Vec<char>,
    date: &Vec<char>,
    status: &Vec<char>,
    superseded_by: Option<u32>,
    sup_display: Option<&Vec<char>>,
    front_matter: bool,
    tail: &Vec<char>,
) -> (r: Vec<char>)
    ensures
        r@ == spec_render_document(
            number,
            title@,
            date@,
            status@,
            superseded_by,
            match sup_display {
                Some(d) => Some(d@),
                None => None,
            },
            front_matter,
            tail@,
        ),
{
    let mut out: Vec<char> = Vec::new();
    if front_matter {
        push_str_chars(&mut out, "---\ntitle: ");
        let esc = crate::yaml_util::escape_yaml(string_of(title).as_str());
        push_all(&mut out, &chars_of(esc.as_str()));
        push_str_chars(&mut out, "\n---\n\n");
    } else {
        push_str_chars(&mut out, "# ADR ");
        let digits = fmt4(number);
        push_all(&mut out, &digits);
        push_str_chars(&mut out, ": ");
        push_all(&mut out, title);
        push_str_chars(&mut out, "\n\n");
    }
    push_str_chars(&mut out, "Date: ");
    push_all(&mut out, date);
    out.push('\n');
    push_str_chars(&mut out, "Status: ");
    push_all(&mut out, status);
    out.push('\n');
    match superseded_by {
        Some(n) => {
            let line = exec_sb_text(n);
            push_all(&mut out, &line);
            out.push('\n');
        },
        None => {},
    }
    match sup_display {
        Some(d) => {
            push_str_chars(&mut out, "Supersedes: ");
            push_all(&mut out, d);
            out.push('\n');
        },
        None => {},
    }
    out.push('\n');
    push_all(&mut out, tail);
    proof {
        assert(out@ =~= spec_render_document(
            number,
            title@,
            date@,
            status@,
            superseded_by,
            match sup_display {
                Some(d) => Some(d@),
                None => None,
            },
            front_matter,
            tail@,
        ));
    }
    out
}


// ---------------------------------------------------------------------------
// Rewriting inbound supersedes links
// ---------------------------------------------------------------------------

/// Does this line carry a bracketed supersedes link to record `id`?
pub open spec fn line_links_to(l: Seq<char>, id: u32) -> bool {
    &&& starts_with(l, "Supersedes: ["@)
    &&& find_char_at(l.skip(13), ']') >= 0
    &&& is_u32_numeral(l.skip(13).take(find_char_at(l.skip(13), ']')))
    &&& numeral_val(l.skip(13).take(find_char_at(l.skip(13), ']'))) == id
}

/// The link line, retargeted at `newname` when it points at record `id`.
pub open spec fn rewrite_link_line(l: Seq<char>, id: u32, newname: Seq<char>) -> Seq<char> {
    if line_links_to(l, id) {
        "Supersedes: ["@ + spec_fmt4(id) + "]("@ + newname + seq![')']
    } else {
        l
    }
}

/// Whole-document link rewrite: every supersedes link to `id` is pointed at
/// `newname`; a document with no such link is left byte-for-byte untouched.
pub open spec fn spec_rewrite_links(text: Seq<char>, id: u32, newname: Seq<char>) -> Seq<char> {
    let ls = spec_lines(text);
    if exists|i: int| 0 <= i < ls.len() && line_links_to(ls[i], id) {
        ensure_nl(join_sep(ls.map_values(|l: Seq<char>| rewrite_link_line(l, id, newname)), '\n'))
    } else {
        text
    }
}

/// Retarget this document's supersedes links at record `id`'s new filename.
#[verifier::rlimit(100)]
#[verifier::spinoff_prover]
pub fn rewrite_links(text: &Vec<char>, id: u32, newname: &Vec<char>) -> (r: Vec<char>)
    ensures
        r@ == spec_rewrite_links(text@, id, newname@),
{
    let lines = split_lines(text);
    let ghost ls = spec_lines(text@);
    let link_lit = chars_of("Supersedes: [");
    proof {
        reveal_strlit("Supersedes: [");
        assert(link_lit@.len() == 13);
    }
    let mut out: Vec<Vec<char>> = Vec::new();
    let mut changed = false;
    let mut i: usize = 0;
    proof {
        assert(out.deep_view() =~~= ls.map_values(
            |l: Seq<char>| rewrite_link_line(l, id, newname@),
        ).take(0));
    }
    while i < lines.len()
        invariant
            i <= lines@.len(),
            ls == lines.deep_view(),
            ls.len() == lines@.len(),
            link_lit@ == "Supersedes: ["@,
            "Supersedes: ["@.len() == 13,
            out.deep_view() == ls.map_values(
                |l: Seq<char>| rewrite_link_line(l, id, newname@),
            ).take(i as int),
            changed == exists|k: int| 0 <= k < i && line_links_to(ls[k], id),
        decreases lines.len() - i,
    {
        let l = &lines[i];
        let ghost lv = ls[i as int];
        proof {
            assert(lv =~= lines@[i as int]@);
        }
        let ghost prev = out.deep_view();
        let mut links_here = false;
        if has_prefix(l, &link_lit) {
            let rest = sub_chars(l, 13, l.len());
            proof {
                assert(rest@ =~= lv.skip(13));
                assert(rest@.skip(0) =~= rest@);
            }
            match crate::text::find_char_pos(&rest, 0, ']') {
                Some(rb) => {
                    let num = sub_chars(&rest, 0, rb);
                    proof {
                        assert(num@ =~= lv.skip(13).take(rb as int));
                        assert(num@.skip(0) =~= num@);
                    }
                    match parse_u32(&num, 0) {
                        Some(n) => {
                            if n == id {
                                links_here = true;
                            }
                        },
                        None => {},
                    }
                },
                None => {},
            }
        }
        proof {
            assert(links_here == line_links_to(lv, id));
        }
        if links_here {
            let mut nl: Vec<char> = Vec::new();
            push_str_chars(&mut nl, "Supersedes: [");
            let digits = fmt4(id);
            push_all(&mut nl, &digits);
            push_str_chars(&mut nl, "](");
            push_all(&mut nl, newname);
            nl.push(')');
            proof {
                assert(nl@ =~= rewrite_link_line(lv, id, newname@));
            }
            out.push(nl);
            changed = true;
        } else {
            out.push(sub_chars(l, 0, l.len()));
            proof {
                assert(lines@[i as int]@.subrange(0, lines@[i as int]@.len() as int) =~=
                    rewrite_link_line(lv, id, newname@));
            }
        }
        proof {
            let m = ls.map_values(|l: Seq<char>| rewrite_link_line(l, id, newname@));
            assert(out.deep_view() =~~= prev.push(m[i as int]));
            assert(out.deep_view() =~~= m.take(i + 1));
            if changed && !(exists|k: int| 0 <= k < i && line_links_to(ls[k], id)) {
                assert(line_links_to(ls[i as int], id));
            }
            if !changed {
                assert(!line_links_to(ls[i as int], id));
                assert(forall|k: int|
                    0 <= k < i + 1 && line_links_to(#[trigger] ls[k], id) ==> false);
            }
        }
        i = i + 1;
    }
    proof {
        let m = ls.map_values(|l: Seq<char>| rewrite_link_line(l, id, newname@));
        assert(m.take(ls.len() as int) =~~= m);
    }
    if changed {
        let mut joined = join_chars(&out, '\n');
        exec_ensure_nl(&mut joined);
        joined
    } else {
        let r = sub_chars(text, 0, text.len());
        proof {
            assert(r@ =~= text@);
        }
        r
    }
}

} // verus!
