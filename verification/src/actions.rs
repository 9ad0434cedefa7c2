//! The mutation engine: creating records, transitioning their status,
//! superseding, reformatting, and regenerating the index, against any store
//! that meets the repository contracts.

use vstd::prelude::*;

use crate::codec::{
    apply_supersede, apply_transition, body_after_meta, parse_document, render_document,
    rewrite_links, spec_apply_supersede, spec_apply_transition, spec_body_after_meta,
    spec_parse_document, spec_render_document, spec_rewrite_links,
};
use crate::config::Config;
use crate::domain::{
    check_managed_name, is_managed_name, filename_for, spec_filename, AdrError, AdrMeta, MetaView,
};
use crate::index::{link_name, render_index, spec_link_name, spec_render_index};
use crate::repository::{AdrRepository, RepoError, SourceFile};
use crate::text::{
    chars_of, eq_chars, fmt4, lower_chars, lower_seq, push_all, push_str_chars, replace_all,
    replace_chars, spec_fmt4, spec_trim, string_of, trim_chars,
};

verus! {

/// Relies on `chrono::Local::now` and its `%Y-%m-%d` formatting for the
/// current calendar date; what it returns depends on the clock.
#[verifier::external_body]
pub fn current_date() -> String {
    chrono::Local::now().format("%Y-%m-%d").to_string()
}

fn io_error(e: RepoError) -> (r: AdrError)
    ensures
        r is Io,
{
    AdrError::Io(e.message)
}

// ---------------------------------------------------------------------------
// The collection listing
// ---------------------------------------------------------------------------

/// Lexicographic order on character sequences.
pub open spec fn lex_le(a: Seq<char>, b: Seq<char>) -> bool
    decreases a.len(),
{
    if a.len() == 0 {
        true
    } else if b.len() == 0 {
        false
    } else if a[0] != b[0] {
        a[0] < b[0]
    } else {
        lex_le(a.skip(1), b.skip(1))
    }
}

pub proof fn lemma_lex_le_total(a: Seq<char>, b: Seq<char>)
    ensures
        lex_le(a, b) || lex_le(b, a),
    decreases a.len(),
{
    if a.len() > 0 && b.len() > 0 && a[0] == b[0] {
        lemma_lex_le_total(a.skip(1), b.skip(1));
    }
}

fn exec_lex_le(a: &Vec<char>, b: &Vec<char>) -> (r: bool)
    ensures
        r == lex_le(a@, b@),
{
    let mut i: usize = 0;
    proof {
        assert(a@.skip(0) =~= a@);
        assert(b@.skip(0) =~= b@);
    }
    while i < a.len() && i < b.len()
        invariant
            i <= a@.len(),
            i <= b@.len(),
            lex_le(a@, b@) == lex_le(a@.skip(i as int), b@.skip(i as int)),
        decreases a.len() - i,
    {
        if a[i] != b[i] {
            return a[i] < b[i];
        }
        proof {
            assert(a@.skip(i as int).skip(1) =~= a@.skip(i + 1));
            assert(b@.skip(i as int).skip(1) =~= b@.skip(i + 1));
        }
        i = i + 1;
    }
    proof {
        if i == a@.len() {
            assert(a@.skip(i as int) =~= Seq::<char>::empty());
        } else {
            assert(b@.skip(i as int) =~= Seq::<char>::empty());
        }
    }
    i == a.len()
}

/// Listing order: ascending number, ties by path, which is the deterministic
/// tie-break for manually duplicated numbers.
pub open spec fn key_le(a: MetaView, b: MetaView) -> bool {
    a.number < b.number || (a.number == b.number && lex_le(a.path, b.path))
}

fn exec_key_le(a: &AdrMeta, b: &AdrMeta) -> (r: bool)
    ensures
        r == key_le(a@, b@),
{
    if a.number < b.number {
        true
    } else if a.number == b.number {
        let ap = chars_of(a.path.as_str());
        let bp = chars_of(b.path.as_str());
        exec_lex_le(&ap, &bp)
    } else {
        false
    }
}

pub open spec fn sorted_by_key(ms: Seq<MetaView>) -> bool {
    forall|i: int| 0 <= i < ms.len() - 1 ==> key_le(#[trigger] ms[i], ms[i + 1])
}

/// One record of the listing: it comes from a managed file of the store,
/// parsed under today's date, and keeps that file's name as its path.
pub open spec fn meta_ok(
    files: Map<Seq<char>, Seq<char>>,
    ext: Seq<char>,
    today: Seq<char>,
    m: MetaView,
) -> bool {
    &&& is_managed_name(m.path, ext)
    &&& files.dom().contains(m.path)
    &&& m == spec_parse_document(m.path, files[m.path], today)
}

/// The listing the operations work from: every managed file of the store,
/// parsed, once each, ordered by number with ties broken by path.
pub open spec fn is_collection_listing(
    files: Map<Seq<char>, Seq<char>>,
    ext: Seq<char>,
    today: Seq<char>,
    ms: Seq<MetaView>,
) -> bool {
    &&& forall|i: int| 0 <= i < ms.len() ==> meta_ok(files, ext, today, #[trigger] ms[i])
    &&& forall|i: int, j: int| 0 <= i < j < ms.len() ==> ms[i].path != ms[j].path
    &&& forall|k: Seq<char>|
        files.dom().contains(k) && is_managed_name(k, ext) ==> exists|i: int|
            0 <= i < ms.len() && (#[trigger] ms[i]).path == k
    &&& sorted_by_key(ms)
}

#[verifier::rlimit(100)]
#[verifier::spinoff_prover]
proof fn lemma_listing_insert_cover(
    ext: Seq<char>,
    fl: Seq<crate::repository::FileView>,
    prev: Seq<MetaView>,
    i: int,
    p: int,
    m: MetaView,
)
    requires
        0 <= i < fl.len(),
        0 <= p <= prev.len(),
        forall|k: int|
            0 <= k < i && is_managed_name((#[trigger] fl[k]).name, ext) ==> exists|a: int|
                0 <= a < prev.len() && (#[trigger] prev[a]).path == fl[k].name,
        forall|a: int|
            0 <= a < prev.len() ==> exists|k: int|
                0 <= k < i && (#[trigger] prev[a]).path == fl[k].name,
        m.path == fl[i].name,
    ensures
        forall|k: int|
            0 <= k < i + 1 && is_managed_name((#[trigger] fl[k]).name, ext) ==> exists|a: int|
                0 <= a < prev.insert(p, m).len() && (#[trigger] prev.insert(p, m)[a]).path == fl[
                    k
                ].name,
        forall|a: int|
            0 <= a < prev.insert(p, m).len() ==> exists|k: int|
                0 <= k < i + 1 && (#[trigger] prev.insert(p, m)[a]).path == fl[k].name,
{
    let w = prev.insert(p, m);
    prev.insert_ensures(p, m);
    assert forall|k: int|
        0 <= k < i + 1 && is_managed_name((#[trigger] fl[k]).name, ext) implies exists|a: int|
        0 <= a < w.len() && (#[trigger] w[a]).path == fl[k].name by {
        if k == i {
            assert(w[p].path == fl[k].name);
        } else {
            let a = choose|a: int| 0 <= a < prev.len() && (#[trigger] prev[a]).path == fl[k].name;
            if a < p {
                assert(w[a].path == fl[k].name);
            } else {
                assert(w[a + 1].path == fl[k].name);
            }
        }
    }
    assert forall|a: int| 0 <= a < w.len() implies exists|k: int|
        0 <= k < i + 1 && (#[trigger] w[a]).path == fl[k].name by {
        if a == p {
            assert(w[a].path == fl[i].name);
        } else {
            let oidx: int = if a < p {
                a
            } else {
                a - 1
            };
            let k = choose|k: int| 0 <= k < i && prev[oidx].path == fl[k].name;
            assert(w[a].path == fl[k].name);
        }
    }
}

/// Inserting a newly parsed record at its sorted position keeps every
/// property of the listing under construction.
#[verifier::rlimit(100)]
#[verifier::spinoff_prover]
proof fn lemma_listing_insert(
    files: Map<Seq<char>, Seq<char>>,
    ext: Seq<char>,
    today: Seq<char>,
    fl: Seq<crate::repository::FileView>,
    prev: Seq<MetaView>,
    i: int,
    p: int,
    m: MetaView,
)
    requires
        0 <= i < fl.len(),
        0 <= p <= prev.len(),
        forall|a: int, b: int| 0 <= a < b < fl.len() ==> fl[a].name != fl[b].name,
        forall|a: int| 0 <= a < prev.len() ==> meta_ok(files, ext, today, #[trigger] prev[a]),
        forall|a: int, b: int| 0 <= a < b < prev.len() ==> prev[a].path != prev[b].path,
        forall|k: int|
            0 <= k < i && is_managed_name((#[trigger] fl[k]).name, ext) ==> exists|a: int|
                0 <= a < prev.len() && (#[trigger] prev[a]).path == fl[k].name,
        forall|a: int|
            0 <= a < prev.len() ==> exists|k: int|
                0 <= k < i && (#[trigger] prev[a]).path == fl[k].name,
        sorted_by_key(prev),
        meta_ok(files, ext, today, m),
        m.path == fl[i].name,
        forall|a: int| 0 <= a < p ==> key_le(#[trigger] prev[a], m),
        p < prev.len() ==> key_le(m, prev[p]),
    ensures
        forall|a: int|
            0 <= a < prev.insert(p, m).len() ==> meta_ok(
                files,
                ext,
                today,
                #[trigger] prev.insert(p, m)[a],
            ),
        forall|a: int, b: int|
            0 <= a < b < prev.insert(p, m).len() ==> prev.insert(p, m)[a].path != prev.insert(
                p,
                m,
            )[b].path,
        sorted_by_key(prev.insert(p, m)),
{
    let w = prev.insert(p, m);
    prev.insert_ensures(p, m);
    assert forall|a: int| 0 <= a < w.len() implies meta_ok(files, ext, today, #[trigger] w[a]) by {
        if a < p {
            assert(w[a] == prev[a]);
        } else if a > p {
            assert(w[a] == prev[a - 1]);
        }
    }
    assert forall|a: int, b: int| 0 <= a < b < w.len() implies w[a].path != w[b].path by {
        if a == p {
            assert(w[b] == prev[b - 1]);
            let k = choose|k: int| 0 <= k < i && prev[b - 1].path == fl[k].name;
            assert(fl[k].name != fl[i].name);
        } else if b == p {
            assert(w[a] == prev[a]);
            let k = choose|k: int| 0 <= k < i && prev[a].path == fl[k].name;
            assert(fl[k].name != fl[i].name);
        } else {
            let a2: int = if a < p {
                a
            } else {
                a - 1
            };
            let b2: int = if b < p {
                b
            } else {
                b - 1
            };
            assert(w[a] == prev[a2]);
            assert(w[b] == prev[b2]);
            assert(a2 < b2);
        }
    }
    assert forall|a: int| 0 <= a < w.len() - 1 implies key_le(#[trigger] w[a], w[a + 1]) by {
        if a + 1 < p {
            assert(w[a] == prev[a] && w[a + 1] == prev[a + 1]);
        } else if a + 1 == p {
            assert(w[a] == prev[a] && w[a + 1] == m);
        } else if a == p {
            assert(w[a] == m && w[a + 1] == prev[a]);
        } else {
            assert(w[a] == prev[a - 1] && w[a + 1] == prev[a]);
        }
    }
}

/// Parse every managed document in the store into the ordered listing.
#[verifier::rlimit(100)]
#[verifier::spinoff_prover]
pub fn list_adrs<R: AdrRepository>(repo: &R, ext: &str, today: &str) -> (r: Result<
    Vec<AdrMeta>,
    AdrError,
>)
    ensures
        r matches Ok(v) ==> is_collection_listing(repo.files(), ext@, today@, v.deep_view()),
        r matches Err(e) ==> e is Io,
{
    let files = match repo.list_files() {
        Ok(f) => f,
        Err(e) => {
            return Err(io_error(e));
        },
    };
    let ghost fl = files.deep_view();
    let ext_cs = chars_of(ext);
    let mut v: Vec<AdrMeta> = Vec::new();
    let mut i: usize = 0;
    while i < files.len()
        invariant
            i <= files@.len(),
            fl == files.deep_view(),
            fl.len() == files@.len(),
            ext_cs@ == ext@,
            crate::repository::files_listing(repo.files(), fl),
            forall|a: int| 0 <= a < v.deep_view().len() ==> meta_ok(
                repo.files(),
                ext@,
                today@,
                #[trigger] v.deep_view()[a],
            ),
            forall|a: int, b: int|
                0 <= a < b < v.deep_view().len() ==> v.deep_view()[a].path != v.deep_view()[
                    b
                ].path,
            forall|k: int|
                0 <= k < i && is_managed_name((#[trigger] fl[k]).name, ext@) ==> exists|a: int|
                    0 <= a < v.deep_view().len() && (#[trigger] v.deep_view()[a]).path == fl[
                        k
                    ].name,
            forall|a: int|
                0 <= a < v.deep_view().len() ==> exists|k: int|
                    0 <= k < i && (#[trigger] v.deep_view()[a]).path == fl[k].name,
            sorted_by_key(v.deep_view()),
        decreases files.len() - i,
    {
        let ghost vs = v.deep_view();
        let f = &files[i];
        proof {
            assert(fl[i as int] == files@[i as int]@);
        }
        let name_cs = chars_of(f.name.as_str());
        if check_managed_name(&name_cs, &ext_cs) {
            let m = parse_document(f.name.as_str(), f.text.as_str(), today);
            proof {
                assert(repo.files().contains_pair(fl[i as int].name, fl[i as int].text));
                assert(meta_ok(repo.files(), ext@, today@, m@));
            }
            let mut p: usize = 0;
            while p < v.len() && exec_key_le(&v[p], &m)
                invariant
                    p <= v@.len(),
                    vs == v.deep_view(),
                    vs.len() == v@.len(),
                    forall|a: int| 0 <= a < p ==> key_le(#[trigger] vs[a], m@),
                decreases v.len() - p,
            {
                proof {
                    assert(vs[p as int] == v@[p as int]@);
                }
                p = p + 1;
            }
            proof {
                if p < vs.len() {
                    assert(vs[p as int] == v@[p as int]@);
                    lemma_lex_le_total(m@.path, vs[p as int].path);
                    assert(key_le(m@, vs[p as int]));
                }
            }
            let ghost prev = v.deep_view();
            v.insert(p, m);
            proof {
                assert(v.deep_view() =~= prev.insert(p as int, m@));
                lemma_listing_insert(
                    repo.files(),
                    ext@,
                    today@,
                    fl,
                    prev,
                    i as int,
                    p as int,
                    m@,
                );
                lemma_listing_insert_cover(ext@, fl, prev, i as int, p as int, m@);
            }
        } else {
            proof {
                assert(!is_managed_name(fl[i as int].name, ext@));
            }
        }
        i = i + 1;
    }
    proof {
        assert forall|k: Seq<char>|
            repo.files().dom().contains(k) && is_managed_name(k, ext@) implies exists|a: int|
            0 <= a < v.deep_view().len() && (#[trigger] v.deep_view()[a]).path == k by {
            let ki = choose|ki: int| 0 <= ki < fl.len() && #[trigger] fl[ki].name == k;
            assert(is_managed_name(fl[ki].name, ext@));
        }
    }
    Ok(v)
}


// ---------------------------------------------------------------------------
// Lookups in a listing
// ---------------------------------------------------------------------------

pub open spec fn has_number(ms: Seq<MetaView>, n: u32) -> bool {
    exists|i: int| 0 <= i < ms.len() && (#[trigger] ms[i]).number == n
}

/// Index of the first record with number `n`, or -1.
pub open spec fn first_with_number(ms: Seq<MetaView>, n: u32) -> int
    decreases ms.len(),
{
    if ms.len() == 0 {
        -1
    } else if ms[0].number == n {
        0
    } else {
        let r = first_with_number(ms.skip(1), n);
        if r == -1 {
            -1
        } else {
            1 + r
        }
    }
}

pub proof fn lemma_first_with_number(ms: Seq<MetaView>, n: u32)
    ensures
        -1 <= first_with_number(ms, n) < ms.len() || (ms.len() == 0 && first_with_number(ms, n)
            == -1),
        first_with_number(ms, n) == -1 ==> !has_number(ms, n),
        first_with_number(ms, n) >= 0 ==> first_with_number(ms, n) < ms.len() && ms[
            first_with_number(ms, n)
        ].number == n,
        has_number(ms, n) ==> first_with_number(ms, n) >= 0,
    decreases ms.len(),
{
    if ms.len() > 0 && ms[0].number != n {
        let t = ms.skip(1);
        lemma_first_with_number(t, n);
        assert(forall|i: int| 0 <= i < t.len() ==> t[i] == ms[i + 1]);
        if has_number(ms, n) {
            let i = choose|i: int| 0 <= i < ms.len() && (#[trigger] ms[i]).number == n;
            assert(t[i - 1].number == n);
            assert(has_number(t, n));
        }
    }
}

/// First record with number `n`, scanning in listing order.
pub fn find_first_number(metas: &Vec<AdrMeta>, n: u32) -> (r: Option<usize>)
    ensures
        match r {
            Some(i) => i < metas@.len() && i == first_with_number(metas.deep_view(), n),
            None => first_with_number(metas.deep_view(), n) == -1,
        },
{
    let ghost ms = metas.deep_view();
    let mut i: usize = 0;
    while i < metas.len()
        invariant
            i <= metas@.len(),
            ms == metas.deep_view(),
            ms.len() == metas@.len(),
            forall|j: int| 0 <= j < i ==> (#[trigger] ms[j]).number != n,
        decreases metas.len() - i,
    {
        proof {
            assert(ms[i as int] == metas@[i as int]@);
        }
        if metas[i].number == n {
            proof {
                lemma_first_earlier(ms, n, i as int);
            }
            return Some(i);
        }
        i = i + 1;
    }
    proof {
        lemma_first_with_number(ms, n);
        if has_number(ms, n) {
            let j = choose|j: int| 0 <= j < ms.len() && (#[trigger] ms[j]).number == n;
        }
    }
    None
}

/// A hit with nothing earlier pins `first_with_number`.
proof fn lemma_first_earlier(ms: Seq<MetaView>, n: u32, i: int)
    requires
        0 <= i < ms.len(),
        ms[i].number == n,
        forall|j: int| 0 <= j < i ==> (#[trigger] ms[j]).number != n,
    ensures
        first_with_number(ms, n) == i,
    decreases i,
{
    if i > 0 {
        let t = ms.skip(1);
        assert(forall|j: int| 0 <= j < t.len() ==> t[j] == ms[j + 1]);
        lemma_first_earlier(t, n, i - 1);
    }
}

/// Case-insensitive title match against a trimmed query.
pub open spec fn title_matches(m: MetaView, q: Seq<char>) -> bool {
    lower_seq(m.title) == lower_seq(spec_trim(q))
}

/// Index of the first record whose title matches `q` case-insensitively.
pub open spec fn first_with_title(ms: Seq<MetaView>, q: Seq<char>) -> int
    decreases ms.len(),
{
    if ms.len() == 0 {
        -1
    } else if title_matches(ms[0], q) {
        0
    } else {
        let r = first_with_title(ms.skip(1), q);
        if r == -1 {
            -1
        } else {
            1 + r
        }
    }
}

proof fn lemma_first_title_earlier(ms: Seq<MetaView>, q: Seq<char>, i: int)
    requires
        0 <= i < ms.len(),
        title_matches(ms[i], q),
        forall|j: int| 0 <= j < i ==> !title_matches(#[trigger] ms[j], q),
    ensures
        first_with_title(ms, q) == i,
    decreases i,
{
    if i > 0 {
        let t = ms.skip(1);
        assert(forall|j: int| 0 <= j < t.len() ==> t[j] == ms[j + 1]);
        lemma_first_title_earlier(t, q, i - 1);
    }
}

proof fn lemma_first_title_none(ms: Seq<MetaView>, q: Seq<char>)
    requires
        forall|j: int| 0 <= j < ms.len() ==> !title_matches(#[trigger] ms[j], q),
    ensures
        first_with_title(ms, q) == -1,
    decreases ms.len(),
{
    if ms.len() > 0 {
        let t = ms.skip(1);
        assert(forall|j: int| 0 <= j < t.len() ==> t[j] == ms[j + 1]);
        lemma_first_title_none(t, q);
    }
}

/// How a free-text identifier resolves against a listing: by exact number
/// when it reads as a number some record carries, else by case-insensitive
/// exact title; -1 when nothing matches.
pub open spec fn spec_resolve(ms: Seq<MetaView>, q: Seq<char>) -> int {
    match crate::domain::spec_parse_number(q) {
        Some(n) => if has_number(ms, n) {
            first_with_number(ms, n)
        } else {
            first_with_title(ms, q)
        },
        None => first_with_title(ms, q),
    }
}

/// Resolve an identifier or title to a record of the listing.
pub fn resolve_target(metas: &Vec<AdrMeta>, id_or_title: &str) -> (r: Option<usize>)
    ensures
        match r {
            Some(i) => i < metas@.len() && i == spec_resolve(metas.deep_view(), id_or_title@),
            None => spec_resolve(metas.deep_view(), id_or_title@) == -1,
        },
{
    let ghost ms = metas.deep_view();
    match crate::domain::parse_number(id_or_title) {
        Ok(n) => {
            match find_first_number(metas, n) {
                Some(i) => {
                    proof {
                        lemma_first_with_number(ms, n);
                    }
                    return Some(i);
                },
                None => {
                    proof {
                        lemma_first_with_number(ms, n);
                        assert(spec_resolve(ms, id_or_title@) == first_with_title(
                            ms,
                            id_or_title@,
                        ));
                    }
                },
            }
        },
        Err(_) => {
            proof {
                assert(spec_resolve(ms, id_or_title@) == first_with_title(ms, id_or_title@));
            }
        },
    }
    let q = chars_of(id_or_title);
    let t = trim_chars(&q);
    let lower_q = lower_chars(&t);
    let mut i: usize = 0;
    while i < metas.len()
        invariant
            i <= metas@.len(),
            ms == metas.deep_view(),
            ms.len() == metas@.len(),
            lower_q@ == lower_seq(spec_trim(id_or_title@)),
            spec_resolve(ms, id_or_title@) == first_with_title(ms, id_or_title@),
            forall|j: int| 0 <= j < i ==> !title_matches(#[trigger] ms[j], id_or_title@),
        decreases metas.len() - i,
    {
        proof {
            assert(ms[i as int] == metas@[i as int]@);
        }
        let lt = lower_chars(&chars_of(metas[i].title.as_str()));
        if eq_chars(&lt, &lower_q) {
            proof {
                lemma_first_title_earlier(ms, id_or_title@, i as int);
            }
            return Some(i);
        }
        i = i + 1;
    }
    proof {
        lemma_first_title_none(ms, id_or_title@);
    }
    None
}

// ---------------------------------------------------------------------------
// Numbering
// ---------------------------------------------------------------------------

/// The greatest record number in the listing, or 0 when it is empty.
pub open spec fn max_number(ms: Seq<MetaView>) -> u32
    decreases ms.len(),
{
    if ms.len() == 0 {
        0u32
    } else {
        let m = max_number(ms.drop_last());
        if ms.last().number > m {
            ms.last().number
        } else {
            m
        }
    }
}

fn exec_max_number(metas: &Vec<AdrMeta>) -> (r: u32)
    ensures
        r == max_number(metas.deep_view()),
{
    let ghost ms = metas.deep_view();
    let mut m: u32 = 0;
    let mut i: usize = 0;
    proof {
        assert(ms.take(0) =~= Seq::<MetaView>::empty());
    }
    while i < metas.len()
        invariant
            i <= metas@.len(),
            ms == metas.deep_view(),
            ms.len() == metas@.len(),
            m == max_number(ms.take(i as int)),
        decreases metas.len() - i,
    {
        proof {
            assert(ms.take(i + 1).drop_last() =~= ms.take(i as int));
            assert(ms.take(i + 1).last() == ms[i as int]);
            assert(ms[i as int] == metas@[i as int]@);
        }
        if metas[i].number > m {
            m = metas[i].number;
        }
        i = i + 1;
    }
    proof {
        assert(ms.take(ms.len() as int) =~= ms);
    }
    m
}

// ---------------------------------------------------------------------------
// The index file
// ---------------------------------------------------------------------------

/// Regenerate the index from the given records, in their order.
fn write_index<R: AdrRepository>(repo: &mut R, cfg: &Config, metas: &Vec<AdrMeta>) -> (r: Result<
    (),
    AdrError,
>)
    ensures
        r is Ok ==> final(repo).files() == old(repo).files().insert(
            cfg.index_name@,
            spec_render_index(metas.deep_view()),
        ),
        r matches Err(e) ==> e is Io,
{
    let content = render_index(metas);
    match repo.write_string(cfg.index_name.as_str(), content.as_str()) {
        Ok(_) => Ok(()),
        Err(e) => Err(io_error(e)),
    }
}


// ---------------------------------------------------------------------------
// Listing the collection and regenerating the index
// ---------------------------------------------------------------------------

/// What a listing pass leaves behind: the records of the store as of the
/// call, and the index regenerated from them.
pub open spec fn list_post(
    files0: Map<Seq<char>, Seq<char>>,
    files1: Map<Seq<char>, Seq<char>>,
    ext: Seq<char>,
    idx: Seq<char>,
    today: Seq<char>,
    ms: Seq<MetaView>,
) -> bool {
    &&& is_collection_listing(files0, ext, today, ms)
    &&& files1 == files0.insert(idx, spec_render_index(ms))
}

/// List every record and regenerate the index, under the given date.
pub fn list_and_index_dated<R: AdrRepository>(repo: &mut R, cfg: &Config, today: &str) -> (r:
    Result<Vec<AdrMeta>, AdrError>)
    ensures
        r matches Ok(v) ==> list_post(
            old(repo).files(),
            final(repo).files(),
            cfg.format@,
            cfg.index_name@,
            today@,
            v.deep_view(),
        ),
        r matches Err(e) ==> e is Io,
{
    let adrs = match list_adrs(&*repo, cfg.format.as_str(), today) {
        Ok(v) => v,
        Err(e) => {
            return Err(e);
        },
    };
    match write_index(repo, cfg, &adrs) {
        Ok(_) => Ok(adrs),
        Err(e) => Err(e),
    }
}

/// List every record and regenerate the index, dated today.
pub fn list_and_index<R: AdrRepository>(repo: &mut R, cfg: &Config) -> (r: Result<
    Vec<AdrMeta>,
    AdrError,
>)
    ensures
        r matches Ok(v) ==> exists|today: Seq<char>|
            list_post(
                old(repo).files(),
                final(repo).files(),
                cfg.format@,
                cfg.index_name@,
                today,
                v.deep_view(),
            ),
        r matches Err(e) ==> e is Io,
{
    let today = current_date();
    list_and_index_dated(repo, cfg, today.as_str())
}

// ---------------------------------------------------------------------------
// Creating a record
// ---------------------------------------------------------------------------

/// How a new record's `Supersedes` reference is displayed: a link to the
/// first record carrying that number, or the bare number.
pub open spec fn spec_sup_display(ms: Seq<MetaView>, sup: Option<u32>) -> Option<Seq<char>> {
    match sup {
        Some(n) => Some(
            if first_with_number(ms, n) >= 0 {
                seq!['['] + spec_fmt4(n) + "]("@ + ms[first_with_number(ms, n)].path + seq![')']
            } else {
                spec_fmt4(n)
            },
        ),
        None => None,
    }
}

/// The skeleton sections a fresh document carries.
pub open spec fn spec_skeleton() -> Seq<char> {
    "## Context\n\nDescribe the context and forces at play.\n\n## Decision\n\nState the decision that was made and why.\n\n## Consequences\n\nList the trade-offs and follow-ups.\n"@
}

/// The full text of a freshly created document in either built-in layout.
pub open spec fn spec_create_content(
    front_matter: bool,
    number: u32,
    title: Seq<char>,
    today: Seq<char>,
    sup_display: Option<Seq<char>>,
) -> Seq<char> {
    let fields = "Date: "@ + today + "\nStatus: Proposed\n"@ + (match sup_display {
        Some(d) => "Supersedes: "@ + d + seq!['\n'],
        None => Seq::<char>::empty(),
    }) + seq!['\n'] + spec_skeleton();
    if front_matter {
        "---\ntitle: "@ + crate::yaml_util::spec_escape_yaml(title) + "\n---\n\n"@ + fields
    } else {
        "# ADR "@ + spec_fmt4(number) + ": "@ + title + "\n\n"@ + fields
    }
}

/// The full text of a freshly created document rendered from a template.
pub open spec fn spec_template_content(
    tpl: Seq<char>,
    number: u32,
    title: Seq<char>,
    today: Seq<char>,
    sup_display: Option<Seq<char>>,
) -> Seq<char> {
    replace_all(
        replace_all(
            replace_all(
                replace_all(replace_all(tpl, "{{NUMBER}}"@, spec_fmt4(number)), "{{TITLE}}"@, title),
                "{{DATE}}"@,
                today,
            ),
            "{{STATUS}}"@,
            "Proposed"@,
        ),
        "{{SUPERSEDES}}"@,
        match sup_display {
            Some(d) => d,
            None => Seq::<char>::empty(),
        },
    )
}

/// Substitute the template placeholders — number, title, date, status, and
/// the supersedes reference, in that order — into the template text.
pub fn substitute_template(
    tpl: &str,
    number: u32,
    title: &str,
    today: &str,
    sup_display: Option<&Vec<char>>,
) -> (r: Vec<char>)
    ensures
        r@ == spec_template_content(
            tpl@,
            number,
            title@,
            today@,
            match sup_display {
                Some(d) => Some(d@),
                None => None,
            },
        ),
{
    proof {
        reveal_strlit("{{NUMBER}}");
        reveal_strlit("{{TITLE}}");
        reveal_strlit("{{DATE}}");
        reveal_strlit("{{STATUS}}");
        reveal_strlit("{{SUPERSEDES}}");
    }
    let digits = fmt4(number);
    let s1 = replace_chars(&chars_of(tpl), &chars_of("{{NUMBER}}"), &digits);
    let s2 = replace_chars(&s1, &chars_of("{{TITLE}}"), &chars_of(title));
    let s3 = replace_chars(&s2, &chars_of("{{DATE}}"), &chars_of(today));
    let s4 = replace_chars(&s3, &chars_of("{{STATUS}}"), &chars_of("Proposed"));
    let empty_rep: Vec<char> = Vec::new();
    let s5 = match sup_display {
        Some(d) => replace_chars(&s4, &chars_of("{{SUPERSEDES}}"), d),
        None => replace_chars(&s4, &chars_of("{{SUPERSEDES}}"), &empty_rep),
    };
    proof {
        assert(empty_rep@ =~= Seq::<char>::empty());
    }
    s5
}

/// A fresh document in one of the two built-in layouts.
pub fn fresh_document(
    front_matter: bool,
    number: u32,
    title: &str,
    today: &str,
    sup_display: Option<&Vec<char>>,
) -> (r: Vec<char>)
    ensures
        r@ == spec_create_content(
            front_matter,
            number,
            title@,
            today@,
            match sup_display {
                Some(d) => Some(d@),
                None => None,
            },
        ),
{
    let mut out: Vec<char> = Vec::new();
    if front_matter {
        push_str_chars(&mut out, "---\ntitle: ");
        let esc = crate::yaml_util::escape_yaml(title);
        push_all(&mut out, &chars_of(esc.as_str()));
        push_str_chars(&mut out, "\n---\n\n");
    } else {
        push_str_chars(&mut out, "# ADR ");
        let digits = fmt4(number);
        push_all(&mut out, &digits);
        push_str_chars(&mut out, ": ");
        push_str_chars(&mut out, title);
        push_str_chars(&mut out, "\n\n");
    }
    push_str_chars(&mut out, "Date: ");
    push_str_chars(&mut out, today);
    push_str_chars(&mut out, "\nStatus: Proposed\n");
    match sup_display {
        Some(d) => {
            push_str_chars(&mut out, "Supersedes: ");
            push_all(&mut out, d);
            out.push('\n');
        },
        None => {},
    }
    out.push('\n');
    push_str_chars(
        &mut out,
        "## Context\n\nDescribe the context and forces at play.\n\n## Decision\n\nState the decision that was made and why.\n\n## Consequences\n\nList the trade-offs and follow-ups.\n",
    );
    proof {
        assert(out@ =~= spec_create_content(
            front_matter,
            number,
            title@,
            today@,
            match sup_display {
                Some(d) => Some(d@),
                None => None,
            },
        ));
    }
    out
}

/// The display form of a new record's supersedes reference, resolved against
/// the listing.
fn supersedes_display(adrs: &Vec<AdrMeta>, sup: Option<u32>) -> (r: Option<Vec<char>>)
    ensures
        match r {
            Some(d) => spec_sup_display(adrs.deep_view(), sup) == Some(d@),
            None => spec_sup_display(adrs.deep_view(), sup) is None,
        },
{
    match sup {
        Some(n) => Some(
            match find_first_number(adrs, n) {
                Some(i) => {
                    let mut d: Vec<char> = Vec::new();
                    d.push('[');
                    let digits = fmt4(n);
                    push_all(&mut d, &digits);
                    push_str_chars(&mut d, "](");
                    push_all(&mut d, &chars_of(adrs[i].path.as_str()));
                    d.push(')');
                    proof {
                        assert(adrs.deep_view()[i as int] == adrs@[i as int]@);
                        assert(d@ =~= seq!['['] + spec_fmt4(n) + "]("@ + adrs.deep_view()[
                            first_with_number(adrs.deep_view(), n)
                        ].path + seq![')']);
                    }
                    d
                },
                None => fmt4(n),
            },
        ),
        None => None,
    }
}

/// What creation leaves behind, given the listing it saw.
pub open spec fn create_post(
    files0: Map<Seq<char>, Seq<char>>,
    files1: Map<Seq<char>, Seq<char>>,
    cfg: crate::config::Config,
    title: Seq<char>,
    supersedes: Option<u32>,
    today: Seq<char>,
    m: MetaView,
    ms: Seq<MetaView>,
    content: Seq<char>,
) -> bool {
    &&& is_collection_listing(files0, cfg.format@, today, ms)
    &&& m.number == max_number(ms) + 1
    &&& m.title == title
    &&& m.status == "Proposed"@
    &&& m.date == today
    &&& m.supersedes == supersedes
    &&& m.superseded_by is None
    &&& m.path == spec_filename(m.number, title, cfg.format@)
    &&& (cfg.template is None ==> content == spec_create_content(
        cfg.front_matter,
        m.number,
        title,
        today,
        spec_sup_display(ms, supersedes),
    ))
    &&& (cfg.template is Some ==> exists|tpl: Seq<char>|
        content == spec_template_content(
            tpl,
            m.number,
            title,
            today,
            spec_sup_display(ms, supersedes),
        ))
    &&& files1 == files0.insert(m.path, content).insert(
        cfg.index_name@,
        spec_render_index(ms.push(m)),
    )
}

/// Create a new record under the given date: assign the next number, write
/// the document, and regenerate the index.
#[verifier::rlimit(100)]
#[verifier::spinoff_prover]
pub fn create_new_adr_dated<R: AdrRepository>(
    repo: &mut R,
    cfg: &Config,
    title: &str,
    supersedes: Option<u32>,
    today: &str,
) -> (r: Result<AdrMeta, AdrError>)
    ensures
        r matches Ok(m) ==> exists|ms: Seq<MetaView>, content: Seq<char>|
            create_post(
                old(repo).files(),
                final(repo).files(),
                *cfg,
                title@,
                supersedes,
                today@,
                m@,
                ms,
                content,
            ),
        r matches Err(e) ==> e is Io || e is TemplateUnreadable || e is InvalidNumber,
        r matches Err(e) ==> (e is TemplateUnreadable ==> cfg.template is Some
            && final(repo).files() == old(repo).files() && e.text() == "Reading template at "@
            + cfg.template->Some_0@ + " failed"@),
        r matches Err(e) ==> (e is InvalidNumber ==> final(repo).files() == old(repo).files()
            && exists|ms: Seq<MetaView>|
            is_collection_listing(old(repo).files(), cfg.format@, today@, ms) && max_number(ms)
                == u32::MAX),
{
    let mut adrs = match list_adrs(&*repo, cfg.format.as_str(), today) {
        Ok(v) => v,
        Err(e) => {
            return Err(e);
        },
    };
    let ghost ms0 = adrs.deep_view();
    let maxn = exec_max_number(&adrs);
    if maxn == u32::MAX {
        return Err(
            AdrError::InvalidNumber(string_of(&chars_of("the record numbers are exhausted"))),
        );
    }
    let next = maxn + 1;
    let filename = filename_for(next, title, cfg.format.as_str());

    let sup_display: Option<Vec<char>> = supersedes_display(&adrs, supersedes);

    let content: Vec<char> = match &cfg.template {
        Some(tpl_path) => {
            let tpl = match repo.read_template(tpl_path.as_str()) {
                Ok(t) => t,
                Err(_) => {
                    let mut msg: Vec<char> = chars_of("Reading template at ");
                    push_all(&mut msg, &chars_of(tpl_path.as_str()));
                    push_str_chars(&mut msg, " failed");
                    return Err(AdrError::TemplateUnreadable(string_of(&msg)));
                },
            };
            proof {
                reveal_strlit("{{NUMBER}}");
                reveal_strlit("{{TITLE}}");
                reveal_strlit("{{DATE}}");
                reveal_strlit("{{STATUS}}");
                reveal_strlit("{{SUPERSEDES}}");
            }
            let digits = fmt4(next);
            let s1 = replace_chars(&chars_of(tpl.as_str()), &chars_of("{{NUMBER}}"), &digits);
            let s2 = replace_chars(&s1, &chars_of("{{TITLE}}"), &chars_of(title));
            let s3 = replace_chars(&s2, &chars_of("{{DATE}}"), &chars_of(today));
            let s4 = replace_chars(&s3, &chars_of("{{STATUS}}"), &chars_of("Proposed"));
            let empty_rep: Vec<char> = Vec::new();
            let s5 = match &sup_display {
                Some(d) => replace_chars(&s4, &chars_of("{{SUPERSEDES}}"), d),
                None => replace_chars(&s4, &chars_of("{{SUPERSEDES}}"), &empty_rep),
            };
            proof {
                assert(empty_rep@ =~= Seq::<char>::empty());
                assert(s5@ == spec_template_content(
                    tpl@,
                    next,
                    title@,
                    today@,
                    spec_sup_display(ms0, supersedes),
                ));
            }
            s5
        },
        None => {
            let mut out: Vec<char> = Vec::new();
            if cfg.front_matter {
                push_str_chars(&mut out, "---\ntitle: ");
                let esc = crate::yaml_util::escape_yaml(title);
                push_all(&mut out, &chars_of(esc.as_str()));
                push_str_chars(&mut out, "\n---\n\n");
            } else {
                push_str_chars(&mut out, "# ADR ");
                let digits = fmt4(next);
                push_all(&mut out, &digits);
                push_str_chars(&mut out, ": ");
                push_str_chars(&mut out, title);
                push_str_chars(&mut out, "\n\n");
            }
            push_str_chars(&mut out, "Date: ");
            push_str_chars(&mut out, today);
            push_str_chars(&mut out, "\nStatus: Proposed\n");
            match &sup_display {
                Some(d) => {
                    push_str_chars(&mut out, "Supersedes: ");
                    push_all(&mut out, d);
                    out.push('\n');
                },
                None => {},
            }
            out.push('\n');
            push_str_chars(
                &mut out,
                "## Context\n\nDescribe the context and forces at play.\n\n## Decision\n\nState the decision that was made and why.\n\n## Consequences\n\nList the trade-offs and follow-ups.\n",
            );
            proof {
                assert(out@ =~= spec_create_content(
                    cfg.front_matter,
                    next,
                    title@,
                    today@,
                    spec_sup_display(ms0, supersedes),
                ));
            }
            out
        },
    };

    let content_str = string_of(&content);
    match repo.write_string(filename.as_str(), content_str.as_str()) {
        Ok(_) => {},
        Err(e) => {
            return Err(io_error(e));
        },
    }

    let meta = AdrMeta {
        number: next,
        title: string_of(&chars_of(title)),
        status: string_of(&chars_of("Proposed")),
        date: string_of(&chars_of(today)),
        supersedes,
        superseded_by: None,
        path: filename,
    };
    let ghost ms = adrs.deep_view();
    adrs.push(meta.duplicate());
    proof {
        assert(adrs.deep_view() =~= ms.push(meta@));
    }
    match write_index(repo, cfg, &adrs) {
        Ok(_) => {
            proof {
                assert(create_post(
                    old(repo).files(),
                    repo.files(),
                    *cfg,
                    title@,
                    supersedes,
                    today@,
                    meta@,
                    ms0,
                    content@,
                ));
            }
            Ok(meta)
        },
        Err(e) => Err(e),
    }
}

/// Create a new record dated today.
pub fn create_new_adr<R: AdrRepository>(
    repo: &mut R,
    cfg: &Config,
    title: &str,
    supersedes: Option<u32>,
) -> (r: Result<AdrMeta, AdrError>)
    ensures
        r matches Ok(m) ==> exists|today: Seq<char>, ms: Seq<MetaView>, content: Seq<char>|
            create_post(
                old(repo).files(),
                final(repo).files(),
                *cfg,
                title@,
                supersedes,
                today,
                m@,
                ms,
                content,
            ),
        r matches Err(e) ==> e is Io || e is TemplateUnreadable || e is InvalidNumber,
{
    let today = current_date();
    create_new_adr_dated(repo, cfg, title, supersedes, today.as_str())
}


// ---------------------------------------------------------------------------
// Superseding
// ---------------------------------------------------------------------------

/// What a successful supersession leaves behind: the first record numbered
/// `old_number` rewritten in place, and the index regenerated from a fresh
/// listing of the result.
pub open spec fn supersede_post(
    files0: Map<Seq<char>, Seq<char>>,
    files1: Map<Seq<char>, Seq<char>>,
    ext: Seq<char>,
    idx: Seq<char>,
    old_number: u32,
    new_number: u32,
    today: Seq<char>,
    ms: Seq<MetaView>,
    ms2: Seq<MetaView>,
) -> bool {
    &&& is_collection_listing(files0, ext, today, ms)
    &&& first_with_number(ms, old_number) >= 0
    &&& {
        let p = ms[first_with_number(ms, old_number)].path;
        let mid = files0.insert(p, spec_apply_supersede(files0[p], new_number));
        is_collection_listing(mid, ext, today, ms2) && files1 == mid.insert(
            idx,
            spec_render_index(ms2),
        )
    }
}

/// Mark the record numbered `old_number` superseded by `new_number`, under
/// the given date, and regenerate the index.
pub fn mark_superseded_dated<R: AdrRepository>(
    repo: &mut R,
    cfg: &Config,
    old_number: u32,
    new_number: u32,
    today: &str,
) -> (r: Result<(), AdrError>)
    ensures
        r is Ok ==> exists|ms: Seq<MetaView>, ms2: Seq<MetaView>|
            supersede_post(
                old(repo).files(),
                final(repo).files(),
                cfg.format@,
                cfg.index_name@,
                old_number,
                new_number,
                today@,
                ms,
                ms2,
            ),
        r matches Err(e) ==> e is NotFound || e is Io,
        r matches Err(e) ==> (e is NotFound ==> final(repo).files() == old(repo).files()
            && e.text() == "Could not find ADR "@ + spec_fmt4(old_number) + " to supersede"@
            && exists|ms: Seq<MetaView>|
            is_collection_listing(old(repo).files(), cfg.format@, today@, ms) && !has_number(
                ms,
                old_number,
            )),
{
    let adrs = match list_adrs(&*repo, cfg.format.as_str(), today) {
        Ok(v) => v,
        Err(e) => {
            return Err(e);
        },
    };
    let ghost ms0 = adrs.deep_view();
    let ti = match find_first_number(&adrs, old_number) {
        Some(i) => i,
        None => {
            proof {
                lemma_first_with_number(ms0, old_number);
            }
            let mut msg: Vec<char> = chars_of("Could not find ADR ");
            let digits = fmt4(old_number);
            push_all(&mut msg, &digits);
            push_str_chars(&mut msg, " to supersede");
            proof {
                assert(msg@ =~= "Could not find ADR "@ + spec_fmt4(old_number) + " to supersede"@);
            }
            return Err(AdrError::NotFound(string_of(&msg)));
        },
    };
    let path = &adrs[ti].path;
    proof {
        assert(ms0[ti as int] == adrs@[ti as int]@);
    }
    let content = match repo.read_string(path.as_str()) {
        Ok(c) => c,
        Err(e) => {
            return Err(io_error(e));
        },
    };
    let updated = apply_supersede(&chars_of(content.as_str()), new_number);
    let updated_str = string_of(&updated);
    match repo.write_string(path.as_str(), updated_str.as_str()) {
        Ok(_) => {},
        Err(e) => {
            return Err(io_error(e));
        },
    }
    let adrs2 = match list_adrs(&*repo, cfg.format.as_str(), today) {
        Ok(v) => v,
        Err(e) => {
            return Err(e);
        },
    };
    match write_index(repo, cfg, &adrs2) {
        Ok(_) => {
            proof {
                assert(supersede_post(
                    old(repo).files(),
                    repo.files(),
                    cfg.format@,
                    cfg.index_name@,
                    old_number,
                    new_number,
                    today@,
                    ms0,
                    adrs2.deep_view(),
                ));
            }
            Ok(())
        },
        Err(e) => Err(e),
    }
}

/// Mark a record superseded, dated today.
pub fn mark_superseded<R: AdrRepository>(
    repo: &mut R,
    cfg: &Config,
    old_number: u32,
    new_number: u32,
) -> (r: Result<(), AdrError>)
    ensures
        r is Ok ==> exists|today: Seq<char>, ms: Seq<MetaView>, ms2: Seq<MetaView>|
            supersede_post(
                old(repo).files(),
                final(repo).files(),
                cfg.format@,
                cfg.index_name@,
                old_number,
                new_number,
                today,
                ms,
                ms2,
            ),
        r matches Err(e) ==> e is NotFound || e is Io,
        r matches Err(e) ==> (e is NotFound ==> final(repo).files() == old(repo).files()
            && e.text() == "Could not find ADR "@ + spec_fmt4(old_number) + " to supersede"@
            && exists|today: Seq<char>, ms: Seq<MetaView>|
            is_collection_listing(old(repo).files(), cfg.format@, today, ms) && !has_number(
                ms,
                old_number,
            )),
{
    let today = current_date();
    mark_superseded_dated(repo, cfg, old_number, new_number, today.as_str())
}

// ---------------------------------------------------------------------------
// Status transitions
// ---------------------------------------------------------------------------

/// What a successful transition leaves behind: the resolved record's status
/// rewritten to `word` and its date to today, and the index regenerated.
pub open spec fn transition_post(
    files0: Map<Seq<char>, Seq<char>>,
    files1: Map<Seq<char>, Seq<char>>,
    ext: Seq<char>,
    idx: Seq<char>,
    q: Seq<char>,
    word: Seq<char>,
    today: Seq<char>,
    m: MetaView,
    ms: Seq<MetaView>,
    ms2: Seq<MetaView>,
) -> bool {
    &&& is_collection_listing(files0, ext, today, ms)
    &&& spec_resolve(ms, q) >= 0
    &&& {
        let p = ms[spec_resolve(ms, q)].path;
        let mid = files0.insert(p, spec_apply_transition(files0[p], word, today));
        &&& is_collection_listing(mid, ext, today, ms2)
        &&& files1 == mid.insert(idx, spec_render_index(ms2))
        &&& first_with_number(ms2, ms[spec_resolve(ms, q)].number) >= 0
        &&& m == ms2[first_with_number(ms2, ms[spec_resolve(ms, q)].number)]
    }
}

/// Set the resolved record's status to `word` and its date to today, and
/// regenerate the index.
fn transition<R: AdrRepository>(
    repo: &mut R,
    cfg: &Config,
    id_or_title: &str,
    word: &str,
    today: &str,
) -> (r: Result<AdrMeta, AdrError>)
    ensures
        r matches Ok(m) ==> exists|ms: Seq<MetaView>, ms2: Seq<MetaView>|
            transition_post(
                old(repo).files(),
                final(repo).files(),
                cfg.format@,
                cfg.index_name@,
                id_or_title@,
                word@,
                today@,
                m@,
                ms,
                ms2,
            ),
        r matches Err(e) ==> e is NotFound || e is Io || e is Inconsistent,
        r matches Err(e) ==> (e is NotFound ==> final(repo).files() == old(repo).files()
            && e.text() == "ADR not found by id or title: "@ + id_or_title@ && exists|
            ms: Seq<MetaView>,
        |
            is_collection_listing(old(repo).files(), cfg.format@, today@, ms) && spec_resolve(
                ms,
                id_or_title@,
            ) == -1),
{
    let adrs = match list_adrs(&*repo, cfg.format.as_str(), today) {
        Ok(v) => v,
        Err(e) => {
            return Err(e);
        },
    };
    let ghost ms0 = adrs.deep_view();
    let ti = match resolve_target(&adrs, id_or_title) {
        Some(i) => i,
        None => {
            let mut msg: Vec<char> = chars_of("ADR not found by id or title: ");
            push_all(&mut msg, &chars_of(id_or_title));
            proof {
                assert(msg@ =~= "ADR not found by id or title: "@ + id_or_title@);
            }
            return Err(AdrError::NotFound(string_of(&msg)));
        },
    };
    let target_number = adrs[ti].number;
    let path = &adrs[ti].path;
    proof {
        assert(ms0[ti as int] == adrs@[ti as int]@);
    }
    let content = match repo.read_string(path.as_str()) {
        Ok(c) => c,
        Err(e) => {
            return Err(io_error(e));
        },
    };
    let updated = apply_transition(&chars_of(content.as_str()), &chars_of(word), &chars_of(today));
    let updated_str = string_of(&updated);
    match repo.write_string(path.as_str(), updated_str.as_str()) {
        Ok(_) => {},
        Err(e) => {
            return Err(io_error(e));
        },
    }
    let adrs2 = match list_adrs(&*repo, cfg.format.as_str(), today) {
        Ok(v) => v,
        Err(e) => {
            return Err(e);
        },
    };
    match write_index(repo, cfg, &adrs2) {
        Ok(_) => {},
        Err(e) => {
            return Err(e);
        },
    }
    match find_first_number(&adrs2, target_number) {
        Some(ui) => {
            let m = adrs2[ui].duplicate();
            proof {
                assert(adrs2.deep_view()[ui as int] == adrs2@[ui as int]@);
                assert(transition_post(
                    old(repo).files(),
                    repo.files(),
                    cfg.format@,
                    cfg.index_name@,
                    id_or_title@,
                    word@,
                    today@,
                    m@,
                    ms0,
                    adrs2.deep_view(),
                ));
            }
            Ok(m)
        },
        None => Err(AdrError::Inconsistent(string_of(&chars_of("Updated ADR not found")))),
    }
}

/// Accept the record named by number or title, under the given date.
pub fn accept_dated<R: AdrRepository>(
    repo: &mut R,
    cfg: &Config,
    id_or_title: &str,
    today: &str,
) -> (r: Result<AdrMeta, AdrError>)
    ensures
        r matches Ok(m) ==> exists|ms: Seq<MetaView>, ms2: Seq<MetaView>|
            transition_post(
                old(repo).files(),
                final(repo).files(),
                cfg.format@,
                cfg.index_name@,
                id_or_title@,
                "Accepted"@,
                today@,
                m@,
                ms,
                ms2,
            ),
        r matches Err(e) ==> e is NotFound || e is Io || e is Inconsistent,
        r matches Err(e) ==> (e is NotFound ==> final(repo).files() == old(repo).files()
            && e.text() == "ADR not found by id or title: "@ + id_or_title@ && exists|
            ms: Seq<MetaView>,
        |
            is_collection_listing(old(repo).files(), cfg.format@, today@, ms) && spec_resolve(
                ms,
                id_or_title@,
            ) == -1),
{
    transition(repo, cfg, id_or_title, "Accepted", today)
}

/// Accept the record named by number or title, dated today.
pub fn accept<R: AdrRepository>(repo: &mut R, cfg: &Config, id_or_title: &str) -> (r: Result<
    AdrMeta,
    AdrError,
>)
    ensures
        r matches Ok(m) ==> exists|today: Seq<char>, ms: Seq<MetaView>, ms2: Seq<MetaView>|
            transition_post(
                old(repo).files(),
                final(repo).files(),
                cfg.format@,
                cfg.index_name@,
                id_or_title@,
                "Accepted"@,
                today,
                m@,
                ms,
                ms2,
            ),
        r matches Err(e) ==> e is NotFound || e is Io || e is Inconsistent,
        r matches Err(e) ==> (e is NotFound ==> final(repo).files() == old(repo).files()
            && e.text() == "ADR not found by id or title: "@ + id_or_title@ && exists|
            today: Seq<char>,
            ms: Seq<MetaView>,
        |
            is_collection_listing(old(repo).files(), cfg.format@, today, ms) && spec_resolve(
                ms,
                id_or_title@,
            ) == -1),
{
    let today = current_date();
    accept_dated(repo, cfg, id_or_title, today.as_str())
}

/// Reject the record named by number or title, under the given date.
pub fn reject_dated<R: AdrRepository>(
    repo: &mut R,
    cfg: &Config,
    id_or_title: &str,
    today: &str,
) -> (r: Result<AdrMeta, AdrError>)
    ensures
        r matches Ok(m) ==> exists|ms: Seq<MetaView>, ms2: Seq<MetaView>|
            transition_post(
                old(repo).files(),
                final(repo).files(),
                cfg.format@,
                cfg.index_name@,
                id_or_title@,
                "Rejected"@,
                today@,
                m@,
                ms,
                ms2,
            ),
        r matches Err(e) ==> e is NotFound || e is Io || e is Inconsistent,
        r matches Err(e) ==> (e is NotFound ==> final(repo).files() == old(repo).files()
            && e.text() == "ADR not found by id or title: "@ + id_or_title@ && exists|
            ms: Seq<MetaView>,
        |
            is_collection_listing(old(repo).files(), cfg.format@, today@, ms) && spec_resolve(
                ms,
                id_or_title@,
            ) == -1),
{
    transition(repo, cfg, id_or_title, "Rejected", today)
}

/// Reject the record named by number or title, dated today.
pub fn reject<R: AdrRepository>(repo: &mut R, cfg: &Config, id_or_title: &str) -> (r: Result<
    AdrMeta,
    AdrError,
>)
    ensures
        r matches Ok(m) ==> exists|today: Seq<char>, ms: Seq<MetaView>, ms2: Seq<MetaView>|
            transition_post(
                old(repo).files(),
                final(repo).files(),
                cfg.format@,
                cfg.index_name@,
                id_or_title@,
                "Rejected"@,
                today,
                m@,
                ms,
                ms2,
            ),
        r matches Err(e) ==> e is NotFound || e is Io || e is Inconsistent,
        r matches Err(e) ==> (e is NotFound ==> final(repo).files() == old(repo).files()
            && e.text() == "ADR not found by id or title: "@ + id_or_title@ && exists|
            today: Seq<char>,
            ms: Seq<MetaView>,
        |
            is_collection_listing(old(repo).files(), cfg.format@, today, ms) && spec_resolve(
                ms,
                id_or_title@,
            ) == -1),
{
    let today = current_date();
    reject_dated(repo, cfg, id_or_title, today.as_str())
}


// ---------------------------------------------------------------------------
// Reformatting
// ---------------------------------------------------------------------------

/// The cross-file repair pass: every other record's supersedes links to `id`
/// retargeted at `newname`, walking the listing in order.
pub open spec fn links_pass(
    files: Map<Seq<char>, Seq<char>>,
    ms: Seq<MetaView>,
    k: int,
    id: u32,
    newname: Seq<char>,
) -> Map<Seq<char>, Seq<char>>
    decreases ms.len() - k,
{
    if k < 0 || k >= ms.len() {
        files
    } else {
        let f2 = if ms[k].number != id {
            files.insert(ms[k].path, spec_rewrite_links(files[ms[k].path], id, newname))
        } else {
            files
        };
        links_pass(f2, ms, k + 1, id, newname)
    }
}

/// What a successful reformat leaves behind: the target re-rendered under the
/// configured layout at its (possibly new) filename, the old file gone if the
/// name changed, every inbound link repaired, and the index regenerated.
pub open spec fn reformat_post(
    files0: Map<Seq<char>, Seq<char>>,
    files1: Map<Seq<char>, Seq<char>>,
    cfg: crate::config::Config,
    id: u32,
    today: Seq<char>,
    m: MetaView,
    ms: Seq<MetaView>,
    ms_scan: Seq<MetaView>,
    ms2: Seq<MetaView>,
) -> bool {
    &&& is_collection_listing(files0, cfg.format@, today, ms)
    &&& first_with_number(ms, id) >= 0
    &&& {
        let t = ms[first_with_number(ms, id)];
        let newname = spec_filename(t.number, t.title, cfg.format@);
        let content = spec_render_document(
            t.number,
            t.title,
            t.date,
            t.status,
            t.superseded_by,
            match t.supersedes {
                Some(n) => Some(
                    match spec_link_name(ms, n) {
                        Some(f) => seq!['['] + spec_fmt4(n) + "]("@ + f + seq![')'],
                        None => spec_fmt4(n),
                    },
                ),
                None => None,
            },
            cfg.front_matter,
            spec_body_after_meta(files0[t.path]),
        );
        let written = files0.insert(newname, content);
        let state1 = if newname == t.path {
            written
        } else {
            written.remove(t.path)
        };
        &&& is_collection_listing(state1, cfg.format@, today, ms_scan)
        &&& {
            let state2 = links_pass(state1, ms_scan, 0, id, newname);
            &&& is_collection_listing(state2, cfg.format@, today, ms2)
            &&& files1 == state2.insert(cfg.index_name@, spec_render_index(ms2))
            &&& first_with_number(ms2, t.number) >= 0
            &&& m == ms2[first_with_number(ms2, t.number)]
        }
    }
}

/// Re-render the record numbered `id` into the configured layout, under the
/// given date: rewrite its file (and filename), repair inbound links in every
/// other record, and regenerate the index.
#[verifier::rlimit(100)]
#[verifier::spinoff_prover]
pub fn reformat_dated<R: AdrRepository>(repo: &mut R, cfg: &Config, id: u32, today: &str) -> (r:
    Result<AdrMeta, AdrError>)
    ensures
        r matches Ok(m) ==> exists|ms: Seq<MetaView>, ms_scan: Seq<MetaView>, ms2: Seq<MetaView>|
            reformat_post(
                old(repo).files(),
                final(repo).files(),
                *cfg,
                id,
                today@,
                m@,
                ms,
                ms_scan,
                ms2,
            ),
        r matches Err(e) ==> e is NotFound || e is Io || e is Inconsistent,
        r matches Err(e) ==> (e is NotFound ==> final(repo).files() == old(repo).files()
            && e.text() == "ADR not found by id: "@ + spec_fmt4(id) && exists|ms: Seq<MetaView>|
            is_collection_listing(old(repo).files(), cfg.format@, today@, ms)
                && first_with_number(ms, id) == -1),
{
    let adrs = match list_adrs(&*repo, cfg.format.as_str(), today) {
        Ok(v) => v,
        Err(e) => {
            return Err(e);
        },
    };
    let ghost ms0 = adrs.deep_view();
    let ti = match find_first_number(&adrs, id) {
        Some(i) => i,
        None => {
            let mut msg: Vec<char> = chars_of("ADR not found by id: ");
            let digits = fmt4(id);
            push_all(&mut msg, &digits);
            proof {
                assert(msg@ =~= "ADR not found by id: "@ + spec_fmt4(id));
            }
            return Err(AdrError::NotFound(string_of(&msg)));
        },
    };
    let target = &adrs[ti];
    proof {
        assert(ms0[ti as int] == adrs@[ti as int]@);
    }
    let original = match repo.read_string(target.path.as_str()) {
        Ok(c) => c,
        Err(e) => {
            return Err(io_error(e));
        },
    };
    let sup_display: Option<Vec<char>> = match target.supersedes {
        Some(n) => Some(
            match link_name(&adrs, n) {
                Some(f) => {
                    let mut d: Vec<char> = Vec::new();
                    d.push('[');
                    let digits = fmt4(n);
                    push_all(&mut d, &digits);
                    push_str_chars(&mut d, "](");
                    push_all(&mut d, &f);
                    d.push(')');
                    proof {
                        assert(d@ =~= seq!['['] + spec_fmt4(n) + "]("@ + (match spec_link_name(
                            ms0,
                            n,
                        ) {
                            Some(f0) => f0,
                            None => Seq::<char>::empty(),
                        }) + seq![')']);
                    }
                    d
                },
                None => fmt4(n),
            },
        ),
        None => None,
    };
    let tail = body_after_meta(&chars_of(original.as_str()));
    let content = render_document(
        target.number,
        &chars_of(target.title.as_str()),
        &chars_of(target.date.as_str()),
        &chars_of(target.status.as_str()),
        target.superseded_by,
        match &sup_display {
            Some(d) => Some(d),
            None => None,
        },
        cfg.front_matter,
        &tail,
    );
    let new_name = filename_for(target.number, target.title.as_str(), cfg.format.as_str());
    let content_str = string_of(&content);
    match repo.write_string(new_name.as_str(), content_str.as_str()) {
        Ok(_) => {},
        Err(e) => {
            return Err(io_error(e));
        },
    }
    let name_changed = !eq_chars(&chars_of(new_name.as_str()), &chars_of(target.path.as_str()));
    let target_number = target.number;
    if name_changed {
        match repo.remove_file(target.path.as_str()) {
            Ok(_) => {},
            Err(e) => {
                return Err(io_error(e));
            },
        }
    }
    let ghost state1 = repo.files();

    let scan = match list_adrs(&*repo, cfg.format.as_str(), today) {
        Ok(v) => v,
        Err(e) => {
            return Err(e);
        },
    };
    let ghost mscan = scan.deep_view();
    let new_name_cs = chars_of(new_name.as_str());
    let mut k: usize = 0;
    while k < scan.len()
        invariant
            k <= scan@.len(),
            mscan == scan.deep_view(),
            mscan.len() == scan@.len(),
            new_name_cs@ == new_name@,
            is_collection_listing(state1, cfg.format@, today@, mscan),
            links_pass(state1, mscan, 0, id, new_name@) == links_pass(
                repo.files(),
                mscan,
                k as int,
                id,
                new_name@,
            ),
            forall|j: int|
                k <= j < mscan.len() ==> repo.files().dom().contains(
                    (#[trigger] mscan[j]).path,
                ) && repo.files()[mscan[j].path] == state1[mscan[j].path],
        decreases scan.len() - k,
    {
        proof {
            assert(mscan[k as int] == scan@[k as int]@);
        }
        if scan[k].number != id {
            let c = match repo.read_string(scan[k].path.as_str()) {
                Ok(c) => c,
                Err(e) => {
                    return Err(io_error(e));
                },
            };
            let c_cs = chars_of(c.as_str());
            let rewritten = rewrite_links(&c_cs, id, &new_name_cs);
            let ghost pre = repo.files();
            if !eq_chars(&rewritten, &c_cs) {
                let rw_str = string_of(&rewritten);
                match repo.write_string(scan[k].path.as_str(), rw_str.as_str()) {
                    Ok(_) => {},
                    Err(e) => {
                        return Err(io_error(e));
                    },
                }
            } else {
                proof {
                    assert(pre.insert(mscan[k as int].path, rewritten@) =~= pre);
                }
            }
            proof {
                assert(repo.files() == pre.insert(
                    mscan[k as int].path,
                    spec_rewrite_links(pre[mscan[k as int].path], id, new_name@),
                ));
                assert forall|j: int|
                    k + 1 <= j < mscan.len() implies repo.files().dom().contains(
                    (#[trigger] mscan[j]).path,
                ) && repo.files()[mscan[j].path] == state1[mscan[j].path] by {
                    assert(mscan[j].path != mscan[k as int].path);
                }
            }
        }
        k = k + 1;
    }

    let adrs2 = match list_adrs(&*repo, cfg.format.as_str(), today) {
        Ok(v) => v,
        Err(e) => {
            return Err(e);
        },
    };
    match write_index(repo, cfg, &adrs2) {
        Ok(_) => {},
        Err(e) => {
            return Err(e);
        },
    }
    match find_first_number(&adrs2, target_number) {
        Some(ui) => {
            let m = adrs2[ui].duplicate();
            proof {
                assert(adrs2.deep_view()[ui as int] == adrs2@[ui as int]@);
                assert(reformat_post(
                    old(repo).files(),
                    repo.files(),
                    *cfg,
                    id,
                    today@,
                    m@,
                    ms0,
                    mscan,
                    adrs2.deep_view(),
                ));
            }
            Ok(m)
        },
        None => Err(AdrError::Inconsistent(string_of(&chars_of("Reformatted ADR not found")))),
    }
}

/// Re-render one record into the configured layout, dated today.
pub fn reformat<R: AdrRepository>(repo: &mut R, cfg: &Config, id: u32) -> (r: Result<
    AdrMeta,
    AdrError,
>)
    ensures
        r matches Ok(m) ==> exists|
            today: Seq<char>,
            ms: Seq<MetaView>,
            ms_scan: Seq<MetaView>,
            ms2: Seq<MetaView>,
        |
            reformat_post(
                old(repo).files(),
                final(repo).files(),
                *cfg,
                id,
                today,
                m@,
                ms,
                ms_scan,
                ms2,
            ),
        r matches Err(e) ==> e is NotFound || e is Io || e is Inconsistent,
        r matches Err(e) ==> (e is NotFound ==> final(repo).files() == old(repo).files()
            && e.text() == "ADR not found by id: "@ + spec_fmt4(id) && exists|
            today: Seq<char>,
            ms: Seq<MetaView>,
        |
            is_collection_listing(old(repo).files(), cfg.format@, today, ms)
                && first_with_number(ms, id) == -1),
{
    let today = current_date();
    reformat_dated(repo, cfg, id, today.as_str())
}

/// Re-render every record into the configured layout, dated today: one
/// reformat per record number found in the initial listing, each step meeting
/// the single-record contract. The result carries one record per initial one,
/// with the initial numbers in order.
pub fn reformat_all<R: AdrRepository>(repo: &mut R, cfg: &Config) -> (r: Result<
    Vec<AdrMeta>,
    AdrError,
>)
    ensures
        r matches Ok(v) ==> exists|today: Seq<char>, ms: Seq<MetaView>|
            is_collection_listing(old(repo).files(), cfg.format@, today, ms) && v@.len()
                == ms.len() && forall|k: int|
                0 <= k < ms.len() ==> v.deep_view()[k].number == (#[trigger] ms[k]).number,
        r matches Err(e) ==> e is NotFound || e is Io || e is Inconsistent,
{
    let today = current_date();
    let adrs = match list_adrs(&*repo, cfg.format.as_str(), today.as_str()) {
        Ok(v) => v,
        Err(e) => {
            return Err(e);
        },
    };
    let ghost ms0 = adrs.deep_view();
    let mut ids: Vec<u32> = Vec::new();
    let mut i: usize = 0;
    while i < adrs.len()
        invariant
            i <= adrs@.len(),
            ms0 == adrs.deep_view(),
            ms0.len() == adrs@.len(),
            ids@.len() == i,
            forall|k: int| 0 <= k < i ==> ids@[k] == ms0[k].number,
        decreases adrs.len() - i,
    {
        proof {
            assert(ms0[i as int] == adrs@[i as int]@);
        }
        ids.push(adrs[i].number);
        i = i + 1;
    }
    let mut out: Vec<AdrMeta> = Vec::new();
    let mut j: usize = 0;
    while j < ids.len()
        invariant
            j <= ids@.len(),
            ids@.len() == ms0.len(),
            forall|k: int| 0 <= k < ms0.len() ==> ids@[k] == (#[trigger] ms0[k]).number,
            out.deep_view().len() == j,
            forall|k: int| 0 <= k < j ==> out.deep_view()[k].number == (#[trigger] ms0[k]).number,
        decreases ids.len() - j,
    {
        let ghost pre = repo.files();
        match reformat_dated(repo, cfg, ids[j], today.as_str()) {
            Ok(m) => {
                proof {
                    let (w1, w2, w3): (Seq<MetaView>, Seq<MetaView>, Seq<MetaView>) = choose|
                        w1: Seq<MetaView>,
                        w2: Seq<MetaView>,
                        w3: Seq<MetaView>,
                    |
                        reformat_post(
                            pre,
                            repo.files(),
                            *cfg,
                            ids@[j as int],
                            today@,
                            m@,
                            w1,
                            w2,
                            w3,
                        );
                    lemma_first_with_number(w1, ids@[j as int]);
                    let t = w1[first_with_number(w1, ids@[j as int])];
                    lemma_first_with_number(w3, t.number);
                    assert(m@.number == ids@[j as int]);
                }
                let ghost prev = out.deep_view();
                out.push(m);
                proof {
                    assert(out.deep_view() =~= prev.push(m@));
                }
            },
            Err(e) => {
                return Err(e);
            },
        }
        j = j + 1;
    }
    Ok(out)
}

} // verus!
