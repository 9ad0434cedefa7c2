//! Laws that hold across the operations, stated and proved over the same
//! spec functions the operations' contracts use.

use vstd::prelude::*;

use crate::actions::{
    create_post, first_with_number, has_number, lemma_first_with_number, links_pass, max_number,
    spec_resolve,
};
use crate::codec::{
    is_sb_line, is_status_line, last_sb_idx, last_status_idx, lemma_last_sb_idx,
    lemma_last_status_idx, sb_text, spec_rewrite_links, status_insert_at, sup_mapped,
    sup_status_text, supersede_lines,
};
use crate::domain::{spec_parse_number, MetaView};
use crate::index::{last_with_number, lemma_last_with_number, spec_status_display};
use crate::text::spec_fmt4;

verus! {

/// Numbers assigned by creation are strictly increasing: a created record's
/// number exceeds the number of every record the listing held, so any later
/// creation over a listing that includes this record assigns a greater
/// number still.
pub proof fn lemma_create_number_monotonic(
    files0: Map<Seq<char>, Seq<char>>,
    files1: Map<Seq<char>, Seq<char>>,
    cfg: crate::config::Config,
    title: Seq<char>,
    supersedes: Option<u32>,
    today: Seq<char>,
    m: MetaView,
    ms: Seq<MetaView>,
    content: Seq<char>,
)
    requires
        create_post(files0, files1, cfg, title, supersedes, today, m, ms, content),
    ensures
        forall|i: int| 0 <= i < ms.len() ==> (#[trigger] ms[i]).number < m.number,
{
    lemma_max_number_bounds(ms);
}

/// The greatest listed number bounds every listed number.
pub proof fn lemma_max_number_bounds(ms: Seq<MetaView>)
    ensures
        forall|i: int| 0 <= i < ms.len() ==> (#[trigger] ms[i]).number <= max_number(ms),
    decreases ms.len(),
{
    if ms.len() > 0 {
        lemma_max_number_bounds(ms.drop_last());
        assert(forall|i: int| 0 <= i < ms.len() - 1 ==> ms.drop_last()[i] == ms[i]);
    }
}

/// Lookup is insensitive to how the number is written: two identifier
/// strings that read as the same number resolve to the same record, the
/// first one carrying that number.
pub proof fn lemma_resolve_same_number(ms: Seq<MetaView>, q1: Seq<char>, q2: Seq<char>, n: u32)
    requires
        spec_parse_number(q1) == Some(n),
        spec_parse_number(q2) == Some(n),
        has_number(ms, n),
    ensures
        spec_resolve(ms, q1) == first_with_number(ms, n),
        spec_resolve(ms, q2) == first_with_number(ms, n),
        0 <= spec_resolve(ms, q1) < ms.len(),
        ms[spec_resolve(ms, q1)].number == n,
{
    lemma_first_with_number(ms, n);
}

/// Status and link stay in lockstep in the index: a record superseded by `b`
/// is displayed as a link to `b`'s current filename whenever some record
/// still carries number `b`, and as the bare zero-padded number otherwise.
pub proof fn lemma_index_link_lockstep(ms: Seq<MetaView>, m: MetaView, b: u32)
    requires
        m.superseded_by == Some(b),
    ensures
        has_number_last(ms, b) ==> spec_status_display(ms, m) == "Superseded by ["@ + spec_fmt4(b)
            + "]("@ + ms[last_with_number(ms, b)].path + seq![')'],
        !has_number_last(ms, b) ==> spec_status_display(ms, m) == "Superseded by "@ + spec_fmt4(b),
{
    lemma_last_with_number(ms, b);
}

/// Whether any listed record carries number `n`, by the last-match index the
/// index renderer resolves links with.
pub open spec fn has_number_last(ms: Seq<MetaView>, n: u32) -> bool {
    last_with_number(ms, n) >= 0
}

/// The cross-file repair pass touches exactly the inbound links: every other
/// record's text becomes its old text with supersedes links to `id`
/// retargeted at `newname` (so a record with no such link keeps its text
/// byte for byte), the reformatted record's own file is left alone by the
/// pass, and every key outside the listing is untouched.
pub proof fn lemma_links_pass_per_file(
    files: Map<Seq<char>, Seq<char>>,
    ms: Seq<MetaView>,
    k: int,
    id: u32,
    newname: Seq<char>,
)
    requires
        0 <= k <= ms.len(),
        forall|a: int, b: int| 0 <= a < b < ms.len() ==> ms[a].path != ms[b].path,
        forall|a: int| k <= a < ms.len() ==> files.dom().contains((#[trigger] ms[a]).path),
    ensures
        links_pass(files, ms, k, id, newname).dom() == files.dom(),
        forall|a: int|
            k <= a < ms.len() && (#[trigger] ms[a]).number != id ==> links_pass(
                files,
                ms,
                k,
                id,
                newname,
            )[ms[a].path] == spec_rewrite_links(files[ms[a].path], id, newname),
        forall|p: Seq<char>|
            files.dom().contains(p) && (forall|a: int|
                k <= a < ms.len() ==> (#[trigger] ms[a]).path != p) ==> links_pass(
                files,
                ms,
                k,
                id,
                newname,
            )[p] == files[p],
    decreases ms.len() - k,
{
    let lp = links_pass(files, ms, k, id, newname);
    if k == ms.len() {
        assert(lp.dom() =~= files.dom());
    } else {
        let f2 = if ms[k].number != id {
            files.insert(ms[k].path, spec_rewrite_links(files[ms[k].path], id, newname))
        } else {
            files
        };
        assert(f2.dom() =~= files.dom());
        lemma_links_pass_per_file(f2, ms, k + 1, id, newname);
        assert forall|a: int|
            k <= a < ms.len() && (#[trigger] ms[a]).number != id implies lp[ms[a].path]
            == spec_rewrite_links(files[ms[a].path], id, newname) by {
            if a == k {
                assert(forall|x: int| k + 1 <= x < ms.len() ==> (#[trigger] ms[x]).path != ms[
                    k
                ].path);
                assert(lp[ms[k].path] == f2[ms[k].path]);
            } else {
                assert(ms[a].path != ms[k].path);
                assert(f2[ms[a].path] == files[ms[a].path]);
            }
        }
        assert forall|p: Seq<char>|
            files.dom().contains(p) && (forall|a: int|
                k <= a < ms.len() ==> (#[trigger] ms[a]).path != p) implies lp[p] == files[p] by {
            assert(ms[k].path != p);
            assert(f2[p] == files[p]);
        }
    }
}

/// The adjacency half of the status/link lockstep: after the supersession
/// surgery, some line carries the status text naming `n`'s zero-padded
/// number, and the `Superseded-by` link naming `n` sits on the very next
/// line.
#[verifier::rlimit(100)]
#[verifier::spinoff_prover]
pub proof fn lemma_supersede_adjacency(ls: Seq<Seq<char>>, n: u32, fm: bool)
    ensures
        exists|k: int|
            0 <= k && k + 1 < supersede_lines(ls, n, fm).len() && #[trigger] supersede_lines(
                ls,
                n,
                fm,
            )[k] == sup_status_text(n) && supersede_lines(ls, n, fm)[k + 1] == sb_text(n),
{
    reveal_strlit("Status:");
    reveal_strlit("Status: Superseded by ");
    reveal_strlit("Superseded-by:");
    reveal_strlit("Superseded-by: ");
    let st_line = sup_status_text(n);
    let sb_line = sb_text(n);
    assert(is_status_line(st_line)) by {
        assert(st_line.subrange(0, 7) =~= "Status:"@);
    }
    assert(!is_sb_line(st_line)) by {
        if is_sb_line(st_line) {
            assert(st_line.subrange(0, 14)[2] == st_line[2]);
            assert(st_line[2] == 'a');
            assert("Superseded-by:"@[2] == 'p');
        }
    }
    assert(is_sb_line(sb_line)) by {
        assert(sb_line.subrange(0, 14) =~= "Superseded-by:"@);
    }
    assert(!is_status_line(sb_line)) by {
        if is_status_line(sb_line) {
            assert(sb_line.subrange(0, 7)[1] == sb_line[1]);
            assert(sb_line[1] == 'u');
            assert("Status:"@[1] == 't');
        }
    }

    let m = sup_mapped(ls, n);
    assert forall|i: int| 0 <= i < m.len() && is_status_line(#[trigger] m[i]) implies m[i]
        == st_line by {
        if !is_status_line(ls[i]) && is_sb_line(ls[i]) {
            assert(m[i] == sb_line);
        }
    }
    assert forall|i: int| 0 <= i < m.len() && is_sb_line(#[trigger] m[i]) implies m[i]
        == sb_line by {
        if is_status_line(ls[i]) {
            assert(m[i] == st_line);
        }
    }

    let base = status_insert_at(ls, fm);
    assert(0 <= base <= m.len());
    lemma_last_status_idx(m);
    let m2 = if last_status_idx(m) >= 0 {
        m
    } else {
        m.insert(base, st_line)
    };
    if last_status_idx(m) < 0 {
        m.insert_ensures(base, st_line);
    }
    assert forall|i: int| 0 <= i < m2.len() && is_status_line(#[trigger] m2[i]) implies m2[i]
        == st_line by {
        if last_status_idx(m) < 0 {
            if i < base {
                assert(m2[i] == m[i]);
            } else if i > base {
                assert(m2[i] == m[i - 1]);
            }
        }
    }
    assert forall|i: int| 0 <= i < m2.len() && is_sb_line(#[trigger] m2[i]) implies m2[i]
        == sb_line by {
        if last_status_idx(m) < 0 {
            if i < base {
                assert(m2[i] == m[i]);
            } else if i > base {
                assert(m2[i] == m[i - 1]);
            }
        }
    }
    lemma_last_status_idx(m2);
    lemma_last_sb_idx(m2);
    let s_idx = last_status_idx(m2);
    assert(s_idx >= 0) by {
        if last_status_idx(m) < 0 {
            assert(is_status_line(m2[base]));
        }
    }
    assert(m2[s_idx] == st_line);
    let sb_idx = last_sb_idx(m2);
    let desired = s_idx + 1;
    let r = supersede_lines(ls, n, fm);
    if sb_idx == -1 {
        m2.insert_ensures(desired, sb_line);
        assert(r == m2.insert(desired, sb_line));
        assert(r[s_idx] == m2[s_idx]);
        assert(r[s_idx + 1] == sb_line);
        assert(0 <= s_idx && s_idx + 1 < r.len());
    } else if sb_idx == desired {
        assert(r == m2);
        assert(is_sb_line(m2[sb_idx]));
        assert(r[s_idx + 1] == sb_line);
        assert(0 <= s_idx && s_idx + 1 < r.len());
    } else {
        assert(is_sb_line(m2[sb_idx]));
        assert(m2[sb_idx] == sb_line);
        assert(sb_idx != s_idx);
        let removed = m2.remove(sb_idx);
        m2.remove_ensures(sb_idx);
        if sb_idx < desired {
            assert(sb_idx < s_idx);
            assert(removed[s_idx - 1] == m2[s_idx]);
            removed.insert_ensures(desired - 1, sb_line);
            assert(r == removed.insert(desired - 1, sb_line));
            assert(r[s_idx - 1] == removed[s_idx - 1]);
            assert(r[s_idx] == sb_line);
            assert(0 <= s_idx - 1 && s_idx < r.len());
        } else {
            assert(removed[s_idx] == m2[s_idx]);
            removed.insert_ensures(desired, sb_line);
            assert(r == removed.insert(desired, sb_line));
            assert(r[s_idx] == removed[s_idx]);
            assert(r[s_idx + 1] == sb_line);
            assert(0 <= s_idx && s_idx + 1 < r.len());
        }
    }
}

} // verus!
