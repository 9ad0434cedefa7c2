//! The index renderer: a pure projection of the record list into the
//! generated listing document.

use vstd::prelude::*;

use crate::domain::{AdrMeta, MetaView};
use crate::text::{chars_of, fmt4, push_all, push_str_chars, spec_fmt4, string_of};

verus! {

/// Index of the last record with number `n`, or -1. The last one wins, so a
/// manually duplicated number resolves deterministically.
pub open spec fn last_with_number(ms: Seq<MetaView>, n: u32) -> int
    decreases ms.len(),
{
    if ms.len() == 0 {
        -1
    } else if ms.last().number == n {
        ms.len() - 1
    } else {
        last_with_number(ms.drop_last(), n)
    }
}

pub proof fn lemma_last_with_number(ms: Seq<MetaView>, n: u32)
    ensures
        last_with_number(ms, n) == -1 ==> forall|i: int|
            0 <= i < ms.len() ==> (#[trigger] ms[i]).number != n,
        last_with_number(ms, n) >= 0 ==> last_with_number(ms, n) < ms.len() && ms[last_with_number(
            ms,
            n,
        )].number == n,
    decreases ms.len(),
{
    if ms.len() > 0 && ms.last().number != n {
        lemma_last_with_number(ms.drop_last(), n);
        assert(forall|i: int| 0 <= i < ms.len() - 1 ==> ms.drop_last()[i] == ms[i]);
    }
}

/// The filename a supersession link should point at: the path of the last
/// record with that number, if the number still resolves.
pub open spec fn spec_link_name(ms: Seq<MetaView>, n: u32) -> Option<Seq<char>> {
    if last_with_number(ms, n) >= 0 {
        Some(ms[last_with_number(ms, n)].path)
    } else {
        None
    }
}

/// How a record's status is displayed in the index: its status text, unless
/// it is superseded, in which case the supersession is re-derived as a link
/// to the superseding record's current filename.
pub open spec fn spec_status_display(ms: Seq<MetaView>, m: MetaView) -> Seq<char> {
    match m.superseded_by {
        Some(n) => match spec_link_name(ms, n) {
            Some(t) => "Superseded by ["@ + spec_fmt4(n) + "]("@ + t + seq![')'],
            None => "Superseded by "@ + spec_fmt4(n),
        },
        None => m.status,
    }
}

/// One index line for a record.
pub open spec fn spec_index_line(ms: Seq<MetaView>, m: MetaView) -> Seq<char> {
    "- ["@ + spec_fmt4(m.number) + ": "@ + m.title + "]("@ + m.path + ") — Status: "@
        + spec_status_display(ms, m) + " — Date: "@ + m.date + seq!['\n']
}

/// The lines for the records from index `i` on.
pub open spec fn spec_index_body(ms: Seq<MetaView>, i: int) -> Seq<char>
    decreases ms.len() - i,
{
    if i < 0 || i >= ms.len() {
        Seq::<char>::empty()
    } else {
        spec_index_line(ms, ms[i]) + spec_index_body(ms, i + 1)
    }
}

/// The whole generated index document.
pub open spec fn spec_render_index(ms: Seq<MetaView>) -> Seq<char> {
    "# Architecture Decision Records\n\n"@ + spec_index_body(ms, 0) + seq!['\n']
}

/// The record list's current filename for number `n`, if it resolves.
pub fn link_name(metas: &Vec<AdrMeta>, n: u32) -> (r: Option<Vec<char>>)
    ensures
        match r {
            Some(t) => spec_link_name(metas.deep_view(), n) == Some(t@),
            None => spec_link_name(metas.deep_view(), n) is None,
        },
{
    let ghost ms = metas.deep_view();
    let mut found: Option<usize> = None;
    let mut i: usize = 0;
    proof {
        assert(ms.take(0) =~= Seq::<MetaView>::empty());
    }
    while i < metas.len()
        invariant
            i <= metas@.len(),
            ms == metas.deep_view(),
            ms.len() == metas@.len(),
            match found {
                Some(k) => k == last_with_number(ms.take(i as int), n),
                None => last_with_number(ms.take(i as int), n) == -1,
            },
        decreases metas.len() - i,
    {
        proof {
            assert(ms.take(i + 1).drop_last() =~= ms.take(i as int));
            assert(ms.take(i + 1).last() == ms[i as int]);
            assert(ms[i as int] == metas@[i as int]@);
        }
        if metas[i].number == n {
            found = Some(i);
        }
        i = i + 1;
    }
    proof {
        assert(ms.take(ms.len() as int) =~= ms);
    }
    match found {
        Some(k) => {
            proof {
                lemma_last_with_number(ms, n);
            }
            let p = chars_of(metas[k].path.as_str());
            proof {
                assert(ms[k as int] == metas@[k as int]@);
            }
            Some(p)
        },
        None => None,
    }
}

/// Render the whole index document for the given records, in their order.
#[verifier::rlimit(100)]
#[verifier::spinoff_prover]
pub fn render_index(metas: &Vec<AdrMeta>) -> (r: String)
    ensures
        r@ == spec_render_index(metas.deep_view()),
{
    let ghost ms = metas.deep_view();
    let mut out: Vec<char> = Vec::new();
    push_str_chars(&mut out, "# Architecture Decision Records\n\n");
    let mut i: usize = 0;
    proof {
        assert("# Architecture Decision Records\n\n"@ + spec_index_body(ms, 0) =~= out@
            + spec_index_body(ms, 0));
    }
    while i < metas.len()
        invariant
            i <= metas@.len(),
            ms == metas.deep_view(),
            ms.len() == metas@.len(),
            "# Architecture Decision Records\n\n"@ + spec_index_body(ms, 0) == out@
                + spec_index_body(ms, i as int),
        decreases metas.len() - i,
    {
        let ghost before = out@;
        let m = &metas[i];
        let ghost mv = ms[i as int];
        proof {
            assert(mv == metas@[i as int]@);
        }
        push_str_chars(&mut out, "- [");
        let digits = fmt4(m.number);
        push_all(&mut out, &digits);
        push_str_chars(&mut out, ": ");
        push_all(&mut out, &chars_of(m.title.as_str()));
        push_str_chars(&mut out, "](");
        push_all(&mut out, &chars_of(m.path.as_str()));
        push_str_chars(&mut out, ") — Status: ");
        match m.superseded_by {
            Some(n) => {
                match link_name(metas, n) {
                    Some(t) => {
                        push_str_chars(&mut out, "Superseded by [");
                        let d2 = fmt4(n);
                        push_all(&mut out, &d2);
                        push_str_chars(&mut out, "](");
                        push_all(&mut out, &t);
                        out.push(')');
                    },
                    None => {
                        push_str_chars(&mut out, "Superseded by ");
                        let d2 = fmt4(n);
                        push_all(&mut out, &d2);
                    },
                }
            },
            None => {
                push_all(&mut out, &chars_of(m.status.as_str()));
            },
        }
        push_str_chars(&mut out, " — Date: ");
        push_all(&mut out, &chars_of(m.date.as_str()));
        out.push('\n');
        proof {
            assert(out@ =~= before + spec_index_line(ms, mv));
            assert(out@ + spec_index_body(ms, i + 1) =~= before + spec_index_body(ms, i as int));
        }
        i = i + 1;
    }
    proof {
        assert(spec_index_body(ms, ms.len() as int) =~= Seq::<char>::empty());
        assert(out@ + Seq::<char>::empty() =~= out@);
    }
    out.push('\n');
    proof {
        assert(out@ =~= spec_render_index(ms));
    }
    string_of(&out)
}

} // verus!
