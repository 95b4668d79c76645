//! The fix pipeline: pure, idempotent document transformations.

use crate::makefile::{Makefile, Section};
use crate::model::SectionModel;
use vstd::prelude::*;

verus! {

/// Whether a section is a blank line.
pub open spec fn is_blank_section(s: SectionModel) -> bool {
    s is EmptyLine
}

/// Collapsing runs of blank lines to a single one, carrying whether the
/// previously kept section was blank.
pub open spec fn collapse_from(d: Seq<SectionModel>, prev_blank: bool) -> Seq<SectionModel>
    decreases d.len(),
{
    if d.len() == 0 {
        Seq::empty()
    } else if is_blank_section(d[0]) && prev_blank {
        collapse_from(d.skip(1), true)
    } else {
        seq![d[0]] + collapse_from(d.skip(1), is_blank_section(d[0]))
    }
}

/// What the blank-line fix computes: every run of two or more consecutive
/// blank lines reduced to exactly one.
pub open spec fn collapse_blanks(d: Seq<SectionModel>) -> Seq<SectionModel> {
    collapse_from(d, false)
}

/// No two consecutive sections are both blank lines.
pub open spec fn no_adjacent_blanks(d: Seq<SectionModel>) -> bool {
    forall|i: int|
        0 <= i < d.len() - 1 ==> !(#[trigger] is_blank_section(d[i]) && is_blank_section(d[i + 1]))
}

/// A run of `n` blank-line sections.
pub open spec fn blank_run(n: int) -> Seq<SectionModel> {
    Seq::new(n as nat, |i: int| SectionModel::EmptyLine)
}

/// Law: after collapsing, no run of two or more blank lines remains; and
/// with a blank just kept, the result does not begin with another one.
pub proof fn lemma_collapse_no_adjacent(d: Seq<SectionModel>, prev_blank: bool)
    ensures
        no_adjacent_blanks(collapse_from(d, prev_blank)),
        prev_blank ==> (collapse_from(d, prev_blank).len() == 0 || !is_blank_section(
            collapse_from(d, prev_blank)[0],
        )),
    decreases d.len(),
{
    if d.len() == 0 {
    } else if is_blank_section(d[0]) && prev_blank {
        lemma_collapse_no_adjacent(d.skip(1), true);
    } else {
        lemma_collapse_no_adjacent(d.skip(1), is_blank_section(d[0]));
        let inner = collapse_from(d.skip(1), is_blank_section(d[0]));
        let res = seq![d[0]] + inner;
        assert forall|i: int|
            0 <= i < res.len() - 1 implies !(#[trigger] is_blank_section(res[i])
            && is_blank_section(res[i + 1])) by {
            if i == 0 {
                assert(res[0] == d[0]);
                if is_blank_section(d[0]) {
                    assert(res[1] == inner[0]);
                    assert(!is_blank_section(inner[0]));
                }
            } else {
                assert(res[i] == inner[i - 1]);
                assert(res[i + 1] == inner[i]);
            }
        }
    }
}

/// Law: a document with no adjacent blank lines is left unchanged; runs of
/// zero or one blank line are not touched.
pub proof fn lemma_collapse_fixed(d: Seq<SectionModel>, prev_blank: bool)
    requires
        no_adjacent_blanks(d),
        prev_blank ==> (d.len() == 0 || !is_blank_section(d[0])),
    ensures
        collapse_from(d, prev_blank) == d,
    decreases d.len(),
{
    if d.len() == 0 {
        assert(collapse_from(d, prev_blank) =~= d);
    } else {
        assert(forall|i: int| 0 <= i < d.skip(1).len() ==> d.skip(1)[i] == d[i + 1]);
        lemma_collapse_fixed(d.skip(1), is_blank_section(d[0]));
        assert(seq![d[0]] + d.skip(1) =~= d);
    }
}

/// Law: the blank-line fix is idempotent — collapsing twice is collapsing
/// once.
pub proof fn lemma_collapse_idempotent(d: Seq<SectionModel>)
    ensures
        collapse_blanks(collapse_blanks(d)) == collapse_blanks(d),
{
    lemma_collapse_no_adjacent(d, false);
    lemma_collapse_fixed(collapse_blanks(d), false);
}

proof fn lemma_collapse_drop_run(m: int, rest: Seq<SectionModel>)
    requires
        m >= 0,
    ensures
        collapse_from(blank_run(m) + rest, true) == collapse_from(rest, true),
    decreases m,
{
    if m == 0 {
        assert(blank_run(0) + rest =~= rest);
    } else {
        let t = blank_run(m) + rest;
        assert(t[0] == SectionModel::EmptyLine);
        assert(t.skip(1) =~= blank_run(m - 1) + rest);
        lemma_collapse_drop_run(m - 1, rest);
    }
}

proof fn lemma_blank_run_collapses_from(
    a: Seq<SectionModel>,
    n: int,
    b: Seq<SectionModel>,
    prev_blank: bool,
)
    requires
        n >= 1,
    ensures
        collapse_from(a + blank_run(n) + b, prev_blank) == collapse_from(
            a + blank_run(1) + b,
            prev_blank,
        ),
    decreases a.len(),
{
    if a.len() == 0 {
        let t = a + blank_run(n) + b;
        let t1 = a + blank_run(1) + b;
        assert(t[0] == SectionModel::EmptyLine);
        assert(t1[0] == SectionModel::EmptyLine);
        assert(t.skip(1) =~= blank_run(n - 1) + b);
        assert(t1.skip(1) =~= blank_run(0) + b);
        lemma_collapse_drop_run(n - 1, b);
        lemma_collapse_drop_run(0, b);
    } else {
        let t = a + blank_run(n) + b;
        let t1 = a + blank_run(1) + b;
        assert(t[0] == a[0]);
        assert(t1[0] == a[0]);
        assert(t.skip(1) =~= a.skip(1) + blank_run(n) + b);
        assert(t1.skip(1) =~= a.skip(1) + blank_run(1) + b);
        lemma_blank_run_collapses_from(a.skip(1), n, b, is_blank_section(a[0]));
    }
}

/// Law: a run of `n >= 1` consecutive blank lines collapses exactly as a
/// run of one does, whatever stands around it; with
/// `lemma_collapse_fixed`, a run of two or more becomes exactly one.
pub proof fn lemma_blank_run_collapses(a: Seq<SectionModel>, n: int, b: Seq<SectionModel>)
    requires
        n >= 1,
    ensures
        collapse_blanks(a + blank_run(n) + b) == collapse_blanks(a + blank_run(1) + b),
{
    lemma_blank_run_collapses_from(a, n, b, false);
}

/// Reduces every run of two or more consecutive empty lines in the given
/// Makefile to a single empty line.
pub fn double_empty_lines(makefile: Makefile) -> (r: Makefile)
    ensures
        r@ == collapse_blanks(makefile@),
{
    let ghost doc = makefile@;
    let mut remaining = makefile.sections;
    let mut out: Vec<Section> = Vec::new();
    let mut prev_blank = false;
    proof {
        assert(out.deep_view() =~= Seq::<SectionModel>::empty());
        assert(out.deep_view() + collapse_from(remaining.deep_view(), false) =~= collapse_from(
            doc,
            false,
        ));
    }
    while remaining.len() > 0
        invariant
            collapse_from(doc, false) == out.deep_view() + collapse_from(
                remaining.deep_view(),
                prev_blank,
            ),
        decreases remaining.len(),
    {
        let ghost dv = remaining.deep_view();
        let ghost out_old = out.deep_view();
        let s = remaining.remove(0);
        proof {
            assert(s.deep_view() == dv[0]);
            assert(remaining.deep_view() =~= dv.skip(1));
        }
        let blank = match &s {
            Section::EmptyLine => true,
            _ => false,
        };
        if blank && prev_blank {
        } else {
            out.push(s);
            proof {
                assert(out.deep_view() =~= out_old.push(dv[0]));
                assert(out_old + (seq![dv[0]] + collapse_from(dv.skip(1), is_blank_section(dv[0])))
                    =~= out_old.push(dv[0]) + collapse_from(dv.skip(1), is_blank_section(dv[0])));
            }
        }
        prev_blank = blank;
    }
    proof {
        assert(remaining.deep_view() =~= Seq::<SectionModel>::empty());
        assert(collapse_from(Seq::<SectionModel>::empty(), prev_blank)
            == Seq::<SectionModel>::empty());
        assert(out.deep_view() + Seq::<SectionModel>::empty() =~= out.deep_view());
    }
    Makefile { sections: out }
}

} // verus!
