use vstd::prelude::*;

use crate::diag::{all_proper, non_overlapping, views_of, Diag, LintError};

verus! {

/// Sort order of the resolver: earlier start first; on equal starts the
/// shorter span first. Emission order breaks the remaining ties, which the
/// stable insertion below preserves.
pub open spec fn key_le(a: Diag, b: Diag) -> bool {
    a.start < b.start || (a.start == b.start && a.span_len() <= b.span_len())
}

/// Insert `x` behind every element whose key is less than or equal to its
/// own, so that on equal keys the element emitted earlier stays in front.
pub open spec fn insert_sorted(t: Seq<Diag>, x: Diag) -> Seq<Diag>
    decreases t.len(),
{
    if t.len() == 0 {
        seq![x]
    } else if key_le(t[0], x) {
        seq![t[0]] + insert_sorted(t.drop_first(), x)
    } else {
        seq![x] + t
    }
}

/// Stable sort of the diagnostics by (start, length): the order the sweep
/// below consumes.
pub open spec fn sort_spec(s: Seq<Diag>) -> Seq<Diag>
    decreases s.len(),
{
    if s.len() == 0 {
        Seq::<Diag>::empty()
    } else {
        insert_sorted(sort_spec(s.drop_last()), s.last())
    }
}

/// Greedy left-to-right sweep: accept a diagnostic when its span starts at
/// or after the end of the last accepted one (`bound`), drop it otherwise.
/// A zero-length accepted span never blocks a later span that starts where
/// it ends.
pub open spec fn sweep_from(s: Seq<Diag>, bound: int) -> Seq<Diag>
    decreases s.len(),
{
    if s.len() == 0 {
        Seq::<Diag>::empty()
    } else if s[0].start as int >= bound {
        seq![s[0]] + sweep_from(s.drop_first(), s[0].end as int)
    } else {
        sweep_from(s.drop_first(), bound)
    }
}

/// The whole conflict-resolution policy: sort by (start, length, emission
/// order), then keep the earliest non-conflicting spans.
pub open spec fn resolve_spec(raw: Seq<Diag>) -> Seq<Diag> {
    sweep_from(sort_spec(raw), -1)
}

/// Exec mirror of `key_le`.
fn key_le_exec(a: &LintError, b: &LintError) -> (r: bool)
    requires
        a@.proper(),
        b@.proper(),
    ensures
        r == key_le(a@, b@),
{
    a.start < b.start || (a.start == b.start && a.end - a.start <= b.end - b.start)
}

/// Inserting at the first position whose element's key exceeds `x`'s is
/// exactly what `insert_sorted` does.
proof fn lemma_insert_sorted_at(t: Seq<Diag>, x: Diag, pos: int)
    requires
        0 <= pos <= t.len(),
        forall|j: int| 0 <= j < pos ==> key_le(#[trigger] t[j], x),
        pos < t.len() ==> !key_le(t[pos], x),
    ensures
        insert_sorted(t, x) == t.insert(pos, x),
    decreases pos,
{
    if pos == 0 {
        if t.len() == 0 {
            assert(insert_sorted(t, x) =~= t.insert(0, x));
        } else {
            assert(insert_sorted(t, x) =~= t.insert(0, x));
        }
    } else {
        assert(key_le(t[0], x));
        lemma_insert_sorted_at(t.drop_first(), x, pos - 1);
        assert(seq![t[0]] + t.drop_first().insert(pos - 1, x) =~= t.insert(pos, x));
    }
}

/// Every element of `insert_sorted(t, x)` is `x` or an element of `t`, and
/// the length grows by one.
proof fn lemma_insert_sorted_elems(t: Seq<Diag>, x: Diag)
    ensures
        insert_sorted(t, x).len() == t.len() + 1,
        forall|k: int|
            0 <= k < insert_sorted(t, x).len() ==> (#[trigger] insert_sorted(t, x)[k] == x
                || t.contains(insert_sorted(t, x)[k])),
    decreases t.len(),
{
    if t.len() == 0 {
    } else if key_le(t[0], x) {
        lemma_insert_sorted_elems(t.drop_first(), x);
        assert forall|k: int| 0 <= k < insert_sorted(t, x).len() implies (
        #[trigger] insert_sorted(t, x)[k] == x || t.contains(insert_sorted(t, x)[k])) by {
            if k == 0 {
                assert(t.contains(t[0]));
            } else {
                let e = insert_sorted(t, x)[k];
                assert(e == insert_sorted(t.drop_first(), x)[k - 1]);
                if e != x {
                    let m = choose|m: int|
                        0 <= m < t.drop_first().len() && t.drop_first()[m] == e;
                    assert(t[m + 1] == e);
                    assert(t.contains(e));
                }
            }
        }
    } else {
        assert forall|k: int| 0 <= k < insert_sorted(t, x).len() implies (
        #[trigger] insert_sorted(t, x)[k] == x || t.contains(insert_sorted(t, x)[k])) by {
            if k > 0 {
                assert(t.contains(t[k - 1]));
            }
        }
    }
}

/// Sorting keeps lengths and draws every element from the input.
proof fn lemma_sort_elems(s: Seq<Diag>)
    ensures
        sort_spec(s).len() == s.len(),
        forall|k: int| 0 <= k < sort_spec(s).len() ==> s.contains(#[trigger] sort_spec(s)[k]),
    decreases s.len(),
{
    if s.len() > 0 {
        lemma_sort_elems(s.drop_last());
        lemma_insert_sorted_elems(sort_spec(s.drop_last()), s.last());
        assert forall|k: int| 0 <= k < sort_spec(s).len() implies s.contains(
            #[trigger] sort_spec(s)[k],
        ) by {
            let e = sort_spec(s)[k];
            if e == s.last() {
                assert(s[s.len() - 1] == e);
            } else {
                assert(sort_spec(s.drop_last()).contains(e));
                let m = choose|m: int|
                    0 <= m < sort_spec(s.drop_last()).len() && sort_spec(s.drop_last())[m] == e;
                assert(s.drop_last().contains(e));
                let n = choose|n: int| 0 <= n < s.drop_last().len() && s.drop_last()[n] == e;
                assert(s[n] == e);
            }
        }
    }
}

/// Sorting preserves properness of all spans.
proof fn lemma_sort_proper(s: Seq<Diag>)
    requires
        all_proper(s),
    ensures
        all_proper(sort_spec(s)),
        sort_spec(s).len() == s.len(),
{
    lemma_sort_elems(s);
    assert forall|k: int| 0 <= k < sort_spec(s).len() implies (#[trigger] sort_spec(s)[k]).proper()
        by {
        let e = sort_spec(s)[k];
        assert(s.contains(e));
        let m = choose|m: int| 0 <= m < s.len() && s[m] == e;
        assert(s[m].proper());
    }
}

/// Law (non-overlap): whatever proper spans go in, the spans the sweep
/// keeps never intersect, and all start at or after the sweep's bound.
pub proof fn lemma_sweep_non_overlapping(s: Seq<Diag>, bound: int)
    requires
        all_proper(s),
    ensures
        non_overlapping(sweep_from(s, bound)),
        all_proper(sweep_from(s, bound)),
        forall|k: int|
            0 <= k < sweep_from(s, bound).len() ==> (#[trigger] sweep_from(s, bound)[k]).start
                as int >= bound,
    decreases s.len(),
{
    if s.len() == 0 {
    } else {
        assert(all_proper(s.drop_first())) by {
            assert forall|i: int| 0 <= i < s.drop_first().len() implies (
            #[trigger] s.drop_first()[i]).proper() by {
                assert(s[i + 1].proper());
            }
        }
        if s[0].start as int >= bound {
            let rec = sweep_from(s.drop_first(), s[0].end as int);
            lemma_sweep_non_overlapping(s.drop_first(), s[0].end as int);
            let out = sweep_from(s, bound);
            assert(s[0].proper());
            assert forall|i: int, j: int| #![trigger out[i], out[j]] 0 <= i < j < out.len() implies
                out[i].end <= out[j].start by {
                if i == 0 {
                    assert(out[j] == rec[j - 1]);
                    assert(rec[j - 1].start as int >= s[0].end as int);
                } else {
                    assert(out[i] == rec[i - 1]);
                    assert(out[j] == rec[j - 1]);
                }
            }
            assert forall|k: int| 0 <= k < out.len() implies (#[trigger] out[k]).start as int
                >= bound by {
                if k > 0 {
                    assert(out[k] == rec[k - 1]);
                    assert(rec[k - 1].start as int >= s[0].end as int);
                    assert(s[0].end as int >= s[0].start as int);
                }
            }
            assert forall|k: int| 0 <= k < out.len() implies (#[trigger] out[k]).proper() by {
                if k > 0 {
                    assert(out[k] == rec[k - 1]);
                }
            }
        } else {
            lemma_sweep_non_overlapping(s.drop_first(), bound);
        }
    }
}

/// The sweep never keeps more diagnostics than it was given.
pub proof fn lemma_sweep_len(s: Seq<Diag>, bound: int)
    ensures
        sweep_from(s, bound).len() <= s.len(),
    decreases s.len(),
{
    if s.len() > 0 {
        if s[0].start as int >= bound {
            lemma_sweep_len(s.drop_first(), s[0].end as int);
        } else {
            lemma_sweep_len(s.drop_first(), bound);
        }
    }
}

/// Resolution only ever drops diagnostics: the output is never longer
/// than the raw input.
pub proof fn lemma_resolve_len(raw: Seq<Diag>)
    ensures
        resolve_spec(raw).len() <= raw.len(),
{
    lemma_sort_len(raw);
    lemma_sweep_len(sort_spec(raw), -1);
}

/// Sorting keeps the length.
pub proof fn lemma_sort_len(s: Seq<Diag>)
    ensures
        sort_spec(s).len() == s.len(),
    decreases s.len(),
{
    if s.len() > 0 {
        lemma_sort_len(s.drop_last());
        lemma_insert_sorted_elems(sort_spec(s.drop_last()), s.last());
    }
}

/// Law (non-overlap, end to end): the resolved output of any proper raw
/// diagnostic set has pairwise disjoint spans.
pub proof fn lemma_resolve_non_overlapping(raw: Seq<Diag>)
    requires
        all_proper(raw),
    ensures
        non_overlapping(resolve_spec(raw)),
        all_proper(resolve_spec(raw)),
{
    lemma_sort_proper(raw);
    lemma_sweep_non_overlapping(sort_spec(raw), -1);
}

/// Find the insertion position for `x` in the already-sorted prefix.
fn find_pos(out: &Vec<LintError>, x: &LintError) -> (pos: usize)
    requires
        x@.proper(),
        all_proper(views_of(out@)),
    ensures
        pos <= out@.len(),
        forall|j: int| 0 <= j < pos ==> key_le(#[trigger] views_of(out@)[j], x@),
        pos < out@.len() ==> !key_le(views_of(out@)[pos as int], x@),
{
    let mut pos: usize = 0;
    while pos < out.len()
        invariant
            pos <= out@.len(),
            x@.proper(),
            all_proper(views_of(out@)),
            forall|j: int| 0 <= j < pos ==> key_le(#[trigger] views_of(out@)[j], x@),
        decreases out@.len() - pos,
    {
        assert(views_of(out@)[pos as int] == out@[pos as int]@);
        if !key_le_exec(&out[pos], x) {
            return pos;
        }
        pos += 1;
    }
    pos
}

/// Stable insertion sort by (start, length), preserving emission order on
/// ties.
fn sort_diags(input: Vec<LintError>) -> (out: Vec<LintError>)
    requires
        all_proper(views_of(input@)),
    ensures
        views_of(out@) == sort_spec(views_of(input@)),
{
    let ghost full_e = input@;
    let ghost full = views_of(input@);
    let mut out: Vec<LintError> = Vec::new();
    let mut rest = input;
    proof {
        assert(rest@ =~= full_e.skip(0));
        assert(views_of(out@) =~= sort_spec(full.take(0)));
    }
    while rest.len() > 0
        invariant
            rest@.len() <= full_e.len(),
            full == views_of(full_e),
            rest@ == full_e.skip(full_e.len() - rest@.len()),
            views_of(out@) == sort_spec(full.take(full_e.len() - rest@.len())),
            all_proper(full),
            all_proper(views_of(out@)),
        decreases rest.len(),
    {
        let ghost done = full_e.len() - rest@.len();
        let x = rest.remove(0);
        proof {
            assert(rest@ =~= full_e.skip(done + 1));
            assert(x == full_e[done]);
            assert(x@ == full[done]);
            assert(x@.proper());
        }
        let pos = find_pos(&out, &x);
        let ghost before = views_of(out@);
        let ghost out_old = out@;
        out.insert(pos, x);
        proof {
            assert(views_of(out@) =~= before.insert(pos as int, x@)) by {
                assert(out@ == out_old.insert(pos as int, x));
                assert(views_of(out@).len() == before.insert(pos as int, x@).len());
                assert forall|k: int| 0 <= k < views_of(out@).len() implies views_of(out@)[k]
                    == before.insert(pos as int, x@)[k] by {
                    assert(views_of(out@)[k] == out@[k]@);
                    if k < pos {
                        assert(out@[k] == out_old[k]);
                        assert(before[k] == out_old[k]@);
                    } else if k == pos {
                        assert(out@[k] == x);
                    } else {
                        assert(out@[k] == out_old[k - 1]);
                        assert(before[k - 1] == out_old[k - 1]@);
                    }
                }
            }
            lemma_insert_sorted_at(before, x@, pos as int);
            assert(full.take(done + 1).drop_last() =~= full.take(done));
            assert(full.take(done + 1).last() == full[done]);
            assert(views_of(out@) == sort_spec(full.take(done + 1)));
            assert(all_proper(full.take(done + 1))) by {
                assert forall|k: int| 0 <= k < full.take(done + 1).len() implies (
                #[trigger] full.take(done + 1)[k]).proper() by {
                    assert(full.take(done + 1)[k] == full[k]);
                }
            }
            lemma_sort_proper(full.take(done + 1));
        }
    }
    proof {
        assert(full.take(full_e.len() as int) =~= full);
    }
    out
}

/// The greedy sweep over the sorted diagnostics.
fn sweep_diags(input: Vec<LintError>) -> (out: Vec<LintError>)
    ensures
        views_of(out@) == sweep_from(views_of(input@), -1),
{
    let ghost full_e = input@;
    let ghost full = views_of(input@);
    let mut out: Vec<LintError> = Vec::new();
    let mut rest = input;
    let mut bound: usize = 0;
    let ghost mut bound_g: int = -1;
    proof {
        assert(rest@ =~= full_e.skip(0));
        assert(views_of(out@) + sweep_from(views_of(rest@), -1) =~= sweep_from(full, -1));
    }
    while rest.len() > 0
        invariant
            rest@.len() <= full_e.len(),
            full == views_of(full_e),
            rest@ == full_e.skip(full_e.len() - rest@.len()),
            out@.len() == 0 ==> bound_g == -1,
            out@.len() > 0 ==> bound_g == bound as int,
            views_of(out@) + sweep_from(views_of(rest@), bound_g) == sweep_from(full, -1),
        decreases rest.len(),
    {
        let ghost done = full_e.len() - rest@.len();
        let ghost rest_old = rest@;
        let ghost rest_views = views_of(rest@);
        let x = rest.remove(0);
        proof {
            assert(rest@ =~= full_e.skip(done + 1));
            assert(x == full_e[done]);
            assert(x@ == full[done]);
            assert(rest_views[0] == x@);
            assert(rest_views.drop_first() =~= views_of(rest@)) by {
                assert(rest_views.drop_first().len() == views_of(rest@).len());
                assert forall|k: int| 0 <= k < views_of(rest@).len() implies rest_views.drop_first(
                )[k] == views_of(rest@)[k] by {
                    assert(rest_views[k + 1] == rest_old[k + 1]@);
                    assert(rest@[k] == rest_old[k + 1]);
                    assert(views_of(rest@)[k] == rest@[k]@);
                }
            }
        }
        if out.len() == 0 || x.start >= bound {
            proof {
                assert(x@.start as int >= bound_g);
                assert(sweep_from(rest_views, bound_g) == seq![x@] + sweep_from(
                    views_of(rest@),
                    x@.end as int,
                ));
            }
            let ghost out_before = views_of(out@);
            bound = x.end;
            proof {
                bound_g = x@.end as int;
            }
            out.push(x);
            proof {
                assert(views_of(out@) =~= out_before.push(full[done]));
                assert(views_of(out@) + sweep_from(views_of(rest@), bound_g) =~= out_before + (
                seq![full[done]] + sweep_from(views_of(rest@), bound_g)));
            }
        } else {
            proof {
                assert((x@.start as int) < bound_g);
                assert(sweep_from(rest_views, bound_g) == sweep_from(views_of(rest@), bound_g));
            }
        }
    }
    proof {
        assert(views_of(rest@).len() == 0);
        assert(views_of(rest@) =~= Seq::<Diag>::empty());
        assert(sweep_from(views_of(rest@), bound_g) =~= Seq::<Diag>::empty());
        assert(views_of(out@) =~= views_of(out@) + Seq::<Diag>::empty());
    }
    out
}

/// Collapse a raw union of rule diagnostics into the final ordered,
/// non-overlapping sequence: sort by (start, length, emission order), then
/// greedily keep the earliest non-conflicting spans.
pub fn resolve_overlaps(raw: Vec<LintError>) -> (out: Vec<LintError>)
    requires
        all_proper(views_of(raw@)),
    ensures
        views_of(out@) == resolve_spec(views_of(raw@)),
        non_overlapping(views_of(out@)),
{
    proof {
        lemma_resolve_non_overlapping(views_of(raw@));
    }
    let sorted = sort_diags(raw);
    sweep_diags(sorted)
}

} // verus!
