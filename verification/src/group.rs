use vstd::prelude::*;

use crate::diag::{views_of, Diag, LintError};

verus! {

/// The per-rule outputs as diagnostic values, in rule registration order.
pub open spec fn outputs_views(outputs: Seq<Vec<LintError>>) -> Seq<Seq<Diag>> {
    outputs.map_values(|v: Vec<LintError>| views_of(v@))
}

/// Aggregation step of the lint group: concatenate every rule's output in
/// rule registration order, the first registered rule's diagnostics first.
/// Rules are mutually independent, so this is the only cross-rule step;
/// duplicates are left for the overlap resolver.
pub fn concat_outputs(outputs: Vec<Vec<LintError>>) -> (flat: Vec<LintError>)
    ensures
        views_of(flat@) == outputs_views(outputs@).flatten(),
{
    let ghost full_e = outputs@;
    let ghost full = outputs_views(outputs@);
    let mut flat: Vec<LintError> = Vec::new();
    let mut rest = outputs;
    proof {
        assert(rest@ =~= full_e.skip(0));
        assert(views_of(flat@) + outputs_views(rest@).flatten() =~= full.flatten());
    }
    while rest.len() > 0
        invariant
            rest@.len() <= full_e.len(),
            full == outputs_views(full_e),
            rest@ == full_e.skip(full_e.len() - rest@.len()),
            views_of(flat@) + outputs_views(rest@).flatten() == full.flatten(),
        decreases rest.len(),
    {
        let ghost done = full_e.len() - rest@.len();
        let ghost rest_old = rest@;
        let ghost rest_views = outputs_views(rest@);
        let mut v = rest.remove(0);
        proof {
            assert(rest@ =~= full_e.skip(done + 1));
            assert(v == full_e[done]);
            assert(rest_views[0] == views_of(v@));
            assert(rest_views.drop_first() =~= outputs_views(rest@)) by {
                assert(rest_views.drop_first().len() == outputs_views(rest@).len());
                assert forall|k: int| 0 <= k < outputs_views(rest@).len() implies rest_views
                    .drop_first()[k] == outputs_views(rest@)[k] by {
                    assert(rest_views[k + 1] == views_of(rest_old[k + 1]@));
                    assert(rest@[k] == rest_old[k + 1]);
                    assert(outputs_views(rest@)[k] == views_of(rest@[k]@));
                }
            }
            assert(rest_views.flatten() == views_of(v@) + outputs_views(rest@).flatten());
        }
        let ghost flat_before = flat@;
        let ghost v_snap = v@;
        flat.append(&mut v);
        proof {
            assert(flat@ == flat_before + v_snap);
            assert(views_of(flat@) =~= views_of(flat_before) + views_of(v_snap)) by {
                assert(views_of(flat@).len() == views_of(flat_before).len() + views_of(
                    v_snap,
                ).len());
                assert forall|k: int| 0 <= k < views_of(flat@).len() implies views_of(flat@)[k] == (
                views_of(flat_before) + views_of(v_snap))[k] by {
                    assert(views_of(flat@)[k] == flat@[k]@);
                    if k < flat_before.len() {
                        assert(flat@[k] == flat_before[k]);
                        assert(views_of(flat_before)[k] == flat_before[k]@);
                    } else {
                        assert(flat@[k] == v_snap[k - flat_before.len()]);
                        assert(views_of(v_snap)[k - flat_before.len()] == v_snap[k
                            - flat_before.len()]@);
                    }
                }
            }
            assert((views_of(flat_before) + views_of(v_snap)) + outputs_views(rest@).flatten()
                =~= views_of(flat_before) + (views_of(v_snap) + outputs_views(rest@).flatten()));
        }
    }
    proof {
        assert(outputs_views(rest@) =~= Seq::<Seq<Diag>>::empty());
        assert(outputs_views(rest@).flatten() =~= Seq::<Diag>::empty());
        assert(views_of(flat@) + Seq::<Diag>::empty() =~= views_of(flat@));
    }
    flat
}

} // verus!
