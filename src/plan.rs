//! The installation planner: one step per distinct driver, first requirement wins.
use vstd::prelude::*;
use crate::model::bytes_eq;
use crate::resolve::{DriverRequirement, RequirementView, req_views};

verus! {

/// The driver names of a sequence of requirements.
pub open spec fn names(s: Seq<RequirementView>) -> Seq<Seq<u8>> {
    s.map_values(|r: RequirementView| r.driver_name)
}

/// The plan of requirements `s`: each requirement in order, unless an
/// earlier one already names the same driver.
pub open spec fn plan_of(s: Seq<RequirementView>) -> Seq<RequirementView>
    decreases s.len(),
{
    if s.len() == 0 {
        Seq::empty()
    } else {
        let p = plan_of(s.drop_last());
        if names(p).contains(s.last().driver_name) {
            p
        } else {
            p.push(s.last())
        }
    }
}

/// Whether a step of `plan` already installs driver `name`.
pub fn plans_driver(plan: &Vec<DriverRequirement>, name: &[u8]) -> (r: bool)
    ensures
        r == names(req_views(plan@)).contains(name@),
{
    let ghost ns = names(req_views(plan@));
    let mut i: usize = 0;
    while i < plan.len()
        invariant
            i <= plan@.len(),
            ns == names(req_views(plan@)),
            forall|k: int| 0 <= k < i ==> ns[k] != name@,
        decreases plan@.len() - i,
    {
        assert(ns[i as int] == plan@[i as int].driver_name@);
        if bytes_eq(plan[i].driver_name.as_slice(), name) {
            assert(ns[i as int] == name@);
            return true;
        }
        i = i + 1;
    }
    false
}

/// The installation plan of `reqs`: deduplicated by driver name, in order of
/// first occurrence. Planning is the same whether or not the plan is then
/// run for real or only previewed.
pub fn plan(reqs: &Vec<DriverRequirement>) -> (r: Vec<DriverRequirement>)
    ensures
        req_views(r@) == plan_of(req_views(reqs@)),
{
    let ghost rv = req_views(reqs@);
    let mut p: Vec<DriverRequirement> = Vec::new();
    let mut i: usize = 0;
    assert(rv.subrange(0, 0) =~= Seq::<RequirementView>::empty());
    while i < reqs.len()
        invariant
            i <= reqs@.len(),
            rv == req_views(reqs@),
            req_views(p@) == plan_of(rv.subrange(0, i as int)),
        decreases reqs@.len() - i,
    {
        assert(rv.subrange(0, i + 1).drop_last() =~= rv.subrange(0, i as int));
        assert(rv[i as int] == reqs@[i as int]@);
        if !plans_driver(&p, reqs[i].driver_name.as_slice()) {
            let ghost before = p@;
            let q = reqs[i].duplicate();
            p.push(q);
            assert(req_views(p@) =~= req_views(before).push(q@));
        }
        i = i + 1;
    }
    assert(rv.subrange(0, reqs@.len() as int) =~= rv);
    p
}

proof fn lemma_plan_names(s: Seq<RequirementView>)
    ensures
        names(plan_of(s)).no_duplicates(),
        names(plan_of(s)).to_set() == names(s).to_set(),
    decreases s.len(),
{
    if s.len() > 0 {
        let d = s.drop_last();
        let x = s.last();
        let p = plan_of(d);
        lemma_plan_names(d);
        assert(names(s) =~= names(d).push(x.driver_name));
        names(d).lemma_push_to_set_commute(x.driver_name);
        if names(p).contains(x.driver_name) {
            assert(names(p).to_set().contains(x.driver_name));
            assert(names(s).to_set() =~= names(d).to_set());
        } else {
            assert(names(p.push(x)) =~= names(p).push(x.driver_name));
            names(p).lemma_push_to_set_commute(x.driver_name);
            let np = names(p.push(x));
            assert forall|i: int, j: int| 0 <= i < np.len() && 0 <= j < np.len() && i != j implies np[i] != np[j] by {
                if i < names(p).len() && j < names(p).len() {
                } else if i < names(p).len() {
                    assert(names(p).contains(np[i]));
                } else {
                    assert(names(p).contains(np[j]));
                }
            }
        }
    }
}

/// Requirements that name K distinct drivers give a plan of exactly K
/// steps, one per driver, with no driver twice.
pub proof fn lemma_plan_minimal(s: Seq<RequirementView>)
    ensures
        plan_of(s).len() == names(s).to_set().len(),
        names(plan_of(s)).no_duplicates(),
        names(plan_of(s)).to_set() == names(s).to_set(),
{
    lemma_plan_names(s);
    names(plan_of(s)).unique_seq_to_set();
}

} // verus!
