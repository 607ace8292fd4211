//! The read-only half of the pipeline: probe results to inventory to plan.
use vstd::prelude::*;
use crate::inventory::{build_inventory, distinct_identities, inventory_of, is_subsequence, probe_records};
use crate::model::{ComponentView, HardwareComponent, views};
use crate::parse::Source;
use crate::plan::{lemma_plan_minimal, names, plan, plan_of};
use crate::resolve::{DriverRequirement, KnowledgeBase, MappingView, req_views, requirements};

verus! {

/// The inventory that a scan gives from the probe results, by source in
/// the order given; a probe that failed holds `None` and is skipped. The
/// inventory keeps some of the parsed records in the order they came, all
/// of them when no identity repeats.
pub fn detect(probes: &Vec<(Source, Option<Vec<u8>>)>) -> (r: Vec<HardwareComponent>)
    ensures
        views(r@) == inventory_of(probes@),
        is_subsequence(views(r@), probe_records(probes@)),
        distinct_identities(probe_records(probes@)) ==> views(r@) == probe_records(probes@),
{
    build_inventory(probes)
}

/// The installation plan for inventory `inv`: every component resolved
/// against `kb`, then deduplicated by driver name.
pub fn plan_setup(kb: &KnowledgeBase, inv: &Vec<HardwareComponent>) -> (r: Vec<DriverRequirement>)
    ensures
        req_views(r@) == plan_of(requirements(kb@, views(inv@))),
{
    let reqs = kb.resolve_all(inv);
    plan(&reqs)
}

/// An inventory whose components need K distinct drivers gets a plan of
/// exactly K steps.
pub proof fn lemma_setup_plan_minimal(kb: Seq<MappingView>, inv: Seq<ComponentView>)
    ensures
        plan_of(requirements(kb, inv)).len() == names(requirements(kb, inv)).to_set().len(),
{
    lemma_plan_minimal(requirements(kb, inv));
}

} // verus!
