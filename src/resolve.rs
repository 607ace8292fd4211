//! The driver resolver: which driver, if any, each component still needs.
use vstd::prelude::*;
use crate::model::{ComponentView, DriverStatus, HardwareComponent, bytes_eq, copy_bytes, views};

verus! {

/// How a driver is brought onto the system.
#[derive(Clone, Copy, Debug, PartialEq, Eq, Structural)]
pub enum InstallKind {
    /// A loadable kernel module that is enabled.
    KernelModule,
    /// A package that the package manager installs.
    Package,
}

/// One entry of the driver knowledge base: the driver a device needs.
#[derive(Clone, Debug, PartialEq, Eq)]
pub struct DriverMapping {
    pub vendor: Vec<u8>,
    pub model: Vec<u8>,
    pub driver_name: Vec<u8>,
    pub kind: InstallKind,
}

/// The mathematical value of a `DriverMapping`.
pub struct MappingView {
    pub vendor: Seq<u8>,
    pub model: Seq<u8>,
    pub driver_name: Seq<u8>,
    pub kind: InstallKind,
}

impl View for DriverMapping {
    type V = MappingView;

    open spec fn view(&self) -> MappingView {
        MappingView {
            vendor: self.vendor@,
            model: self.model@,
            driver_name: self.driver_name@,
            kind: self.kind,
        }
    }
}

/// The driver knowledge base: mappings from (vendor, model) to a driver.
/// Where several mappings match a device, the first one counts.
#[derive(Clone, Debug, PartialEq, Eq)]
pub struct KnowledgeBase {
    pub mappings: Vec<DriverMapping>,
}

impl View for KnowledgeBase {
    type V = Seq<MappingView>;

    open spec fn view(&self) -> Seq<MappingView> {
        self.mappings@.map_values(|m: DriverMapping| m@)
    }
}

/// A driver that a component of the inventory needs.
#[derive(Clone, Debug, PartialEq, Eq)]
pub struct DriverRequirement {
    /// The index of the component in the inventory.
    pub component: usize,
    pub driver_name: Vec<u8>,
    pub kind: InstallKind,
}

/// The mathematical value of a `DriverRequirement`.
pub struct RequirementView {
    pub component: int,
    pub driver_name: Seq<u8>,
    pub kind: InstallKind,
}

impl View for DriverRequirement {
    type V = RequirementView;

    open spec fn view(&self) -> RequirementView {
        RequirementView {
            component: self.component as int,
            driver_name: self.driver_name@,
            kind: self.kind,
        }
    }
}

/// The values of a sequence of requirements.
pub open spec fn req_views(s: Seq<DriverRequirement>) -> Seq<RequirementView> {
    s.map_values(|r: DriverRequirement| r@)
}

impl DriverRequirement {
    /// A copy of the requirement.
    pub fn duplicate(&self) -> (r: DriverRequirement)
        ensures
            r@ == self@,
    {
        DriverRequirement {
            component: self.component,
            driver_name: copy_bytes(&self.driver_name),
            kind: self.kind,
        }
    }
}

/// The first mapping at or after `i` for a device of `vendor` and `model`.
pub open spec fn lookup_from(kb: Seq<MappingView>, vendor: Seq<u8>, model: Seq<u8>, i: int) -> Option<MappingView>
    decreases kb.len() - i,
{
    if i < 0 || i >= kb.len() {
        None
    } else if kb[i].vendor == vendor && kb[i].model == model {
        Some(kb[i])
    } else {
        lookup_from(kb, vendor, model, i + 1)
    }
}

/// What component `c`, at index `index` of the inventory, needs: nothing
/// when its driver is installed or the knowledge base knows no driver for
/// it; else the driver of the first matching mapping.
pub open spec fn resolution(kb: Seq<MappingView>, c: ComponentView, index: int) -> Option<RequirementView> {
    if c.status == DriverStatus::Installed {
        None
    } else {
        match lookup_from(kb, c.vendor, c.model, 0) {
            Some(m) => Some(RequirementView { component: index, driver_name: m.driver_name, kind: m.kind }),
            None => None,
        }
    }
}

/// The requirements of an inventory, in inventory order.
pub open spec fn requirements(kb: Seq<MappingView>, inv: Seq<ComponentView>) -> Seq<RequirementView>
    decreases inv.len(),
{
    if inv.len() == 0 {
        Seq::empty()
    } else {
        let rest = requirements(kb, inv.drop_last());
        match resolution(kb, inv.last(), inv.len() - 1) {
            Some(r) => rest.push(r),
            None => rest,
        }
    }
}

impl KnowledgeBase {
    /// The first mapping for a device of `vendor` and `model`.
    pub fn lookup(&self, vendor: &[u8], model: &[u8]) -> (r: Option<&DriverMapping>)
        ensures
            match r {
                Some(m) => lookup_from(self@, vendor@, model@, 0) == Some(m@),
                None => lookup_from(self@, vendor@, model@, 0) is None,
            },
    {
        let ghost kb = self@;
        let mut i: usize = 0;
        while i < self.mappings.len()
            invariant
                i <= self.mappings@.len(),
                kb == self@,
                lookup_from(kb, vendor@, model@, 0) == lookup_from(kb, vendor@, model@, i as int),
            decreases self.mappings@.len() - i,
        {
            let m = &self.mappings[i];
            assert(kb[i as int] == m@);
            if bytes_eq(m.vendor.as_slice(), vendor) && bytes_eq(m.model.as_slice(), model) {
                return Some(m);
            }
            i = i + 1;
        }
        None
    }

    /// The driver that component `c`, at index `index` of the inventory,
    /// needs, if any.
    pub fn resolve(&self, c: &HardwareComponent, index: usize) -> (r: Option<DriverRequirement>)
        ensures
            match r {
                Some(q) => resolution(self@, c@, index as int) == Some(q@),
                None => resolution(self@, c@, index as int) is None,
            },
    {
        if c.status == DriverStatus::Installed {
            return None;
        }
        match self.lookup(c.vendor.as_slice(), c.model.as_slice()) {
            Some(m) => Some(
                DriverRequirement { component: index, driver_name: copy_bytes(&m.driver_name), kind: m.kind },
            ),
            None => None,
        }
    }

    /// The requirements of every component of `inv`, in inventory order.
    pub fn resolve_all(&self, inv: &Vec<HardwareComponent>) -> (r: Vec<DriverRequirement>)
        ensures
            req_views(r@) == requirements(self@, views(inv@)),
    {
        let ghost iv = views(inv@);
        let mut r: Vec<DriverRequirement> = Vec::new();
        let mut i: usize = 0;
        assert(iv.subrange(0, 0) =~= Seq::<ComponentView>::empty());
        while i < inv.len()
            invariant
                i <= inv@.len(),
                iv == views(inv@),
                req_views(r@) == requirements(self@, iv.subrange(0, i as int)),
            decreases inv@.len() - i,
        {
            let ghost before = r@;
            assert(iv.subrange(0, i + 1).drop_last() =~= iv.subrange(0, i as int));
            assert(iv[i as int] == inv@[i as int]@);
            match self.resolve(&inv[i], i) {
                Some(q) => {
                    r.push(q);
                    assert(req_views(r@) =~= req_views(before).push(q@));
                },
                None => {},
            }
            i = i + 1;
        }
        assert(iv.subrange(0, inv@.len() as int) =~= iv);
        r
    }
}

} // verus!
