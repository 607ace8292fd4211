//! The inventory's data model.
use vstd::prelude::*;

verus! {

/// The hardware source a component was discovered through.
#[derive(Clone, Copy, Debug, PartialEq, Eq, Structural)]
pub enum DeviceType {
    Pci,
    Usb,
    Cpu,
}

/// What is known about the driver of a component.
#[derive(Clone, Copy, Debug, PartialEq, Eq, Structural)]
pub enum DriverStatus {
    Installed,
    NotInstalled,
    Available,
    Unknown,
}

/// How specific a status is: `Installed > Available > NotInstalled > Unknown`.
pub open spec fn rank(s: DriverStatus) -> nat {
    match s {
        DriverStatus::Installed => 3,
        DriverStatus::Available => 2,
        DriverStatus::NotInstalled => 1,
        DriverStatus::Unknown => 0,
    }
}

/// Executable form of `rank`.
pub fn status_rank(s: DriverStatus) -> (r: u8)
    ensures
        r as nat == rank(s),
{
    match s {
        DriverStatus::Installed => 3,
        DriverStatus::Available => 2,
        DriverStatus::NotInstalled => 1,
        DriverStatus::Unknown => 0,
    }
}

/// One detected device. Text fields hold the bytes read from the probe.
#[derive(Clone, Debug, PartialEq, Eq)]
pub struct HardwareComponent {
    pub device_type: DeviceType,
    pub vendor: Vec<u8>,
    pub model: Vec<u8>,
    pub driver: Option<Vec<u8>>,
    pub status: DriverStatus,
}

/// The mathematical value of a `HardwareComponent`.
pub struct ComponentView {
    pub device_type: DeviceType,
    pub vendor: Seq<u8>,
    pub model: Seq<u8>,
    pub driver: Option<Seq<u8>>,
    pub status: DriverStatus,
}

/// The value of an optional byte string.
pub open spec fn opt_bytes(o: Option<Vec<u8>>) -> Option<Seq<u8>> {
    match o {
        Some(v) => Some(v@),
        None => None,
    }
}

impl View for HardwareComponent {
    type V = ComponentView;

    open spec fn view(&self) -> ComponentView {
        ComponentView {
            device_type: self.device_type,
            vendor: self.vendor@,
            model: self.model@,
            driver: opt_bytes(self.driver),
            status: self.status,
        }
    }
}

/// The values of a sequence of components.
pub open spec fn views(s: Seq<HardwareComponent>) -> Seq<ComponentView> {
    s.map_values(|c: HardwareComponent| c@)
}

/// Two components denote the same device: equal type, vendor and model.
pub open spec fn same_identity(a: ComponentView, b: ComponentView) -> bool {
    a.device_type == b.device_type && a.vendor == b.vendor && a.model == b.model
}

/// Byte-wise equality of two byte strings.
pub fn bytes_eq(a: &[u8], b: &[u8]) -> (r: bool)
    ensures
        r == (a@ == b@),
{
    if a.len() != b.len() {
        return false;
    }
    let mut i: usize = 0;
    while i < a.len()
        invariant
            a@.len() == b@.len(),
            0 <= i <= a@.len(),
            forall|j: int| 0 <= j < i ==> a@[j] == b@[j],
        decreases a@.len() - i,
    {
        if a[i] != b[i] {
            return false;
        }
        i = i + 1;
    }
    assert(a@ =~= b@);
    true
}

/// A copy of a byte string.
pub fn copy_bytes(a: &Vec<u8>) -> (r: Vec<u8>)
    ensures
        r@ == a@,
{
    let r = a.clone();
    assert(r@ =~= a@);
    r
}

impl HardwareComponent {
    /// Whether `self` and `other` denote the same device.
    pub fn same_identity_as(&self, other: &HardwareComponent) -> (r: bool)
        ensures
            r == same_identity(self@, other@),
    {
        self.device_type == other.device_type && bytes_eq(self.vendor.as_slice(), other.vendor.as_slice())
            && bytes_eq(self.model.as_slice(), other.model.as_slice())
    }

    /// A copy of the component.
    pub fn duplicate(&self) -> (r: HardwareComponent)
        ensures
            r@ == self@,
    {
        let driver = match &self.driver {
            Some(d) => Some(copy_bytes(d)),
            None => None,
        };
        let r = HardwareComponent {
            device_type: self.device_type,
            vendor: copy_bytes(&self.vendor),
            model: copy_bytes(&self.model),
            driver,
            status: self.status,
        };
        r
    }
}

} // verus!
