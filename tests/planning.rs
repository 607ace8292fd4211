use ardenthat::model::{DeviceType, DriverStatus, HardwareComponent};
use ardenthat::parse::Source;
use ardenthat::pipeline::{detect, plan_setup};
use ardenthat::plan::{plan, plans_driver};
use ardenthat::resolve::{DriverMapping, DriverRequirement, InstallKind, KnowledgeBase};

fn device(vendor: &str, model: &str, status: DriverStatus) -> HardwareComponent {
    HardwareComponent {
        device_type: DeviceType::Pci,
        vendor: vendor.as_bytes().to_vec(),
        model: model.as_bytes().to_vec(),
        driver: None,
        status,
    }
}

fn mapping(vendor: &str, model: &str, name: &str, kind: InstallKind) -> DriverMapping {
    DriverMapping {
        vendor: vendor.as_bytes().to_vec(),
        model: model.as_bytes().to_vec(),
        driver_name: name.as_bytes().to_vec(),
        kind,
    }
}

fn req(component: usize, name: &str, kind: InstallKind) -> DriverRequirement {
    DriverRequirement { component, driver_name: name.as_bytes().to_vec(), kind }
}

fn kb() -> KnowledgeBase {
    KnowledgeBase {
        mappings: vec![
            mapping("VendorX", "ModelY", "driverY", InstallKind::Package),
            mapping("VendorA", "ModelA", "shared-driver", InstallKind::Package),
            mapping("VendorB", "ModelB", "shared-driver", InstallKind::Package),
            mapping("VendorM", "ModelM", "snd_hda_intel", InstallKind::KernelModule),
            mapping("VendorM", "ModelM", "other", InstallKind::Package),
        ],
    }
}

#[test]
fn resolve_skips_installed_and_unknown_devices() {
    let k = kb();
    assert_eq!(k.resolve(&device("VendorX", "ModelY", DriverStatus::Installed), 0), None);
    assert_eq!(k.resolve(&device("VendorZ", "ModelY", DriverStatus::NotInstalled), 0), None);
    assert_eq!(
        k.resolve(&device("VendorX", "ModelY", DriverStatus::Unknown), 4),
        Some(req(4, "driverY", InstallKind::Package))
    );
}

#[test]
fn resolve_takes_first_mapping_and_its_kind() {
    let k = kb();
    assert_eq!(
        k.resolve(&device("VendorM", "ModelM", DriverStatus::Available), 1),
        Some(req(1, "snd_hda_intel", InstallKind::KernelModule))
    );
}

#[test]
fn resolve_all_keeps_inventory_order() {
    let inv = vec![
        device("VendorM", "ModelM", DriverStatus::NotInstalled),
        device("VendorQ", "ModelQ", DriverStatus::NotInstalled),
        device("VendorX", "ModelY", DriverStatus::NotInstalled),
    ];
    assert_eq!(
        kb().resolve_all(&inv),
        vec![req(0, "snd_hda_intel", InstallKind::KernelModule), req(2, "driverY", InstallKind::Package)]
    );
}

#[test]
fn plan_for_single_device_is_its_package() {
    let inv = vec![device("VendorX", "ModelY", DriverStatus::NotInstalled)];
    let p = plan_setup(&kb(), &inv);
    assert_eq!(p, vec![req(0, "driverY", InstallKind::Package)]);
}

#[test]
fn shared_driver_is_planned_once() {
    let inv = vec![
        device("VendorA", "ModelA", DriverStatus::NotInstalled),
        device("VendorB", "ModelB", DriverStatus::Unknown),
    ];
    let p = plan_setup(&kb(), &inv);
    assert_eq!(p, vec![req(0, "shared-driver", InstallKind::Package)]);
}

#[test]
fn plan_has_one_step_per_distinct_driver() {
    let reqs = vec![
        req(0, "a", InstallKind::Package),
        req(1, "b", InstallKind::Package),
        req(2, "a", InstallKind::KernelModule),
        req(3, "c", InstallKind::Package),
        req(4, "b", InstallKind::Package),
    ];
    let p = plan(&reqs);
    assert_eq!(
        p,
        vec![req(0, "a", InstallKind::Package), req(1, "b", InstallKind::Package), req(3, "c", InstallKind::Package)]
    );
    assert!(plan(&vec![]).is_empty());
    assert!(plans_driver(&p, b"c"));
    assert!(!plans_driver(&p, b"d"));
}

#[test]
fn setup_after_install_plans_nothing() {
    let k = KnowledgeBase {
        mappings: vec![mapping("8086", "5916", "i915", InstallKind::KernelModule), mapping("8086", "9d71", "sof", InstallKind::Package)],
    };
    let before = vec![(Source::Pci, Some(b"00:02.0 0300: 8086:5916\n00:1f.3 0403: 8086:9d71\n".to_vec()))];
    let inv = detect(&before);
    assert_eq!(
        plan_setup(&k, &inv),
        vec![req(0, "i915", InstallKind::KernelModule), req(1, "sof", InstallKind::Package)]
    );
    let after = vec![(
        Source::Pci,
        Some(b"00:02.0 0300: 8086:5916\n\tKernel driver in use: i915\n00:1f.3 0403: 8086:9d71\n\tKernel driver in use: sof\n".to_vec()),
    )];
    let inv = detect(&after);
    assert!(inv.iter().all(|c| c.status == DriverStatus::Installed));
    assert!(plan_setup(&k, &inv).is_empty());
}
