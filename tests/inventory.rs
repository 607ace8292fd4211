use ardenthat::inventory::{aggregate, merge};
use ardenthat::model::{DeviceType, DriverStatus, HardwareComponent, status_rank};
use ardenthat::parse::Source;
use ardenthat::pipeline::detect;

fn with_status(t: DeviceType, vendor: &str, model: &str, status: DriverStatus) -> HardwareComponent {
    HardwareComponent {
        device_type: t,
        vendor: vendor.as_bytes().to_vec(),
        model: model.as_bytes().to_vec(),
        driver: None,
        status,
    }
}

const RANKED: [DriverStatus; 4] =
    [DriverStatus::Installed, DriverStatus::Available, DriverStatus::NotInstalled, DriverStatus::Unknown];

#[test]
fn status_ranks_are_ordered() {
    assert_eq!(status_rank(DriverStatus::Installed), 3);
    assert_eq!(status_rank(DriverStatus::Available), 2);
    assert_eq!(status_rank(DriverStatus::NotInstalled), 1);
    assert_eq!(status_rank(DriverStatus::Unknown), 0);
}

#[test]
fn dedup_keeps_higher_status_for_every_pair() {
    for (i, hi) in RANKED.iter().enumerate() {
        for lo in RANKED.iter().skip(i + 1) {
            for (first, second) in [(*hi, *lo), (*lo, *hi)] {
                let a = with_status(DeviceType::Pci, "8086", "5916", first);
                let b = with_status(DeviceType::Pci, "8086", "5916", second);
                let r = aggregate(&vec![vec![a], vec![b]]);
                assert_eq!(r, vec![with_status(DeviceType::Pci, "8086", "5916", *hi)]);
            }
        }
    }
}

#[test]
fn equal_status_keeps_first_record() {
    let mut a = with_status(DeviceType::Usb, "1d6b", "0002", DriverStatus::Available);
    a.driver = Some(b"first".to_vec());
    let mut b = with_status(DeviceType::Usb, "1d6b", "0002", DriverStatus::Available);
    b.driver = Some(b"second".to_vec());
    let mut inv = vec![a.clone()];
    merge(&mut inv, b);
    assert_eq!(inv, vec![a]);
}

#[test]
fn different_device_types_are_different_identities() {
    let a = with_status(DeviceType::Pci, "8086", "5916", DriverStatus::Unknown);
    let b = with_status(DeviceType::Usb, "8086", "5916", DriverStatus::Unknown);
    let r = aggregate(&vec![vec![a.clone()], vec![b.clone()]]);
    assert_eq!(r, vec![a, b]);
}

#[test]
fn winning_record_keeps_its_input_position() {
    let a = with_status(DeviceType::Pci, "8086", "5916", DriverStatus::Unknown);
    let b = with_status(DeviceType::Pci, "10de", "1c82", DriverStatus::Unknown);
    let c = with_status(DeviceType::Pci, "8086", "5916", DriverStatus::Installed);
    let r = aggregate(&vec![vec![a, b.clone()], vec![c.clone()]]);
    assert_eq!(r, vec![b, c]);
}

#[test]
fn repeated_pci_device_keeps_source_order() {
    let raw = b"00:01.0 0200: 8086:1234\n00:02.0 0200: 8086:5678\n00:03.0 0200: 8086:1234\n\tKernel driver in use: e1000\n";
    let r = detect(&vec![(Source::Pci, Some(raw.to_vec()))]);
    let mut a = with_status(DeviceType::Pci, "8086", "1234", DriverStatus::Installed);
    a.driver = Some(b"e1000".to_vec());
    assert_eq!(r, vec![with_status(DeviceType::Pci, "8086", "5678", DriverStatus::Unknown), a]);
}

#[test]
fn highest_status_wins_among_other_records_in_any_order() {
    for (i, hi) in RANKED.iter().enumerate() {
        for lo in RANKED.iter().skip(i + 1) {
            for (first, second) in [(*hi, *lo), (*lo, *hi)] {
                let x = with_status(DeviceType::Usb, "1d6b", "0002", DriverStatus::Unknown);
                let y = with_status(DeviceType::Usb, "8087", "0024", DriverStatus::Available);
                let part = vec![
                    x.clone(),
                    with_status(DeviceType::Usb, "046d", "c52b", first),
                    y.clone(),
                    with_status(DeviceType::Usb, "046d", "c52b", second),
                ];
                let r = aggregate(&vec![part]);
                let kept: Vec<&HardwareComponent> = r.iter().filter(|c| c.vendor == b"046d".to_vec()).collect();
                assert_eq!(kept.len(), 1);
                assert_eq!(kept[0].status, *hi);
                assert_eq!(r.len(), 3);
                assert_eq!(r[0], x);
            }
        }
    }
}

#[test]
fn distinct_records_are_kept_as_they_are() {
    let part = vec![
        with_status(DeviceType::Pci, "8086", "5916", DriverStatus::Installed),
        with_status(DeviceType::Pci, "10de", "1c82", DriverStatus::Unknown),
    ];
    let more = vec![with_status(DeviceType::Cpu, "GenuineIntel", "Core i7", DriverStatus::Unknown)];
    let r = aggregate(&vec![part.clone(), more.clone()]);
    assert_eq!(r, [part, more].concat());
}

fn probes() -> Vec<(Source, Option<Vec<u8>>)> {
    vec![
        (Source::Pci, Some(b"00:02.0 0300: 8086:5916 (rev 02)\n00:02.0 0300: 8086:5916 (rev 02)\n".to_vec())),
        (Source::Usb, Some(b"Bus 001 Device 002: ID 8087:0024 Hub\n".to_vec())),
        (Source::Cpu, Some(b"vendor_id\t: GenuineIntel\nmodel name\t: Core i7\n".to_vec())),
    ]
}

#[test]
fn detect_orders_by_source_and_deduplicates() {
    let r = detect(&probes());
    assert_eq!(
        r,
        vec![
            with_status(DeviceType::Pci, "8086", "5916", DriverStatus::Unknown),
            with_status(DeviceType::Usb, "8087", "0024", DriverStatus::Unknown),
            with_status(DeviceType::Cpu, "GenuineIntel", "Core i7", DriverStatus::Unknown),
        ]
    );
}

#[test]
fn detect_twice_gives_identical_inventories() {
    let first = detect(&probes());
    let second = detect(&probes());
    assert_eq!(first, second);
    assert_eq!(aggregate(&vec![first.clone()]), first);
}

#[test]
fn failed_probe_is_skipped() {
    let mut p = probes();
    p[0].1 = None;
    let r = detect(&p);
    assert_eq!(r.len(), 2);
    assert_eq!(r[0].device_type, DeviceType::Usb);
    assert!(detect(&vec![]).is_empty());
}
