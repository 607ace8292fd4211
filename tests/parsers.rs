use ardenthat::model::{DeviceType, DriverStatus, HardwareComponent};
use ardenthat::parse::{Source, parse_driver_in_use, parse_field, split_lines};

fn component(t: DeviceType, vendor: &str, model: &str) -> HardwareComponent {
    HardwareComponent {
        device_type: t,
        vendor: vendor.as_bytes().to_vec(),
        model: model.as_bytes().to_vec(),
        driver: None,
        status: DriverStatus::Unknown,
    }
}

#[test]
fn lines_split_on_newlines() {
    let ls = split_lines(b"a\n\nbc\nd");
    assert_eq!(ls, vec![b"a".to_vec(), b"".to_vec(), b"bc".to_vec(), b"d".to_vec()]);
    let ls = split_lines(b"a\n");
    assert_eq!(ls, vec![b"a".to_vec()]);
    assert!(split_lines(b"").is_empty());
}

#[test]
fn pci_lines_give_vendor_and_model() {
    let raw = b"00:02.0 0300: 8086:5916 (rev 02)\n00:14.0 0c03: 8086:9d2f (rev 21)\n";
    let r = Source::Pci.parse(raw);
    assert_eq!(
        r,
        vec![component(DeviceType::Pci, "8086", "5916"), component(DeviceType::Pci, "8086", "9d2f")]
    );
}

#[test]
fn usb_lines_give_vendor_and_model() {
    let raw = b"Bus 001 Device 002: ID 8087:0024 Intel Corp. Hub\nBus 002 Device 001: ID 1d6b:0002 Linux Foundation 2.0 root hub";
    let r = Source::Usb.parse(raw);
    assert_eq!(
        r,
        vec![component(DeviceType::Usb, "8087", "0024"), component(DeviceType::Usb, "1d6b", "0002")]
    );
}

#[test]
fn malformed_lines_are_dropped() {
    let raw = b"garbage\n00:02.0 0300: 80X6:5916\nID 8086:59160\nID 8086:5916x\n\nID 10de:1c82\n";
    let r = Source::Pci.parse(raw);
    assert_eq!(r, vec![component(DeviceType::Pci, "10de", "1c82")]);
    assert!(Source::Usb.parse(b"").is_empty());
    assert!(Source::Usb.parse(b"ID 8086:5916").len() == 1);
    assert!(Source::Usb.parse(b"ID 8086:59A6").is_empty());
}

#[test]
fn cpu_info_gives_one_processor() {
    let raw = b"processor\t: 0\nvendor_id\t: GenuineIntel\ncpu family\t: 6\nmodel\t\t: 142\nmodel name\t: Intel(R) Core(TM) i7-8550U\nprocessor\t: 1\nvendor_id\t: GenuineIntel\nmodel name\t: Intel(R) Core(TM) i7-8550U\n";
    let r = Source::Cpu.parse(raw);
    assert_eq!(r, vec![component(DeviceType::Cpu, "GenuineIntel", "Intel(R) Core(TM) i7-8550U")]);
}

#[test]
fn cpu_info_without_model_gives_nothing() {
    assert!(Source::Cpu.parse(b"vendor_id\t: GenuineIntel\n").is_empty());
    assert!(Source::Cpu.parse(b"").is_empty());
    assert!(Source::Cpu.parse(b"vendor_id GenuineIntel\nmodel name: X\n").is_empty());
}

#[test]
fn field_values_drop_leading_blanks() {
    assert_eq!(parse_field(b"vendor_id\t: AuthenticAMD", b"vendor_id"), Some(b"AuthenticAMD".to_vec()));
    assert_eq!(parse_field(b"vendor_id:x", b"vendor_id"), Some(b"x".to_vec()));
    assert_eq!(parse_field(b"vendor_id  :", b"vendor_id"), Some(b"".to_vec()));
    assert_eq!(parse_field(b"vendor_ids : x", b"vendor_id"), None);
    assert_eq!(parse_field(b"vendor", b"vendor_id"), None);
}

#[test]
fn probe_order_is_pci_usb_cpu() {
    assert_eq!(Source::probe_order(), vec![Source::Pci, Source::Usb, Source::Cpu]);
}

#[test]
fn pci_driver_in_use_is_evidence_of_installation() {
    let raw = b"00:02.0 0300: 8086:5916 (rev 02)\n\tSubsystem: 17aa:224b\n\tKernel driver in use: i915\n\tKernel modules: i915\n00:1f.3 0403: 8086:9d71 (rev 21)\n\tSubsystem: 17aa:224b\n";
    let r = Source::Pci.parse(raw);
    let mut gpu = component(DeviceType::Pci, "8086", "5916");
    gpu.driver = Some(b"i915".to_vec());
    gpu.status = DriverStatus::Installed;
    assert_eq!(r, vec![gpu, component(DeviceType::Pci, "8086", "9d71")]);
}

#[test]
fn pci_detail_under_unreadable_device_is_ignored() {
    let raw = b"00:02.0 0300: 8086:5916\nbroken line\n\tKernel driver in use: i915\n\tKernel driver in use: x\n";
    let r = Source::Pci.parse(raw);
    assert_eq!(r, vec![component(DeviceType::Pci, "8086", "5916")]);
    assert!(Source::Pci.parse(b"\tKernel driver in use: i915\n").is_empty());
}

#[test]
fn driver_in_use_line_is_read() {
    assert_eq!(parse_driver_in_use(b"\tKernel driver in use: snd_hda_intel"), Some(b"snd_hda_intel".to_vec()));
    assert_eq!(parse_driver_in_use(b"\tKernel modules: snd_hda_intel"), None);
}
