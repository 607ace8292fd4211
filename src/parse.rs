//! Source parsers: raw probe output to inventory records.
//!
//! Every parser is total: a record it cannot read is dropped.
use vstd::prelude::*;
use crate::model::{ComponentView, DeviceType, DriverStatus, HardwareComponent, views};

verus! {

/// The byte `\n`.
pub const NEWLINE: u8 = 10;

/// The lines of `s` from `i` on, where the current line started at `start`.
pub open spec fn lines_from(s: Seq<u8>, start: int, i: int) -> Seq<Seq<u8>>
    decreases s.len() - i,
{
    if i >= s.len() {
        if 0 <= start < s.len() {
            seq![s.subrange(start, s.len() as int)]
        } else {
            Seq::empty()
        }
    } else if s[i] == NEWLINE {
        seq![s.subrange(start, i)].add(lines_from(s, i + 1, i + 1))
    } else {
        lines_from(s, start, i + 1)
    }
}

/// The lines of `s`: the pieces between newlines, with a last piece that
/// has no newline after it kept when it is not empty.
pub open spec fn lines(s: Seq<u8>) -> Seq<Seq<u8>> {
    lines_from(s, 0, 0)
}

/// The values of a sequence of byte strings.
pub open spec fn byte_views(v: Seq<Vec<u8>>) -> Seq<Seq<u8>> {
    v.map_values(|b: Vec<u8>| b@)
}

/// The bytes `raw[a..b]` as a vector.
pub fn slice_bytes(raw: &[u8], a: usize, b: usize) -> (r: Vec<u8>)
    requires
        a <= b <= raw@.len(),
    ensures
        r@ == raw@.subrange(a as int, b as int),
{
    let mut r: Vec<u8> = Vec::new();
    let mut i: usize = a;
    while i < b
        invariant
            a <= i <= b <= raw@.len(),
            r@ == raw@.subrange(a as int, i as int),
        decreases b - i,
    {
        r.push(raw[i]);
        i = i + 1;
        assert(r@ =~= raw@.subrange(a as int, i as int));
    }
    r
}

/// Splits raw text into its lines.
pub fn split_lines(raw: &[u8]) -> (r: Vec<Vec<u8>>)
    ensures
        byte_views(r@) == lines(raw@),
{
    let mut r: Vec<Vec<u8>> = Vec::new();
    let mut start: usize = 0;
    let mut i: usize = 0;
    while i < raw.len()
        invariant
            start <= i <= raw@.len(),
            lines(raw@) == byte_views(r@).add(lines_from(raw@, start as int, i as int)),
        decreases raw@.len() - i,
    {
        if raw[i] == NEWLINE {
            let line = slice_bytes(raw, start, i);
            let ghost before = r@;
            r.push(line);
            assert(byte_views(r@) =~= byte_views(before).push(line@));
            i = i + 1;
            start = i;
        } else {
            i = i + 1;
        }
    }
    if start < raw.len() {
        let line = slice_bytes(raw, start, raw.len());
        let ghost before = r@;
        r.push(line);
        assert(byte_views(r@) =~= byte_views(before).push(line@));
    }
    assert(lines(raw@) =~= byte_views(r@));
    r
}

/// A lowercase hexadecimal digit: `0`-`9` or `a`-`f`.
pub open spec fn is_hex(b: u8) -> bool {
    (48 <= b <= 57) || (97 <= b <= 102)
}

/// A blank: space or tab.
pub open spec fn is_blank(b: u8) -> bool {
    b == 32 || b == 9
}

/// The byte `:`.
pub const COLON: u8 = 58;

/// A device ID `vvvv:dddd` (four hex digits, a colon, four hex digits) stands
/// at `j` of `line` as a whole word: blanks or the line's ends around it.
pub open spec fn id_at(line: Seq<u8>, j: int) -> bool {
    &&& 0 <= j && j + 9 <= line.len()
    &&& forall|k: int| j <= k < j + 4 ==> is_hex(#[trigger] line[k])
    &&& line[j + 4] == COLON
    &&& forall|k: int| j + 5 <= k < j + 9 ==> is_hex(#[trigger] line[k])
    &&& (j == 0 || is_blank(line[j - 1]))
    &&& (j + 9 == line.len() || is_blank(line[j + 9]))
}

/// The first position at or after `j` where a device ID stands.
pub open spec fn first_id_from(line: Seq<u8>, j: int) -> Option<int>
    decreases line.len() - j,
{
    if j < 0 || j + 9 > line.len() {
        None
    } else if id_at(line, j) {
        Some(j)
    } else {
        first_id_from(line, j + 1)
    }
}

/// A position that `first_id_from` finds holds a device ID.
pub proof fn lemma_first_id_holds(line: Seq<u8>, j: int)
    ensures
        first_id_from(line, j) matches Some(k) ==> id_at(line, k) && j <= k,
    decreases line.len() - j,
{
    if !(j < 0 || j + 9 > line.len()) && !id_at(line, j) {
        lemma_first_id_holds(line, j + 1);
    }
}

/// The component a line of `lspci -nk` or `lsusb` output describes: the
/// first device ID in it gives the vendor and the model; a line without one
/// describes nothing.
pub open spec fn id_record(line: Seq<u8>, t: DeviceType) -> Option<ComponentView> {
    match first_id_from(line, 0) {
        Some(j) => Some(
            ComponentView {
                device_type: t,
                vendor: line.subrange(j, j + 4),
                model: line.subrange(j + 5, j + 9),
                driver: None,
                status: DriverStatus::Unknown,
            },
        ),
        None => None,
    }
}

/// The records of a sequence of lines, in order.
pub open spec fn id_records(ls: Seq<Seq<u8>>, t: DeviceType) -> Seq<ComponentView>
    decreases ls.len(),
{
    if ls.len() == 0 {
        Seq::empty()
    } else {
        let rest = id_records(ls.drop_last(), t);
        match id_record(ls.last(), t) {
            Some(c) => rest.push(c),
            None => rest,
        }
    }
}

fn is_hex_byte(b: u8) -> (r: bool)
    ensures
        r == is_hex(b),
{
    (48 <= b && b <= 57) || (97 <= b && b <= 102)
}

fn is_blank_byte(b: u8) -> (r: bool)
    ensures
        r == is_blank(b),
{
    b == 32 || b == 9
}

fn id_at_exec(line: &[u8], j: usize) -> (r: bool)
    ensures
        r == id_at(line@, j as int),
{
    if line.len() < 9 || j > line.len() - 9 {
        return false;
    }
    let digits = is_hex_byte(line[j]) && is_hex_byte(line[j + 1]) && is_hex_byte(line[j + 2])
        && is_hex_byte(line[j + 3]) && line[j + 4] == COLON && is_hex_byte(line[j + 5])
        && is_hex_byte(line[j + 6]) && is_hex_byte(line[j + 7]) && is_hex_byte(line[j + 8]);
    let before = j == 0 || is_blank_byte(line[j - 1]);
    let after = j + 9 == line.len() || is_blank_byte(line[j + 9]);
    proof {
        if digits {
            assert forall|k: int| j <= k < j + 4 implies is_hex(#[trigger] line@[k]) by {
                assert(k == j || k == j + 1 || k == j + 2 || k == j + 3);
            }
            assert forall|k: int| j + 5 <= k < j + 9 implies is_hex(#[trigger] line@[k]) by {
                assert(k == j + 5 || k == j + 6 || k == j + 7 || k == j + 8);
            }
        }
        if id_at(line@, j as int) {
            assert(is_hex(line@[j as int]));
            assert(is_hex(line@[j + 1]));
            assert(is_hex(line@[j + 2]));
            assert(is_hex(line@[j + 3]));
            assert(is_hex(line@[j + 5]));
            assert(is_hex(line@[j + 6]));
            assert(is_hex(line@[j + 7]));
            assert(is_hex(line@[j + 8]));
        }
    }
    digits && before && after
}

/// Where the first device ID of `line` stands.
pub fn find_id(line: &[u8]) -> (r: Option<usize>)
    ensures
        match r {
            Some(j) => first_id_from(line@, 0) == Some(j as int),
            None => first_id_from(line@, 0) is None,
        },
{
    if line.len() < 9 {
        return None;
    }
    let mut j: usize = 0;
    while j <= line.len() - 9
        invariant
            9 <= line@.len(),
            j <= line@.len() - 8,
            first_id_from(line@, 0) == first_id_from(line@, j as int),
        decreases line@.len() - j,
    {
        if id_at_exec(line, j) {
            return Some(j);
        }
        j = j + 1;
    }
    None
}

/// The record of one line of `lspci -nk` or `lsusb` output.
pub fn parse_id_line(line: &[u8], t: DeviceType) -> (r: Option<HardwareComponent>)
    ensures
        match r {
            Some(c) => id_record(line@, t) == Some(c@),
            None => id_record(line@, t) is None,
        },
{
    proof {
        lemma_first_id_holds(line@, 0);
    }
    match find_id(line) {
        Some(j) => {
            let n = line.len();
            assert(id_at(line@, j as int));
            assert(j + 9 <= n);
            Some(
            HardwareComponent {
                device_type: t,
                vendor: slice_bytes(line, j, j + 4),
                model: slice_bytes(line, j + 5, j + 9),
                driver: None,
                status: DriverStatus::Unknown,
            },
            )
        },
        None => None,
    }
}

/// The records of `lspci -nk` or `lsusb` lines, in order, each line read
/// on its own.
pub fn parse_id_lines(raw: &[u8], t: DeviceType) -> (r: Vec<HardwareComponent>)
    ensures
        views(r@) == id_records(lines(raw@), t),
{
    let ls = split_lines(raw);
    let ghost lv = byte_views(ls@);
    let mut r: Vec<HardwareComponent> = Vec::new();
    let mut i: usize = 0;
    while i < ls.len()
        invariant
            i <= ls@.len(),
            lv == byte_views(ls@),
            lv == lines(raw@),
            views(r@) == id_records(lv.subrange(0, i as int), t),
        decreases ls@.len() - i,
    {
        let ghost before = r@;
        assert(lv.subrange(0, i + 1).drop_last() =~= lv.subrange(0, i as int));
        assert(lv[i as int] == ls@[i as int]@);
        match parse_id_line(ls[i].as_slice(), t) {
            Some(c) => {
                r.push(c);
                assert(views(r@) =~= views(before).push(c@));
            },
            None => {},
        }
        i = i + 1;
    }
    assert(lv.subrange(0, ls@.len() as int) =~= lv);
    r
}

/// The first position at or after `i` that does not hold a blank.
pub open spec fn skip_blanks(s: Seq<u8>, i: int) -> int
    decreases s.len() - i,
{
    if 0 <= i < s.len() && is_blank(s[i]) {
        skip_blanks(s, i + 1)
    } else {
        i
    }
}

/// The value of a `key : value` line of `/proc/cpuinfo` whose key is `key`:
/// the line starts with `key`, blanks may follow, then a colon; the value is
/// what follows the colon, leading blanks dropped.
pub open spec fn field_value(line: Seq<u8>, key: Seq<u8>) -> Option<Seq<u8>> {
    if key.len() <= line.len() && line.subrange(0, key.len() as int) == key {
        let i = skip_blanks(line, key.len() as int);
        if i < line.len() && line[i] == COLON {
            Some(line.subrange(skip_blanks(line, i + 1), line.len() as int))
        } else {
            None
        }
    } else {
        None
    }
}

/// The value of the first line among `ls` that has the key `key`.
pub open spec fn first_value(ls: Seq<Seq<u8>>, key: Seq<u8>) -> Option<Seq<u8>>
    decreases ls.len(),
{
    if ls.len() == 0 {
        None
    } else {
        match field_value(ls[0], key) {
            Some(v) => Some(v),
            None => first_value(ls.drop_first(), key),
        }
    }
}

/// The key `vendor_id`.
pub open spec fn vendor_key() -> Seq<u8> {
    seq![118u8, 101, 110, 100, 111, 114, 95, 105, 100]
}

/// The key `model name`.
pub open spec fn model_key() -> Seq<u8> {
    seq![109u8, 111, 100, 101, 108, 32, 110, 97, 109, 101]
}

/// The processor that `/proc/cpuinfo` text describes: one record, from the
/// first `vendor_id` and the first `model name` line, when it has both.
pub open spec fn cpu_records(s: Seq<u8>) -> Seq<ComponentView> {
    match (first_value(lines(s), vendor_key()), first_value(lines(s), model_key())) {
        (Some(v), Some(m)) => seq![
            ComponentView {
                device_type: DeviceType::Cpu,
                vendor: v,
                model: m,
                driver: None,
                status: DriverStatus::Unknown,
            },
        ],
        _ => Seq::empty(),
    }
}

fn skip_blanks_exec(s: &[u8], i: usize) -> (r: usize)
    requires
        i <= s@.len(),
    ensures
        r as int == skip_blanks(s@, i as int),
        i <= r <= s@.len(),
{
    let mut j: usize = i;
    while j < s.len() && is_blank_byte(s[j])
        invariant
            i <= j <= s@.len(),
            skip_blanks(s@, i as int) == skip_blanks(s@, j as int),
        decreases s@.len() - j,
    {
        j = j + 1;
    }
    j
}

fn starts_with(line: &[u8], key: &[u8]) -> (r: bool)
    ensures
        r == (key@.len() <= line@.len() && line@.subrange(0, key@.len() as int) == key@),
{
    if key.len() > line.len() {
        return false;
    }
    let mut i: usize = 0;
    while i < key.len()
        invariant
            key@.len() <= line@.len(),
            i <= key@.len(),
            forall|k: int| 0 <= k < i ==> line@[k] == key@[k],
        decreases key@.len() - i,
    {
        if line[i] != key[i] {
            assert(line@.subrange(0, key@.len() as int)[i as int] != key@[i as int]);
            return false;
        }
        i = i + 1;
    }
    assert(line@.subrange(0, key@.len() as int) =~= key@);
    true
}

/// The value of `line` for `key`, when `line` is a `key : value` line.
pub fn parse_field(line: &[u8], key: &[u8]) -> (r: Option<Vec<u8>>)
    ensures
        match r {
            Some(v) => field_value(line@, key@) == Some(v@),
            None => field_value(line@, key@) is None,
        },
{
    if !starts_with(line, key) {
        return None;
    }
    let i = skip_blanks_exec(line, key.len());
    if i < line.len() && line[i] == COLON {
        let v = skip_blanks_exec(line, i + 1);
        Some(slice_bytes(line, v, line.len()))
    } else {
        None
    }
}

fn find_value(ls: &Vec<Vec<u8>>, key: &[u8]) -> (r: Option<Vec<u8>>)
    ensures
        match r {
            Some(v) => first_value(byte_views(ls@), key@) == Some(v@),
            None => first_value(byte_views(ls@), key@) is None,
        },
{
    let ghost lv = byte_views(ls@);
    let mut i: usize = 0;
    assert(lv.subrange(0, lv.len() as int) =~= lv);
    while i < ls.len()
        invariant
            i <= ls@.len(),
            lv == byte_views(ls@),
            first_value(lv, key@) == first_value(lv.subrange(i as int, lv.len() as int), key@),
        decreases ls@.len() - i,
    {
        assert(lv.subrange(i as int, lv.len() as int).drop_first() =~= lv.subrange(i + 1, lv.len() as int));
        assert(lv.subrange(i as int, lv.len() as int)[0] == ls@[i as int]@);
        match parse_field(ls[i].as_slice(), key) {
            Some(v) => {
                return Some(v);
            },
            None => {},
        }
        i = i + 1;
    }
    None
}

/// The processor record of `/proc/cpuinfo` text.
pub fn parse_cpu_info(raw: &[u8]) -> (r: Vec<HardwareComponent>)
    ensures
        views(r@) == cpu_records(raw@),
{
    let ls = split_lines(raw);
    let vendor_key_bytes: Vec<u8> = vec![118u8, 101, 110, 100, 111, 114, 95, 105, 100];
    let model_key_bytes: Vec<u8> = vec![109u8, 111, 100, 101, 108, 32, 110, 97, 109, 101];
    assert(vendor_key_bytes@ =~= vendor_key());
    assert(model_key_bytes@ =~= model_key());
    let vendor = find_value(&ls, vendor_key_bytes.as_slice());
    let model = find_value(&ls, model_key_bytes.as_slice());
    let mut r: Vec<HardwareComponent> = Vec::new();
    match (vendor, model) {
        (Some(v), Some(m)) => {
            r.push(
                HardwareComponent {
                    device_type: DeviceType::Cpu,
                    vendor: v,
                    model: m,
                    driver: None,
                    status: DriverStatus::Unknown,
                },
            );
        },
        _ => {},
    }
    assert(views(r@) =~= cpu_records(raw@));
    r
}

/// The key `Kernel driver in use`.
pub open spec fn driver_key() -> Seq<u8> {
    seq![75u8, 101, 114, 110, 101, 108, 32, 100, 114, 105, 118, 101, 114, 32, 105, 110, 32, 117, 115, 101]
}

/// A detail line: one that starts with a blank and belongs to the device
/// line above it.
pub open spec fn is_detail(line: Seq<u8>) -> bool {
    line.len() > 0 && is_blank(line[0])
}

/// The driver that a detail line names as in use, if it does.
pub open spec fn driver_in_use(line: Seq<u8>) -> Option<Seq<u8>> {
    field_value(line.subrange(skip_blanks(line, 0), line.len() as int), driver_key())
}

/// The records of `lspci -nk` output lines, and whether the last device
/// line gave a record. A device line gives its record as `id_record` does;
/// a `Kernel driver in use` detail line under it is positive evidence: the
/// record gets that driver and the status `Installed`. Other lines, and
/// detail lines under a device line that gave no record, add nothing.
pub open spec fn pci_scan(ls: Seq<Seq<u8>>) -> (Seq<ComponentView>, bool)
    decreases ls.len(),
{
    if ls.len() == 0 {
        (Seq::empty(), false)
    } else {
        let (rs, open) = pci_scan(ls.drop_last());
        let l = ls.last();
        if is_detail(l) {
            match driver_in_use(l) {
                Some(d) => if open {
                    (
                        rs.update(
                            rs.len() - 1,
                            ComponentView { driver: Some(d), status: DriverStatus::Installed, ..rs.last() },
                        ),
                        true,
                    )
                } else {
                    (rs, open)
                },
                None => (rs, open),
            }
        } else {
            match id_record(l, DeviceType::Pci) {
                Some(c) => (rs.push(c), true),
                None => (rs, false),
            }
        }
    }
}

/// The driver a detail line names as in use.
pub fn parse_driver_in_use(line: &[u8]) -> (r: Option<Vec<u8>>)
    ensures
        match r {
            Some(v) => driver_in_use(line@) == Some(v@),
            None => driver_in_use(line@) is None,
        },
{
    let start = skip_blanks_exec(line, 0);
    let rest = slice_bytes(line, start, line.len());
    let key: Vec<u8> = vec![75u8, 101, 114, 110, 101, 108, 32, 100, 114, 105, 118, 101, 114, 32, 105, 110, 32, 117, 115, 101];
    assert(key@ =~= driver_key());
    parse_field(rest.as_slice(), key.as_slice())
}

/// The records of `lspci -nk` output, in order, with the drivers in use.
pub fn parse_pci(raw: &[u8]) -> (r: Vec<HardwareComponent>)
    ensures
        views(r@) == pci_scan(lines(raw@)).0,
{
    let ls = split_lines(raw);
    let ghost lv = byte_views(ls@);
    let mut r: Vec<HardwareComponent> = Vec::new();
    let mut open = false;
    let mut i: usize = 0;
    assert(lv.subrange(0, 0) =~= Seq::<Seq<u8>>::empty());
    while i < ls.len()
        invariant
            i <= ls@.len(),
            lv == byte_views(ls@),
            lv == lines(raw@),
            views(r@) == pci_scan(lv.subrange(0, i as int)).0,
            open == pci_scan(lv.subrange(0, i as int)).1,
            open ==> r@.len() > 0,
        decreases ls@.len() - i,
    {
        let ghost before = r@;
        assert(lv.subrange(0, i + 1).drop_last() =~= lv.subrange(0, i as int));
        assert(lv[i as int] == ls@[i as int]@);
        let line = ls[i].as_slice();
        if line.len() > 0 && is_blank_byte(line[0]) {
            match parse_driver_in_use(line) {
                Some(d) => {
                    if open {
                        let last = r.len() - 1;
                        let mut c = r[last].duplicate();
                        let ghost dv = d@;
                        c.driver = Some(d);
                        c.status = DriverStatus::Installed;
                        let ghost cv = c@;
                        r.set(last, c);
                        assert(views(r@) =~= views(before).update(last as int, cv));
                        assert(cv == (ComponentView {
                            driver: Some(dv),
                            status: DriverStatus::Installed,
                            ..views(before).last()
                        }));
                    }
                },
                None => {},
            }
        } else {
            match parse_id_line(line, DeviceType::Pci) {
                Some(c) => {
                    r.push(c);
                    assert(views(r@) =~= views(before).push(c@));
                    open = true;
                },
                None => {
                    open = false;
                },
            }
        }
        i = i + 1;
    }
    assert(lv.subrange(0, ls@.len() as int) =~= lv);
    r
}

/// A hardware source, each read by its own parser.
#[derive(Clone, Copy, Debug, PartialEq, Eq, Structural)]
pub enum Source {
    /// `lspci -nk` output.
    Pci,
    /// `lsusb` output.
    Usb,
    /// `/proc/cpuinfo` text.
    Cpu,
}

/// What the parser of `src` makes of raw output `raw`.
pub open spec fn source_records(src: Source, raw: Seq<u8>) -> Seq<ComponentView> {
    match src {
        Source::Pci => pci_scan(lines(raw)).0,
        Source::Usb => id_records(lines(raw), DeviceType::Usb),
        Source::Cpu => cpu_records(raw),
    }
}

impl Source {
    /// The sources, in the order their outputs enter the inventory.
    pub fn probe_order() -> (r: Vec<Source>)
        ensures
            r@ == seq![Source::Pci, Source::Usb, Source::Cpu],
    {
        let r = vec![Source::Pci, Source::Usb, Source::Cpu];
        assert(r@ =~= seq![Source::Pci, Source::Usb, Source::Cpu]);
        r
    }

    /// Parses the raw output of this source into records, in the order the
    /// output lists them. Never fails: unreadable records are dropped.
    pub fn parse(&self, raw: &[u8]) -> (r: Vec<HardwareComponent>)
        ensures
            views(r@) == source_records(*self, raw@),
    {
        match self {
            Source::Pci => parse_pci(raw),
            Source::Usb => parse_id_lines(raw, DeviceType::Usb),
            Source::Cpu => parse_cpu_info(raw),
        }
    }
}

} // verus!
