//! Data model of the telemetry core: measured quantities, the decoded
//! message shape, and the column set of the durable table.

use vstd::prelude::*;

verus! {

/// A non-negative fixed-point decimal quantity, stored in thousandths of a
/// unit. `Milli(1200)` is 1.2 units; `Milli(10000)` is 10 units.
///
/// Measurements (amperes of current, watt-hours of energy) arrive on the
/// wire as decimal numerals with at most three fraction digits, so
/// thousandths represent every accepted value exactly.
#[derive(Clone, Copy, Debug, PartialEq, Eq, Structural)]
pub struct Milli(pub u64);

/// Spec view of an optional byte string.
pub open spec fn opt_view(o: Option<Vec<u8>>) -> Option<Seq<u8>> {
    match o {
        Some(v) => Some(v@),
        None => None,
    }
}

/// Metadata block of a telemetry message: the reporting device. Textual
/// fields hold the UTF-8 bytes of the corresponding wire strings; the
/// friendly name is the device's key throughout the system.
#[derive(Debug)]
pub struct Device {
    pub friendly_name: Vec<u8>,
    pub ieee_addr: Option<Vec<u8>>,
    pub manufacturer_id: Option<u16>,
    pub manufacturer_name: Option<Vec<u8>>,
    pub model: Option<Vec<u8>>,
}

pub ghost struct DeviceView {
    pub friendly_name: Seq<u8>,
    pub ieee_addr: Option<Seq<u8>>,
    pub manufacturer_id: Option<u16>,
    pub manufacturer_name: Option<Seq<u8>>,
    pub model: Option<Seq<u8>>,
}

impl View for Device {
    type V = DeviceView;

    open spec fn view(&self) -> DeviceView {
        DeviceView {
            friendly_name: self.friendly_name@,
            ieee_addr: opt_view(self.ieee_addr),
            manufacturer_id: self.manufacturer_id,
            manufacturer_name: opt_view(self.manufacturer_name),
            model: opt_view(self.model),
        }
    }
}

/// One decoded telemetry message: the measurements a device reported,
/// together with its metadata block. `state` and `child_lock` are carried
/// through decoding but never persisted.
#[derive(Debug)]
pub struct Response {
    pub child_lock: Option<Vec<u8>>,
    pub current: Milli,
    pub device: Device,
    pub energy: Milli,
    pub power: u16,
    pub state: Option<Vec<u8>>,
    pub voltage: u16,
}

pub ghost struct ResponseView {
    pub child_lock: Option<Seq<u8>>,
    pub current: u64,
    pub device: DeviceView,
    pub energy: u64,
    pub power: u16,
    pub state: Option<Seq<u8>>,
    pub voltage: u16,
}

impl View for Response {
    type V = ResponseView;

    open spec fn view(&self) -> ResponseView {
        ResponseView {
            child_lock: opt_view(self.child_lock),
            current: self.current.0,
            device: self.device@,
            energy: self.energy.0,
            power: self.power,
            state: opt_view(self.state),
            voltage: self.voltage,
        }
    }
}

/// The persisted projection of a reading, as returned when the latest row
/// for a device is fetched back from the store.
#[derive(Debug)]
pub struct DeviceTableRow {
    pub friendly_name: Vec<u8>,
    pub current: Milli,
    pub energy: Milli,
    pub power: u16,
    pub voltage: u16,
}

pub ghost struct DeviceTableRowView {
    pub friendly_name: Seq<u8>,
    pub current: u64,
    pub energy: u64,
    pub power: u16,
    pub voltage: u16,
}

impl View for DeviceTableRow {
    type V = DeviceTableRowView;

    open spec fn view(&self) -> DeviceTableRowView {
        DeviceTableRowView {
            friendly_name: self.friendly_name@,
            current: self.current.0,
            energy: self.energy.0,
            power: self.power,
            voltage: self.voltage,
        }
    }
}

/// The durable table and its columns, by name. The storage layer outside
/// the library renders these identifiers into its schema and statements.
#[derive(Clone, Copy, Debug, PartialEq, Eq, Structural)]
pub enum DeviceTable {
    Table,
    Id,
    FriendlyName,
    Timestamp,
    Current,
    Energy,
    Power,
    Voltage,
}

impl DeviceTable {
    /// The identifier under which this column (or the table itself) is
    /// known in the durable schema.
    pub open spec fn spec_identifier(self) -> Seq<char> {
        match self {
            DeviceTable::Table => "device_table"@,
            DeviceTable::Id => "id"@,
            DeviceTable::FriendlyName => "friendly_name"@,
            DeviceTable::Timestamp => "timestamp"@,
            DeviceTable::Current => "current"@,
            DeviceTable::Energy => "energy"@,
            DeviceTable::Power => "power"@,
            DeviceTable::Voltage => "voltage"@,
        }
    }

    pub fn identifier(&self) -> (r: &'static str)
        ensures
            r@ == self.spec_identifier(),
    {
        match self {
            DeviceTable::Table => "device_table",
            DeviceTable::Id => "id",
            DeviceTable::FriendlyName => "friendly_name",
            DeviceTable::Timestamp => "timestamp",
            DeviceTable::Current => "current",
            DeviceTable::Energy => "energy",
            DeviceTable::Power => "power",
            DeviceTable::Voltage => "voltage",
        }
    }
}

/// A wire text is printable ASCII without the two JSON string
/// metacharacters; such bytes pass through the codec unescaped.
pub open spec fn valid_text_byte(b: u8) -> bool {
    0x20 <= b && b <= 0x7e && b != 0x22 && b != 0x5c
}

pub open spec fn valid_text(s: Seq<u8>) -> bool {
    forall|i: int| 0 <= i < s.len() ==> valid_text_byte(#[trigger] s[i])
}

pub open spec fn valid_opt_text(o: Option<Seq<u8>>) -> bool {
    match o {
        Some(s) => valid_text(s),
        None => true,
    }
}

/// A well-formed device block: a non-empty friendly name, and every
/// textual field made of wire text bytes.
pub open spec fn wf_device(d: DeviceView) -> bool {
    &&& d.friendly_name.len() > 0
    &&& valid_text(d.friendly_name)
    &&& valid_opt_text(d.ieee_addr)
    &&& valid_opt_text(d.manufacturer_name)
    &&& valid_opt_text(d.model)
}

/// A well-formed reading: its device block is well formed and its loose
/// textual fields are wire text.
pub open spec fn wf_response(r: ResponseView) -> bool {
    &&& wf_device(r.device)
    &&& valid_opt_text(r.child_lock)
    &&& valid_opt_text(r.state)
}

/// Byte-for-byte copy of a byte string.
pub fn copy_bytes(v: &Vec<u8>) -> (r: Vec<u8>)
    ensures
        r@ == v@,
{
    let mut r: Vec<u8> = Vec::new();
    let mut i: usize = 0;
    while i < v.len()
        invariant
            0 <= i <= v.len(),
            r@ == v@.subrange(0, i as int),
        decreases v.len() - i,
    {
        r.push(v[i]);
        i = i + 1;
    }
    assert(r@ =~= v@);
    r
}

/// Copy of an optional byte string.
pub fn copy_opt_bytes(v: &Option<Vec<u8>>) -> (r: Option<Vec<u8>>)
    ensures
        opt_view(r) == opt_view(*v),
{
    match v {
        Some(b) => Some(copy_bytes(b)),
        None => None,
    }
}

impl Device {
    /// A copy with the same view.
    pub fn duplicate(&self) -> (r: Device)
        ensures
            r@ == self@,
    {
        Device {
            friendly_name: copy_bytes(&self.friendly_name),
            ieee_addr: copy_opt_bytes(&self.ieee_addr),
            manufacturer_id: self.manufacturer_id,
            manufacturer_name: copy_opt_bytes(&self.manufacturer_name),
            model: copy_opt_bytes(&self.model),
        }
    }
}

impl Response {
    /// A copy with the same view.
    pub fn duplicate(&self) -> (r: Response)
        ensures
            r@ == self@,
    {
        Response {
            child_lock: copy_opt_bytes(&self.child_lock),
            current: self.current,
            device: self.device.duplicate(),
            energy: self.energy,
            power: self.power,
            state: copy_opt_bytes(&self.state),
            voltage: self.voltage,
        }
    }
}

impl DeviceTableRow {
    /// A copy with the same view.
    pub fn duplicate(&self) -> (r: DeviceTableRow)
        ensures
            r@ == self@,
    {
        DeviceTableRow {
            friendly_name: copy_bytes(&self.friendly_name),
            current: self.current,
            energy: self.energy,
            power: self.power,
            voltage: self.voltage,
        }
    }
}

} // verus!
