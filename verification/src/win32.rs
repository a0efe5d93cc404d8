//! Plain data shapes of the SetupAPI / HID class driver structures and the
//! status codes the lister branches on.
use vstd::prelude::*;

verus! {

/// `ERROR_INSUFFICIENT_BUFFER`: the expected result of a size-probing call.
pub const ERROR_INSUFFICIENT_BUFFER: u32 = 122;

/// `ERROR_NO_MORE_ITEMS`: the natural end of a device interface enumeration.
pub const ERROR_NO_MORE_ITEMS: u32 = 259;

/// Share flag: others may read the device concurrently.
pub const FILE_SHARE_READ: u32 = 0x0000_0001;

/// Share flag: others may write the device concurrently.
pub const FILE_SHARE_WRITE: u32 = 0x0000_0002;

/// Open the device only if it already exists.
pub const OPEN_EXISTING: u32 = 3;

/// Access right for reading input reports.
pub const GENERIC_READ: u32 = 0x8000_0000;

/// Only devices that are currently attached and enabled.
pub const DIGCF_PRESENT: u32 = 0x0000_0002;

/// Enumerate device interfaces of an interface class.
pub const DIGCF_DEVICEINTERFACE: u32 = 0x0000_0010;

/// Registry property: the device's friendly description.
pub const SPDRP_DEVICEDESC: u32 = 0x0000_0000;

/// The only `HidP_GetCaps` status meaning the capabilities were filled in.
pub const HIDP_STATUS_SUCCESS: i32 = 0x0011_0000;

/// A 16-byte Windows GUID.
#[derive(Clone, Copy)]
pub struct GUID {
    pub Data1: u32,
    pub Data2: u16,
    pub Data3: u16,
    pub Data4: [u8; 8],
}

impl GUID {
    /// The all-zero GUID.
    pub open spec fn is_zero(self) -> bool {
        &&& self.Data1 == 0
        &&& self.Data2 == 0
        &&& self.Data3 == 0
        &&& forall|i: int| 0 <= i < 8 ==> #[trigger] self.Data4@[i] == 0
    }
}

impl Default for GUID {
    fn default() -> (g: GUID)
        ensures
            g.is_zero(),
    {
        GUID { Data1: 0, Data2: 0, Data3: 0, Data4: [0u8, 0, 0, 0, 0, 0, 0, 0] }
    }
}

/// The size of the interface and device node records of a device information
/// set: a `u32`, a 16-byte GUID, a `u32` and a pointer-sized field, so 32 bytes
/// on 64-bit targets and 28 on 32-bit ones.
fn set_record_size() -> (n: u32)
    ensures
        n == (if usize::BITS == 64 { 32u32 } else { 28u32 }),
{
    if usize::BITS == 64 {
        32
    } else {
        28
    }
}

/// One device interface out of a device information set.
#[derive(Clone, Copy)]
pub struct SP_DEVICE_INTERFACE_DATA {
    pub cbSize: u32,
    pub InterfaceClassGuid: GUID,
    pub Flags: u32,
    pub Reserved: usize,
}

impl SP_DEVICE_INTERFACE_DATA {
    /// Zeroed except for the `cbSize` stamp, the size the SDK gives the C
    /// structure: 32 bytes on 64-bit targets, 28 on 32-bit ones.
    pub fn new() -> (d: Self)
        ensures
            d.cbSize == (if usize::BITS == 64 { 32u32 } else { 28u32 }),
            d.InterfaceClassGuid.is_zero(),
            d.Flags == 0,
            d.Reserved == 0,
    {
        Self {
            cbSize: set_record_size(),
            InterfaceClassGuid: GUID::default(),
            Flags: 0,
            Reserved: 0,
        }
    }
}

/// One device node inside a device information set.
#[derive(Clone, Copy)]
pub struct SP_DEVINFO_DATA {
    pub cbSize: u32,
    pub ClassGuid: GUID,
    pub DevInst: u32,
    pub Reserved: usize,
}

impl SP_DEVINFO_DATA {
    /// Zeroed except for the `cbSize` stamp, the size the SDK gives the C
    /// structure: 32 bytes on 64-bit targets, 28 on 32-bit ones.
    pub fn new() -> (d: Self)
        ensures
            d.cbSize == (if usize::BITS == 64 { 32u32 } else { 28u32 }),
            d.ClassGuid.is_zero(),
            d.DevInst == 0,
            d.Reserved == 0,
    {
        Self {
            cbSize: set_record_size(),
            ClassGuid: GUID::default(),
            DevInst: 0,
            Reserved: 0,
        }
    }
}

/// Header of the variable-length interface detail record; the path runs on
/// past `DevicePath` for as many units as the record was allocated with.
pub struct SP_DEVICE_INTERFACE_DETAIL_DATA_W {
    pub cbSize: u32,
    pub DevicePath: [u16; 1],
}

/// The `cbSize` the SDK header gives the interface detail record: it is packed,
/// so a `u32` plus one `u16` takes 6 bytes on 32-bit targets and 8 on 64-bit ones.
pub fn detail_data_cb_size() -> (n: u32)
    ensures
        n == (if usize::BITS == 64 { 8u32 } else { 6u32 }),
{
    if usize::BITS == 64 {
        8
    } else {
        6
    }
}

/// Vendor ID, product ID and version of an opened HID device.
#[derive(Clone, Copy)]
pub struct HIDD_ATTRIBUTES {
    pub Size: u32,
    pub VendorID: u16,
    pub ProductID: u16,
    pub VersionNumber: u16,
}

impl HIDD_ATTRIBUTES {
    /// Zeroed except for the `Size` stamp, the size the SDK gives the C
    /// structure: 12 bytes on every target.
    pub fn new() -> (a: Self)
        ensures
            a.Size == 12,
            a.VendorID == 0,
            a.ProductID == 0,
            a.VersionNumber == 0,
    {
        Self {
            Size: 12,
            VendorID: 0,
            ProductID: 0,
            VersionNumber: 0,
        }
    }
}

/// Capability summary of a HID top-level collection.
#[derive(Clone, Copy)]
pub struct HIDP_CAPS {
    pub Usage: u16,
    pub UsagePage: u16,
    pub InputReportByteLength: u16,
    pub OutputReportByteLength: u16,
    pub FeatureReportByteLength: u16,
    pub Reserved: [u16; 17],
    pub NumberLinkCollectionNodes: u16,
    pub NumberInputButtonCaps: u16,
    pub NumberInputValueCaps: u16,
    pub NumberInputDataIndices: u16,
    pub NumberOutputButtonCaps: u16,
    pub NumberOutputValueCaps: u16,
    pub NumberOutputDataIndices: u16,
    pub NumberFeatureButtonCaps: u16,
    pub NumberFeatureValueCaps: u16,
    pub NumberFeatureDataIndices: u16,
}

impl HIDP_CAPS {
    /// The fields the lister reads are all zero.
    pub open spec fn reads_zero(self) -> bool {
        &&& self.Usage == 0
        &&& self.UsagePage == 0
        &&& self.InputReportByteLength == 0
        &&& self.OutputReportByteLength == 0
        &&& self.FeatureReportByteLength == 0
    }

    /// Every field is zero.
    pub open spec fn is_zero(self) -> bool {
        &&& self.reads_zero()
        &&& forall|i: int| 0 <= i < 17 ==> #[trigger] self.Reserved@[i] == 0
        &&& self.NumberLinkCollectionNodes == 0
        &&& self.NumberInputButtonCaps == 0
        &&& self.NumberInputValueCaps == 0
        &&& self.NumberInputDataIndices == 0
        &&& self.NumberOutputButtonCaps == 0
        &&& self.NumberOutputValueCaps == 0
        &&& self.NumberOutputDataIndices == 0
        &&& self.NumberFeatureButtonCaps == 0
        &&& self.NumberFeatureValueCaps == 0
        &&& self.NumberFeatureDataIndices == 0
    }
}

impl Default for HIDP_CAPS {
    fn default() -> (c: HIDP_CAPS)
        ensures
            c.is_zero(),
    {
        HIDP_CAPS {
            Usage: 0,
            UsagePage: 0,
            InputReportByteLength: 0,
            OutputReportByteLength: 0,
            FeatureReportByteLength: 0,
            Reserved: [0u16, 0, 0, 0, 0, 0, 0, 0, 0, 0, 0, 0, 0, 0, 0, 0, 0],
            NumberLinkCollectionNodes: 0,
            NumberInputButtonCaps: 0,
            NumberInputValueCaps: 0,
            NumberInputDataIndices: 0,
            NumberOutputButtonCaps: 0,
            NumberOutputValueCaps: 0,
            NumberOutputDataIndices: 0,
            NumberFeatureButtonCaps: 0,
            NumberFeatureValueCaps: 0,
            NumberFeatureDataIndices: 0,
        }
    }
}

} // verus!
