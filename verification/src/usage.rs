//! Names for the HID usage pages and usages that show up on a typical PC.
//!
//! Only the pages and usages likely to appear when enumerating an ordinary
//! computer are named; anything else stays raw hex in the listing, so these
//! tables only ever add a friendly label next to the numbers.
use vstd::prelude::*;
use vstd::string::*;

verus! {

/// The usage page table: the name of `page`, if it is a known one. Every
/// page in the vendor-defined block `0xFF00..=0xFFFF` has the same name.
pub open spec fn page_label(page: u16) -> Option<Seq<char>> {
    if page == 0x01 {
        Some("Generic Desktop"@)
    } else if page == 0x02 {
        Some("Simulation Controls"@)
    } else if page == 0x03 {
        Some("VR Controls"@)
    } else if page == 0x04 {
        Some("Sport Controls"@)
    } else if page == 0x05 {
        Some("Game Controls"@)
    } else if page == 0x06 {
        Some("Generic Device Controls"@)
    } else if page == 0x07 {
        Some("Keyboard/Keypad"@)
    } else if page == 0x08 {
        Some("LED"@)
    } else if page == 0x09 {
        Some("Button"@)
    } else if page == 0x0A {
        Some("Ordinal"@)
    } else if page == 0x0B {
        Some("Telephony Device"@)
    } else if page == 0x0C {
        Some("Consumer"@)
    } else if page == 0x0D {
        Some("Digitizer"@)
    } else if page == 0x0E {
        Some("Haptics"@)
    } else if page == 0x0F {
        Some("Physical Input Device"@)
    } else if page == 0x10 {
        Some("Unicode"@)
    } else if page == 0x11 {
        Some("SoC"@)
    } else if page == 0x12 {
        Some("Eye and Head Tracker"@)
    } else if page == 0x14 {
        Some("Auxiliary Display"@)
    } else if page == 0x20 {
        Some("Sensor"@)
    } else if page == 0x40 {
        Some("Medical Instrument"@)
    } else if page == 0x41 {
        Some("Braille Display"@)
    } else if page == 0x59 {
        Some("Lighting and Illumination"@)
    } else if page == 0x84 {
        Some("Power Device"@)
    } else if page == 0x85 {
        Some("Battery System"@)
    } else if page == 0x8C {
        Some("Bar Code Scanner"@)
    } else if page == 0x8D {
        Some("Scale"@)
    } else if page == 0x8E {
        Some("Magnetic Stripe Reader"@)
    } else if page == 0x90 {
        Some("Camera Control"@)
    } else if page == 0x91 {
        Some("Arcade"@)
    } else if page == 0x92 {
        Some("Gaming Device"@)
    } else if page == 0xF1D0 {
        Some("FIDO Alliance"@)
    } else if 0xFF00 <= page {
        Some("Vendor-defined"@)
    } else {
        None
    }
}

/// The usage table: the name of `usage` within `page`, if it is a known pair.
pub open spec fn usage_label(page: u16, usage: u16) -> Option<Seq<char>> {
    if page == 0x01 && usage == 0x01 {
        Some("Pointer"@)
    } else if page == 0x01 && usage == 0x02 {
        Some("Mouse"@)
    } else if page == 0x01 && usage == 0x04 {
        Some("Joystick"@)
    } else if page == 0x01 && usage == 0x05 {
        Some("Gamepad"@)
    } else if page == 0x01 && usage == 0x06 {
        Some("Keyboard"@)
    } else if page == 0x01 && usage == 0x07 {
        Some("Keypad"@)
    } else if page == 0x01 && usage == 0x08 {
        Some("Multi-axis Controller"@)
    } else if page == 0x01 && usage == 0x09 {
        Some("Tablet PC System Controls"@)
    } else if page == 0x01 && usage == 0x0A {
        Some("Water Cooling Device"@)
    } else if page == 0x01 && usage == 0x0B {
        Some("Computer Chassis Device"@)
    } else if page == 0x01 && usage == 0x0C {
        Some("Wireless Radio Controls"@)
    } else if page == 0x01 && usage == 0x0D {
        Some("Portable Device Control"@)
    } else if page == 0x01 && usage == 0x0E {
        Some("System Multi-Axis Controller"@)
    } else if page == 0x01 && usage == 0x0F {
        Some("Spatial Controller"@)
    } else if page == 0x01 && usage == 0x80 {
        Some("System Control"@)
    } else if page == 0x0B && usage == 0x01 {
        Some("Phone"@)
    } else if page == 0x0B && usage == 0x05 {
        Some("Headset"@)
    } else if page == 0x0C && usage == 0x01 {
        Some("Consumer Control"@)
    } else if page == 0x0D && usage == 0x01 {
        Some("Digitizer"@)
    } else if page == 0x0D && usage == 0x02 {
        Some("Pen"@)
    } else if page == 0x0D && usage == 0x04 {
        Some("Touch Screen"@)
    } else if page == 0x0D && usage == 0x05 {
        Some("Touch Pad"@)
    } else if page == 0x0D && usage == 0x0E {
        Some("Device Configuration"@)
    } else if page == 0x12 && usage == 0x01 {
        Some("Eye Tracker"@)
    } else if page == 0x12 && usage == 0x02 {
        Some("Head Tracker"@)
    } else if page == 0xF1D0 && usage == 0x01 {
        Some("U2F Authenticator Device"@)
    } else {
        None
    }
}

/// Human-readable name for a usage page, if it is one we know.
pub fn page_name(page: u16) -> (name: Option<&'static str>)
    ensures
        match name {
            Some(s) => page_label(page) == Some(s@),
            None => page_label(page) is None,
        },
{
    match page {
        0x01 => Some("Generic Desktop"),
        0x02 => Some("Simulation Controls"),
        0x03 => Some("VR Controls"),
        0x04 => Some("Sport Controls"),
        0x05 => Some("Game Controls"),
        0x06 => Some("Generic Device Controls"),
        0x07 => Some("Keyboard/Keypad"),
        0x08 => Some("LED"),
        0x09 => Some("Button"),
        0x0A => Some("Ordinal"),
        0x0B => Some("Telephony Device"),
        0x0C => Some("Consumer"),
        0x0D => Some("Digitizer"),
        0x0E => Some("Haptics"),
        0x0F => Some("Physical Input Device"),
        0x10 => Some("Unicode"),
        0x11 => Some("SoC"),
        0x12 => Some("Eye and Head Tracker"),
        0x14 => Some("Auxiliary Display"),
        0x20 => Some("Sensor"),
        0x40 => Some("Medical Instrument"),
        0x41 => Some("Braille Display"),
        0x59 => Some("Lighting and Illumination"),
        0x84 => Some("Power Device"),
        0x85 => Some("Battery System"),
        0x8C => Some("Bar Code Scanner"),
        0x8D => Some("Scale"),
        0x8E => Some("Magnetic Stripe Reader"),
        0x90 => Some("Camera Control"),
        0x91 => Some("Arcade"),
        0x92 => Some("Gaming Device"),
        0xF1D0 => Some("FIDO Alliance"),
        0xFF00..=0xFFFF => Some("Vendor-defined"),
        _ => None,
    }
}

/// Human-readable name for a usage within its page, if it is one we know.
/// Usage IDs only mean something relative to their page, so the lookup is
/// keyed on the pair.
pub fn usage_name(page: u16, usage: u16) -> (name: Option<&'static str>)
    ensures
        match name {
            Some(s) => usage_label(page, usage) == Some(s@),
            None => usage_label(page, usage) is None,
        },
{
    match (page, usage) {
        (0x01, 0x01) => Some("Pointer"),
        (0x01, 0x02) => Some("Mouse"),
        (0x01, 0x04) => Some("Joystick"),
        (0x01, 0x05) => Some("Gamepad"),
        (0x01, 0x06) => Some("Keyboard"),
        (0x01, 0x07) => Some("Keypad"),
        (0x01, 0x08) => Some("Multi-axis Controller"),
        (0x01, 0x09) => Some("Tablet PC System Controls"),
        (0x01, 0x0A) => Some("Water Cooling Device"),
        (0x01, 0x0B) => Some("Computer Chassis Device"),
        (0x01, 0x0C) => Some("Wireless Radio Controls"),
        (0x01, 0x0D) => Some("Portable Device Control"),
        (0x01, 0x0E) => Some("System Multi-Axis Controller"),
        (0x01, 0x0F) => Some("Spatial Controller"),
        (0x01, 0x80) => Some("System Control"),
        (0x0B, 0x01) => Some("Phone"),
        (0x0B, 0x05) => Some("Headset"),
        (0x0C, 0x01) => Some("Consumer Control"),
        (0x0D, 0x01) => Some("Digitizer"),
        (0x0D, 0x02) => Some("Pen"),
        (0x0D, 0x04) => Some("Touch Screen"),
        (0x0D, 0x05) => Some("Touch Pad"),
        (0x0D, 0x0E) => Some("Device Configuration"),
        (0x12, 0x01) => Some("Eye Tracker"),
        (0x12, 0x02) => Some("Head Tracker"),
        (0xF1D0, 0x01) => Some("U2F Authenticator Device"),
        _ => None,
    }
}

/// What `describe` says of a page and usage: `"<page> / <usage>"` when both
/// are known, the page name alone when only it is, nothing otherwise.
pub open spec fn description(page: u16, usage: u16) -> Option<Seq<char>> {
    match (page_label(page), usage_label(page, usage)) {
        (Some(p), Some(u)) => Some(p + " / "@ + u),
        (Some(p), None) => Some(p),
        _ => None,
    }
}

/// `"Generic Desktop / Keyboard"`, degrading to just the page or to nothing.
pub fn describe(page: u16, usage: u16) -> (d: Option<String>)
    ensures
        match d {
            Some(s) => description(page, usage) == Some(s@),
            None => description(page, usage) is None,
        },
{
    match (page_name(page), usage_name(page, usage)) {
        (Some(p), Some(u)) => {
            let mut s = String::from_str(p);
            s.append(" / ");
            s.append(u);
            Some(s)
        },
        (Some(p), None) => Some(String::from_str(p)),
        _ => None,
    }
}

/// Every page of the block `0xFF00..=0xFFFF` that the HID specification
/// reserves for vendors is named "Vendor-defined".
pub proof fn vendor_block_is_vendor_defined(page: u16)
    requires
        0xFF00 <= page,
    ensures
        page_label(page) == Some("Vendor-defined"@),
{
}

/// A usage is only ever named within a page that is itself named, so a
/// description is available exactly when the page is known, and it always
/// starts with the page name.
pub proof fn descriptions_start_with_the_page(page: u16, usage: u16)
    ensures
        usage_label(page, usage) is Some ==> page_label(page) is Some,
        description(page, usage) is Some <==> page_label(page) is Some,
        description(page, usage) matches Some(d) ==> d.len() >= page_label(page)->0.len()
            && d.subrange(0, page_label(page)->0.len() as int) == page_label(page)->0,
{
    if let Some(d) = description(page, usage) {
        let p = page_label(page)->0;
        if let Some(u) = usage_label(page, usage) {
            assert((p + " / "@ + u).subrange(0, p.len() as int) =~= p);
        } else {
            assert(d.subrange(0, p.len() as int) =~= p);
        }
    }
}

} // verus!
