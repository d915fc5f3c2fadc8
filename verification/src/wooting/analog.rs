//! What the analog SDK reports of a connected keyboard.
use vstd::prelude::*;

verus! {

/// The keycode modes the analog SDK can report keys in; this tool always
/// asks for HID usage codes.
#[derive(Debug, Clone, Copy, PartialEq, Eq, Structural)]
pub enum KeycodeType {
    Hid,
    ScanCode1,
    VirtualKey,
    VirtualKeyTranslate,
}

impl KeycodeType {
    /// The number the SDK takes for this mode.
    pub fn code(self) -> (r: i32)
        ensures
            r == match self {
                KeycodeType::Hid => 0i32,
                KeycodeType::ScanCode1 => 1i32,
                KeycodeType::VirtualKey => 2i32,
                KeycodeType::VirtualKeyTranslate => 3i32,
            },
    {
        match self {
            KeycodeType::Hid => 0,
            KeycodeType::ScanCode1 => 1,
            KeycodeType::VirtualKey => 2,
            KeycodeType::VirtualKeyTranslate => 3,
        }
    }
}

/// One connected Wooting keyboard.
#[derive(Debug, Clone)]
pub struct DeviceInfo {
    pub vendor_id: u16,
    pub product_id: u16,
    pub manufacturer: String,
    pub name: String,
    pub id: u64,
    pub kind: i32,
}

} // verus!
