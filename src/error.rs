use vstd::prelude::*;

verus! {

/// The ways in which bringing up the display interface can fail.
#[derive(Clone, Copy, Debug, PartialEq, Eq, Structural)]
pub enum GpioError {
    /// The process does not run with the rights needed to map physical memory.
    Privilege,
    /// Neither memory device can be used.
    DeviceUnavailable,
    /// The mapping of the register page failed.
    Mapping,
    /// Platform metadata is absent where it is needed, or malformed.
    MetadataParse,
    /// No entry of the ranges table covers the GPIO block.
    AddressNotFound,
    /// A pin index outside the supported range.
    InvalidPin,
}

} // verus!
