use vstd::prelude::*;

/// Resolution of the GPIO block's physical address from platform metadata.
pub mod devicetree;
/// Errors of the library.
pub mod error;
/// Pin modes, levels and the GPIO controller over a register page.
pub mod gpio;
/// Which page to map, and the display bus pin set-up.
pub mod mapping;
/// A page of 32-bit registers that records its accesses.
pub mod regs;
/// The bit-banged serial link to the display controller.
pub mod serial;

verus! {

} // verus!
