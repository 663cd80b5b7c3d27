use vstd::prelude::*;

use crate::devicetree::{find_host_peripheral_address, peripheral_base_spec, DeviceTree};
use crate::error::GpioError;
use crate::gpio::{PinMode, PinOp};

verus! {

/// Offset of the GPIO block within the peripheral region.
pub const GPIO_BLOCK_OFFSET: u64 = 0x20_0000;

/// The device through which the register page is mapped.
#[derive(Clone, Copy, Debug, PartialEq, Eq, Structural)]
pub enum MemoryDevice {
    /// The GPIO-only device, usable without full privilege; its page starts at
    /// the GPIO block.
    GpioMem,
    /// The device of all physical memory.
    Mem,
}

/// One page to map: the device, and the byte offset into it.
#[derive(Clone, Copy, Debug, PartialEq, Eq, Structural)]
pub struct MapRequest {
    pub device: MemoryDevice,
    pub offset: u64,
}

/// The first way to reach the registers: the GPIO-only device at offset 0.
pub fn gpiomem_request() -> (r: MapRequest)
    ensures
        r == (MapRequest { device: MemoryDevice::GpioMem, offset: 0 }),
{
    MapRequest { device: MemoryDevice::GpioMem, offset: 0 }
}

/// Where the GPIO page lies in physical memory, given the peripheral base.
pub open spec fn mem_request_spec(dt: DeviceTree) -> Result<MapRequest, GpioError> {
    match peripheral_base_spec(dt) {
        Err(e) => Err(e),
        Ok(base) => if base + GPIO_BLOCK_OFFSET <= u64::MAX {
            Ok(MapRequest { device: MemoryDevice::Mem, offset: (base + GPIO_BLOCK_OFFSET) as u64 })
        } else {
            Err(GpioError::Mapping)
        },
    }
}

/// The fallback way to reach the registers: physical memory at the GPIO
/// block, whose address the platform metadata gives.
pub fn mem_request(dt: &DeviceTree) -> (r: Result<MapRequest, GpioError>)
    ensures
        r == mem_request_spec(*dt),
{
    let base = match find_host_peripheral_address(dt) {
        Ok(b) => b,
        Err(e) => return Err(e),
    };
    if base > u64::MAX - GPIO_BLOCK_OFFSET {
        return Err(GpioError::Mapping);
    }
    Ok(MapRequest { device: MemoryDevice::Mem, offset: base + GPIO_BLOCK_OFFSET })
}

/// Pin `i` of the parallel display bus: pins 0-9, 12-17 and 20-25.
pub open spec fn dpi_pin(i: int) -> u32 {
    if i < 10 {
        i as u32
    } else if i < 16 {
        (i + 2) as u32
    } else {
        (i + 4) as u32
    }
}

/// Pins of the parallel display bus.
pub const DPI_PIN_COUNT: usize = 22;

/// Every pin of the parallel display bus switched to its display function.
pub open spec fn dpi_spec() -> Seq<PinOp> {
    Seq::new(DPI_PIN_COUNT as nat, |i: int| PinOp::Mode { pin: dpi_pin(i), mode: PinMode::Alt2 })
}

/// The operations that hand the parallel display bus pins to the display
/// controller.
pub fn dpi_ops() -> (r: Vec<PinOp>)
    ensures
        r@ == dpi_spec(),
{
    let mut out: Vec<PinOp> = Vec::new();
    let mut pin: u32 = 0;
    while pin < 26
        invariant
            pin <= 26,
            pin != 10 && pin != 11 && pin != 18 && pin != 19,
            out@.len() == if pin < 10 {
                pin as int
            } else if pin < 18 {
                pin - 2
            } else {
                pin - 4
            },
            forall|i: int|
                0 <= i < out@.len() ==> #[trigger] out@[i] == (PinOp::Mode {
                    pin: dpi_pin(i),
                    mode: PinMode::Alt2,
                }),
        decreases 26 - pin,
    {
        out.push(PinOp::Mode { pin, mode: PinMode::Alt2 });
        pin = if pin == 9 {
            12
        } else if pin == 17 {
            20
        } else {
            pin + 1
        };
    }
    assert(out@ =~= dpi_spec());
    out
}

} // verus!
