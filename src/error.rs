use vstd::prelude::*;

verus! {

/// Status code of an NVMe completion that reports a full zone.
pub const ZONE_FULL_STATUS: u16 = 0xB9;

/// Errors returned by the translation layer.
#[derive(Debug, Clone, Copy, PartialEq, Eq, Structural)]
pub enum FtlError {
    /// A construction parameter is out of range, or the namespace is not zoned.
    InvalidParam,
    /// The addressed range ends past the last exposed logical block.
    OutOfBounds,
    /// A logical block that is read has no physical block behind it.
    NotMapped,
    /// No open zone could be obtained for a write.
    NoFreeZones,
    /// The device completed a command with a non-zero status.
    DeviceError { status_code: u16 },
    /// The device completed a zone append with the zone-full status.
    ZoneFull,
    /// The requested victim selection method is not supported.
    Unsupported,
    /// No full or free zone starts at the given block.
    ZoneNotFound,
    /// The device or a caller broke an assumption the mapping depends on.
    Fatal,
}

} // verus!
