use vstd::prelude::*;

verus! {

/// Access rights of one mapped page: readable, writable, executable,
/// user-accessible.  Raw `port` words are parsed once, at the syscall
/// boundary, by [`perm_from_port`]; past that point an invalid
/// combination is unrepresentable.
#[derive(Clone, Copy, PartialEq, Eq, Structural, Debug)]
pub struct MapPermission {
    pub r: bool,
    pub w: bool,
    pub x: bool,
    pub u: bool,
}

/// A `port` word is valid when at least one of bits 0..2 is set and no
/// higher bit is set, i.e. it lies in `1..=7`.
pub open spec fn port_valid(port: usize) -> bool {
    1 <= port && port <= 7
}

/// The permission set a valid `port` encodes: bit 0 = R, bit 1 = W,
/// bit 2 = X; a user mapping always carries the U bit.
pub open spec fn spec_perm_of_port(port: usize) -> MapPermission {
    MapPermission {
        r: port % 2 == 1,
        w: (port / 2) % 2 == 1,
        x: (port / 4) % 2 == 1,
        u: true,
    }
}

/// Parses the raw `port` word of `mmap`; `None` exactly on the invalid
/// encodings (no permission bit at all, or a bit outside R/W/X).
pub fn perm_from_port(port: usize) -> (r: Option<MapPermission>)
    ensures
        r is Some <==> port_valid(port),
        port_valid(port) ==> r == Some(spec_perm_of_port(port)),
{
    match port {
        1 => Some(MapPermission { r: true, w: false, x: false, u: true }),
        2 => Some(MapPermission { r: false, w: true, x: false, u: true }),
        3 => Some(MapPermission { r: true, w: true, x: false, u: true }),
        4 => Some(MapPermission { r: false, w: false, x: true, u: true }),
        5 => Some(MapPermission { r: true, w: false, x: true, u: true }),
        6 => Some(MapPermission { r: false, w: true, x: true, u: true }),
        7 => Some(MapPermission { r: true, w: true, x: true, u: true }),
        _ => None,
    }
}

} // verus!
