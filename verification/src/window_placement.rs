//! Encoding of the main window's placement as registry DWORD values, and the
//! rules that decide which stored placements are usable.

use vstd::prelude::*;

verus! {

/// A restorable placement of the main window: its normal (restored) rectangle
/// in screen coordinates and whether it should come back maximized.
#[derive(Clone, Copy, Debug, PartialEq, Eq)]
pub struct SavedPlacement {
    pub left: i32,
    pub top: i32,
    pub right: i32,
    pub bottom: i32,
    pub is_maximized: bool,
}

/// The 32-bit two's complement pattern of a signed coordinate.
pub open spec fn coord_bits(coord: int) -> int {
    if coord >= 0 { coord } else { coord + 0x1_0000_0000 }
}

/// The signed coordinate whose two's complement pattern is `raw`.
pub open spec fn bits_coord(raw: int) -> int {
    if raw < 0x8000_0000 { raw } else { raw - 0x1_0000_0000 }
}

/// Stores a (possibly negative) coordinate in an unsigned DWORD without loss.
pub fn coord_to_u32(coord: i32) -> (raw: u32)
    ensures
        raw == coord_bits(coord as int),
{
    let raw = coord as u32;
    assert(raw == coord_bits(coord as int)) by (bit_vector)
        requires raw == coord as u32;
    raw
}

/// Reads back a coordinate stored by [`coord_to_u32`].
pub fn u32_to_coord(raw: u32) -> (coord: i32)
    ensures
        coord == bits_coord(raw as int),
{
    let coord = raw as i32;
    assert(coord == bits_coord(raw as int)) by (bit_vector)
        requires coord == raw as i32;
    coord
}

/// Registry location and value names under which the placement is kept.
pub const REGISTRY_SUBKEY: &'static str = "Software\\DeekFit\\Notepad Classic";
pub const VALUE_LEFT: &'static str = "WindowLeft";
pub const VALUE_TOP: &'static str = "WindowTop";
pub const VALUE_RIGHT: &'static str = "WindowRight";
pub const VALUE_BOTTOM: &'static str = "WindowBottom";
pub const VALUE_MAXIMIZED: &'static str = "WindowMaximized";

/// Show commands and placement flags of the Win32 `WINDOWPLACEMENT`.
pub const SW_SHOWNORMAL: u32 = 1;
pub const SW_SHOWMINIMIZED: u32 = 2;
pub const SW_SHOWMAXIMIZED: u32 = 3;
pub const SW_MAXIMIZE: u32 = 3;
pub const SW_MINIMIZE: u32 = 6;
pub const WPF_RESTORETOMAXIMIZED: u32 = 2;

/// A stored placement is usable when its rectangle has positive width and
/// height and its maximized flag is 0 or 1.
pub open spec fn valid_placement(left: i32, top: i32, right: i32, bottom: i32, maximized_raw: u32) -> bool {
    right > left && bottom > top && (maximized_raw == 0 || maximized_raw == 1)
}

pub fn is_valid_placement(left: i32, top: i32, right: i32, bottom: i32, maximized_raw: u32) -> (r: bool)
    ensures
        r == valid_placement(left, top, right, bottom, maximized_raw),
{
    right > left && bottom > top && (maximized_raw == 0 || maximized_raw == 1)
}

/// The placement that stored values describe, when they are usable.
pub fn validate_and_construct(
    left: i32,
    top: i32,
    right: i32,
    bottom: i32,
    maximized_raw: u32,
) -> (r: Option<SavedPlacement>)
    ensures
        r == (if valid_placement(left, top, right, bottom, maximized_raw) {
            Some(SavedPlacement { left, top, right, bottom, is_maximized: maximized_raw == 1 })
        } else {
            None
        }),
{
    if is_valid_placement(left, top, right, bottom, maximized_raw) {
        Some(SavedPlacement { left, top, right, bottom, is_maximized: maximized_raw == 1 })
    } else {
        None
    }
}

/// Whether a window in the given show state should come back maximized:
/// a maximized window does, and a minimized one does when it was maximized
/// before it was minimized.
pub open spec fn restores_maximized(show_cmd: u32, flags: u32) -> bool {
    if show_cmd == SW_SHOWMAXIMIZED || show_cmd == SW_MAXIMIZE {
        true
    } else if show_cmd == SW_SHOWMINIMIZED || show_cmd == SW_MINIMIZE {
        flags & WPF_RESTORETOMAXIMIZED != 0
    } else {
        false
    }
}

pub fn normalize_show_state(show_cmd: u32, flags: u32) -> (r: bool)
    ensures
        r == restores_maximized(show_cmd, flags),
{
    if show_cmd == SW_SHOWMAXIMIZED || show_cmd == SW_MAXIMIZE {
        true
    } else if show_cmd == SW_SHOWMINIMIZED || show_cmd == SW_MINIMIZE {
        (flags & WPF_RESTORETOMAXIMIZED) != 0
    } else {
        false
    }
}

/// The size in bytes of the Win32 `WINDOWPLACEMENT` structure.
pub const WINDOWPLACEMENT_SIZE: u32 = 44;

/// The fields of the Win32 `WINDOWPLACEMENT` that restore a saved placement.
#[derive(Clone, Copy, Debug, PartialEq, Eq)]
pub struct PlacementRequest {
    pub length: u32,
    pub flags: u32,
    pub show_cmd: u32,
    pub left: i32,
    pub top: i32,
    pub right: i32,
    pub bottom: i32,
}

pub fn to_window_placement(saved: &SavedPlacement) -> (r: PlacementRequest)
    ensures
        r == (PlacementRequest {
            length: WINDOWPLACEMENT_SIZE,
            flags: 0,
            show_cmd: if saved.is_maximized { SW_SHOWMAXIMIZED } else { SW_SHOWNORMAL },
            left: saved.left,
            top: saved.top,
            right: saved.right,
            bottom: saved.bottom,
        }),
{
    PlacementRequest {
        length: WINDOWPLACEMENT_SIZE,
        flags: 0,
        show_cmd: if saved.is_maximized { SW_SHOWMAXIMIZED } else { SW_SHOWNORMAL },
        left: saved.left,
        top: saved.top,
        right: saved.right,
        bottom: saved.bottom,
    }
}

/// The five DWORD registry values that hold a placement.
#[derive(Clone, Copy, Debug, PartialEq, Eq)]
pub struct RegistryValues {
    pub left: u32,
    pub top: u32,
    pub right: u32,
    pub bottom: u32,
    pub maximized: u32,
}

/// The placement described by the values read from the registry, when it is
/// usable.
pub fn placement_from_registry(values: RegistryValues) -> (r: Option<SavedPlacement>)
    ensures
        r == (if valid_placement(
            bits_coord(values.left as int) as i32,
            bits_coord(values.top as int) as i32,
            bits_coord(values.right as int) as i32,
            bits_coord(values.bottom as int) as i32,
            values.maximized,
        ) {
            Some(
                SavedPlacement {
                    left: bits_coord(values.left as int) as i32,
                    top: bits_coord(values.top as int) as i32,
                    right: bits_coord(values.right as int) as i32,
                    bottom: bits_coord(values.bottom as int) as i32,
                    is_maximized: values.maximized == 1,
                },
            )
        } else {
            None
        }),
{
    validate_and_construct(
        u32_to_coord(values.left),
        u32_to_coord(values.top),
        u32_to_coord(values.right),
        u32_to_coord(values.bottom),
        values.maximized,
    )
}

/// The values to store for a window's current placement (its show state
/// and restored rectangle); `None` when that placement is not worth
/// keeping.
pub fn registry_values_for(
    show_cmd: u32,
    flags: u32,
    left: i32,
    top: i32,
    right: i32,
    bottom: i32,
) -> (r: Option<RegistryValues>)
    ensures
        r == (if valid_placement(left, top, right, bottom, if restores_maximized(show_cmd, flags) { 1 } else { 0 }) {
            Some(
                RegistryValues {
                    left: coord_bits(left as int) as u32,
                    top: coord_bits(top as int) as u32,
                    right: coord_bits(right as int) as u32,
                    bottom: coord_bits(bottom as int) as u32,
                    maximized: if restores_maximized(show_cmd, flags) { 1 } else { 0 },
                },
            )
        } else {
            None
        }),
{
    let is_maximized = normalize_show_state(show_cmd, flags);
    let max_val: u32 = if is_maximized { 1 } else { 0 };
    if !is_valid_placement(left, top, right, bottom, max_val) {
        return None;
    }
    Some(
        RegistryValues {
            left: coord_to_u32(left),
            top: coord_to_u32(top),
            right: coord_to_u32(right),
            bottom: coord_to_u32(bottom),
            maximized: max_val,
        },
    )
}

/// A coordinate survives being stored in a DWORD and read back.
pub proof fn lemma_coord_round_trip(coord: i32)
    ensures
        bits_coord(coord_bits(coord as int)) == coord,
        0 <= coord_bits(coord as int) <= u32::MAX,
{
}

/// A stored DWORD survives being read as a coordinate and stored again.
pub proof fn lemma_raw_round_trip(raw: u32)
    ensures
        coord_bits(bits_coord(raw as int)) == raw,
        i32::MIN <= bits_coord(raw as int) <= i32::MAX,
{
}

/// Saving and loading a placement: whatever is saved for a window loads
/// back as its restored rectangle, maximized exactly when the window
/// should come back maximized.
pub proof fn lemma_saved_placement_loads_back(
    show_cmd: u32,
    flags: u32,
    left: i32,
    top: i32,
    right: i32,
    bottom: i32,
    values: RegistryValues,
)
    requires
        values == (RegistryValues {
            left: coord_bits(left as int) as u32,
            top: coord_bits(top as int) as u32,
            right: coord_bits(right as int) as u32,
            bottom: coord_bits(bottom as int) as u32,
            maximized: if restores_maximized(show_cmd, flags) { 1 } else { 0 },
        }),
    ensures
        bits_coord(values.left as int) == left,
        bits_coord(values.top as int) == top,
        bits_coord(values.right as int) == right,
        bits_coord(values.bottom as int) == bottom,
        (values.maximized == 1) == restores_maximized(show_cmd, flags),
{
}

} // verus!
