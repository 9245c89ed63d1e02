//! Strategy and map data: the values loaded once from configuration at run
//! start and read-only thereafter.
//!
//! Coordinates are modeled as integer pixels. Every loaded value is held to a
//! well-formedness bound chosen so that all coordinate arithmetic in the
//! executor stays far inside `i64`; a configuration outside those bounds is
//! malformed and is rejected at load time.

use vstd::prelude::*;

verus! {

/// Largest accepted pixel coordinate or boundary in a configuration.
pub const COORD_LIMIT: i64 = 0x4000_0000;

/// Largest accepted grid cell size in pixels.
pub const CELL_LIMIT: i64 = 0x1_0000;

/// Largest accepted grid coordinate or footprint extent in cells.
pub const GRID_LIMIT: usize = 0x1_0000;

/// Largest accepted on-screen coordinate (fits the actuator's 16-bit range).
pub const SCREEN_LIMIT: i64 = 0xFFFF;

/// One entry of the loadout/trap configuration: a symbolic building name and
/// the screen position of its selection button.
pub struct TrapConfigItem {
    pub name: String,
    pub select_pos: [i64; 2],
}

impl TrapConfigItem {
    /// The selection button must be a real on-screen position.
    pub open spec fn wf(&self) -> bool {
        &&& 0 <= self.select_pos[0] <= SCREEN_LIMIT
        &&& 0 <= self.select_pos[1] <= SCREEN_LIMIT
    }
}

/// Map metadata: the affine transform from grid coordinates to absolute
/// pixel coordinates, and the lowest scrollable pixel boundary.
#[derive(Clone, Copy, Debug)]
pub struct MapMeta {
    /// Side of one grid cell, in pixels.
    pub grid_pixel_size: i64,
    /// Pixel x of the grid origin.
    pub offset_x: i64,
    /// Pixel y of the grid origin.
    pub offset_y: i64,
    /// Lowest scrollable pixel boundary of the map.
    pub bottom: i64,
}

impl MapMeta {
    pub open spec fn wf(&self) -> bool {
        &&& 1 <= self.grid_pixel_size <= CELL_LIMIT
        &&& 0 <= self.offset_x <= COORD_LIMIT
        &&& 0 <= self.offset_y <= COORD_LIMIT
        &&& 0 <= self.bottom <= COORD_LIMIT
    }
}

/// One scheduled building placement.
pub struct BuildingExport {
    /// Stable unique id, the key of the placement ledger.
    pub uid: usize,
    /// Symbolic name; resolves to a hotkey via the active loadout.
    pub name: String,
    pub grid_x: usize,
    pub grid_y: usize,
    /// Footprint width in grid cells.
    pub width: usize,
    /// Footprint height in grid cells.
    pub height: usize,
    /// Wave on which the placement is scheduled.
    pub wave_num: i32,
    /// False for the early phase of the wave, true for the late phase.
    pub is_late: bool,
}

impl BuildingExport {
    pub open spec fn wf(&self) -> bool {
        &&& self.grid_x <= GRID_LIMIT
        &&& self.grid_y <= GRID_LIMIT
        &&& self.width <= GRID_LIMIT
        &&& self.height <= GRID_LIMIT
    }
}

/// One scheduled upgrade, identified by building name, wave and phase.
pub struct UpgradeEvent {
    pub building_name: String,
    pub wave_num: i32,
    pub is_late: bool,
}

/// One scheduled demolition; same shape as a placement.
pub struct DemolishEvent {
    /// Stable unique id, the key of the demolition ledger.
    pub uid: usize,
    pub name: String,
    pub grid_x: usize,
    pub grid_y: usize,
    pub width: usize,
    pub height: usize,
    pub wave_num: i32,
    pub is_late: bool,
}

impl DemolishEvent {
    pub open spec fn wf(&self) -> bool {
        &&& self.grid_x <= GRID_LIMIT
        &&& self.grid_y <= GRID_LIMIT
        &&& self.width <= GRID_LIMIT
        &&& self.height <= GRID_LIMIT
    }
}

/// Terrain file contents: map name and its metadata.
pub struct MapTerrainExport {
    pub map_name: String,
    pub meta: MapMeta,
}

/// Strategy file contents: the full scheduled timeline.
pub struct MapBuildingsExport {
    pub map_name: String,
    pub buildings: Vec<BuildingExport>,
    pub upgrades: Vec<UpgradeEvent>,
    pub demolishes: Vec<DemolishEvent>,
}

/// A single recognized wave reading.
#[derive(PartialEq, Eq, Structural, Clone, Copy, Debug)]
pub struct WaveStatus {
    pub current_wave: i32,
}

/// A configuration that could not be accepted at load time.
#[derive(PartialEq, Eq, Structural, Clone, Copy, Debug)]
pub enum ConfigError {
    /// A coordinate, extent or boundary lies outside the accepted bounds.
    OutOfRange,
    /// A scene transition names a target scene id that does not exist.
    DanglingTarget,
    /// A color anchor's expected value is not a well-formed color string.
    BadColor,
}

} // verus!
