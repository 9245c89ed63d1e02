//! The wave-synchronized strategy executor.
//!
//! [`TowerDefenseApp`] owns the loaded timeline, the idempotency ledgers, the
//! camera state and the wave state machine. Its methods never touch the
//! device: each one computes a plan of [`DeviceAction`]s for the driver to
//! perform, updates the ledgers at planning time (fire-and-forget, as
//! designed), and keeps the camera model in step with the commanded motion.

use vstd::prelude::*;

use crate::actions::DeviceAction;
use crate::strategy::{
    BuildingExport, ConfigError, DemolishEvent, MapBuildingsExport, MapMeta, MapTerrainExport,
    TrapConfigItem, UpgradeEvent, WaveStatus, COORD_LIMIT, GRID_LIMIT, SCREEN_LIMIT,
};

verus! {

/// Smallest commanded camera motion, in pixels; a remaining delta below this
/// is treated as residual error and left alone.
pub const MIN_MOTION: i64 = 5;

/// Fixed camera scroll speed assumed by the motion model, in pixels/second.
pub const SCROLL_SPEED: i64 = 720;

/// Seconds a key is held to trigger an upgrade.
pub const UPGRADE_HOLD_MS: u64 = 800;

/// The stock 1920x1080 screen layout.
pub open spec fn stock_config() -> TDConfig {
    TDConfig {
        hud_check_rect: [262i64, 16, 389, 97],
        hud_wave_loop_rect: [352i64, 279, 503, 360],
        safe_zone: [200i64, 200, 1720, 880],
        screen_width: 1920,
        screen_height: 1080,
    }
}

/// Static screen-layout configuration of the executor.
pub struct TDConfig {
    /// Region of the wave counter before battle starts.
    pub hud_check_rect: [i64; 4],
    /// Region of the wave counter during battle (visible while toggled).
    pub hud_wave_loop_rect: [i64; 4],
    /// Rectangle `[x1, y1, x2, y2]` inside which pointer actions are safe.
    pub safe_zone: [i64; 4],
    pub screen_width: i64,
    pub screen_height: i64,
}

impl TDConfig {
    pub open spec fn wf(&self) -> bool {
        &&& 0 <= self.safe_zone[0] <= self.safe_zone[2] <= SCREEN_LIMIT
        &&& 0 <= self.safe_zone[1] <= self.safe_zone[3] <= SCREEN_LIMIT
        &&& 1 <= self.screen_width <= SCREEN_LIMIT + 1
        &&& 1 <= self.screen_height <= SCREEN_LIMIT + 1
    }
}

impl Default for TDConfig {
    /// The stock 1920x1080 layout.
    fn default() -> (c: TDConfig)
        ensures
            c == stock_config(),
            c.wf(),
    {
        let c = TDConfig {
            hud_check_rect: [262, 16, 389, 97],
            hud_wave_loop_rect: [352, 279, 503, 360],
            safe_zone: [200, 200, 1720, 880],
            screen_width: 1920,
            screen_height: 1080,
        };
        assert(c.safe_zone[0] == 200 && c.safe_zone[1] == 200 && c.safe_zone[2] == 1720
            && c.safe_zone[3] == 880);
        c
    }
}

/// Highest camera offset the map allows: the camera cannot scroll past the
/// map's bottom boundary.
pub open spec fn max_offset_y_spec(meta: MapMeta, cfg: TDConfig) -> int {
    if meta.bottom - cfg.screen_height >= 0 {
        meta.bottom - cfg.screen_height
    } else {
        0
    }
}

/// Pixel coordinate of the centroid of a footprint along one axis:
/// `offset + (grid + extent / 2) * cell`, kept in integers as
/// `offset + ((2 * grid + extent) * cell) / 2`.
pub open spec fn axis_pixel(offset: int, cell: int, grid: int, extent: int) -> int {
    offset + ((2 * grid + extent) * cell) / 2
}

/// The wave-synchronized strategy executor's whole run state.
pub struct TowerDefenseApp {
    pub config: TDConfig,
    pub map_meta: Option<MapMeta>,

    pub strategy_buildings: Vec<BuildingExport>,
    pub strategy_upgrades: Vec<UpgradeEvent>,
    pub strategy_demolishes: Vec<DemolishEvent>,

    /// Ledger of placements already issued, by uid.
    pub placed_uids: Vec<usize>,
    /// Ledger of upgrades already issued, keyed by (name, wave, phase).
    pub completed_upgrades: Vec<UpgradeEvent>,
    /// Ledger of demolitions already issued, by uid.
    pub completed_demolish_uids: Vec<usize>,

    pub last_confirmed_wave: i32,
    /// Timestamp (caller-supplied milliseconds) of the last confirmed wave
    /// transition.
    pub last_wave_change_ms: u64,
    /// Cool-down between accepted wave transitions, in seconds.
    pub min_wave_interval_secs: u64,

    pub trap_lookup: Vec<TrapConfigItem>,
    pub active_loadout: Vec<String>,
    pub camera_offset_x: i64,
    pub camera_offset_y: i64,
    pub move_speed: i64,
}

impl TowerDefenseApp {
    /// Everything the executor's arithmetic relies on: loaded values are in
    /// bounds and the camera offset respects the map's scroll range.
    pub open spec fn wf(&self) -> bool {
        &&& self.config.wf()
        &&& (self.map_meta matches Some(m) ==> m.wf())
        &&& forall|i: int|
            0 <= i < self.strategy_buildings@.len() ==> (#[trigger] self.strategy_buildings@[i]).wf()
        &&& forall|i: int|
            0 <= i < self.strategy_demolishes@.len() ==> (
            #[trigger] self.strategy_demolishes@[i]).wf()
        &&& forall|i: int|
            0 <= i < self.trap_lookup@.len() ==> (#[trigger] self.trap_lookup@[i]).wf()
        &&& 0 <= self.last_confirmed_wave
        &&& 1 <= self.move_speed <= 100_000
        &&& 0 <= self.camera_offset_x <= PIXEL_LIMIT
        &&& 0 <= self.camera_offset_y <= PIXEL_LIMIT
        &&& (self.map_meta matches Some(m) ==> self.camera_offset_y <= max_offset_y_spec(
            m,
            self.config,
        ))
    }

    /// A fresh executor: stock layout, no map, empty timeline, empty
    /// ledgers and loadout, wave zero with the clock at zero and the
    /// one-minute cool-down, camera at the origin, stock scroll speed.
    pub fn new() -> (app: TowerDefenseApp)
        ensures
            app.wf(),
            app.config == stock_config(),
            app.map_meta is None,
            app.last_confirmed_wave == 0,
            app.last_wave_change_ms == 0,
            app.min_wave_interval_secs == 60,
            app.trap_lookup@ == Seq::<TrapConfigItem>::empty(),
            app.active_loadout@ == Seq::<String>::empty(),
            app.camera_offset_x == 0,
            app.camera_offset_y == 0,
            app.move_speed == SCROLL_SPEED,
            app@ == (ExecutorView {
                buildings: Seq::<BuildingExport>::empty(),
                upgrades: Seq::<UpgradeEvent>::empty(),
                demolishes: Seq::<DemolishEvent>::empty(),
                placed: Set::<usize>::empty(),
                upgraded: Set::<(Seq<char>, int, bool)>::empty(),
                demolished: Set::<usize>::empty(),
            }),
    {
        let app = TowerDefenseApp {
            config: TDConfig::default(),
            map_meta: None,
            strategy_buildings: Vec::new(),
            strategy_upgrades: Vec::new(),
            strategy_demolishes: Vec::new(),
            placed_uids: Vec::new(),
            completed_upgrades: Vec::new(),
            completed_demolish_uids: Vec::new(),
            last_confirmed_wave: 0,
            last_wave_change_ms: 0,
            min_wave_interval_secs: 60,
            trap_lookup: Vec::new(),
            active_loadout: Vec::new(),
            camera_offset_x: 0,
            camera_offset_y: 0,
            move_speed: SCROLL_SPEED,
        };
        proof {
            assert(app@.placed =~= Set::<usize>::empty());
            assert(app@.upgraded =~= Set::<(Seq<char>, int, bool)>::empty());
            assert(app@.demolished =~= Set::<usize>::empty());
        }
        app
    }

    /// The timeline and ledger state the contracts speak of.
    pub open spec fn view(&self) -> ExecutorView {
        ExecutorView {
            buildings: self.strategy_buildings@,
            upgrades: self.strategy_upgrades@,
            demolishes: self.strategy_demolishes@,
            placed: self.placed_uids@.to_set(),
            upgraded: self.completed_upgrades@.map_values(|u: UpgradeEvent| upgrade_key(u)).to_set(),
            demolished: self.completed_demolish_uids@.to_set(),
        }
    }

    /// Install a loaded strategy timeline.
    ///
    /// Accepted exactly when every placement and demolition footprint is in
    /// bounds; a rejected timeline leaves the state untouched.
    pub fn load_strategy(&mut self, data: MapBuildingsExport) -> (r: Result<(), ConfigError>)
        requires
            old(self).wf(),
        ensures
            final(self).wf(),
            r is Ok <==> (forall|i: int|
                0 <= i < data.buildings@.len() ==> (#[trigger] data.buildings@[i]).wf())
                && (forall|i: int|
                0 <= i < data.demolishes@.len() ==> (#[trigger] data.demolishes@[i]).wf()),
            r is Ok ==> *final(self) == (TowerDefenseApp {
                strategy_buildings: data.buildings,
                strategy_upgrades: data.upgrades,
                strategy_demolishes: data.demolishes,
                ..*old(self)
            }),
            r is Err ==> *final(self) == *old(self) && r == Err::<(), ConfigError>(ConfigError::OutOfRange),
    {
        let ok_b = all_buildings_wf(&data.buildings);
        let ok_d = all_demolishes_wf(&data.demolishes);
        if ok_b && ok_d {
            self.strategy_buildings = data.buildings;
            self.strategy_upgrades = data.upgrades;
            self.strategy_demolishes = data.demolishes;
            Ok(())
        } else {
            Err(ConfigError::OutOfRange)
        }
    }

    /// Install loaded map metadata and rehome the camera to the origin.
    ///
    /// Accepted exactly when the metadata is in bounds; a rejected file
    /// leaves the state untouched.
    pub fn load_map_terrain(&mut self, data: MapTerrainExport) -> (r: Result<(), ConfigError>)
        requires
            old(self).wf(),
        ensures
            final(self).wf(),
            r is Ok <==> data.meta.wf(),
            r is Ok ==> *final(self) == (TowerDefenseApp {
                map_meta: Some(data.meta),
                camera_offset_x: 0i64,
                camera_offset_y: 0i64,
                ..*old(self)
            }),
            r is Err ==> *final(self) == *old(self) && r == Err::<(), ConfigError>(ConfigError::OutOfRange),
    {
        let m = &data.meta;
        if 1 <= m.grid_pixel_size && m.grid_pixel_size <= crate::strategy::CELL_LIMIT && 0
            <= m.offset_x && m.offset_x <= COORD_LIMIT && 0 <= m.offset_y && m.offset_y
            <= COORD_LIMIT && 0 <= m.bottom && m.bottom <= COORD_LIMIT {
            self.map_meta = Some(data.meta);
            self.camera_offset_x = 0;
            self.camera_offset_y = 0;
            Ok(())
        } else {
            Err(ConfigError::OutOfRange)
        }
    }

    /// Merge the loadout/trap configuration into the lookup. New entries are
    /// appended, so a later entry wins on lookup over an earlier one with
    /// the same name, and entries loaded earlier under other names survive.
    ///
    /// Accepted exactly when every selection position is on screen; a
    /// rejected file leaves the state untouched.
    pub fn load_trap_config(&mut self, items: Vec<TrapConfigItem>) -> (r: Result<(), ConfigError>)
        requires
            old(self).wf(),
        ensures
            final(self).wf(),
            r is Ok <==> (forall|i: int| 0 <= i < items@.len() ==> (#[trigger] items@[i]).wf()),
            r is Ok ==> *final(self) == (TowerDefenseApp {
                trap_lookup: final(self).trap_lookup,
                ..*old(self)
            }) && final(self).trap_lookup@ == old(self).trap_lookup@ + items@,
            r is Err ==> *final(self) == *old(self) && r == Err::<(), ConfigError>(ConfigError::OutOfRange),
    {
        if all_traps_wf(&items) {
            let mut fresh = items;
            self.trap_lookup.append(&mut fresh);
            proof {
                assert forall|i: int|
                    0 <= i < self.trap_lookup@.len() implies (
                #[trigger] self.trap_lookup@[i]).wf() by {
                    if i < old(self).trap_lookup@.len() {
                        assert(self.trap_lookup@[i] == old(self).trap_lookup@[i]);
                    }
                }
            }
            Ok(())
        } else {
            Err(ConfigError::OutOfRange)
        }
    }

    /// Absolute pixel target of a footprint: its centroid under the map's
    /// affine transform. `None` exactly when no map metadata is loaded.
    pub fn get_absolute_map_pixel(&self, gx: usize, gy: usize, w: usize, h: usize) -> (r: Option<
        (i64, i64),
    >)
        requires
            self.wf(),
            gx <= GRID_LIMIT,
            gy <= GRID_LIMIT,
            w <= GRID_LIMIT,
            h <= GRID_LIMIT,
        ensures
            r is Some <==> self.map_meta is Some,
            self.map_meta matches Some(m) ==> r == Some(
                (
                    axis_pixel(m.offset_x as int, m.grid_pixel_size as int, gx as int, w as int)
                        as i64,
                    axis_pixel(m.offset_y as int, m.grid_pixel_size as int, gy as int, h as int)
                        as i64,
                ),
            ),
    {
        match &self.map_meta {
            None => None,
            Some(m) => {
                proof {
                    assert(self.map_meta matches Some(mm) && mm == *m);
                    assert(m.wf());
                    lemma_mul_range(
                        2 * (gx as int) + (w as int),
                        3 * GRID_LIMIT as int,
                        m.grid_pixel_size as int,
                        crate::strategy::CELL_LIMIT as int,
                    );
                    lemma_mul_range(
                        2 * (gy as int) + (h as int),
                        3 * GRID_LIMIT as int,
                        m.grid_pixel_size as int,
                        crate::strategy::CELL_LIMIT as int,
                    );
                }
                let sx = m.offset_x + ((2 * (gx as i64) + (w as i64)) * m.grid_pixel_size) / 2;
                let sy = m.offset_y + ((2 * (gy as i64) + (h as i64)) * m.grid_pixel_size) / 2;
                Some((sx, sy))
            },
        }
    }

    /// The hotkey bound to a building name: position in the active loadout
    /// selects among the loadout keys, an unknown name falls back to the
    /// first slot.
    pub fn get_trap_key(&self, name: &String) -> (k: char)
        ensures
            k == trap_key_spec(self.spec_loadout(), name@),
    {
        let mut i: usize = 0;
        let mut found: usize = 0;
        let mut have: bool = false;
        while i < self.active_loadout.len()
            invariant
                i <= self.active_loadout@.len(),
                !have ==> found == 0,
                !have ==> forall|j: int|
                    0 <= j < i ==> (#[trigger] self.active_loadout@[j])@ != name@,
                have ==> loadout_index(self.spec_loadout(), name@) == found as int,
                have ==> found < self.active_loadout@.len(),
            decreases self.active_loadout@.len() - i,
        {
            if !have {
                if self.active_loadout[i].eq(name) {
                    found = i;
                    have = true;
                    proof {
                        lemma_loadout_index_found(self.spec_loadout(), name@, i as int);
                    }
                }
            }
            i += 1;
        }
        proof {
            if !have {
                lemma_loadout_index_missing(self.spec_loadout(), name@);
            }
        }
        slot_key(found)
    }

    pub open spec fn spec_loadout(&self) -> Seq<Seq<char>> {
        self.active_loadout@.map_values(|s: String| s@)
    }

    /// Adopt the loadout for this run, in order.
    pub fn set_active_loadout(&mut self, names: Vec<String>)
        requires
            old(self).wf(),
        ensures
            final(self).wf(),
            *final(self) == (TowerDefenseApp { active_loadout: names, ..*old(self) }),
    {
        self.active_loadout = names;
    }

    /// Change the wave cool-down (the monitor's `min_interval`).
    pub fn set_min_wave_interval_secs(&mut self, secs: u64)
        requires
            old(self).wf(),
        ensures
            final(self).wf(),
            *final(self) == (TowerDefenseApp { min_wave_interval_secs: secs, ..*old(self) }),
    {
        self.min_wave_interval_secs = secs;
    }
}

/// Largest pixel coordinate the camera logic accepts as a target; every
/// centroid of a well-formed footprint on a well-formed map lies below it.
pub const PIXEL_LIMIT: i64 = 0x10_0000_0000;

pub open spec fn abs_i(x: int) -> int {
    if x >= 0 {
        x
    } else {
        -x
    }
}

pub open spec fn clamp_i(x: int, lo: int, hi: int) -> int {
    if x < lo {
        lo
    } else if x > hi {
        hi
    } else {
        x
    }
}

/// The target row is visible inside the safe zone's vertical bounds.
pub open spec fn in_safe_zone_y(cfg: TDConfig, cam: int, ty: int) -> bool {
    cfg.safe_zone[1] <= ty - cam <= cfg.safe_zone[3]
}

/// The target lies within one viewport of the map's bottom boundary, where
/// incremental centering can never converge.
pub open spec fn bottom_zone(cfg: TDConfig, meta: MapMeta, ty: int) -> bool {
    ty > meta.bottom - (cfg.screen_height - cfg.safe_zone[1])
}

/// Vertical midpoint of the safe zone.
pub open spec fn safe_center_y(cfg: TDConfig) -> int {
    (cfg.safe_zone[1] + cfg.safe_zone[3]) / 2
}

/// The camera offset the correction settles on: unchanged when the target is
/// already visible or the remaining delta is below [`MIN_MOTION`]; the
/// maximum offset in the bottom zone; otherwise the clamped centering
/// offset.
pub open spec fn ensure_visible_offset(cfg: TDConfig, meta: MapMeta, cam: int, ty: int) -> int {
    if in_safe_zone_y(cfg, cam, ty) {
        cam
    } else {
        let target = if bottom_zone(cfg, meta, ty) {
            max_offset_y_spec(meta, cfg)
        } else {
            clamp_i(cam + ((ty - cam) - safe_center_y(cfg)), 0, max_offset_y_spec(meta, cfg))
        };
        if abs_i(target - cam) < MIN_MOTION {
            cam
        } else {
            target
        }
    }
}

/// The commands the correction issues: one directional hold converted from
/// pixels to milliseconds at `speed` pixels/second, then a settle wait; or
/// nothing where no motion is commanded.
pub open spec fn ensure_visible_script(
    cfg: TDConfig,
    meta: MapMeta,
    cam: int,
    ty: int,
    speed: int,
) -> Seq<DeviceAction> {
    if in_safe_zone_y(cfg, cam, ty) {
        Seq::empty()
    } else {
        let target = if bottom_zone(cfg, meta, ty) {
            max_offset_y_spec(meta, cfg)
        } else {
            clamp_i(cam + ((ty - cam) - safe_center_y(cfg)), 0, max_offset_y_spec(meta, cfg))
        };
        let dist = target - cam;
        if abs_i(dist) < MIN_MOTION {
            Seq::empty()
        } else {
            seq![
                DeviceAction::KeyHold {
                    key: if dist > 0 {
                        's'
                    } else {
                        'w'
                    },
                    ms: (abs_i(dist) * 1000 / speed) as u64,
                },
                DeviceAction::Wait { ms: 400 },
            ]
        }
    }
}

impl TowerDefenseApp {
    /// Scroll the camera so that the pixel row `ty` ends up inside the safe
    /// zone, following the two-policy correction: snap to the maximum offset
    /// in the bottom zone, otherwise one clamped centering motion. The
    /// horizontal offset is deliberately never corrected.
    ///
    /// The returned plan holds the directional key-hold to perform; the
    /// camera model is updated optimistically, assuming the commanded motion
    /// is exactly realized.
    pub fn ensure_target_in_safe_zone(&mut self, _tx: i64, ty: i64) -> (plan: Vec<DeviceAction>)
        requires
            old(self).wf(),
            0 <= ty <= PIXEL_LIMIT,
        ensures
            final(self).wf(),
            *final(self) == (TowerDefenseApp {
                camera_offset_y: final(self).camera_offset_y,
                ..*old(self)
            }),
            old(self).map_meta is None ==> final(self).camera_offset_y == old(
                self,
            ).camera_offset_y && plan@ == Seq::<DeviceAction>::empty(),
            old(self).map_meta matches Some(m) ==> {
                &&& final(self).camera_offset_y == ensure_visible_offset(
                    old(self).config,
                    m,
                    old(self).camera_offset_y as int,
                    ty as int,
                )
                &&& plan@ == ensure_visible_script(
                    old(self).config,
                    m,
                    old(self).camera_offset_y as int,
                    ty as int,
                    old(self).move_speed as int,
                )
            },
            // The offset always lands inside the scrollable range.
            old(self).map_meta matches Some(m) ==> 0 <= final(self).camera_offset_y
                <= max_offset_y_spec(m, old(self).config),
            // One call in the bottom zone snaps straight to the maximum
            // offset, unless the target was already visible or the remaining
            // delta was residual.
            old(self).map_meta matches Some(m) ==> ((bottom_zone(old(self).config, m, ty as int)
                && !in_safe_zone_y(old(self).config, old(self).camera_offset_y as int, ty as int)
                && abs_i(
                max_offset_y_spec(m, old(self).config) - old(self).camera_offset_y,
            ) >= MIN_MOTION) ==> final(self).camera_offset_y == max_offset_y_spec(
                m,
                old(self).config,
            )),
    {
        let mut plan: Vec<DeviceAction> = Vec::new();
        let meta = match &self.map_meta {
            Some(m) => *m,
            None => {
                return plan;
            },
        };
        let z_y1 = self.config.safe_zone[1];
        let z_y2 = self.config.safe_zone[3];
        let max_off = if meta.bottom - self.config.screen_height >= 0 {
            meta.bottom - self.config.screen_height
        } else {
            0
        };
        let is_bottom = ty > meta.bottom - (self.config.screen_height - z_y1);
        let ghost moved: bool = false;
        loop
            invariant_except_break
                self.map_meta == Some(meta),
                meta.wf(),
                old(self).wf(),
                self.config == old(self).config,
                self.move_speed == old(self).move_speed,
                *self == (TowerDefenseApp { camera_offset_y: self.camera_offset_y, ..*old(self) }),
                z_y1 == self.config.safe_zone[1],
                z_y2 == self.config.safe_zone[3],
                max_off as int == max_offset_y_spec(meta, self.config),
                is_bottom == bottom_zone(self.config, meta, ty as int),
                0 <= ty <= PIXEL_LIMIT,
                0 <= self.camera_offset_y <= max_off,
                !moved ==> self.camera_offset_y == old(self).camera_offset_y && plan@
                    == Seq::<DeviceAction>::empty(),
                moved ==> self.camera_offset_y == ensure_visible_offset(
                    self.config,
                    meta,
                    old(self).camera_offset_y as int,
                    ty as int,
                ) && plan@ == ensure_visible_script(
                    self.config,
                    meta,
                    old(self).camera_offset_y as int,
                    ty as int,
                    self.move_speed as int,
                ),
                moved ==> !is_bottom,
            ensures
                self.map_meta == Some(meta),
                *self == (TowerDefenseApp { camera_offset_y: self.camera_offset_y, ..*old(self) }),
                self.camera_offset_y as int == ensure_visible_offset(
                    old(self).config,
                    meta,
                    old(self).camera_offset_y as int,
                    ty as int,
                ),
                plan@ == ensure_visible_script(
                    old(self).config,
                    meta,
                    old(self).camera_offset_y as int,
                    ty as int,
                    old(self).move_speed as int,
                ),
                0 <= self.camera_offset_y as int <= max_offset_y_spec(meta, old(self).config),
            decreases (if moved {
                0int
            } else {
                1int
            }),
        {
            let rel_y = ty - self.camera_offset_y;
            if z_y1 <= rel_y && rel_y <= z_y2 {
                break ;
            }
            let target_offset = if is_bottom {
                max_off
            } else {
                let raw = self.camera_offset_y + (rel_y - (z_y1 + z_y2) / 2);
                if raw < 0 {
                    0
                } else if raw > max_off {
                    max_off
                } else {
                    raw
                }
            };
            let dist = target_offset - self.camera_offset_y;
            let abs_dist = if dist >= 0 {
                dist
            } else {
                -dist
            };
            if abs_dist < MIN_MOTION {
                break ;
            }
            let key = if dist > 0 {
                's'
            } else {
                'w'
            };
            let hold_ms = (abs_dist * 1000 / self.move_speed) as u64;
            plan.push(DeviceAction::KeyHold { key, ms: hold_ms });
            plan.push(DeviceAction::Wait { ms: 400 });
            self.camera_offset_y = target_offset;
            proof {
                moved = true;
            }
            if is_bottom {
                break ;
            }
        }
        plan
    }
}

impl TowerDefenseApp {
    /// Parse one recognition sample of the wave HUD region. An empty or
    /// unmatched text is "no signal this cycle", never an error. The reveal
    /// key choreography around the sample is the driver's concern; this
    /// method sees only the recognized text.
    pub fn recognize_wave_status(&self, text: &str) -> (r: Option<WaveStatus>)
        ensures
            r is Some <==> crate::wave::wave_of_text(text@) is Some,
            r matches Some(ws) ==> crate::wave::wave_of_text(text@) == Some(ws.current_wave)
                && ws.current_wave >= 0,
    {
        match crate::wave::parse_wave_text(text) {
            Some(v) => Some(WaveStatus { current_wave: v }),
            None => None,
        }
    }

    /// Accept or reject a raw wave detection.
    ///
    /// Accepted exactly when the detection is the direct successor of the
    /// last confirmed wave and either the cool-down has elapsed or no wave
    /// was ever confirmed. Acceptance advances the confirmed wave and resets
    /// the cool-down timer; rejection changes nothing. The confirmed wave
    /// never decreases.
    pub fn validate_wave_transition(&mut self, detected_wave: i32, now_ms: u64) -> (accepted:
        bool)
        requires
            old(self).wf(),
            now_ms >= old(self).last_wave_change_ms,
        ensures
            final(self).wf(),
            accepted == wave_transition_accepted(
                old(self).last_confirmed_wave as int,
                old(self).last_wave_change_ms as int,
                old(self).min_wave_interval_secs as int,
                detected_wave as int,
                now_ms as int,
            ),
            accepted ==> *final(self) == (TowerDefenseApp {
                last_confirmed_wave: detected_wave,
                last_wave_change_ms: now_ms,
                ..*old(self)
            }),
            !accepted ==> *final(self) == *old(self),
            final(self).last_confirmed_wave >= old(self).last_confirmed_wave,
    {
        let elapsed_secs = (now_ms - self.last_wave_change_ms) / 1000;
        let is_next_wave = (detected_wave as i64) == (self.last_confirmed_wave as i64) + 1;
        let is_long_enough = elapsed_secs >= self.min_wave_interval_secs || self.last_confirmed_wave
            == 0;
        if is_next_wave && is_long_enough {
            self.last_confirmed_wave = detected_wave;
            self.last_wave_change_ms = now_ms;
            true
        } else {
            false
        }
    }
}

/// A raw detection is accepted exactly when it is the direct successor of
/// the last confirmed wave and either the cool-down has elapsed or no wave
/// was ever confirmed.
pub open spec fn wave_transition_accepted(
    last: int,
    last_ms: int,
    min_secs: int,
    detected: int,
    now_ms: int,
) -> bool {
    detected == last + 1 && ((now_ms - last_ms) / 1000 >= min_secs || last == 0)
}

/// Horizontal pixel of a footprint's centroid.
pub open spec fn map_pixel_x(meta: MapMeta, gx: int, w: int) -> int {
    axis_pixel(meta.offset_x as int, meta.grid_pixel_size as int, gx, w)
}

/// Vertical pixel of a footprint's centroid.
pub open spec fn map_pixel_y(meta: MapMeta, gy: int, h: int) -> int {
    axis_pixel(meta.offset_y as int, meta.grid_pixel_size as int, gy, h)
}

/// A well-formed footprint on a well-formed map lands inside the accepted
/// pixel range.
pub proof fn lemma_axis_pixel_in_range(offset: int, cell: int, grid: int, extent: int)
    requires
        0 <= offset <= COORD_LIMIT,
        1 <= cell <= crate::strategy::CELL_LIMIT,
        0 <= grid <= GRID_LIMIT,
        0 <= extent <= GRID_LIMIT,
    ensures
        0 <= axis_pixel(offset, cell, grid, extent) <= PIXEL_LIMIT,
{
    lemma_mul_range(
        2 * grid + extent,
        3 * GRID_LIMIT as int,
        cell,
        crate::strategy::CELL_LIMIT as int,
    );
}

/// On-screen x of an absolute pixel under the current camera, clamped into
/// the safe interaction rectangle.
pub open spec fn screen_x(cfg: TDConfig, cam_x: int, px: int) -> int {
    clamp_i(px - cam_x, cfg.safe_zone[0] as int, cfg.safe_zone[2] as int)
}

/// On-screen y of an absolute pixel under the current camera, clamped into
/// the safe interaction rectangle.
pub open spec fn screen_y(cfg: TDConfig, cam_y: int, py: int) -> int {
    clamp_i(py - cam_y, cfg.safe_zone[1] as int, cfg.safe_zone[3] as int)
}

/// The plan one demolition contributes, and the camera offset it leaves
/// behind: scroll the target into view, move there, click, then press the
/// demolish key.
pub open spec fn demolish_step(
    cfg: TDConfig,
    meta: MapMeta,
    speed: int,
    cam_x: int,
    cam_y: int,
    d: DemolishEvent,
) -> (Seq<DeviceAction>, int) {
    let px = map_pixel_x(meta, d.grid_x as int, d.width as int);
    let py = map_pixel_y(meta, d.grid_y as int, d.height as int);
    let cam2 = ensure_visible_offset(cfg, meta, cam_y, py);
    let script = ensure_visible_script(cfg, meta, cam_y, py, speed) + seq![
        DeviceAction::MoveTo { x: screen_x(cfg, cam_x, px) as i64, y: screen_y(cfg, cam2, py) as i64, ms: 400 },
        DeviceAction::Click,
        DeviceAction::Wait { ms: 150 },
        DeviceAction::KeyClick { key: 'p' },
        DeviceAction::Wait { ms: 300 },
    ];
    (script, cam2)
}

/// Plan of a whole demolition list, threading the camera offset through the
/// items in order.
pub open spec fn demolish_fold(
    cfg: TDConfig,
    meta: MapMeta,
    speed: int,
    cam_x: int,
    cam_y: int,
    items: Seq<DemolishEvent>,
) -> (Seq<DeviceAction>, int)
    decreases items.len(),
{
    if items.len() == 0 {
        (Seq::empty(), cam_y)
    } else {
        let (s1, c1) = demolish_step(cfg, meta, speed, cam_x, cam_y, items[0]);
        let (s2, c2) = demolish_fold(cfg, meta, speed, cam_x, c1, items.drop_first());
        (s1 + s2, c2)
    }
}

proof fn lemma_demolish_fold_snoc(
    cfg: TDConfig,
    meta: MapMeta,
    speed: int,
    cam_x: int,
    cam_y: int,
    items: Seq<DemolishEvent>,
    x: DemolishEvent,
)
    ensures
        demolish_fold(cfg, meta, speed, cam_x, cam_y, items.push(x)) == {
            let (s1, c1) = demolish_fold(cfg, meta, speed, cam_x, cam_y, items);
            let (s2, c2) = demolish_step(cfg, meta, speed, cam_x, c1, x);
            (s1 + s2, c2)
        },
    decreases items.len(),
{
    let whole = items.push(x);
    reveal_with_fuel(demolish_fold, 3);
    if items.len() == 0 {
        assert(whole[0] == x);
        assert(whole.drop_first() =~= Seq::<DemolishEvent>::empty());
        let (s1, c1) = demolish_step(cfg, meta, speed, cam_x, cam_y, x);
        assert(demolish_fold(cfg, meta, speed, cam_x, cam_y, whole).0 =~= s1);
        assert(demolish_fold(cfg, meta, speed, cam_x, cam_y, items).0 + s1 =~= s1);
    } else {
        assert(whole[0] == items[0]);
        assert(whole.drop_first() =~= items.drop_first().push(x));
        let (s1, c1) = demolish_step(cfg, meta, speed, cam_x, cam_y, items[0]);
        lemma_demolish_fold_snoc(cfg, meta, speed, cam_x, c1, items.drop_first(), x);
        let (t1, d1) = demolish_fold(cfg, meta, speed, cam_x, c1, items.drop_first());
        let (t2, d2) = demolish_step(cfg, meta, speed, cam_x, d1, x);
        assert(s1 + (t1 + t2) =~= (s1 + t1) + t2);
    }
}

impl TowerDefenseApp {
    /// Plan the given demolitions in order and record each in the
    /// demolition ledger. Without map metadata nothing can be located, so
    /// nothing is planned and nothing is recorded.
    pub fn execute_specific_demolishes(&mut self, tasks: Vec<DemolishEvent>) -> (plan: Vec<
        DeviceAction,
    >)
        requires
            old(self).wf(),
            forall|i: int| 0 <= i < tasks@.len() ==> (#[trigger] tasks@[i]).wf(),
        ensures
            final(self).wf(),
            old(self).map_meta is None ==> *final(self) == *old(self) && plan@
                == Seq::<DeviceAction>::empty(),
            old(self).map_meta matches Some(m) ==> {
                &&& *final(self) == (TowerDefenseApp {
                    camera_offset_y: final(self).camera_offset_y,
                    completed_demolish_uids: final(self).completed_demolish_uids,
                    ..*old(self)
                })
                &&& (plan@, final(self).camera_offset_y as int) == demolish_fold(
                    old(self).config,
                    m,
                    old(self).move_speed as int,
                    old(self).camera_offset_x as int,
                    old(self).camera_offset_y as int,
                    tasks@,
                )
                &&& final(self).completed_demolish_uids@ == old(self).completed_demolish_uids@
                    + tasks@.map_values(|d: DemolishEvent| d.uid)
            },
    {
        let mut plan: Vec<DeviceAction> = Vec::new();
        if self.map_meta.is_none() {
            proof {
                assert(self.completed_demolish_uids@ =~= self.completed_demolish_uids@
                    + Seq::<DemolishEvent>::empty().map_values(|d: DemolishEvent| d.uid));
            }
            return plan;
        }
        let ghost m = self.map_meta->0;
        let mut idx: usize = 0;
        proof {
            assert(tasks@.take(0) =~= Seq::<DemolishEvent>::empty());
            assert(self.completed_demolish_uids@ =~= self.completed_demolish_uids@
                + tasks@.take(0).map_values(|d: DemolishEvent| d.uid));
        }
        while idx < tasks.len()
            invariant
                self.wf(),
                idx <= tasks@.len(),
                forall|i: int| 0 <= i < tasks@.len() ==> (#[trigger] tasks@[i]).wf(),
                self.map_meta == Some(m),
                *self == (TowerDefenseApp {
                    camera_offset_y: self.camera_offset_y,
                    completed_demolish_uids: self.completed_demolish_uids,
                    ..*old(self)
                }),
                (plan@, self.camera_offset_y as int) == demolish_fold(
                    old(self).config,
                    m,
                    old(self).move_speed as int,
                    old(self).camera_offset_x as int,
                    old(self).camera_offset_y as int,
                    tasks@.take(idx as int),
                ),
                self.completed_demolish_uids@ == old(self).completed_demolish_uids@ + tasks@.take(
                    idx as int,
                ).map_values(|d: DemolishEvent| d.uid),
            decreases tasks@.len() - idx,
        {
            let ghost pre = *self;
            let ghost plan_pre = plan@;
            let d_gx = tasks[idx].grid_x;
            let d_gy = tasks[idx].grid_y;
            let d_w = tasks[idx].width;
            let d_h = tasks[idx].height;
            let d_uid = tasks[idx].uid;
            let r = self.get_absolute_map_pixel(d_gx, d_gy, d_w, d_h);
            let (map_px, map_py) = match r {
                Some(p) => p,
                None => {
                    proof {
                        assert(false);
                    }
                    (0, 0)
                },
            };
            proof {
                lemma_axis_pixel_in_range(
                    m.offset_y as int,
                    m.grid_pixel_size as int,
                    d_gy as int,
                    d_h as int,
                );
                lemma_axis_pixel_in_range(
                    m.offset_x as int,
                    m.grid_pixel_size as int,
                    d_gx as int,
                    d_w as int,
                );
            }
            let mut sub = self.ensure_target_in_safe_zone(map_px, map_py);
            plan.append(&mut sub);
            let sz = self.config.safe_zone;
            let raw_x = map_px - self.camera_offset_x;
            let screen_px = if raw_x < sz[0] {
                sz[0]
            } else if raw_x > sz[2] {
                sz[2]
            } else {
                raw_x
            };
            let raw_y = map_py - self.camera_offset_y;
            let screen_py = if raw_y < sz[1] {
                sz[1]
            } else if raw_y > sz[3] {
                sz[3]
            } else {
                raw_y
            };
            plan.push(DeviceAction::MoveTo { x: screen_px, y: screen_py, ms: 400 });
            plan.push(DeviceAction::Click);
            plan.push(DeviceAction::Wait { ms: 150 });
            plan.push(DeviceAction::KeyClick { key: 'p' });
            plan.push(DeviceAction::Wait { ms: 300 });
            self.completed_demolish_uids.push(d_uid);
            proof {
                let cfg = old(self).config;
                let speed = old(self).move_speed as int;
                let cam_x = old(self).camera_offset_x as int;
                let cam0 = old(self).camera_offset_y as int;
                let taken = tasks@.take(idx as int);
                lemma_demolish_fold_snoc(cfg, m, speed, cam_x, cam0, taken, tasks@[idx as int]);
                assert(tasks@.take(idx + 1) =~= taken.push(tasks@[idx as int]));
                let (s1, c1) = demolish_step(
                    cfg,
                    m,
                    speed,
                    cam_x,
                    pre.camera_offset_y as int,
                    tasks@[idx as int],
                );
                assert(plan@ =~= plan_pre + s1);
                assert(tasks@.take(idx + 1).map_values(|d: DemolishEvent| d.uid) =~= taken
                    .map_values(|d: DemolishEvent| d.uid).push(tasks@[idx as int].uid));
                assert(self.completed_demolish_uids@ =~= old(self).completed_demolish_uids@
                    + tasks@.take(idx + 1).map_values(|d: DemolishEvent| d.uid));
            }
            idx += 1;
        }
        proof {
            assert(tasks@.take(tasks@.len() as int) =~= tasks@);
        }
        plan
    }
}

/// The plan one placement contributes, the camera offset it leaves behind,
/// and the hotkey it leaves selected: scroll into view, move there, select
/// the building's hotkey unless already selected, then double-click.
pub open spec fn placement_step(
    cfg: TDConfig,
    meta: MapMeta,
    speed: int,
    cam_x: int,
    loadout: Seq<Seq<char>>,
    cam_y: int,
    last_key: Option<char>,
    b: BuildingExport,
) -> (Seq<DeviceAction>, int, Option<char>) {
    let px = map_pixel_x(meta, b.grid_x as int, b.width as int);
    let py = map_pixel_y(meta, b.grid_y as int, b.height as int);
    let cam2 = ensure_visible_offset(cfg, meta, cam_y, py);
    let key = trap_key_spec(loadout, b.name@);
    let select: Seq<DeviceAction> = if last_key == Some(key) {
        Seq::empty()
    } else {
        seq![DeviceAction::KeyClick { key }, DeviceAction::Wait { ms: 200 }]
    };
    let script = ensure_visible_script(cfg, meta, cam_y, py, speed) + seq![
        DeviceAction::MoveTo { x: screen_x(cfg, cam_x, px) as i64, y: screen_y(cfg, cam2, py) as i64, ms: 350 },
    ] + select + seq![DeviceAction::DoubleClick, DeviceAction::Wait { ms: 250 }];
    (script, cam2, Some(key))
}

/// Plan of a whole placement list, threading camera offset and selected
/// hotkey through the items in order.
pub open spec fn placement_fold(
    cfg: TDConfig,
    meta: MapMeta,
    speed: int,
    cam_x: int,
    loadout: Seq<Seq<char>>,
    cam_y: int,
    last_key: Option<char>,
    items: Seq<BuildingExport>,
) -> (Seq<DeviceAction>, int, Option<char>)
    decreases items.len(),
{
    if items.len() == 0 {
        (Seq::empty(), cam_y, last_key)
    } else {
        let (s1, c1, k1) = placement_step(cfg, meta, speed, cam_x, loadout, cam_y, last_key, items[0]);
        let (s2, c2, k2) = placement_fold(cfg, meta, speed, cam_x, loadout, c1, k1, items.drop_first());
        (s1 + s2, c2, k2)
    }
}

proof fn lemma_placement_fold_snoc(
    cfg: TDConfig,
    meta: MapMeta,
    speed: int,
    cam_x: int,
    loadout: Seq<Seq<char>>,
    cam_y: int,
    last_key: Option<char>,
    items: Seq<BuildingExport>,
    x: BuildingExport,
)
    ensures
        placement_fold(cfg, meta, speed, cam_x, loadout, cam_y, last_key, items.push(x)) == {
            let (s1, c1, k1) = placement_fold(cfg, meta, speed, cam_x, loadout, cam_y, last_key, items);
            let (s2, c2, k2) = placement_step(cfg, meta, speed, cam_x, loadout, c1, k1, x);
            (s1 + s2, c2, k2)
        },
    decreases items.len(),
{
    let whole = items.push(x);
    reveal_with_fuel(placement_fold, 3);
    if items.len() == 0 {
        assert(whole[0] == x);
        assert(whole.drop_first() =~= Seq::<BuildingExport>::empty());
        let (s1, c1, k1) = placement_step(cfg, meta, speed, cam_x, loadout, cam_y, last_key, x);
        assert(placement_fold(cfg, meta, speed, cam_x, loadout, cam_y, last_key, whole).0 =~= s1);
        assert(placement_fold(cfg, meta, speed, cam_x, loadout, cam_y, last_key, items).0 + s1
            =~= s1);
    } else {
        assert(whole[0] == items[0]);
        assert(whole.drop_first() =~= items.drop_first().push(x));
        let (s1, c1, k1) = placement_step(cfg, meta, speed, cam_x, loadout, cam_y, last_key, items[0]);
        lemma_placement_fold_snoc(cfg, meta, speed, cam_x, loadout, c1, k1, items.drop_first(), x);
        let (t1, d1, e1) = placement_fold(cfg, meta, speed, cam_x, loadout, c1, k1, items.drop_first());
        let (t2, d2, e2) = placement_step(cfg, meta, speed, cam_x, loadout, d1, e1, x);
        assert(s1 + (t1 + t2) =~= (s1 + t1) + t2);
    }
}

/// The plan one upgrade contributes: a timed hold of the building's hotkey.
pub open spec fn upgrade_step(loadout: Seq<Seq<char>>, u: UpgradeEvent) -> Seq<DeviceAction> {
    seq![
        DeviceAction::KeyHold { key: trap_key_spec(loadout, u.building_name@), ms: UPGRADE_HOLD_MS },
        DeviceAction::Wait { ms: 400 },
    ]
}

/// Plan of a whole upgrade list, in order.
pub open spec fn upgrade_fold(loadout: Seq<Seq<char>>, items: Seq<UpgradeEvent>) -> Seq<
    DeviceAction,
>
    decreases items.len(),
{
    if items.len() == 0 {
        Seq::empty()
    } else {
        upgrade_step(loadout, items[0]) + upgrade_fold(loadout, items.drop_first())
    }
}

proof fn lemma_upgrade_fold_snoc(loadout: Seq<Seq<char>>, items: Seq<UpgradeEvent>, x: UpgradeEvent)
    ensures
        upgrade_fold(loadout, items.push(x)) == upgrade_fold(loadout, items) + upgrade_step(
            loadout,
            x,
        ),
    decreases items.len(),
{
    let whole = items.push(x);
    reveal_with_fuel(upgrade_fold, 3);
    if items.len() == 0 {
        assert(whole[0] == x);
        assert(whole.drop_first() =~= Seq::<UpgradeEvent>::empty());
        assert(upgrade_fold(loadout, whole) =~= upgrade_step(loadout, x));
        assert(upgrade_fold(loadout, items) + upgrade_step(loadout, x) =~= upgrade_step(
            loadout,
            x,
        ));
    } else {
        assert(whole[0] == items[0]);
        assert(whole.drop_first() =~= items.drop_first().push(x));
        lemma_upgrade_fold_snoc(loadout, items.drop_first(), x);
        assert(upgrade_step(loadout, items[0]) + (upgrade_fold(loadout, items.drop_first())
            + upgrade_step(loadout, x)) =~= (upgrade_step(loadout, items[0]) + upgrade_fold(
            loadout,
            items.drop_first(),
        )) + upgrade_step(loadout, x));
    }
}

impl TowerDefenseApp {
    /// Plan the given placements in order and record each in the placement
    /// ledger. Without map metadata nothing can be located, so nothing is
    /// planned and nothing is recorded.
    #[verifier::rlimit(60)]
    pub fn execute_specific_placements(&mut self, tasks: Vec<BuildingExport>) -> (plan: Vec<
        DeviceAction,
    >)
        requires
            old(self).wf(),
            forall|i: int| 0 <= i < tasks@.len() ==> (#[trigger] tasks@[i]).wf(),
        ensures
            final(self).wf(),
            old(self).map_meta is None ==> *final(self) == *old(self) && plan@
                == Seq::<DeviceAction>::empty(),
            old(self).map_meta matches Some(m) ==> {
                let (script, cam2, _k2) = placement_fold(
                    old(self).config,
                    m,
                    old(self).move_speed as int,
                    old(self).camera_offset_x as int,
                    old(self).spec_loadout(),
                    old(self).camera_offset_y as int,
                    None,
                    tasks@,
                );
                &&& *final(self) == (TowerDefenseApp {
                    camera_offset_y: final(self).camera_offset_y,
                    placed_uids: final(self).placed_uids,
                    ..*old(self)
                })
                &&& plan@ == script
                &&& final(self).camera_offset_y as int == cam2
                &&& final(self).placed_uids@ == old(self).placed_uids@ + tasks@.map_values(
                    |b: BuildingExport| b.uid,
                )
            },
    {
        let mut plan: Vec<DeviceAction> = Vec::new();
        if self.map_meta.is_none() {
            proof {
                assert(self.placed_uids@ =~= self.placed_uids@ + Seq::<
                    BuildingExport,
                >::empty().map_values(|b: BuildingExport| b.uid));
            }
            return plan;
        }
        let ghost m = self.map_meta->0;
        let mut idx: usize = 0;
        let mut have_last: bool = false;
        let mut last_char: char = '4';
        proof {
            assert(tasks@.take(0) =~= Seq::<BuildingExport>::empty());
            assert(self.placed_uids@ =~= self.placed_uids@ + tasks@.take(0).map_values(
                |b: BuildingExport| b.uid,
            ));
        }
        while idx < tasks.len()
            invariant
                self.wf(),
                idx <= tasks@.len(),
                forall|i: int| 0 <= i < tasks@.len() ==> (#[trigger] tasks@[i]).wf(),
                self.map_meta == Some(m),
                *self == (TowerDefenseApp {
                    camera_offset_y: self.camera_offset_y,
                    placed_uids: self.placed_uids,
                    ..*old(self)
                }),
                ({
                    let (script, cam2, k2) = placement_fold(
                        old(self).config,
                        m,
                        old(self).move_speed as int,
                        old(self).camera_offset_x as int,
                        old(self).spec_loadout(),
                        old(self).camera_offset_y as int,
                        None,
                        tasks@.take(idx as int),
                    );
                    &&& plan@ == script
                    &&& self.camera_offset_y as int == cam2
                    &&& k2 == (if have_last {
                        Some(last_char)
                    } else {
                        None
                    })
                }),
                self.placed_uids@ == old(self).placed_uids@ + tasks@.take(idx as int).map_values(
                    |b: BuildingExport| b.uid,
                ),
            decreases tasks@.len() - idx,
        {
            let ghost pre = *self;
            let ghost plan_pre = plan@;
            let ghost key_pre: Option<char> = if have_last {
                Some(last_char)
            } else {
                None
            };
            let b_gx = tasks[idx].grid_x;
            let b_gy = tasks[idx].grid_y;
            let b_w = tasks[idx].width;
            let b_h = tasks[idx].height;
            let b_uid = tasks[idx].uid;
            let r = self.get_absolute_map_pixel(b_gx, b_gy, b_w, b_h);
            let (map_px, map_py) = match r {
                Some(p) => p,
                None => {
                    proof {
                        assert(false);
                    }
                    (0, 0)
                },
            };
            proof {
                lemma_axis_pixel_in_range(
                    m.offset_y as int,
                    m.grid_pixel_size as int,
                    b_gy as int,
                    b_h as int,
                );
                lemma_axis_pixel_in_range(
                    m.offset_x as int,
                    m.grid_pixel_size as int,
                    b_gx as int,
                    b_w as int,
                );
            }
            let mut sub = self.ensure_target_in_safe_zone(map_px, map_py);
            plan.append(&mut sub);
            let sz = self.config.safe_zone;
            let raw_x = map_px - self.camera_offset_x;
            let screen_px = if raw_x < sz[0] {
                sz[0]
            } else if raw_x > sz[2] {
                sz[2]
            } else {
                raw_x
            };
            let raw_y = map_py - self.camera_offset_y;
            let screen_py = if raw_y < sz[1] {
                sz[1]
            } else if raw_y > sz[3] {
                sz[3]
            } else {
                raw_y
            };
            plan.push(DeviceAction::MoveTo { x: screen_px, y: screen_py, ms: 350 });
            let key = self.get_trap_key(&tasks[idx].name);
            if !(have_last && last_char == key) {
                plan.push(DeviceAction::KeyClick { key });
                plan.push(DeviceAction::Wait { ms: 200 });
                last_char = key;
                have_last = true;
            }
            plan.push(DeviceAction::DoubleClick);
            plan.push(DeviceAction::Wait { ms: 250 });
            self.placed_uids.push(b_uid);
            proof {
                let cfg = old(self).config;
                let speed = old(self).move_speed as int;
                let cam_x = old(self).camera_offset_x as int;
                let loadout = old(self).spec_loadout();
                let cam0 = old(self).camera_offset_y as int;
                let taken = tasks@.take(idx as int);
                lemma_placement_fold_snoc(
                    cfg,
                    m,
                    speed,
                    cam_x,
                    loadout,
                    cam0,
                    None,
                    taken,
                    tasks@[idx as int],
                );
                assert(tasks@.take(idx + 1) =~= taken.push(tasks@[idx as int]));
                let (s1, c1, k1) = placement_step(
                    cfg,
                    m,
                    speed,
                    cam_x,
                    loadout,
                    pre.camera_offset_y as int,
                    key_pre,
                    tasks@[idx as int],
                );
                assert(plan@ =~= plan_pre + s1);
                assert(tasks@.take(idx + 1).map_values(|b: BuildingExport| b.uid) =~= taken
                    .map_values(|b: BuildingExport| b.uid).push(tasks@[idx as int].uid));
                assert(self.placed_uids@ =~= old(self).placed_uids@ + tasks@.take(
                    idx + 1,
                ).map_values(|b: BuildingExport| b.uid));
            }
            idx += 1;
        }
        proof {
            assert(tasks@.take(tasks@.len() as int) =~= tasks@);
        }
        plan
    }

    /// Plan the given upgrades in order and record each in the upgrade
    /// ledger.
    pub fn execute_specific_upgrades(&mut self, tasks: Vec<UpgradeEvent>) -> (plan: Vec<
        DeviceAction,
    >)
        requires
            old(self).wf(),
        ensures
            final(self).wf(),
            *final(self) == (TowerDefenseApp {
                completed_upgrades: final(self).completed_upgrades,
                ..*old(self)
            }),
            final(self).completed_upgrades@ == old(self).completed_upgrades@ + tasks@,
            plan@ == upgrade_fold(old(self).spec_loadout(), tasks@),
    {
        let mut plan: Vec<DeviceAction> = Vec::new();
        let mut idx: usize = 0;
        proof {
            assert(tasks@.take(0) =~= Seq::<UpgradeEvent>::empty());
            assert(self.completed_upgrades@ =~= self.completed_upgrades@ + tasks@.take(0));
        }
        while idx < tasks.len()
            invariant
                self.wf(),
                idx <= tasks@.len(),
                *self == (TowerDefenseApp {
                    completed_upgrades: self.completed_upgrades,
                    ..*old(self)
                }),
                plan@ == upgrade_fold(old(self).spec_loadout(), tasks@.take(idx as int)),
                self.completed_upgrades@ == old(self).completed_upgrades@ + tasks@.take(
                    idx as int,
                ),
            decreases tasks@.len() - idx,
        {
            let ghost plan_pre = plan@;
            let key = self.get_trap_key(&tasks[idx].building_name);
            plan.push(DeviceAction::KeyHold { key, ms: UPGRADE_HOLD_MS });
            plan.push(DeviceAction::Wait { ms: 400 });
            let done = UpgradeEvent {
                building_name: tasks[idx].building_name.clone(),
                wave_num: tasks[idx].wave_num,
                is_late: tasks[idx].is_late,
            };
            proof {
                assert(done == tasks@[idx as int]);
            }
            self.completed_upgrades.push(done);
            proof {
                let loadout = old(self).spec_loadout();
                let taken = tasks@.take(idx as int);
                lemma_upgrade_fold_snoc(loadout, taken, tasks@[idx as int]);
                assert(tasks@.take(idx + 1) =~= taken.push(tasks@[idx as int]));
                assert(plan@ =~= plan_pre + upgrade_step(loadout, tasks@[idx as int]));
                assert(self.completed_upgrades@ =~= old(self).completed_upgrades@ + tasks@.take(
                    idx + 1,
                ));
            }
            idx += 1;
        }
        proof {
            assert(tasks@.take(tasks@.len() as int) =~= tasks@);
        }
        plan
    }
}

/// A demolition is pending for `(wave, late)` when it is scheduled there
/// and its uid is not yet in the demolition ledger.
pub open spec fn demolish_pending(d: DemolishEvent, wave: int, late: bool, done: Set<usize>) -> bool {
    d.wave_num == wave && d.is_late == late && !done.contains(d.uid)
}

/// The scheduled demolitions still pending for `(wave, late)`, in
/// declaration order.
pub open spec fn pending_demolishes(
    s: Seq<DemolishEvent>,
    wave: int,
    late: bool,
    done: Set<usize>,
) -> Seq<DemolishEvent> {
    s.filter(|d: DemolishEvent| demolish_pending(d, wave, late, done))
}

/// A placement is pending for `(wave, late)` when it is scheduled there and
/// its uid is not yet in the placement ledger.
pub open spec fn placement_pending(b: BuildingExport, wave: int, late: bool, done: Set<usize>) -> bool {
    b.wave_num == wave && b.is_late == late && !done.contains(b.uid)
}

/// The scheduled placements still pending for `(wave, late)`, in
/// declaration order.
pub open spec fn pending_placements(
    s: Seq<BuildingExport>,
    wave: int,
    late: bool,
    done: Set<usize>,
) -> Seq<BuildingExport> {
    s.filter(|b: BuildingExport| placement_pending(b, wave, late, done))
}

/// An upgrade is pending for `(wave, late)` when it is scheduled there and
/// its key is not yet in the upgrade ledger.
pub open spec fn upgrade_pending(
    u: UpgradeEvent,
    wave: int,
    late: bool,
    done: Set<(Seq<char>, int, bool)>,
) -> bool {
    u.wave_num == wave && u.is_late == late && !done.contains(upgrade_key(u))
}

/// The scheduled upgrades still pending for `(wave, late)`, in declaration
/// order.
pub open spec fn pending_upgrades(
    s: Seq<UpgradeEvent>,
    wave: int,
    late: bool,
    done: Set<(Seq<char>, int, bool)>,
) -> Seq<UpgradeEvent> {
    s.filter(|u: UpgradeEvent| upgrade_pending(u, wave, late, done))
}

/// Everything one wave phase does: `plan` is the concatenation of the
/// demolition, placement and upgrade plans for the pending items, in that
/// fixed order; `post` differs from `pre` only in the camera offset and the
/// three ledgers, each extended by exactly the items just planned. Without
/// map metadata only upgrades can run.
pub open spec fn wave_phase_spec(
    pre: TowerDefenseApp,
    post: TowerDefenseApp,
    plan: Seq<DeviceAction>,
    wave: int,
    late: bool,
) -> bool {
    let dem = pending_demolishes(pre.strategy_demolishes@, wave, late, pre@.demolished);
    let pla = pending_placements(pre.strategy_buildings@, wave, late, pre@.placed);
    let upg = pending_upgrades(pre.strategy_upgrades@, wave, late, pre@.upgraded);
    match pre.map_meta {
        Some(m) => {
            let (dplan, cam1) = demolish_fold(
                pre.config,
                m,
                pre.move_speed as int,
                pre.camera_offset_x as int,
                pre.camera_offset_y as int,
                dem,
            );
            let (pplan, cam2, _k) = placement_fold(
                pre.config,
                m,
                pre.move_speed as int,
                pre.camera_offset_x as int,
                pre.spec_loadout(),
                cam1,
                None,
                pla,
            );
            let uplan = upgrade_fold(pre.spec_loadout(), upg);
            &&& plan == dplan + pplan + uplan
            &&& post == (TowerDefenseApp {
                camera_offset_y: post.camera_offset_y,
                completed_demolish_uids: post.completed_demolish_uids,
                placed_uids: post.placed_uids,
                completed_upgrades: post.completed_upgrades,
                ..pre
            })
            &&& post.camera_offset_y as int == cam2
            &&& post.completed_demolish_uids@ == pre.completed_demolish_uids@ + dem.map_values(
                |d: DemolishEvent| d.uid,
            )
            &&& post.placed_uids@ == pre.placed_uids@ + pla.map_values(|b: BuildingExport| b.uid)
            &&& post.completed_upgrades@ == pre.completed_upgrades@ + upg
        },
        None => {
            &&& plan == upgrade_fold(pre.spec_loadout(), upg)
            &&& post == (TowerDefenseApp { completed_upgrades: post.completed_upgrades, ..pre })
            &&& post.completed_upgrades@ == pre.completed_upgrades@ + upg
        },
    }
}

impl TowerDefenseApp {
    /// Run one wave phase: demolish, then place, then upgrade — space is
    /// cleared before building, building happens before upgrading. Every
    /// pending item of the phase is planned exactly once and recorded in its
    /// ledger at planning time.
    pub fn execute_wave_phase(&mut self, wave: i32, is_late: bool) -> (plan: Vec<DeviceAction>)
        requires
            old(self).wf(),
        ensures
            final(self).wf(),
            wave_phase_spec(*old(self), *final(self), plan@, wave as int, is_late),
    {
        let ghost pre = *old(self);
        let ghost w = wave as int;

        // Selection happens up front, against the ledgers as they stand.
        let mut to_demolish: Vec<DemolishEvent> = Vec::new();
        let mut i: usize = 0;
        proof {
            assert(self.strategy_demolishes@.take(0) =~= Seq::<DemolishEvent>::empty());
            assert(pending_demolishes(Seq::<DemolishEvent>::empty(), w, is_late, pre@.demolished)
                =~= Seq::<DemolishEvent>::empty());
        }
        while i < self.strategy_demolishes.len()
            invariant
                *self == pre,
                self.wf(),
                i <= self.strategy_demolishes@.len(),
                w == wave as int,
                to_demolish@ == pending_demolishes(
                    self.strategy_demolishes@.take(i as int),
                    w,
                    is_late,
                    pre@.demolished,
                ),
                forall|j: int| 0 <= j < to_demolish@.len() ==> (#[trigger] to_demolish@[j]).wf(),
            decreases self.strategy_demolishes@.len() - i,
        {
            let d = &self.strategy_demolishes[i];
            let keep1 = d.wave_num == wave;
            let keep2 = d.is_late == is_late;
            let in_ledger = uid_ledger_contains(&self.completed_demolish_uids, d.uid);
            let keep = keep1 && keep2 && !in_ledger;
            if keep {
                let copy = DemolishEvent {
                    uid: d.uid,
                    name: d.name.clone(),
                    grid_x: d.grid_x,
                    grid_y: d.grid_y,
                    width: d.width,
                    height: d.height,
                    wave_num: d.wave_num,
                    is_late: d.is_late,
                };
                proof {
                    assert(copy == self.strategy_demolishes@[i as int]);
                }
                to_demolish.push(copy);
            }
            proof {
                let taken = self.strategy_demolishes@.take(i as int);
                let x = self.strategy_demolishes@[i as int];
                lemma_pending_demolishes_push(taken, w, is_late, pre@.demolished, x);
                assert(self.strategy_demolishes@.take(i + 1) =~= taken.push(x));
            }
            i += 1;
        }
        proof {
            assert(self.strategy_demolishes@.take(self.strategy_demolishes@.len() as int)
                =~= self.strategy_demolishes@);
        }

        let mut to_place: Vec<BuildingExport> = Vec::new();
        let mut i2: usize = 0;
        proof {
            assert(self.strategy_buildings@.take(0) =~= Seq::<BuildingExport>::empty());
            assert(pending_placements(Seq::<BuildingExport>::empty(), w, is_late, pre@.placed)
                =~= Seq::<BuildingExport>::empty());
        }
        while i2 < self.strategy_buildings.len()
            invariant
                *self == pre,
                self.wf(),
                i2 <= self.strategy_buildings@.len(),
                w == wave as int,
                to_place@ == pending_placements(
                    self.strategy_buildings@.take(i2 as int),
                    w,
                    is_late,
                    pre@.placed,
                ),
                forall|j: int| 0 <= j < to_place@.len() ==> (#[trigger] to_place@[j]).wf(),
            decreases self.strategy_buildings@.len() - i2,
        {
            let b = &self.strategy_buildings[i2];
            let keep = b.wave_num == wave && b.is_late == is_late && !uid_ledger_contains(
                &self.placed_uids,
                b.uid,
            );
            if keep {
                let copy = BuildingExport {
                    uid: b.uid,
                    name: b.name.clone(),
                    grid_x: b.grid_x,
                    grid_y: b.grid_y,
                    width: b.width,
                    height: b.height,
                    wave_num: b.wave_num,
                    is_late: b.is_late,
                };
                proof {
                    assert(copy == self.strategy_buildings@[i2 as int]);
                }
                to_place.push(copy);
            }
            proof {
                let taken = self.strategy_buildings@.take(i2 as int);
                let x = self.strategy_buildings@[i2 as int];
                lemma_pending_placements_push(taken, w, is_late, pre@.placed, x);
                assert(self.strategy_buildings@.take(i2 + 1) =~= taken.push(x));
            }
            i2 += 1;
        }
        proof {
            assert(self.strategy_buildings@.take(self.strategy_buildings@.len() as int)
                =~= self.strategy_buildings@);
        }

        let mut to_upgrade: Vec<UpgradeEvent> = Vec::new();
        let mut i3: usize = 0;
        proof {
            assert(self.strategy_upgrades@.take(0) =~= Seq::<UpgradeEvent>::empty());
            assert(pending_upgrades(Seq::<UpgradeEvent>::empty(), w, is_late, pre@.upgraded)
                =~= Seq::<UpgradeEvent>::empty());
        }
        while i3 < self.strategy_upgrades.len()
            invariant
                *self == pre,
                self.wf(),
                i3 <= self.strategy_upgrades@.len(),
                w == wave as int,
                to_upgrade@ == pending_upgrades(
                    self.strategy_upgrades@.take(i3 as int),
                    w,
                    is_late,
                    pre@.upgraded,
                ),
            decreases self.strategy_upgrades@.len() - i3,
        {
            let u = &self.strategy_upgrades[i3];
            let keep = u.wave_num == wave && u.is_late == is_late && !upgrade_ledger_contains(
                &self.completed_upgrades,
                &u.building_name,
                u.wave_num,
                u.is_late,
            );
            if keep {
                let copy = UpgradeEvent {
                    building_name: u.building_name.clone(),
                    wave_num: u.wave_num,
                    is_late: u.is_late,
                };
                proof {
                    assert(copy == self.strategy_upgrades@[i3 as int]);
                }
                to_upgrade.push(copy);
            }
            proof {
                let taken = self.strategy_upgrades@.take(i3 as int);
                let x = self.strategy_upgrades@[i3 as int];
                lemma_pending_upgrades_push(taken, w, is_late, pre@.upgraded, x);
                assert(self.strategy_upgrades@.take(i3 + 1) =~= taken.push(x));
            }
            i3 += 1;
        }
        proof {
            assert(self.strategy_upgrades@.take(self.strategy_upgrades@.len() as int)
                =~= self.strategy_upgrades@);
        }

        let mut plan = self.execute_specific_demolishes(to_demolish);
        let mut pplan = self.execute_specific_placements(to_place);
        plan.append(&mut pplan);
        let mut uplan = self.execute_specific_upgrades(to_upgrade);
        plan.append(&mut uplan);
        plan
    }
}

fn uid_ledger_contains(v: &Vec<usize>, uid: usize) -> (r: bool)
    ensures
        r == v@.to_set().contains(uid),
{
    let mut i: usize = 0;
    while i < v.len()
        invariant
            i <= v@.len(),
            forall|j: int| 0 <= j < i ==> v@[j] != uid,
        decreases v@.len() - i,
    {
        if v[i] == uid {
            assert(v@.contains(uid));
            return true;
        }
        i += 1;
    }
    assert(!v@.contains(uid));
    false
}

fn upgrade_ledger_contains(v: &Vec<UpgradeEvent>, name: &String, wave: i32, late: bool) -> (r:
    bool)
    ensures
        r == v@.map_values(|u: UpgradeEvent| upgrade_key(u)).to_set().contains(
            (name@, wave as int, late),
        ),
{
    let ghost keys = v@.map_values(|u: UpgradeEvent| upgrade_key(u));
    let mut i: usize = 0;
    while i < v.len()
        invariant
            i <= v@.len(),
            keys == v@.map_values(|u: UpgradeEvent| upgrade_key(u)),
            forall|j: int| 0 <= j < i ==> keys[j] != (name@, wave as int, late),
        decreases v@.len() - i,
    {
        let u = &v[i];
        if u.building_name.eq(name) && u.wave_num == wave && u.is_late == late {
            assert(keys[i as int] == (name@, wave as int, late));
            assert(keys.contains((name@, wave as int, late)));
            return true;
        }
        proof {
            assert(keys[i as int] == upgrade_key(v@[i as int]));
        }
        i += 1;
    }
    assert(!keys.contains((name@, wave as int, late)));
    false
}

proof fn lemma_pending_demolishes_push(
    s: Seq<DemolishEvent>,
    wave: int,
    late: bool,
    done: Set<usize>,
    x: DemolishEvent,
)
    ensures
        pending_demolishes(s.push(x), wave, late, done) == (if demolish_pending(x, wave, late, done) {
            pending_demolishes(s, wave, late, done).push(x)
        } else {
            pending_demolishes(s, wave, late, done)
        }),
{
    reveal_with_fuel(Seq::filter, 2);
    assert((s.push(x)).drop_last() =~= s);
    assert((s.push(x)).last() == x);
}

proof fn lemma_pending_placements_push(
    s: Seq<BuildingExport>,
    wave: int,
    late: bool,
    done: Set<usize>,
    x: BuildingExport,
)
    ensures
        pending_placements(s.push(x), wave, late, done) == (if placement_pending(x, wave, late, done) {
            pending_placements(s, wave, late, done).push(x)
        } else {
            pending_placements(s, wave, late, done)
        }),
{
    reveal_with_fuel(Seq::filter, 2);
    assert((s.push(x)).drop_last() =~= s);
    assert((s.push(x)).last() == x);
}

proof fn lemma_pending_upgrades_push(
    s: Seq<UpgradeEvent>,
    wave: int,
    late: bool,
    done: Set<(Seq<char>, int, bool)>,
    x: UpgradeEvent,
)
    ensures
        pending_upgrades(s.push(x), wave, late, done) == (if upgrade_pending(x, wave, late, done) {
            pending_upgrades(s, wave, late, done).push(x)
        } else {
            pending_upgrades(s, wave, late, done)
        }),
{
    reveal_with_fuel(Seq::filter, 2);
    assert((s.push(x)).drop_last() =~= s);
    assert((s.push(x)).last() == x);
}

proof fn lemma_pending_demolishes_all_done(
    s: Seq<DemolishEvent>,
    wave: int,
    late: bool,
    done: Set<usize>,
)
    requires
        forall|i: int| 0 <= i < s.len() ==> !demolish_pending(#[trigger] s[i], wave, late, done),
    ensures
        pending_demolishes(s, wave, late, done) =~= Seq::<DemolishEvent>::empty(),
    decreases s.len(),
{
    reveal_with_fuel(Seq::filter, 2);
    if s.len() > 0 {
        let dl = s.drop_last();
        assert(forall|i: int|
            0 <= i < dl.len() ==> !demolish_pending(#[trigger] dl[i], wave, late, done));
        lemma_pending_demolishes_all_done(dl, wave, late, done);
        assert(!demolish_pending(s.last(), wave, late, done));
    }
}

proof fn lemma_pending_demolishes_has(
    s: Seq<DemolishEvent>,
    wave: int,
    late: bool,
    done: Set<usize>,
    i: int,
)
    requires
        0 <= i < s.len(),
        demolish_pending(s[i], wave, late, done),
    ensures
        pending_demolishes(s, wave, late, done).contains(s[i]),
    decreases s.len(),
{
    reveal_with_fuel(Seq::filter, 2);
    let dl = s.drop_last();
    if i == s.len() - 1 {
        let q = pending_demolishes(s, wave, late, done);
        assert(q == pending_demolishes(dl, wave, late, done).push(s[i]));
        assert(q[q.len() - 1] == s[i]);
    } else {
        lemma_pending_demolishes_has(dl, wave, late, done, i);
        let q = pending_demolishes(dl, wave, late, done);
        let j = choose|j: int| 0 <= j < q.len() && q[j] == dl[i];
        if demolish_pending(s.last(), wave, late, done) {
            assert(q.push(s.last())[j] == s[i]);
        }
    }
}

proof fn lemma_pending_placements_all_done(
    s: Seq<BuildingExport>,
    wave: int,
    late: bool,
    done: Set<usize>,
)
    requires
        forall|i: int| 0 <= i < s.len() ==> !placement_pending(#[trigger] s[i], wave, late, done),
    ensures
        pending_placements(s, wave, late, done) =~= Seq::<BuildingExport>::empty(),
    decreases s.len(),
{
    reveal_with_fuel(Seq::filter, 2);
    if s.len() > 0 {
        let dl = s.drop_last();
        assert(forall|i: int|
            0 <= i < dl.len() ==> !placement_pending(#[trigger] dl[i], wave, late, done));
        lemma_pending_placements_all_done(dl, wave, late, done);
        assert(!placement_pending(s.last(), wave, late, done));
    }
}

proof fn lemma_pending_placements_has(
    s: Seq<BuildingExport>,
    wave: int,
    late: bool,
    done: Set<usize>,
    i: int,
)
    requires
        0 <= i < s.len(),
        placement_pending(s[i], wave, late, done),
    ensures
        pending_placements(s, wave, late, done).contains(s[i]),
    decreases s.len(),
{
    reveal_with_fuel(Seq::filter, 2);
    let dl = s.drop_last();
    if i == s.len() - 1 {
        let q = pending_placements(s, wave, late, done);
        assert(q == pending_placements(dl, wave, late, done).push(s[i]));
        assert(q[q.len() - 1] == s[i]);
    } else {
        lemma_pending_placements_has(dl, wave, late, done, i);
        let q = pending_placements(dl, wave, late, done);
        let j = choose|j: int| 0 <= j < q.len() && q[j] == dl[i];
        if placement_pending(s.last(), wave, late, done) {
            assert(q.push(s.last())[j] == s[i]);
        }
    }
}

proof fn lemma_pending_upgrades_all_done(
    s: Seq<UpgradeEvent>,
    wave: int,
    late: bool,
    done: Set<(Seq<char>, int, bool)>,
)
    requires
        forall|i: int| 0 <= i < s.len() ==> !upgrade_pending(#[trigger] s[i], wave, late, done),
    ensures
        pending_upgrades(s, wave, late, done) =~= Seq::<UpgradeEvent>::empty(),
    decreases s.len(),
{
    reveal_with_fuel(Seq::filter, 2);
    if s.len() > 0 {
        let dl = s.drop_last();
        assert(forall|i: int|
            0 <= i < dl.len() ==> !upgrade_pending(#[trigger] dl[i], wave, late, done));
        lemma_pending_upgrades_all_done(dl, wave, late, done);
        assert(!upgrade_pending(s.last(), wave, late, done));
    }
}

proof fn lemma_pending_upgrades_has(
    s: Seq<UpgradeEvent>,
    wave: int,
    late: bool,
    done: Set<(Seq<char>, int, bool)>,
    i: int,
)
    requires
        0 <= i < s.len(),
        upgrade_pending(s[i], wave, late, done),
    ensures
        pending_upgrades(s, wave, late, done).contains(s[i]),
    decreases s.len(),
{
    reveal_with_fuel(Seq::filter, 2);
    let dl = s.drop_last();
    if i == s.len() - 1 {
        let q = pending_upgrades(s, wave, late, done);
        assert(q == pending_upgrades(dl, wave, late, done).push(s[i]));
        assert(q[q.len() - 1] == s[i]);
    } else {
        lemma_pending_upgrades_has(dl, wave, late, done, i);
        let q = pending_upgrades(dl, wave, late, done);
        let j = choose|j: int| 0 <= j < q.len() && q[j] == dl[i];
        if upgrade_pending(s.last(), wave, late, done) {
            assert(q.push(s.last())[j] == s[i]);
        }
    }
}

/// Law: a wave phase is idempotent. Re-running `execute_wave_phase` for the
/// same `(wave, phase)` on the state it just produced plans zero further
/// device actions and leaves the ledgers and the camera as they were.
pub proof fn lemma_wave_phase_idempotent(
    pre: TowerDefenseApp,
    mid: TowerDefenseApp,
    plan1: Seq<DeviceAction>,
    post: TowerDefenseApp,
    plan2: Seq<DeviceAction>,
    wave: int,
    late: bool,
)
    requires
        wave_phase_spec(pre, mid, plan1, wave, late),
        wave_phase_spec(mid, post, plan2, wave, late),
    ensures
        plan2 == Seq::<DeviceAction>::empty(),
        post.completed_demolish_uids@ == mid.completed_demolish_uids@,
        post.placed_uids@ == mid.placed_uids@,
        post.completed_upgrades@ == mid.completed_upgrades@,
        post.camera_offset_y == mid.camera_offset_y,
{
    let dem1 = pending_demolishes(pre.strategy_demolishes@, wave, late, pre@.demolished);
    let pla1 = pending_placements(pre.strategy_buildings@, wave, late, pre@.placed);
    let upg1 = pending_upgrades(pre.strategy_upgrades@, wave, late, pre@.upgraded);

    // The upgrade ledger grew by exactly the upgrades just planned, so no
    // scheduled upgrade of this phase is still pending.
    assert forall|i: int| 0 <= i < mid.strategy_upgrades@.len() implies !upgrade_pending(
        #[trigger] mid.strategy_upgrades@[i],
        wave,
        late,
        mid@.upgraded,
    ) by {
        let u = mid.strategy_upgrades@[i];
        let pres = pre.completed_upgrades@;
        let keys = mid.completed_upgrades@.map_values(|uu: UpgradeEvent| upgrade_key(uu));
        if u.wave_num == wave && u.is_late == late {
            if pre@.upgraded.contains(upgrade_key(u)) {
                let prekeys = pres.map_values(|uu: UpgradeEvent| upgrade_key(uu));
                let j = choose|j: int|
                    0 <= j < prekeys.len() && prekeys[j] == upgrade_key(u);
                assert(mid.completed_upgrades@[j] == pres[j]);
                assert(keys[j] == upgrade_key(u));
                assert(keys.contains(upgrade_key(u)));
            } else {
                lemma_pending_upgrades_has(
                    pre.strategy_upgrades@,
                    wave,
                    late,
                    pre@.upgraded,
                    i,
                );
                let j = choose|j: int| 0 <= j < upg1.len() && upg1[j] == u;
                assert(mid.completed_upgrades@[pres.len() + j] == u);
                assert(keys[pres.len() + j] == upgrade_key(u));
                assert(keys.contains(upgrade_key(u)));
            }
        }
    }
    lemma_pending_upgrades_all_done(mid.strategy_upgrades@, wave, late, mid@.upgraded);
    let upg2 = pending_upgrades(mid.strategy_upgrades@, wave, late, mid@.upgraded);
    assert(upgrade_fold(mid.spec_loadout(), upg2) =~= Seq::<DeviceAction>::empty());
    assert(post.completed_upgrades@ =~= mid.completed_upgrades@ + upg2);

    match pre.map_meta {
        Some(m) => {
            assert forall|i: int| 0 <= i < mid.strategy_demolishes@.len() implies !demolish_pending(
                #[trigger] mid.strategy_demolishes@[i],
                wave,
                late,
                mid@.demolished,
            ) by {
                let d = mid.strategy_demolishes@[i];
                let pres = pre.completed_demolish_uids@;
                if d.wave_num == wave && d.is_late == late {
                    if pre@.demolished.contains(d.uid) {
                        let j = choose|j: int| 0 <= j < pres.len() && pres[j] == d.uid;
                        assert(mid.completed_demolish_uids@[j] == d.uid);
                        assert(mid.completed_demolish_uids@.contains(d.uid));
                    } else {
                        lemma_pending_demolishes_has(
                            pre.strategy_demolishes@,
                            wave,
                            late,
                            pre@.demolished,
                            i,
                        );
                        let j = choose|j: int| 0 <= j < dem1.len() && dem1[j] == d;
                        let added = dem1.map_values(|dd: DemolishEvent| dd.uid);
                        assert(added[j] == d.uid);
                        assert(mid.completed_demolish_uids@[pres.len() + j] == d.uid);
                        assert(mid.completed_demolish_uids@.contains(d.uid));
                    }
                }
            }
            lemma_pending_demolishes_all_done(mid.strategy_demolishes@, wave, late, mid@.demolished);

            assert forall|i: int| 0 <= i < mid.strategy_buildings@.len() implies !placement_pending(
                #[trigger] mid.strategy_buildings@[i],
                wave,
                late,
                mid@.placed,
            ) by {
                let b = mid.strategy_buildings@[i];
                let pres = pre.placed_uids@;
                if b.wave_num == wave && b.is_late == late {
                    if pre@.placed.contains(b.uid) {
                        let j = choose|j: int| 0 <= j < pres.len() && pres[j] == b.uid;
                        assert(mid.placed_uids@[j] == b.uid);
                        assert(mid.placed_uids@.contains(b.uid));
                    } else {
                        lemma_pending_placements_has(
                            pre.strategy_buildings@,
                            wave,
                            late,
                            pre@.placed,
                            i,
                        );
                        let j = choose|j: int| 0 <= j < pla1.len() && pla1[j] == b;
                        let added = pla1.map_values(|bb: BuildingExport| bb.uid);
                        assert(added[j] == b.uid);
                        assert(mid.placed_uids@[pres.len() + j] == b.uid);
                        assert(mid.placed_uids@.contains(b.uid));
                    }
                }
            }
            lemma_pending_placements_all_done(mid.strategy_buildings@, wave, late, mid@.placed);

            let dem2 = pending_demolishes(mid.strategy_demolishes@, wave, late, mid@.demolished);
            let pla2 = pending_placements(mid.strategy_buildings@, wave, late, mid@.placed);
            let (dplan2, cam1) = demolish_fold(
                mid.config,
                m,
                mid.move_speed as int,
                mid.camera_offset_x as int,
                mid.camera_offset_y as int,
                dem2,
            );
            let (pplan2, cam2, _k) = placement_fold(
                mid.config,
                m,
                mid.move_speed as int,
                mid.camera_offset_x as int,
                mid.spec_loadout(),
                cam1,
                None,
                pla2,
            );
            assert(dplan2 =~= Seq::<DeviceAction>::empty());
            assert(pplan2 =~= Seq::<DeviceAction>::empty());
            assert(plan2 =~= Seq::<DeviceAction>::empty());
            assert(post.completed_demolish_uids@ =~= mid.completed_demolish_uids@ + dem2.map_values(
                |dd: DemolishEvent| dd.uid,
            ));
            assert(post.placed_uids@ =~= mid.placed_uids@ + pla2.map_values(
                |bb: BuildingExport| bb.uid,
            ));
        },
        None => {
            assert(plan2 =~= Seq::<DeviceAction>::empty());
        },
    }
}

/// `k` repetitions of one wheel notch and its settle wait.
pub open spec fn scroll_burst(k: nat) -> Seq<DeviceAction>
    decreases k,
{
    if k == 0 {
        Seq::empty()
    } else {
        scroll_burst((k - 1) as nat) + seq![
            DeviceAction::Scroll { delta: -120i64 },
            DeviceAction::Wait { ms: 30 },
        ]
    }
}

/// `r` rounds of a full zoom-out burst followed by a longer settle wait.
pub open spec fn scroll_rounds(r: nat) -> Seq<DeviceAction>
    decreases r,
{
    if r == 0 {
        Seq::empty()
    } else {
        scroll_rounds((r - 1) as nat) + scroll_burst(12) + seq![DeviceAction::Wait { ms: 300 }]
    }
}

/// `r` rounds of nudging the camera up and left.
pub open spec fn nudge_rounds(r: nat) -> Seq<DeviceAction>
    decreases r,
{
    if r == 0 {
        Seq::empty()
    } else {
        nudge_rounds((r - 1) as nat) + seq![
            DeviceAction::KeyHold { key: 'w', ms: 500 },
            DeviceAction::Wait { ms: 50 },
            DeviceAction::KeyHold { key: 'a', ms: 500 },
            DeviceAction::Wait { ms: 50 },
        ]
    }
}

/// The fixed view-alignment choreography: open the overview, zoom all the
/// way out, then drive the camera into the top-left boundary.
pub open spec fn setup_view_script() -> Seq<DeviceAction> {
    seq![DeviceAction::KeyClick { key: 'o' }, DeviceAction::Wait { ms: 2000 }] + scroll_rounds(7)
        + nudge_rounds(4) + seq![
        DeviceAction::KeyHold { key: 'w', ms: 800 },
        DeviceAction::KeyHold { key: 'a', ms: 800 },
    ]
}

/// The loadout entry a name selects: the last loaded entry with that name,
/// as a later duplicate overwrites an earlier one.
pub open spec fn trap_lookup_find(items: Seq<TrapConfigItem>, name: Seq<char>) -> Option<
    TrapConfigItem,
>
    decreases items.len(),
{
    if items.len() == 0 {
        None
    } else if items.last().name@ == name {
        Some(items.last())
    } else {
        trap_lookup_find(items.drop_last(), name)
    }
}

/// The actions selecting one loadout name contributes: move to its selection
/// button and click, or nothing for an unknown name.
pub open spec fn select_step(items: Seq<TrapConfigItem>, name: Seq<char>) -> Seq<DeviceAction> {
    match trap_lookup_find(items, name) {
        Some(it) => seq![
            DeviceAction::MoveTo { x: it.select_pos[0], y: it.select_pos[1], ms: 500 },
            DeviceAction::Click,
            DeviceAction::Wait { ms: 400 },
        ],
        None => Seq::empty(),
    }
}

/// The selection actions for a list of names, in order.
pub open spec fn select_fold(items: Seq<TrapConfigItem>, names: Seq<Seq<char>>) -> Seq<
    DeviceAction,
>
    decreases names.len(),
{
    if names.len() == 0 {
        Seq::empty()
    } else {
        select_step(items, names[0]) + select_fold(items, names.drop_first())
    }
}

/// At most the first four names of a loadout are selectable.
pub open spec fn loadout_prefix(names: Seq<Seq<char>>) -> Seq<Seq<char>> {
    if names.len() <= 4 {
        names
    } else {
        names.take(4)
    }
}

proof fn lemma_select_fold_snoc(items: Seq<TrapConfigItem>, names: Seq<Seq<char>>, x: Seq<char>)
    ensures
        select_fold(items, names.push(x)) == select_fold(items, names) + select_step(items, x),
    decreases names.len(),
{
    let whole = names.push(x);
    reveal_with_fuel(select_fold, 3);
    if names.len() == 0 {
        assert(whole[0] == x);
        assert(whole.drop_first() =~= Seq::<Seq<char>>::empty());
        assert(select_fold(items, whole) =~= select_step(items, x));
        assert(select_fold(items, names) + select_step(items, x) =~= select_step(items, x));
    } else {
        assert(whole[0] == names[0]);
        assert(whole.drop_first() =~= names.drop_first().push(x));
        lemma_select_fold_snoc(items, names.drop_first(), x);
        assert(select_step(items, names[0]) + (select_fold(items, names.drop_first())
            + select_step(items, x)) =~= (select_step(items, names[0]) + select_fold(
            items,
            names.drop_first(),
        )) + select_step(items, x));
    }
}

proof fn lemma_trap_lookup_find_at(items: Seq<TrapConfigItem>, name: Seq<char>, j: int)
    requires
        0 <= j < items.len(),
        items[j].name@ == name,
        forall|k: int| j < k < items.len() ==> (#[trigger] items[k]).name@ != name,
    ensures
        trap_lookup_find(items, name) == Some(items[j]),
    decreases items.len(),
{
    if j == items.len() - 1 {
    } else {
        assert(items.drop_last()[j] == items[j]);
        lemma_trap_lookup_find_at(items.drop_last(), name, j);
    }
}

proof fn lemma_trap_lookup_find_none(items: Seq<TrapConfigItem>, name: Seq<char>)
    requires
        forall|k: int| 0 <= k < items.len() ==> (#[trigger] items[k]).name@ != name,
    ensures
        trap_lookup_find(items, name) is None,
    decreases items.len(),
{
    if items.len() > 0 {
        lemma_trap_lookup_find_none(items.drop_last(), name);
    }
}

impl TowerDefenseApp {
    /// Plan the fixed view alignment and rehome the camera model to the
    /// origin: the choreography drives the real camera into the top-left
    /// boundary, so the model starts over from zero.
    pub fn setup_view(&mut self) -> (plan: Vec<DeviceAction>)
        requires
            old(self).wf(),
        ensures
            final(self).wf(),
            *final(self) == (TowerDefenseApp {
                camera_offset_x: 0i64,
                camera_offset_y: 0i64,
                ..*old(self)
            }),
            plan@ == setup_view_script(),
    {
        let mut plan: Vec<DeviceAction> = Vec::new();
        plan.push(DeviceAction::KeyClick { key: 'o' });
        plan.push(DeviceAction::Wait { ms: 2000 });
        let ghost head = plan@;
        let mut r: usize = 0;
        proof {
            assert(plan@ =~= head + scroll_rounds(0));
        }
        while r < 7
            invariant
                r <= 7,
                head == seq![
                    DeviceAction::KeyClick { key: 'o' },
                    DeviceAction::Wait { ms: 2000 },
                ],
                plan@ == head + scroll_rounds(r as nat),
            decreases 7 - r,
        {
            let ghost round_head = plan@;
            let mut k: usize = 0;
            proof {
                assert(plan@ =~= round_head + scroll_burst(0));
            }
            while k < 12
                invariant
                    k <= 12,
                    plan@ == round_head + scroll_burst(k as nat),
                decreases 12 - k,
            {
                plan.push(DeviceAction::Scroll { delta: -120 });
                plan.push(DeviceAction::Wait { ms: 30 });
                proof {
                    assert(plan@ =~= round_head + (scroll_burst(k as nat) + seq![
                        DeviceAction::Scroll { delta: -120i64 },
                        DeviceAction::Wait { ms: 30 },
                    ]));
                }
                k += 1;
            }
            plan.push(DeviceAction::Wait { ms: 300 });
            proof {
                assert(plan@ =~= head + (scroll_rounds(r as nat) + scroll_burst(12) + seq![
                    DeviceAction::Wait { ms: 300 },
                ]));
            }
            r += 1;
        }
        let ghost nudge_head = plan@;
        let mut n: usize = 0;
        proof {
            assert(plan@ =~= nudge_head + nudge_rounds(0));
        }
        while n < 4
            invariant
                n <= 4,
                nudge_head == head + scroll_rounds(7),
                plan@ == nudge_head + nudge_rounds(n as nat),
            decreases 4 - n,
        {
            plan.push(DeviceAction::KeyHold { key: 'w', ms: 500 });
            plan.push(DeviceAction::Wait { ms: 50 });
            plan.push(DeviceAction::KeyHold { key: 'a', ms: 500 });
            plan.push(DeviceAction::Wait { ms: 50 });
            proof {
                assert(plan@ =~= nudge_head + (nudge_rounds(n as nat) + seq![
                    DeviceAction::KeyHold { key: 'w', ms: 500 },
                    DeviceAction::Wait { ms: 50 },
                    DeviceAction::KeyHold { key: 'a', ms: 500 },
                    DeviceAction::Wait { ms: 50 },
                ]));
            }
            n += 1;
        }
        plan.push(DeviceAction::KeyHold { key: 'w', ms: 800 });
        plan.push(DeviceAction::KeyHold { key: 'a', ms: 800 });
        self.camera_offset_x = 0;
        self.camera_offset_y = 0;
        proof {
            assert(plan@ =~= setup_view_script());
        }
        plan
    }

    /// Plan the selection clicks for the first four loadout names, skipping
    /// names the trap configuration does not know.
    pub fn select_loadout(&self, tower_names: &Vec<String>) -> (plan: Vec<DeviceAction>)
        requires
            self.wf(),
        ensures
            plan@ == select_fold(
                self.trap_lookup@,
                loadout_prefix(tower_names@.map_values(|s: String| s@)),
            ),
    {
        let mut plan: Vec<DeviceAction> = Vec::new();
        let limit: usize = if tower_names.len() <= 4 {
            tower_names.len()
        } else {
            4
        };
        let ghost names = loadout_prefix(tower_names@.map_values(|s: String| s@));
        proof {
            assert(names =~= tower_names@.map_values(|s: String| s@).take(limit as int));
            assert(names.take(0) =~= Seq::<Seq<char>>::empty());
        }
        let mut i: usize = 0;
        while i < limit
            invariant
                self.wf(),
                i <= limit <= tower_names@.len(),
                names == loadout_prefix(tower_names@.map_values(|s: String| s@)),
                names.len() == limit,
                forall|j: int| 0 <= j < limit ==> names[j] == (#[trigger] tower_names@[j])@,
                plan@ == select_fold(self.trap_lookup@, names.take(i as int)),
            decreases limit - i,
        {
            let name = &tower_names[i];
            let mut j: usize = self.trap_lookup.len();
            let mut found: bool = false;
            let mut fx: i64 = 0;
            let mut fy: i64 = 0;
            while j > 0 && !found
                invariant
                    self.wf(),
                    j <= self.trap_lookup@.len(),
                    !found ==> forall|k: int|
                        j <= k < self.trap_lookup@.len() ==> (#[trigger] self.trap_lookup@[k])
                            .name@ != name@,
                    found ==> (trap_lookup_find(self.trap_lookup@, name@) matches Some(it)
                        && it.select_pos[0] == fx && it.select_pos[1] == fy),
                decreases j + (if found {
                    0int
                } else {
                    1int
                }),
            {
                j -= 1;
                if self.trap_lookup[j].name.eq(name) {
                    fx = self.trap_lookup[j].select_pos[0];
                    fy = self.trap_lookup[j].select_pos[1];
                    found = true;
                    proof {
                        lemma_trap_lookup_find_at(self.trap_lookup@, name@, j as int);
                    }
                }
            }
            if found {
                plan.push(DeviceAction::MoveTo { x: fx, y: fy, ms: 500 });
                plan.push(DeviceAction::Click);
                plan.push(DeviceAction::Wait { ms: 400 });
            } else {
                proof {
                    lemma_trap_lookup_find_none(self.trap_lookup@, name@);
                }
            }
            proof {
                let taken = names.take(i as int);
                lemma_select_fold_snoc(self.trap_lookup@, taken, names[i as int]);
                assert(names.take(i + 1) =~= taken.push(names[i as int]));
                assert(plan@ =~= select_fold(self.trap_lookup@, taken) + select_step(
                    self.trap_lookup@,
                    names[i as int],
                ));
            }
            i += 1;
        }
        proof {
            assert(names.take(limit as int) =~= names);
        }
        plan
    }

    /// Plan the pre-battle preparation: open the loadout screen, pick the
    /// loadout, and close it again.
    pub fn execute_prep_logic(&self, loadout: &Vec<String>) -> (plan: Vec<DeviceAction>)
        requires
            self.wf(),
        ensures
            plan@ == seq![
                DeviceAction::KeyClick { key: 'n' },
                DeviceAction::Wait { ms: 1000 },
                DeviceAction::MoveTo { x: 212, y: 294, ms: 500 },
                DeviceAction::Click,
            ] + select_fold(
                self.trap_lookup@,
                loadout_prefix(loadout@.map_values(|s: String| s@)),
            ) + seq![DeviceAction::KeyClick { key: 'n' }, DeviceAction::Wait { ms: 500 }],
    {
        let mut plan: Vec<DeviceAction> = Vec::new();
        plan.push(DeviceAction::KeyClick { key: 'n' });
        plan.push(DeviceAction::Wait { ms: 1000 });
        plan.push(DeviceAction::MoveTo { x: 212, y: 294, ms: 500 });
        plan.push(DeviceAction::Click);
        let ghost head = plan@;
        let mut sel = self.select_loadout(loadout);
        plan.append(&mut sel);
        plan.push(DeviceAction::KeyClick { key: 'n' });
        plan.push(DeviceAction::Wait { ms: 500 });
        proof {
            assert(plan@ =~= seq![
                DeviceAction::KeyClick { key: 'n' },
                DeviceAction::Wait { ms: 1000 },
                DeviceAction::MoveTo { x: 212, y: 294, ms: 500 },
                DeviceAction::Click,
            ] + select_fold(
                self.trap_lookup@,
                loadout_prefix(loadout@.map_values(|s: String| s@)),
            ) + seq![DeviceAction::KeyClick { key: 'n' }, DeviceAction::Wait { ms: 500 }]);
        }
        plan
    }

    /// The battle is considered started once a positive wave count is
    /// observed.
    pub fn battle_started(&self, status: &Option<WaveStatus>) -> (r: bool)
        ensures
            r <==> (status matches Some(ws) && ws.current_wave > 0),
    {
        match status {
            Some(ws) => ws.current_wave > 0,
            None => false,
        }
    }

    /// Start the wave cool-down clock, as done once when the battle begins.
    pub fn begin_battle_timer(&mut self, now_ms: u64)
        requires
            old(self).wf(),
        ensures
            final(self).wf(),
            *final(self) == (TowerDefenseApp { last_wave_change_ms: now_ms, ..*old(self) }),
    {
        self.last_wave_change_ms = now_ms;
    }
}

/// The choreography before one toggled wave sample: hold the reveal key and
/// let the HUD element appear. The monitored element is only visible while
/// the key is held; the initial pre-battle region needs no toggle.
pub open spec fn wave_reveal_prelude_script(needs_toggle: bool) -> Seq<DeviceAction> {
    if needs_toggle {
        seq![DeviceAction::KeyDown { key: '\t' }, DeviceAction::Wait { ms: 200 }]
    } else {
        Seq::empty()
    }
}

/// Plan the choreography before one toggled wave sample.
pub fn wave_reveal_prelude(needs_toggle: bool) -> (plan: Vec<DeviceAction>)
    ensures
        plan@ == wave_reveal_prelude_script(needs_toggle),
{
    let mut plan: Vec<DeviceAction> = Vec::new();
    if needs_toggle {
        plan.push(DeviceAction::KeyDown { key: '\t' });
        plan.push(DeviceAction::Wait { ms: 200 });
        proof {
            assert(plan@ =~= wave_reveal_prelude_script(needs_toggle));
        }
    } else {
        proof {
            assert(plan@ =~= wave_reveal_prelude_script(needs_toggle));
        }
    }
    plan
}

/// The choreography after one toggled wave sample: release the reveal key,
/// then one symmetric tap to restore the UI's prior toggle state.
pub open spec fn wave_reveal_postlude_script(needs_toggle: bool) -> Seq<DeviceAction> {
    if needs_toggle {
        seq![
            DeviceAction::KeyUp,
            DeviceAction::Wait { ms: 50 },
            DeviceAction::KeyDown { key: '\t' },
            DeviceAction::Wait { ms: 50 },
            DeviceAction::KeyUp,
        ]
    } else {
        Seq::empty()
    }
}

/// Plan the choreography after one toggled wave sample.
pub fn wave_reveal_postlude(needs_toggle: bool) -> (plan: Vec<DeviceAction>)
    ensures
        plan@ == wave_reveal_postlude_script(needs_toggle),
{
    let mut plan: Vec<DeviceAction> = Vec::new();
    if needs_toggle {
        plan.push(DeviceAction::KeyUp);
        plan.push(DeviceAction::Wait { ms: 50 });
        plan.push(DeviceAction::KeyDown { key: '\t' });
        plan.push(DeviceAction::Wait { ms: 50 });
        plan.push(DeviceAction::KeyUp);
        proof {
            assert(plan@ =~= wave_reveal_postlude_script(needs_toggle));
        }
    } else {
        proof {
            assert(plan@ =~= wave_reveal_postlude_script(needs_toggle));
        }
    }
    plan
}

/// The fixed clicks that enter the sub-game from the lobby.
pub open spec fn battle_entry_script() -> Seq<DeviceAction> {
    seq![
        DeviceAction::MoveTo { x: 1700, y: 950, ms: 500 },
        DeviceAction::Click,
        DeviceAction::MoveTo { x: 1110, y: 670, ms: 500 },
        DeviceAction::Click,
    ]
}

/// Plan the fixed clicks that enter the sub-game from the lobby.
pub fn battle_entry_plan() -> (plan: Vec<DeviceAction>)
    ensures
        plan@ == battle_entry_script(),
{
    let mut plan: Vec<DeviceAction> = Vec::new();
    plan.push(DeviceAction::MoveTo { x: 1700, y: 950, ms: 500 });
    plan.push(DeviceAction::Click);
    plan.push(DeviceAction::MoveTo { x: 1110, y: 670, ms: 500 });
    plan.push(DeviceAction::Click);
    proof {
        assert(plan@ =~= battle_entry_script());
    }
    plan
}

/// The separator between the early and the late phase of one wave: the
/// phase-advance keypress and its settle wait.
pub open spec fn phase_advance_script() -> Seq<DeviceAction> {
    seq![DeviceAction::KeyClick { key: 'g' }, DeviceAction::Wait { ms: 1000 }]
}

impl TowerDefenseApp {
    /// One monitoring cycle: parse the recognized HUD text, validate the
    /// detection, and on a confirmed transition plan the early phase of the
    /// new wave, the phase-advance keypress, then the late phase. A cycle
    /// without a confirmed transition changes nothing and plans nothing.
    pub fn monitor_cycle(&mut self, text: &str, now_ms: u64) -> (plan: Vec<DeviceAction>)
        requires
            old(self).wf(),
            now_ms >= old(self).last_wave_change_ms,
        ensures
            final(self).wf(),
            ({
                let det = crate::wave::wave_of_text(text@);
                match det {
                    Some(v) => {
                        if wave_transition_accepted(
                            old(self).last_confirmed_wave as int,
                            old(self).last_wave_change_ms as int,
                            old(self).min_wave_interval_secs as int,
                            v as int,
                            now_ms as int,
                        ) {
                            exists|mid2: TowerDefenseApp, p1: Seq<DeviceAction>, p2: Seq<
                                DeviceAction,
                            >|
                                #![trigger wave_phase_spec(mid2, *final(self), p2, v as int, true), p1 + phase_advance_script()]
                                {
                                    let mid1 = TowerDefenseApp {
                                        last_confirmed_wave: v,
                                        last_wave_change_ms: now_ms,
                                        ..*old(self)
                                    };
                                    &&& wave_phase_spec(mid1, mid2, p1, v as int, false)
                                    &&& wave_phase_spec(mid2, *final(self), p2, v as int, true)
                                    &&& plan@ == p1 + phase_advance_script() + p2
                                }
                        } else {
                            *final(self) == *old(self) && plan@ == Seq::<DeviceAction>::empty()
                        }
                    },
                    None => *final(self) == *old(self) && plan@ == Seq::<DeviceAction>::empty(),
                }
            }),
    {
        let status = self.recognize_wave_status(text);
        match status {
            None => Vec::new(),
            Some(ws) => {
                if self.validate_wave_transition(ws.current_wave, now_ms) {
                    let ghost mid1 = *self;
                    let mut plan = self.execute_wave_phase(ws.current_wave, false);
                    let ghost mid2v = *self;
                    let ghost p1v = plan@;
                    plan.push(DeviceAction::KeyClick { key: 'g' });
                    plan.push(DeviceAction::Wait { ms: 1000 });
                    let mut late = self.execute_wave_phase(ws.current_wave, true);
                    let ghost p2v = late@;
                    plan.append(&mut late);
                    proof {
                        let v = ws.current_wave;
                        assert(mid1 == (TowerDefenseApp {
                            last_confirmed_wave: v,
                            last_wave_change_ms: now_ms,
                            ..*old(self)
                        }));
                        assert(wave_phase_spec(mid1, mid2v, p1v, v as int, false));
                        assert(wave_phase_spec(mid2v, *self, p2v, v as int, true));
                        assert(plan@ =~= p1v + phase_advance_script() + p2v);
                    }
                    plan
                } else {
                    Vec::new()
                }
            },
        }
    }
}

/// The ledger key of an upgrade: name, wave and phase.
pub open spec fn upgrade_key(u: UpgradeEvent) -> (Seq<char>, int, bool) {
    (u.building_name@, u.wave_num as int, u.is_late)
}

/// Abstract state of the executor: the loaded timeline and the three
/// idempotency ledgers.
pub struct ExecutorView {
    pub buildings: Seq<BuildingExport>,
    pub upgrades: Seq<UpgradeEvent>,
    pub demolishes: Seq<DemolishEvent>,
    pub placed: Set<usize>,
    pub upgraded: Set<(Seq<char>, int, bool)>,
    pub demolished: Set<usize>,
}

/// Index of the first loadout entry equal to `name`, or the loadout length
/// if the name is unknown.
pub open spec fn loadout_index_from(loadout: Seq<Seq<char>>, name: Seq<char>, i: int) -> int
    decreases loadout.len() - i,
{
    if i < 0 || i >= loadout.len() {
        loadout.len() as int
    } else if loadout[i] == name {
        i
    } else {
        loadout_index_from(loadout, name, i + 1)
    }
}

pub open spec fn loadout_index(loadout: Seq<Seq<char>>, name: Seq<char>) -> int {
    loadout_index_from(loadout, name, 0)
}

/// The hotkey of a loadout slot; an unknown name shares the first slot's
/// key, and slots past the fourth get the spare key.
pub open spec fn trap_key_spec(loadout: Seq<Seq<char>>, name: Seq<char>) -> char {
    let i = loadout_index(loadout, name);
    if i == loadout.len() {
        '4'
    } else {
        spec_slot_key(i)
    }
}

pub open spec fn spec_slot_key(i: int) -> char {
    if i == 0 {
        '4'
    } else if i == 1 {
        '5'
    } else if i == 2 {
        '6'
    } else if i == 3 {
        '7'
    } else {
        '1'
    }
}

fn slot_key(i: usize) -> (k: char)
    ensures
        k == spec_slot_key(i as int),
{
    match i {
        0 => '4',
        1 => '5',
        2 => '6',
        3 => '7',
        _ => '1',
    }
}

proof fn lemma_loadout_index_found(loadout: Seq<Seq<char>>, name: Seq<char>, i: int)
    requires
        0 <= i < loadout.len(),
        loadout[i] == name,
        forall|j: int| 0 <= j < i ==> loadout[j] != name,
    ensures
        loadout_index(loadout, name) == i,
{
    lemma_loadout_index_from_found(loadout, name, 0, i);
}

proof fn lemma_loadout_index_from_found(loadout: Seq<Seq<char>>, name: Seq<char>, k: int, i: int)
    requires
        0 <= k <= i < loadout.len(),
        loadout[i] == name,
        forall|j: int| k <= j < i ==> loadout[j] != name,
    ensures
        loadout_index_from(loadout, name, k) == i,
    decreases i - k,
{
    if k < i {
        lemma_loadout_index_from_found(loadout, name, k + 1, i);
    }
}

proof fn lemma_loadout_index_missing(loadout: Seq<Seq<char>>, name: Seq<char>)
    requires
        forall|j: int| 0 <= j < loadout.len() ==> loadout[j] != name,
    ensures
        loadout_index(loadout, name) == loadout.len(),
{
    lemma_loadout_index_from_missing(loadout, name, 0);
}

proof fn lemma_loadout_index_from_missing(loadout: Seq<Seq<char>>, name: Seq<char>, k: int)
    requires
        0 <= k <= loadout.len(),
        forall|j: int| k <= j < loadout.len() ==> loadout[j] != name,
    ensures
        loadout_index_from(loadout, name, k) == loadout.len(),
    decreases loadout.len() - k,
{
    if k < loadout.len() {
        lemma_loadout_index_from_missing(loadout, name, k + 1);
    }
}

/// A product of two values in `[0, amax] x [0, bmax]` stays in
/// `[0, amax * bmax]`.
proof fn lemma_mul_range(a: int, amax: int, b: int, bmax: int)
    by (nonlinear_arith)
    requires
        0 <= a <= amax,
        0 <= b <= bmax,
    ensures
        0 <= a * b <= amax * bmax,
{
}

fn all_buildings_wf(v: &Vec<BuildingExport>) -> (r: bool)
    ensures
        r <==> (forall|i: int| 0 <= i < v@.len() ==> (#[trigger] v@[i]).wf()),
{
    let mut i: usize = 0;
    while i < v.len()
        invariant
            i <= v@.len(),
            forall|j: int| 0 <= j < i ==> (#[trigger] v@[j]).wf(),
        decreases v@.len() - i,
    {
        let b = &v[i];
        if !(b.grid_x <= GRID_LIMIT && b.grid_y <= GRID_LIMIT && b.width <= GRID_LIMIT && b.height
            <= GRID_LIMIT) {
            return false;
        }
        i += 1;
    }
    true
}

fn all_traps_wf(v: &Vec<TrapConfigItem>) -> (r: bool)
    ensures
        r <==> (forall|i: int| 0 <= i < v@.len() ==> (#[trigger] v@[i]).wf()),
{
    let mut i: usize = 0;
    while i < v.len()
        invariant
            i <= v@.len(),
            forall|j: int| 0 <= j < i ==> (#[trigger] v@[j]).wf(),
        decreases v@.len() - i,
    {
        let it = &v[i];
        if !(0 <= it.select_pos[0] && it.select_pos[0] <= SCREEN_LIMIT && 0 <= it.select_pos[1]
            && it.select_pos[1] <= SCREEN_LIMIT) {
            return false;
        }
        i += 1;
    }
    true
}

fn all_demolishes_wf(v: &Vec<DemolishEvent>) -> (r: bool)
    ensures
        r <==> (forall|i: int| 0 <= i < v@.len() ==> (#[trigger] v@[i]).wf()),
{
    let mut i: usize = 0;
    while i < v.len()
        invariant
            i <= v@.len(),
            forall|j: int| 0 <= j < i ==> (#[trigger] v@[j]).wf(),
        decreases v@.len() - i,
    {
        let d = &v[i];
        if !(d.grid_x <= GRID_LIMIT && d.grid_y <= GRID_LIMIT && d.width <= GRID_LIMIT && d.height
            <= GRID_LIMIT) {
            return false;
        }
        i += 1;
    }
    true
}

} // verus!
