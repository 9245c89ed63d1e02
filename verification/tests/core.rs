use nzm_cmd::actions::DeviceAction;
use nzm_cmd::navigator::{NavError, PathStep};
use nzm_cmd::scene_graph::{
    parse_hex_color, str_eq, text_contains, Scene, SceneConfig, SceneGraph, SceneObservation,
    RecognitionLogic, TextAnchor, TransitionConfig,
};
use nzm_cmd::strategy::{
    BuildingExport, ConfigError, DemolishEvent, MapBuildingsExport, MapMeta, MapTerrainExport,
    TrapConfigItem, UpgradeEvent,
};
use nzm_cmd::tower_defense::{
    battle_entry_plan, wave_reveal_postlude, wave_reveal_prelude, TowerDefenseApp,
};
use nzm_cmd::wave::parse_wave_text;

fn scene(id: &str, targets: &[&str]) -> Scene {
    Scene {
        id: id.to_string(),
        name: id.to_string(),
        logic: RecognitionLogic::All,
        text_anchors: Vec::new(),
        color_anchors: Vec::new(),
        transitions: targets
            .iter()
            .enumerate()
            .map(|(k, t)| nzm_cmd::scene_graph::Transition {
                target: t.to_string(),
                target_idx: 0,
                x: 10 * k as i64,
                y: 20,
                post_delay_ms: 100,
            })
            .collect(),
        handler: None,
    }
}

fn graph(edges: &[(&str, &[&str])]) -> SceneGraph {
    let ids: Vec<&str> = edges.iter().map(|(id, _)| *id).collect();
    let mut scenes = Vec::new();
    for (id, targets) in edges {
        let mut s = scene(id, targets);
        for t in s.transitions.iter_mut() {
            t.target_idx = ids.iter().position(|x| *x == t.target.as_str()).unwrap();
        }
        scenes.push(s);
    }
    SceneGraph { scenes }
}

#[test]
fn find_path_shortest_length() {
    // a -> b -> d and a -> c -> d, plus a slow detour a -> e -> f -> d.
    let g = graph(&[
        ("a", &["e", "b", "c"]),
        ("b", &["d"]),
        ("c", &["d"]),
        ("d", &[]),
        ("e", &["f"]),
        ("f", &["d"]),
    ]);
    let p = g.find_path(0, 3).unwrap();
    assert_eq!(p.len(), 2);
    // Tie-break: declaration order prefers b over c (transition 1 before 2).
    assert_eq!(p[0], PathStep { scene: 0, trans: 1 });
    assert_eq!(p[1], PathStep { scene: 1, trans: 0 });
}

#[test]
fn find_path_deterministic() {
    let g = graph(&[
        ("a", &["b", "c"]),
        ("b", &["d"]),
        ("c", &["d"]),
        ("d", &["a"]),
    ]);
    let p1 = g.find_path(0, 3).unwrap();
    let p2 = g.find_path(0, 3).unwrap();
    assert_eq!(p1, p2);
}

#[test]
fn find_path_unreachable_is_not_found() {
    let g = graph(&[("a", &["b"]), ("b", &[]), ("c", &[])]);
    assert_eq!(g.find_path(0, 2), Err(NavError::NotFound));
}

#[test]
fn find_path_self_is_empty() {
    let g = graph(&[("a", &["a"])]);
    let p = g.find_path(0, 0).unwrap();
    assert!(p.is_empty());
}

#[test]
fn wave_text_parses_marker_and_digits() {
    assert_eq!(parse_wave_text("波次12"), Some(12));
    assert_eq!(parse_wave_text("x 波次7 y"), Some(7));
    assert_eq!(parse_wave_text(""), None);
    assert_eq!(parse_wave_text("波次"), None);
    assert_eq!(parse_wave_text("wave 3"), None);
    // The first marked digit run wins.
    assert_eq!(parse_wave_text("波次x波次3波次9"), Some(3));
    // A value too large for i32 is no signal.
    assert_eq!(parse_wave_text("波次99999999999"), None);
}

#[test]
fn hex_color_parses() {
    assert_eq!(parse_hex_color("#FF00AA"), Some((255, 0, 170)));
    assert_eq!(parse_hex_color("#ff00aa"), Some((255, 0, 170)));
    assert_eq!(parse_hex_color("#FFFFFF"), Some((255, 255, 255)));
    assert_eq!(parse_hex_color("FF00AA"), None);
    assert_eq!(parse_hex_color("#FF00A"), None);
    assert_eq!(parse_hex_color("#GG0000"), None);
}

#[test]
fn text_helpers() {
    assert!(text_contains("hello world", "lo wo"));
    assert!(text_contains("abc", ""));
    assert!(!text_contains("abc", "abd"));
    assert!(str_eq("abc", "abc"));
    assert!(!str_eq("abc", "abd"));
}

#[test]
fn load_rejects_dangling_target() {
    let cfg = SceneConfig {
        id: "lobby".to_string(),
        name: "lobby".to_string(),
        logic: "and".to_string(),
        text_anchors: Vec::new(),
        color_anchors: Vec::new(),
        transitions: vec![TransitionConfig {
            target: "missing".to_string(),
            x: 1,
            y: 2,
            post_delay_ms: 100,
        }],
        handler: None,
    };
    assert!(matches!(
        SceneGraph::load(vec![cfg]),
        Err(ConfigError::DanglingTarget)
    ));
}

#[test]
fn load_resolves_targets() {
    let mk = |id: &str, target: Option<&str>| SceneConfig {
        id: id.to_string(),
        name: id.to_string(),
        logic: "or".to_string(),
        text_anchors: Vec::new(),
        color_anchors: Vec::new(),
        transitions: target
            .map(|t| {
                vec![TransitionConfig {
                    target: t.to_string(),
                    x: 5,
                    y: 6,
                    post_delay_ms: 250,
                }]
            })
            .unwrap_or_default(),
        handler: Some("tower_defense".to_string()),
    };
    let g = SceneGraph::load(vec![mk("a", Some("b")), mk("b", None)]).unwrap();
    assert_eq!(g.scenes.len(), 2);
    assert_eq!(g.scenes[0].transitions[0].target_idx, 1);
    assert_eq!(g.scenes[0].logic, RecognitionLogic::Any);
}

#[test]
fn load_last_write_wins() {
    let mk = |id: &str, name: &str| SceneConfig {
        id: id.to_string(),
        name: name.to_string(),
        logic: "and".to_string(),
        text_anchors: Vec::new(),
        color_anchors: Vec::new(),
        transitions: Vec::new(),
        handler: None,
    };
    let g = SceneGraph::load(vec![mk("a", "first"), mk("b", "other"), mk("a", "second")]).unwrap();
    assert_eq!(g.scenes.len(), 2);
    assert_eq!(g.scenes[0].id, "a");
    assert_eq!(g.scenes[0].name, "second");
}

#[test]
fn identify_takes_first_match_in_declaration_order() {
    let mut s1 = scene("one", &[]);
    s1.text_anchors.push(TextAnchor {
        rect: [0, 0, 10, 10],
        val: "menu".to_string(),
    });
    let s2 = scene("two", &[]);
    let g = SceneGraph {
        scenes: vec![s1, s2],
    };
    let obs = vec![
        SceneObservation {
            texts: vec!["main menu".to_string()],
            colors: Vec::new(),
        },
        SceneObservation {
            texts: Vec::new(),
            colors: Vec::new(),
        },
    ];
    // Both scenes match (the second vacuously); the first wins.
    assert_eq!(g.identify_current_scene(&obs), Some(0));
    let obs2 = vec![
        SceneObservation {
            texts: vec!["something else".to_string()],
            colors: Vec::new(),
        },
        SceneObservation {
            texts: Vec::new(),
            colors: Vec::new(),
        },
    ];
    assert_eq!(g.identify_current_scene(&obs2), Some(1));
}

#[test]
fn wave_sequence_confirms_monotonic_transitions() {
    // Raw detections [1,1,1,2,2,3] with no cool-down confirm exactly [1,2,3].
    let mut app = TowerDefenseApp::new();
    app.set_min_wave_interval_secs(0);
    let mut confirmed = Vec::new();
    for d in [1, 1, 1, 2, 2, 3] {
        if app.validate_wave_transition(d, 1000) {
            confirmed.push(d);
        }
    }
    assert_eq!(confirmed, vec![1, 2, 3]);
    // Feeding 5 immediately after confirming 1 is rejected.
    let mut app2 = TowerDefenseApp::new();
    app2.set_min_wave_interval_secs(0);
    assert!(app2.validate_wave_transition(1, 0));
    assert!(!app2.validate_wave_transition(5, 0));
}

#[test]
fn wave_cooldown_rejects_quick_repeat() {
    let mut app = TowerDefenseApp::new();
    // First-ever wave has no cool-down.
    assert!(app.validate_wave_transition(1, 0));
    // Ten seconds later the next wave is too soon under the 60 s default.
    assert!(!app.validate_wave_transition(2, 10_000));
    // After a minute it is accepted.
    assert!(app.validate_wave_transition(2, 60_000));
}

#[test]
fn recognize_wave_status_extracts_value() {
    let app = TowerDefenseApp::new();
    let ws = app.recognize_wave_status("波次21").unwrap();
    assert_eq!(ws.current_wave, 21);
    assert!(app.recognize_wave_status("nothing").is_none());
}

fn meta(cell: i64, ox: i64, oy: i64, bottom: i64) -> MapTerrainExport {
    MapTerrainExport {
        map_name: "m".to_string(),
        meta: MapMeta {
            grid_pixel_size: cell,
            offset_x: ox,
            offset_y: oy,
            bottom,
        },
    }
}

#[test]
fn grid_centroid_maps_to_absolute_pixels() {
    // cell 10, offsets (0,0): grid (2,3) with a 2x2 footprint lands at (30, 40).
    let mut app = TowerDefenseApp::new();
    app.load_map_terrain(meta(10, 0, 0, 1200)).unwrap();
    assert_eq!(app.get_absolute_map_pixel(2, 3, 2, 2), Some((30, 40)));
    // Without metadata there is no pixel target.
    let app2 = TowerDefenseApp::new();
    assert_eq!(app2.get_absolute_map_pixel(2, 3, 2, 2), None);
}

#[test]
fn bottom_zone_snaps_camera_to_max_offset() {
    // safe_zone [200,200,1720,880], bottom 1200, viewport 1080: max offset is
    // 120; target row 1000 lies within one viewport of the bottom, so one
    // call snaps the offset to exactly 120.
    let mut app = TowerDefenseApp::new();
    app.load_map_terrain(meta(10, 0, 0, 1200)).unwrap();
    assert_eq!(app.camera_offset_y, 0);
    let plan = app.ensure_target_in_safe_zone(500, 1000);
    assert_eq!(app.camera_offset_y, 120);
    // One hold toward the bottom, then a settle wait.
    assert_eq!(
        plan[0],
        DeviceAction::KeyHold {
            key: 's',
            ms: 120 * 1000 / 720
        }
    );
    assert_eq!(plan[1], DeviceAction::Wait { ms: 400 });
    assert_eq!(plan.len(), 2);
}

#[test]
fn camera_offset_stays_in_range() {
    let mut app = TowerDefenseApp::new();
    app.load_map_terrain(meta(10, 0, 0, 5000)).unwrap();
    for ty in [0i64, 100, 540, 2000, 4990, 3000, 10] {
        app.ensure_target_in_safe_zone(0, ty);
        assert!(app.camera_offset_y >= 0);
        assert!(app.camera_offset_y <= 5000 - 1080);
    }
}

#[test]
fn visible_target_is_a_no_op() {
    let mut app = TowerDefenseApp::new();
    app.load_map_terrain(meta(10, 0, 0, 5000)).unwrap();
    // Row 500 is already inside the safe zone [200, 880] at offset 0.
    let plan = app.ensure_target_in_safe_zone(0, 500);
    assert!(plan.is_empty());
    assert_eq!(app.camera_offset_y, 0);
}

fn building(uid: usize, name: &str, wave: i32, late: bool) -> BuildingExport {
    BuildingExport {
        uid,
        name: name.to_string(),
        grid_x: 2,
        grid_y: 3,
        width: 2,
        height: 2,
        wave_num: wave,
        is_late: late,
    }
}

#[test]
fn wave_phase_is_idempotent_on_unchanged_ledger() {
    let mut app = TowerDefenseApp::new();
    app.load_map_terrain(meta(10, 0, 0, 1200)).unwrap();
    app.load_strategy(MapBuildingsExport {
        map_name: "m".to_string(),
        buildings: vec![building(1, "tesla", 1, false), building(2, "fire", 2, false)],
        upgrades: vec![UpgradeEvent {
            building_name: "tesla".to_string(),
            wave_num: 1,
            is_late: false,
        }],
        demolishes: vec![DemolishEvent {
            uid: 9,
            name: "tesla".to_string(),
            grid_x: 1,
            grid_y: 1,
            width: 1,
            height: 1,
            wave_num: 1,
            is_late: false,
        }],
    })
    .unwrap();
    let first = app.execute_wave_phase(1, false);
    assert!(!first.is_empty());
    // Demolition is planned before placement, placement before upgrade.
    assert!(matches!(first[first.len() - 2], DeviceAction::KeyHold { .. }));
    let second = app.execute_wave_phase(1, false);
    assert!(second.is_empty());
    // A different wave still has its own pending work.
    let other = app.execute_wave_phase(2, false);
    assert!(!other.is_empty());
}

#[test]
fn wave_phase_ledgers_record_uids() {
    let mut app = TowerDefenseApp::new();
    app.load_map_terrain(meta(10, 0, 0, 1200)).unwrap();
    app.load_strategy(MapBuildingsExport {
        map_name: "m".to_string(),
        buildings: vec![building(7, "tesla", 3, true)],
        upgrades: Vec::new(),
        demolishes: Vec::new(),
    })
    .unwrap();
    app.execute_wave_phase(3, true);
    assert_eq!(app.placed_uids, vec![7]);
}

#[test]
fn loaders_reject_out_of_range_values() {
    let mut app = TowerDefenseApp::new();
    assert_eq!(
        app.load_map_terrain(meta(0, 0, 0, 1200)),
        Err(ConfigError::OutOfRange)
    );
    assert_eq!(
        app.load_trap_config(vec![TrapConfigItem {
            name: "tesla".to_string(),
            select_pos: [-1, 5],
        }]),
        Err(ConfigError::OutOfRange)
    );
}

#[test]
fn trap_key_follows_loadout_position() {
    let mut app = TowerDefenseApp::new();
    app.set_active_loadout(vec![
        "tesla".to_string(),
        "fire".to_string(),
        "frost".to_string(),
        "gun".to_string(),
        "extra".to_string(),
    ]);
    assert_eq!(app.get_trap_key(&"tesla".to_string()), '4');
    assert_eq!(app.get_trap_key(&"fire".to_string()), '5');
    assert_eq!(app.get_trap_key(&"frost".to_string()), '6');
    assert_eq!(app.get_trap_key(&"gun".to_string()), '7');
    assert_eq!(app.get_trap_key(&"extra".to_string()), '1');
    // Unknown names fall back to the first slot's key.
    assert_eq!(app.get_trap_key(&"unknown".to_string()), '4');
}

#[test]
fn select_loadout_clicks_known_names_only() {
    let mut app = TowerDefenseApp::new();
    app.load_trap_config(vec![
        TrapConfigItem {
            name: "tesla".to_string(),
            select_pos: [100, 200],
        },
        TrapConfigItem {
            name: "fire".to_string(),
            select_pos: [150, 200],
        },
    ])
    .unwrap();
    let plan = app.select_loadout(&vec!["tesla".to_string(), "missing".to_string()]);
    assert_eq!(
        plan,
        vec![
            DeviceAction::MoveTo {
                x: 100,
                y: 200,
                ms: 500
            },
            DeviceAction::Click,
            DeviceAction::Wait { ms: 400 },
        ]
    );
}

#[test]
fn setup_view_rehomes_camera() {
    let mut app = TowerDefenseApp::new();
    app.load_map_terrain(meta(10, 0, 0, 5000)).unwrap();
    app.ensure_target_in_safe_zone(0, 3000);
    assert!(app.camera_offset_y > 0);
    let plan = app.setup_view();
    assert_eq!(app.camera_offset_y, 0);
    assert_eq!(app.camera_offset_x, 0);
    assert_eq!(plan[0], DeviceAction::KeyClick { key: 'o' });
    // 2 opening actions, 7 rounds of (12 scroll pairs + wait), 4 nudge
    // rounds of 4 actions, 2 final holds.
    assert_eq!(plan.len(), 2 + 7 * 25 + 4 * 4 + 2);
}

#[test]
fn battle_helpers() {
    let app = TowerDefenseApp::new();
    assert!(app.battle_started(&Some(nzm_cmd::strategy::WaveStatus { current_wave: 1 })));
    assert!(!app.battle_started(&Some(nzm_cmd::strategy::WaveStatus { current_wave: 0 })));
    assert!(!app.battle_started(&None));
    let entry = battle_entry_plan();
    assert_eq!(entry.len(), 4);
    assert_eq!(
        entry[0],
        DeviceAction::MoveTo {
            x: 1700,
            y: 950,
            ms: 500
        }
    );
}

#[test]
fn monitor_cycle_plans_both_phases_on_transition() {
    let mut app = TowerDefenseApp::new();
    app.set_min_wave_interval_secs(0);
    app.load_map_terrain(meta(10, 0, 0, 1200)).unwrap();
    app.load_strategy(MapBuildingsExport {
        map_name: "m".to_string(),
        buildings: vec![building(1, "tesla", 1, false)],
        upgrades: Vec::new(),
        demolishes: Vec::new(),
    })
    .unwrap();
    let plan = app.monitor_cycle("波次1", 0);
    assert!(plan.contains(&DeviceAction::KeyClick { key: 'g' }));
    assert_eq!(app.last_confirmed_wave, 1);
    // No signal: nothing planned, nothing changed.
    let empty = app.monitor_cycle("noise", 1);
    assert!(empty.is_empty());
    assert_eq!(app.last_confirmed_wave, 1);
}

#[test]
fn step_plan_and_confirmation() {
    let g = graph(&[("a", &["b"]), ("b", &[])]);
    let st = PathStep { scene: 0, trans: 0 };
    let plan = g.step_plan(st);
    assert_eq!(
        plan,
        vec![
            DeviceAction::MoveTo { x: 0, y: 20, ms: 300 },
            DeviceAction::Click,
            DeviceAction::Wait { ms: 100 },
        ]
    );
    // Progress is confirmed only by observing the transition's target.
    assert!(g.step_confirmed(st, Some(1)));
    assert!(!g.step_confirmed(st, Some(0)));
    assert!(!g.step_confirmed(st, None));
}

#[test]
fn nav_outcome_reports_handover() {
    let mut with_handler = scene("battle", &[]);
    with_handler.handler = Some("tower_defense".to_string());
    let plain = scene("lobby", &[]);
    let g = SceneGraph {
        scenes: vec![plain, with_handler],
    };
    assert!(matches!(
        g.nav_outcome(0),
        nzm_cmd::navigator::NavResult::Success
    ));
    match g.nav_outcome(1) {
        nzm_cmd::navigator::NavResult::Handover(id) => assert_eq!(id, "battle"),
        _ => panic!("expected handover"),
    }
}

#[test]
fn trap_config_loads_merge() {
    let mut app = TowerDefenseApp::new();
    app.load_trap_config(vec![TrapConfigItem {
        name: "tesla".to_string(),
        select_pos: [100, 200],
    }])
    .unwrap();
    // A later load adds names and overrides duplicates; earlier names
    // survive.
    app.load_trap_config(vec![
        TrapConfigItem {
            name: "fire".to_string(),
            select_pos: [150, 200],
        },
        TrapConfigItem {
            name: "tesla".to_string(),
            select_pos: [120, 220],
        },
    ])
    .unwrap();
    let plan = app.select_loadout(&vec!["tesla".to_string(), "fire".to_string()]);
    assert_eq!(
        plan,
        vec![
            DeviceAction::MoveTo {
                x: 120,
                y: 220,
                ms: 500
            },
            DeviceAction::Click,
            DeviceAction::Wait { ms: 400 },
            DeviceAction::MoveTo {
                x: 150,
                y: 200,
                ms: 500
            },
            DeviceAction::Click,
            DeviceAction::Wait { ms: 400 },
        ]
    );
}

#[test]
fn reveal_choreography_wraps_toggled_samples() {
    assert!(wave_reveal_prelude(false).is_empty());
    assert!(wave_reveal_postlude(false).is_empty());
    assert_eq!(
        wave_reveal_prelude(true),
        vec![
            DeviceAction::KeyDown { key: '\t' },
            DeviceAction::Wait { ms: 200 },
        ]
    );
    assert_eq!(
        wave_reveal_postlude(true),
        vec![
            DeviceAction::KeyUp,
            DeviceAction::Wait { ms: 50 },
            DeviceAction::KeyDown { key: '\t' },
            DeviceAction::Wait { ms: 50 },
            DeviceAction::KeyUp,
        ]
    );
}

#[test]
fn fresh_executor_state() {
    let app = TowerDefenseApp::new();
    assert_eq!(app.camera_offset_x, 0);
    assert_eq!(app.camera_offset_y, 0);
    assert_eq!(app.move_speed, 720);
    assert_eq!(app.last_confirmed_wave, 0);
    assert_eq!(app.last_wave_change_ms, 0);
    assert_eq!(app.min_wave_interval_secs, 60);
    assert!(app.map_meta.is_none());
    assert!(app.trap_lookup.is_empty());
    assert!(app.active_loadout.is_empty());
    assert!(app.strategy_buildings.is_empty());
    assert!(app.placed_uids.is_empty());
    assert_eq!(app.config.safe_zone, [200, 200, 1720, 880]);
    assert_eq!(app.config.screen_height, 1080);
}
