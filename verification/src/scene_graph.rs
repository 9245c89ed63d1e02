//! The scene graph: screens of the controlled application, the perceptual
//! anchors that recognize them, and the directed transitions between them.
//!
//! A graph is built once from loaded configuration by [`SceneGraph::load`],
//! which validates every transition target and resolves it to a stable
//! index, so traversal never re-validates a string lookup.

use vstd::prelude::*;

use crate::strategy::{ConfigError, SCREEN_LIMIT};

verus! {

/// How a scene's anchors combine: all must match, or at least one must.
#[derive(PartialEq, Eq, Structural, Clone, Copy, Debug)]
pub enum RecognitionLogic {
    All,
    Any,
}

/// Expected text inside a screen rectangle.
pub struct TextAnchor {
    /// `[x1, y1, x2, y2]` region to recognize.
    pub rect: [i64; 4],
    /// Text expected to occur in the recognized region.
    pub val: String,
}

/// Expected color at a screen point, within a per-channel tolerance.
pub struct ColorAnchor {
    pub pos: [i64; 2],
    pub red: u8,
    pub green: u8,
    pub blue: u8,
    pub tol: u8,
}

/// A directed edge: clicking `(x, y)` moves the application to the scene
/// `target`, settling for `post_delay_ms`.
pub struct Transition {
    /// Target scene id as written in the configuration.
    pub target: String,
    /// Resolved index of the target scene in the graph.
    pub target_idx: usize,
    pub x: i64,
    pub y: i64,
    pub post_delay_ms: u32,
}

/// One screen of the application.
pub struct Scene {
    pub id: String,
    pub name: String,
    pub logic: RecognitionLogic,
    pub text_anchors: Vec<TextAnchor>,
    pub color_anchors: Vec<ColorAnchor>,
    pub transitions: Vec<Transition>,
    /// Name of the control handler that takes over on this scene, if any.
    pub handler: Option<String>,
}

/// The navigation graph: scenes in declaration order.
pub struct SceneGraph {
    pub scenes: Vec<Scene>,
}

/// Every transition's resolved index points at the scene whose id it names.
pub open spec fn graph_wf(scenes: Seq<Scene>) -> bool {
    forall|u: int, k: int|
        0 <= u < scenes.len() && 0 <= k < scenes[u].transitions@.len() ==> {
            let t = #[trigger] scenes[u].transitions@[k];
            &&& t.target_idx < scenes.len()
            &&& scenes[t.target_idx as int].id@ == t.target@
        }
}

impl SceneGraph {
    pub open spec fn wf(&self) -> bool {
        graph_wf(self.scenes@)
    }
}


/// Character-for-character string equality.
pub fn str_eq(a: &str, b: &str) -> (r: bool)
    ensures
        r == (a@ == b@),
{
    let na = a.unicode_len();
    let nb = b.unicode_len();
    if na != nb {
        proof {
            assert(a@ != b@);
        }
        return false;
    }
    let mut i: usize = 0;
    while i < na
        invariant
            na == a@.len(),
            na == b@.len(),
            i <= na,
            forall|j: int| 0 <= j < i ==> a@[j] == b@[j],
        decreases na - i,
    {
        if a.get_char(i) != b.get_char(i) {
            proof {
                assert(a@[i as int] != b@[i as int]);
            }
            return false;
        }
        i += 1;
    }
    proof {
        assert(a@ =~= b@);
    }
    true
}

/// `pat` occurs in `text` starting at position `i`.
pub open spec fn is_match_at(text: Seq<char>, pat: Seq<char>, i: int) -> bool {
    &&& 0 <= i
    &&& i + pat.len() <= text.len()
    &&& text.subrange(i, i + pat.len()) == pat
}

/// `pat` occurs somewhere in `text`.
pub open spec fn contains_text(text: Seq<char>, pat: Seq<char>) -> bool {
    exists|i: int| is_match_at(text, pat, i)
}

/// Substring search: does `pat` occur in `text`?
pub fn text_contains(text: &str, pat: &str) -> (r: bool)
    ensures
        r == contains_text(text@, pat@),
{
    let n = text.unicode_len();
    let m = pat.unicode_len();
    if m > n {
        proof {
            assert forall|i: int| !is_match_at(text@, pat@, i) by {}
        }
        return false;
    }
    if m == 0 {
        proof {
            assert(text@.subrange(0, 0) =~= pat@);
            assert(is_match_at(text@, pat@, 0));
        }
        return true;
    }
    let mut i: usize = 0;
    while i <= n - m
        invariant
            n == text@.len(),
            m == pat@.len(),
            m <= n,
            1 <= m,
            i <= n - m + 1,
            forall|ii: int| 0 <= ii < i ==> !is_match_at(text@, pat@, ii),
        decreases n - m + 1 - i,
    {
        let mut j: usize = 0;
        let mut mismatch: bool = false;
        while j < m && !mismatch
            invariant
                n == text@.len(),
                m == pat@.len(),
                i + m <= n,
                j <= m,
                !mismatch ==> forall|jj: int| 0 <= jj < j ==> text@[i + jj] == pat@[jj],
                mismatch ==> !is_match_at(text@, pat@, i as int),
            decreases m - j + (if mismatch {
                0int
            } else {
                1int
            }),
        {
            if text.get_char(i + j) != pat.get_char(j) {
                proof {
                    assert(text@.subrange(i as int, i + pat@.len())[j as int] != pat@[j as int]);
                }
                mismatch = true;
            } else {
                j += 1;
            }
        }
        if !mismatch {
            proof {
                assert(text@.subrange(i as int, i + pat@.len()) =~= pat@);
                assert(is_match_at(text@, pat@, i as int));
            }
            return true;
        }
        i += 1;
    }
    proof {
        assert forall|ii: int| !is_match_at(text@, pat@, ii) by {
            if ii > n - m {
            }
        }
    }
    false
}

pub open spec fn is_hex_digit(c: char) -> bool {
    (48 <= c as u32 <= 57) || (65 <= c as u32 <= 70) || (97 <= c as u32 <= 102)
}

/// Value of one hexadecimal digit, either case.
pub open spec fn hex_val(c: char) -> int {
    if 48 <= c as u32 <= 57 {
        c as u32 - 48
    } else if 65 <= c as u32 <= 70 {
        c as u32 - 55
    } else {
        c as u32 - 87
    }
}

/// The color a `#RRGGBB` string denotes, if well formed.
pub open spec fn hex_color_spec(s: Seq<char>) -> Option<(u8, u8, u8)> {
    if s.len() == 7 && s[0] == '#' && (forall|k: int| 1 <= k < 7 ==> is_hex_digit(#[trigger] s[k])) {
        Some(
            (
                (hex_val(s[1]) * 16 + hex_val(s[2])) as u8,
                (hex_val(s[3]) * 16 + hex_val(s[4])) as u8,
                (hex_val(s[5]) * 16 + hex_val(s[6])) as u8,
            ),
        )
    } else {
        None
    }
}

fn hex_digit_val(c: char) -> (r: Option<u8>)
    ensures
        r is Some <==> is_hex_digit(c),
        is_hex_digit(c) ==> r == Some(hex_val(c) as u8) && hex_val(c) < 16,
{
    let v = c as u32;
    if 48 <= v && v <= 57 {
        Some((v - 48) as u8)
    } else if 65 <= v && v <= 70 {
        Some((v - 55) as u8)
    } else if 97 <= v && v <= 102 {
        Some((v - 87) as u8)
    } else {
        None
    }
}

/// Parse a `#RRGGBB` color string.
pub fn parse_hex_color(s: &str) -> (r: Option<(u8, u8, u8)>)
    ensures
        r == hex_color_spec(s@),
{
    let n = s.unicode_len();
    if n != 7 {
        return None;
    }
    if s.get_char(0) != '#' {
        return None;
    }
    let mut vals: [u8; 6] = [0, 0, 0, 0, 0, 0];
    let mut k: usize = 1;
    while k < 7
        invariant
            s@.len() == 7,
            1 <= k <= 7,
            forall|j: int| 1 <= j < k ==> is_hex_digit(#[trigger] s@[j]),
            forall|j: int| 1 <= j < k ==> vals[j - 1] == hex_val(s@[j]),
        decreases 7 - k,
    {
        match hex_digit_val(s.get_char(k)) {
            Some(v) => {
                vals[k - 1] = v;
            },
            None => {
                return None;
            },
        }
        k += 1;
    }
    let red = vals[0] * 16 + vals[1];
    let green = vals[2] * 16 + vals[3];
    let blue = vals[4] * 16 + vals[5];
    Some((red, green, blue))
}

/// Observations taken for one scene: the recognized text of each text
/// anchor's region and the sampled color at each color anchor's point, in
/// anchor order.
pub struct SceneObservation {
    pub texts: Vec<String>,
    pub colors: Vec<(u8, u8, u8)>,
}

/// A text anchor matches when its expected text occurs in the recognized
/// text.
pub open spec fn text_anchor_sat(a: TextAnchor, observed: Seq<char>) -> bool {
    contains_text(observed, a.val@)
}

/// A color anchor matches when every channel of the sampled color is within
/// the tolerance of the expected color.
pub open spec fn color_anchor_sat(a: ColorAnchor, c: (u8, u8, u8)) -> bool {
    &&& abs_diff(a.red as int, c.0 as int) <= a.tol
    &&& abs_diff(a.green as int, c.1 as int) <= a.tol
    &&& abs_diff(a.blue as int, c.2 as int) <= a.tol
}

pub open spec fn abs_diff(a: int, b: int) -> int {
    if a >= b {
        a - b
    } else {
        b - a
    }
}

/// The scene's combinator over its anchors, evaluated against a live
/// sample: ALL-of requires every anchor to match, ANY-of at least one. A
/// scene without anchors matches under ALL-of and never under ANY-of.
pub open spec fn scene_sat(s: Scene, obs: SceneObservation) -> bool {
    let texts_ok = forall|k: int|
        0 <= k < s.text_anchors@.len() ==> text_anchor_sat(
            #[trigger] s.text_anchors@[k],
            obs.texts@[k]@,
        );
    let colors_ok = forall|k: int|
        0 <= k < s.color_anchors@.len() ==> color_anchor_sat(
            #[trigger] s.color_anchors@[k],
            obs.colors@[k],
        );
    let any_text = exists|k: int|
        0 <= k < s.text_anchors@.len() && text_anchor_sat(
            #[trigger] s.text_anchors@[k],
            obs.texts@[k]@,
        );
    let any_color = exists|k: int|
        0 <= k < s.color_anchors@.len() && color_anchor_sat(
            #[trigger] s.color_anchors@[k],
            obs.colors@[k],
        );
    match s.logic {
        RecognitionLogic::All => texts_ok && colors_ok,
        RecognitionLogic::Any => any_text || any_color,
    }
}

/// One observation slot per anchor of the scene.
pub open spec fn obs_parallel(s: Scene, obs: SceneObservation) -> bool {
    obs.texts@.len() == s.text_anchors@.len() && obs.colors@.len() == s.color_anchors@.len()
}

/// Evaluate one scene's combinator against its observations.
pub fn scene_matches(s: &Scene, obs: &SceneObservation) -> (r: bool)
    requires
        obs_parallel(*s, *obs),
    ensures
        r == scene_sat(*s, *obs),
{
    let mut texts_ok: bool = true;
    let mut any_text: bool = false;
    let mut k: usize = 0;
    while k < s.text_anchors.len()
        invariant
            obs_parallel(*s, *obs),
            k <= s.text_anchors@.len(),
            texts_ok <==> (forall|j: int|
                0 <= j < k ==> text_anchor_sat(#[trigger] s.text_anchors@[j], obs.texts@[j]@)),
            any_text <==> (exists|j: int|
                0 <= j < k && text_anchor_sat(#[trigger] s.text_anchors@[j], obs.texts@[j]@)),
        decreases s.text_anchors@.len() - k,
    {
        let m = text_contains(obs.texts[k].as_str(), s.text_anchors[k].val.as_str());
        texts_ok = texts_ok && m;
        any_text = any_text || m;
        k += 1;
    }
    let mut colors_ok: bool = true;
    let mut any_color: bool = false;
    let mut k2: usize = 0;
    while k2 < s.color_anchors.len()
        invariant
            obs_parallel(*s, *obs),
            k2 <= s.color_anchors@.len(),
            colors_ok <==> (forall|j: int|
                0 <= j < k2 ==> color_anchor_sat(#[trigger] s.color_anchors@[j], obs.colors@[j])),
            any_color <==> (exists|j: int|
                0 <= j < k2 && color_anchor_sat(#[trigger] s.color_anchors@[j], obs.colors@[j])),
        decreases s.color_anchors@.len() - k2,
    {
        let a = &s.color_anchors[k2];
        let c = obs.colors[k2];
        let dr = if a.red >= c.0 {
            a.red - c.0
        } else {
            c.0 - a.red
        };
        let dg = if a.green >= c.1 {
            a.green - c.1
        } else {
            c.1 - a.green
        };
        let db = if a.blue >= c.2 {
            a.blue - c.2
        } else {
            c.2 - a.blue
        };
        let m = dr <= a.tol && dg <= a.tol && db <= a.tol;
        colors_ok = colors_ok && m;
        any_color = any_color || m;
        k2 += 1;
    }
    match s.logic {
        RecognitionLogic::All => texts_ok && colors_ok,
        RecognitionLogic::Any => any_text || any_color,
    }
}

impl SceneGraph {
    /// Identify the scene the application is showing: the first scene in
    /// declaration order whose combinator is satisfied by its observations,
    /// or nothing when no scene matches.
    pub fn identify_current_scene(&self, obs: &Vec<SceneObservation>) -> (r: Option<usize>)
        requires
            obs@.len() == self.scenes@.len(),
            forall|j: int|
                0 <= j < self.scenes@.len() ==> obs_parallel(
                    #[trigger] self.scenes@[j],
                    obs@[j],
                ),
        ensures
            r matches Some(j) ==> {
                &&& j < self.scenes@.len()
                &&& scene_sat(self.scenes@[j as int], obs@[j as int])
                &&& forall|i: int| 0 <= i < j ==> !scene_sat(#[trigger] self.scenes@[i], obs@[i])
            },
            r is None ==> forall|i: int|
                0 <= i < self.scenes@.len() ==> !scene_sat(#[trigger] self.scenes@[i], obs@[i]),
    {
        let mut j: usize = 0;
        while j < self.scenes.len()
            invariant
                obs@.len() == self.scenes@.len(),
                forall|i: int|
                    0 <= i < self.scenes@.len() ==> obs_parallel(
                        #[trigger] self.scenes@[i],
                        obs@[i],
                    ),
                j <= self.scenes@.len(),
                forall|i: int| 0 <= i < j ==> !scene_sat(#[trigger] self.scenes@[i], obs@[i]),
            decreases self.scenes@.len() - j,
        {
            if scene_matches(&self.scenes[j], &obs[j]) {
                return Some(j);
            }
            j += 1;
        }
        None
    }
}


/// A text anchor as written in the configuration.
pub struct TextAnchorConfig {
    pub rect: [i64; 4],
    pub val: String,
}

/// A color anchor as written in the configuration: the expected color is a
/// `#RRGGBB` string.
pub struct ColorAnchorConfig {
    pub pos: [i64; 2],
    pub val: String,
    pub tol: u8,
}

/// A transition as written in the configuration: the target is a scene id.
pub struct TransitionConfig {
    pub target: String,
    pub x: i64,
    pub y: i64,
    pub post_delay_ms: u32,
}

/// One scene as written in the configuration.
pub struct SceneConfig {
    pub id: String,
    pub name: String,
    /// `"or"` selects the ANY-of combinator; anything else is ALL-of.
    pub logic: String,
    pub text_anchors: Vec<TextAnchorConfig>,
    pub color_anchors: Vec<ColorAnchorConfig>,
    pub transitions: Vec<TransitionConfig>,
    pub handler: Option<String>,
}

/// The combinator a configuration string selects.
pub open spec fn logic_of(s: Seq<char>) -> RecognitionLogic {
    if s == "or"@ {
        RecognitionLogic::Any
    } else {
        RecognitionLogic::All
    }
}

/// Some configuration entry carries this scene id.
pub open spec fn cfg_has_id(cfgs: Seq<SceneConfig>, id: Seq<char>) -> bool {
    exists|i: int| 0 <= i < cfgs.len() && (#[trigger] cfgs[i]).id@ == id
}

/// No later configuration entry redefines this entry's id; with duplicate
/// ids the last write wins, so these are the entries the graph keeps.
pub open spec fn is_last_occurrence(cfgs: Seq<SceneConfig>, i: int) -> bool {
    &&& 0 <= i < cfgs.len()
    &&& forall|j: int| i < j < cfgs.len() ==> (#[trigger] cfgs[j]).id@ != cfgs[i].id@
}

/// The scene is the faithful translation of the configuration entry:
/// combinator decoded, colors parsed, everything else carried over.
#[verifier::opaque]
pub open spec fn scene_from_config(s: Scene, c: SceneConfig) -> bool {
    &&& s.id@ == c.id@
    &&& s.name@ == c.name@
    &&& s.logic == logic_of(c.logic@)
    &&& (s.handler is Some <==> c.handler is Some)
    &&& (c.handler matches Some(h) ==> (s.handler matches Some(h2) && h2@ == h@))
    &&& s.text_anchors@.len() == c.text_anchors@.len()
    &&& forall|k: int|
        0 <= k < c.text_anchors@.len() ==> (#[trigger] s.text_anchors@[k]).rect
            == c.text_anchors@[k].rect && s.text_anchors@[k].val@ == c.text_anchors@[k].val@
    &&& s.color_anchors@.len() == c.color_anchors@.len()
    &&& forall|k: int|
        0 <= k < c.color_anchors@.len() ==> (#[trigger] s.color_anchors@[k]).pos
            == c.color_anchors@[k].pos && s.color_anchors@[k].tol == c.color_anchors@[k].tol
            && hex_color_spec(c.color_anchors@[k].val@) == Some(
            (s.color_anchors@[k].red, s.color_anchors@[k].green, s.color_anchors@[k].blue),
        )
    &&& s.transitions@.len() == c.transitions@.len()
    &&& forall|k: int|
        0 <= k < c.transitions@.len() ==> (#[trigger] s.transitions@[k]).target@
            == c.transitions@[k].target@ && s.transitions@[k].x == c.transitions@[k].x
            && s.transitions@[k].y == c.transitions@[k].y && s.transitions@[k].post_delay_ms
            == c.transitions@[k].post_delay_ms
}

/// A kept configuration entry can be translated: every color parses and
/// every transition target id exists somewhere in the configuration.
pub open spec fn config_ok(cfgs: Seq<SceneConfig>, c: SceneConfig) -> bool {
    &&& forall|k: int|
        0 <= k < c.color_anchors@.len() ==> hex_color_spec(
            (#[trigger] c.color_anchors@[k]).val@,
        ) is Some
    &&& forall|k: int|
        0 <= k < c.transitions@.len() ==> cfg_has_id(cfgs, (#[trigger] c.transitions@[k]).target@)
}

/// The indices a deduplication pass keeps: each is in range, their ids are
/// pairwise distinct, every configured id is covered, and each kept entry is
/// its id's last occurrence.
#[verifier::opaque]
pub open spec fn keep_fits(cfgs: Seq<SceneConfig>, keep: Seq<usize>) -> bool {
    &&& forall|j: int| 0 <= j < keep.len() ==> (#[trigger] keep[j]) < cfgs.len()
    &&& forall|j1: int, j2: int|
        0 <= j1 < j2 < keep.len() ==> cfgs[#[trigger] keep[j1] as int].id@ != cfgs[
            #[trigger] keep[j2] as int
        ].id@
    &&& forall|ii: int|
        0 <= ii < cfgs.len() ==> exists|j: int|
            0 <= j < keep.len() && cfgs[keep[j] as int].id@ == (#[trigger] cfgs[ii]).id@
    &&& forall|j: int, ii: int|
        0 <= j < keep.len() && keep[j] < ii < cfgs.len() ==> (#[trigger] cfgs[ii]).id@ != cfgs[
            #[trigger] keep[j] as int
        ].id@
}

/// The scene is the faithful translation of some last occurrence in the
/// configuration.
pub open spec fn scene_has_origin(cfgs: Seq<SceneConfig>, sc: Scene) -> bool {
    exists|i: int|
        #![trigger cfgs[i]]
        is_last_occurrence(cfgs, i) && scene_from_config(sc, cfgs[i])
}

/// Some built scene is the faithful translation of this configuration
/// entry.
pub open spec fn config_represented(c: SceneConfig, scenes: Seq<Scene>) -> bool {
    exists|j: int|
        #![trigger scenes[j]]
        0 <= j < scenes.len() && scene_from_config(scenes[j], c)
}

/// The index of each id's last configuration entry, in order of first
/// appearance.
fn dedup_keep_indices(configs: &Vec<SceneConfig>) -> (keep: Vec<usize>)
    ensures
        keep_fits(configs@, keep@),
{
    proof {
        reveal(keep_fits);
    }
    let ghost cfgs = configs@;
    let n = configs.len();
    let mut keep: Vec<usize> = Vec::new();
    let mut i: usize = 0;
    while i < n
        invariant
            cfgs == configs@,
            n == cfgs.len(),
            i <= n,
            forall|j: int| 0 <= j < keep@.len() ==> (#[trigger] keep@[j]) < i,
            forall|j1: int, j2: int|
                0 <= j1 < j2 < keep@.len() ==> cfgs[#[trigger] keep@[j1] as int].id@ != cfgs[
                    #[trigger] keep@[j2] as int
                ].id@,
            forall|ii: int|
                0 <= ii < i ==> exists|j: int|
                    0 <= j < keep@.len() && cfgs[keep@[j] as int].id@ == (#[trigger] cfgs[ii]).id@,
            forall|j: int, ii: int|
                0 <= j < keep@.len() && keep@[j] < ii < i ==> (#[trigger] cfgs[ii]).id@ != cfgs[
                    #[trigger] keep@[j] as int
                ].id@,
        decreases n - i,
    {
        let mut j: usize = 0;
        let mut found: bool = false;
        while j < keep.len() && !found
            invariant
                cfgs == configs@,
                n == cfgs.len(),
                i < n,
                j <= keep@.len(),
                forall|jj: int| 0 <= jj < keep@.len() ==> (#[trigger] keep@[jj]) < i,
                !found ==> forall|jj: int|
                    0 <= jj < j ==> cfgs[#[trigger] keep@[jj] as int].id@ != cfgs[i as int].id@,
                found ==> j < keep@.len() && cfgs[keep@[j as int] as int].id@ == cfgs[
                    i as int
                ].id@,
            decreases keep@.len() - j + (if found {
                0int
            } else {
                1int
            }),
        {
            if configs[keep[j]].id.eq(&configs[i].id) {
                found = true;
            } else {
                j += 1;
            }
        }
        let ghost keep0 = keep@;
        if found {
            keep.set(j, i);
        } else {
            keep.push(i);
        }
        proof {
            assert forall|ii: int|
                0 <= ii < i + 1 implies exists|jj: int|
                0 <= jj < keep@.len() && cfgs[keep@[jj] as int].id@ == (
                #[trigger] cfgs[ii]).id@ by {
                if ii == i as int {
                    if found {
                        assert(cfgs[keep@[j as int] as int].id@ == cfgs[ii].id@);
                    } else {
                        assert(cfgs[keep@[keep0.len() as int] as int].id@ == cfgs[ii].id@);
                    }
                } else {
                    let jj0 = choose|jj: int|
                        0 <= jj < keep0.len() && cfgs[keep0[jj] as int].id@ == cfgs[ii].id@;
                    if found && jj0 == j as int {
                        assert(cfgs[keep@[jj0] as int].id@ == cfgs[ii].id@);
                    } else {
                        assert(keep@[jj0] == keep0[jj0]);
                        assert(cfgs[keep@[jj0] as int].id@ == cfgs[ii].id@);
                    }
                }
            }
        }
        i += 1;
    }
    keep
}

/// Copy a configuration's text anchors.
fn convert_text_anchors(c: &SceneConfig) -> (tas: Vec<TextAnchor>)
    ensures
        tas@.len() == c.text_anchors@.len(),
        forall|k: int|
            0 <= k < c.text_anchors@.len() ==> (#[trigger] tas@[k]).rect == c.text_anchors@[k].rect
                && tas@[k].val@ == c.text_anchors@[k].val@,
{
    let mut tas: Vec<TextAnchor> = Vec::new();
    let mut k: usize = 0;
    while k < c.text_anchors.len()
        invariant
            k <= c.text_anchors@.len(),
            tas@.len() == k as int,
            forall|kk: int|
                0 <= kk < k ==> (#[trigger] tas@[kk]).rect == c.text_anchors@[kk].rect
                    && tas@[kk].val@ == c.text_anchors@[kk].val@,
        decreases c.text_anchors@.len() - k,
    {
        let a = &c.text_anchors[k];
        tas.push(TextAnchor { rect: a.rect, val: a.val.clone() });
        k += 1;
    }
    tas
}

/// Parse a configuration's color anchors; a malformed color string rejects
/// the configuration.
fn convert_color_anchors(c: &SceneConfig) -> (r: Result<Vec<ColorAnchor>, ConfigError>)
    ensures
        r matches Ok(cas) ==> {
            &&& cas@.len() == c.color_anchors@.len()
            &&& forall|k: int|
                0 <= k < c.color_anchors@.len() ==> (#[trigger] cas@[k]).pos
                    == c.color_anchors@[k].pos && cas@[k].tol == c.color_anchors@[k].tol
                    && hex_color_spec(c.color_anchors@[k].val@) == Some(
                    (cas@[k].red, cas@[k].green, cas@[k].blue),
                )
        },
        r matches Err(e) ==> e == ConfigError::BadColor && exists|k: int|
            0 <= k < c.color_anchors@.len() && hex_color_spec(
                (#[trigger] c.color_anchors@[k]).val@,
            ) is None,
{
    let mut cas: Vec<ColorAnchor> = Vec::new();
    let mut k: usize = 0;
    while k < c.color_anchors.len()
        invariant
            k <= c.color_anchors@.len(),
            cas@.len() == k as int,
            forall|kk: int|
                0 <= kk < k ==> (#[trigger] cas@[kk]).pos == c.color_anchors@[kk].pos
                    && cas@[kk].tol == c.color_anchors@[kk].tol && hex_color_spec(
                    c.color_anchors@[kk].val@,
                ) == Some((cas@[kk].red, cas@[kk].green, cas@[kk].blue)),
        decreases c.color_anchors@.len() - k,
    {
        let a = &c.color_anchors[k];
        match parse_hex_color(a.val.as_str()) {
            Some((red, green, blue)) => {
                cas.push(ColorAnchor { pos: a.pos, red, green, blue, tol: a.tol });
            },
            None => {
                proof {
                    assert(hex_color_spec((c.color_anchors@[k as int]).val@) is None);
                }
                return Err(ConfigError::BadColor);
            },
        }
        k += 1;
    }
    Ok(cas)
}

/// Resolve a configuration's transitions against the kept ids; a target id
/// that exists nowhere rejects the configuration.
fn resolve_transitions(configs: &Vec<SceneConfig>, keep: &Vec<usize>, c: &SceneConfig) -> (r:
    Result<Vec<Transition>, ConfigError>)
    requires
        keep_fits(configs@, keep@),
    ensures
        r matches Ok(trs) ==> {
            &&& trs@.len() == c.transitions@.len()
            &&& forall|k: int|
                0 <= k < c.transitions@.len() ==> {
                    let t = #[trigger] trs@[k];
                    let tc = c.transitions@[k];
                    &&& t.target@ == tc.target@
                    &&& t.x == tc.x
                    &&& t.y == tc.y
                    &&& t.post_delay_ms == tc.post_delay_ms
                    &&& t.target_idx < keep@.len()
                    &&& configs@[keep@[t.target_idx as int] as int].id@ == t.target@
                }
        },
        r matches Err(e) ==> e == ConfigError::DanglingTarget && exists|k: int|
            0 <= k < c.transitions@.len() && !cfg_has_id(
                configs@,
                (#[trigger] c.transitions@[k]).target@,
            ),
{
    proof {
        reveal(keep_fits);
    }
    let ghost cfgs = configs@;
    let mut trs: Vec<Transition> = Vec::new();
    let mut k: usize = 0;
    while k < c.transitions.len()
        invariant
            cfgs == configs@,
            forall|jj: int| 0 <= jj < keep@.len() ==> (#[trigger] keep@[jj]) < cfgs.len(),
            forall|ii: int|
                0 <= ii < cfgs.len() ==> exists|jj: int|
                    0 <= jj < keep@.len() && cfgs[keep@[jj] as int].id@ == (
                    #[trigger] cfgs[ii]).id@,
            k <= c.transitions@.len(),
            trs@.len() == k as int,
            forall|kk: int|
                0 <= kk < k ==> {
                    let t = #[trigger] trs@[kk];
                    let tc = c.transitions@[kk];
                    &&& t.target@ == tc.target@
                    &&& t.x == tc.x
                    &&& t.y == tc.y
                    &&& t.post_delay_ms == tc.post_delay_ms
                    &&& t.target_idx < keep@.len()
                    &&& cfgs[keep@[t.target_idx as int] as int].id@ == t.target@
                },
        decreases c.transitions@.len() - k,
    {
        let t = &c.transitions[k];
        let mut jj: usize = 0;
        let mut tfound: bool = false;
        while jj < keep.len() && !tfound
            invariant
                cfgs == configs@,
                jj <= keep@.len(),
                k < c.transitions@.len(),
                t == &c.transitions@[k as int],
                forall|x: int| 0 <= x < keep@.len() ==> (#[trigger] keep@[x]) < cfgs.len(),
                !tfound ==> forall|x: int|
                    0 <= x < jj ==> cfgs[#[trigger] keep@[x] as int].id@ != t.target@,
                tfound ==> jj < keep@.len() && cfgs[keep@[jj as int] as int].id@ == t.target@,
            decreases keep@.len() - jj + (if tfound {
                0int
            } else {
                1int
            }),
        {
            if configs[keep[jj]].id.eq(&t.target) {
                tfound = true;
            } else {
                jj += 1;
            }
        }
        if !tfound {
            proof {
                assert(!cfg_has_id(cfgs, t.target@)) by {
                    if cfg_has_id(cfgs, t.target@) {
                        let ii = choose|ii: int|
                            0 <= ii < cfgs.len() && (#[trigger] cfgs[ii]).id@ == t.target@;
                        let jx = choose|jx: int|
                            0 <= jx < keep@.len() && cfgs[keep@[jx] as int].id@ == cfgs[ii].id@;
                        assert(cfgs[keep@[jx] as int].id@ == t.target@);
                    }
                }
            }
            return Err(ConfigError::DanglingTarget);
        }
        trs.push(
            Transition {
                target: t.target.clone(),
                target_idx: jj,
                x: t.x,
                y: t.y,
                post_delay_ms: t.post_delay_ms,
            },
        );
        k += 1;
    }
    Ok(trs)
}

/// Translate one kept configuration entry into a scene, resolving its
/// transition targets to the indices their ids occupy in `keep` order.
fn convert_scene(configs: &Vec<SceneConfig>, keep: &Vec<usize>, j: usize) -> (r: Result<
    Scene,
    ConfigError,
>)
    requires
        j < keep@.len(),
        keep_fits(configs@, keep@),
    ensures
        r matches Ok(sc) ==> {
            &&& scene_from_config(sc, configs@[keep@[j as int] as int])
            &&& forall|k: int|
                0 <= k < sc.transitions@.len() ==> {
                    let t = #[trigger] sc.transitions@[k];
                    &&& t.target_idx < keep@.len()
                    &&& configs@[keep@[t.target_idx as int] as int].id@ == t.target@
                }
        },
        r matches Err(e) ==> !config_ok(configs@, configs@[keep@[j as int] as int]) && (e
            == ConfigError::DanglingTarget || e == ConfigError::BadColor),
{
    proof {
        reveal(keep_fits);
    }
    let ci = keep[j];
    let c = &configs[ci];
    let lg = if str_eq(c.logic.as_str(), "or") {
        RecognitionLogic::Any
    } else {
        RecognitionLogic::All
    };
    let tas = convert_text_anchors(c);
    let cas = match convert_color_anchors(c) {
        Ok(cas) => cas,
        Err(e) => {
            return Err(e);
        },
    };
    let trs = match resolve_transitions(configs, keep, c) {
        Ok(trs) => trs,
        Err(e) => {
            return Err(e);
        },
    };
    let handler = match &c.handler {
        Some(h) => Some(h.clone()),
        None => None,
    };
    let sc = Scene {
        id: c.id.clone(),
        name: c.name.clone(),
        logic: lg,
        text_anchors: tas,
        color_anchors: cas,
        transitions: trs,
        handler,
    };
    proof {
        reveal(scene_from_config);
        assert(scene_from_config(sc, configs@[ci as int]));
    }
    Ok(sc)
}

/// The scenes built so far are the faithful translations of the kept
/// entries, with transitions resolved against `keep`.
#[verifier::opaque]
pub open spec fn scenes_built(cfgs: Seq<SceneConfig>, keep: Seq<usize>, scenes: Seq<Scene>) -> bool {
    &&& scenes.len() <= keep.len()
    &&& forall|jp: int|
        0 <= jp < scenes.len() ==> scene_from_config(#[trigger] scenes[jp], cfgs[keep[jp] as int])
    &&& forall|jp: int, k: int|
        0 <= jp < scenes.len() && 0 <= k < scenes[jp].transitions@.len() ==> {
            let t = #[trigger] scenes[jp].transitions@[k];
            &&& t.target_idx < keep.len()
            &&& cfgs[keep[t.target_idx as int] as int].id@ == t.target@
        }
}

proof fn lemma_scenes_built_empty(cfgs: Seq<SceneConfig>, keep: Seq<usize>)
    ensures
        scenes_built(cfgs, keep, Seq::<Scene>::empty()),
{
    reveal(scenes_built);
}

/// Appending one faithfully converted scene keeps the build relation.
proof fn lemma_scenes_built_push(
    cfgs: Seq<SceneConfig>,
    keep: Seq<usize>,
    scenes: Seq<Scene>,
    sc: Scene,
)
    requires
        scenes_built(cfgs, keep, scenes),
        scenes.len() < keep.len(),
        scene_from_config(sc, cfgs[keep[scenes.len() as int] as int]),
        forall|k: int|
            0 <= k < sc.transitions@.len() ==> {
                let t = #[trigger] sc.transitions@[k];
                &&& t.target_idx < keep.len()
                &&& cfgs[keep[t.target_idx as int] as int].id@ == t.target@
            },
    ensures
        scenes_built(cfgs, keep, scenes.push(sc)),
{
    reveal(scenes_built);
    assert forall|jp: int|
        0 <= jp < scenes.push(sc).len() implies scene_from_config(
        #[trigger] scenes.push(sc)[jp],
        cfgs[keep[jp] as int],
    ) by {
        if jp < scenes.len() {
            assert(scenes.push(sc)[jp] == scenes[jp]);
        } else {
            assert(scenes.push(sc)[jp] == sc);
        }
    }
}

/// A rejected kept entry refutes the success condition.
proof fn lemma_load_err(cfgs: Seq<SceneConfig>, keep: Seq<usize>, j: int)
    requires
        keep_fits(cfgs, keep),
        0 <= j < keep.len(),
        !config_ok(cfgs, cfgs[keep[j] as int]),
    ensures
        !(forall|i: int| is_last_occurrence(cfgs, i) ==> config_ok(cfgs, #[trigger] cfgs[i])),
{
    reveal(keep_fits);
    assert(is_last_occurrence(cfgs, keep[j] as int));
}

/// A complete build is a well-formed graph with pairwise distinct ids, one
/// per configured id.
proof fn lemma_load_post_wf(cfgs: Seq<SceneConfig>, keep: Seq<usize>, scenes: Seq<Scene>)
    requires
        keep_fits(cfgs, keep),
        scenes_built(cfgs, keep, scenes),
        scenes.len() == keep.len(),
    ensures
        graph_wf(scenes),
        forall|j1: int, j2: int|
            0 <= j1 < j2 < scenes.len() ==> (#[trigger] scenes[j1]).id@ != (
            #[trigger] scenes[j2]).id@,
        forall|i: int|
            0 <= i < cfgs.len() ==> exists|j: int|
                0 <= j < scenes.len() && (#[trigger] scenes[j]).id@ == (#[trigger] cfgs[i]).id@,
{
    reveal(keep_fits);
    reveal(scenes_built);
    assert(graph_wf(scenes)) by {
        assert forall|u: int, k: int|
            0 <= u < scenes.len() && 0 <= k < scenes[u].transitions@.len() implies {
            let t = #[trigger] scenes[u].transitions@[k];
            t.target_idx < scenes.len() && scenes[t.target_idx as int].id@ == t.target@
        } by {
            reveal(scene_from_config);
            let t = scenes[u].transitions@[k];
            assert(scene_from_config(
                scenes[t.target_idx as int],
                cfgs[keep[t.target_idx as int] as int],
            ));
        }
    }
    assert forall|j1: int, j2: int|
        0 <= j1 < j2 < scenes.len() implies (#[trigger] scenes[j1]).id@ != (
    #[trigger] scenes[j2]).id@ by {
        reveal(scene_from_config);
        assert(scene_from_config(scenes[j1], cfgs[keep[j1] as int]));
        assert(scene_from_config(scenes[j2], cfgs[keep[j2] as int]));
    }
    assert forall|i: int|
        0 <= i < cfgs.len() implies exists|j: int|
        0 <= j < scenes.len() && (#[trigger] scenes[j]).id@ == (#[trigger] cfgs[i]).id@ by {
        reveal(scene_from_config);
        let jx = choose|jx: int|
            0 <= jx < keep.len() && cfgs[keep[jx] as int].id@ == cfgs[i].id@;
        assert(scene_from_config(scenes[jx], cfgs[keep[jx] as int]));
        assert(scenes[jx].id@ == cfgs[i].id@);
    }
}

/// Every built scene is the translation of a last occurrence.
proof fn lemma_load_post_sound(cfgs: Seq<SceneConfig>, keep: Seq<usize>, scenes: Seq<Scene>)
    requires
        keep_fits(cfgs, keep),
        scenes_built(cfgs, keep, scenes),
        scenes.len() == keep.len(),
    ensures
        forall|j: int|
            0 <= j < scenes.len() ==> scene_has_origin(cfgs, #[trigger] scenes[j]),
{
    reveal(keep_fits);
    reveal(scenes_built);
    assert forall|j: int|
        0 <= j < scenes.len() implies scene_has_origin(cfgs, #[trigger] scenes[j]) by {
        let ghost iw = keep[j] as int;
        assert(is_last_occurrence(cfgs, iw));
        assert(scene_from_config(scenes[j], cfgs[iw]));
    }
}

/// Every last occurrence has a built translation.
proof fn lemma_load_post_complete(cfgs: Seq<SceneConfig>, keep: Seq<usize>, scenes: Seq<Scene>)
    requires
        keep_fits(cfgs, keep),
        scenes_built(cfgs, keep, scenes),
        scenes.len() == keep.len(),
    ensures
        forall|i: int|
            is_last_occurrence(cfgs, i) ==> config_represented(#[trigger] cfgs[i], scenes),
{
    reveal(keep_fits);
    reveal(scenes_built);
    assert forall|i: int|
        is_last_occurrence(cfgs, i) implies config_represented(#[trigger] cfgs[i], scenes) by {
        let jx = choose|jx: int|
            0 <= jx < keep.len() && cfgs[keep[jx] as int].id@ == cfgs[i].id@;
        assert(keep[jx] == i) by {
            if keep[jx] < i {
                assert(cfgs[i].id@ != cfgs[keep[jx] as int].id@);
            }
            if i < keep[jx] {
                assert(cfgs[keep[jx] as int].id@ != cfgs[i].id@);
            }
        }
        assert(scene_from_config(scenes[jx], cfgs[i]));
    }
}

/// Every kept entry of a complete build is translatable: success was owed.
proof fn lemma_load_post_ok(cfgs: Seq<SceneConfig>, keep: Seq<usize>, scenes: Seq<Scene>)
    requires
        keep_fits(cfgs, keep),
        scenes_built(cfgs, keep, scenes),
        scenes.len() == keep.len(),
    ensures
        forall|i: int| is_last_occurrence(cfgs, i) ==> config_ok(cfgs, #[trigger] cfgs[i]),
{
    lemma_load_post_complete(cfgs, keep, scenes);
    assert forall|i: int|
        is_last_occurrence(cfgs, i) implies config_ok(cfgs, #[trigger] cfgs[i]) by {
        reveal(keep_fits);
        assert(config_represented(cfgs[i], scenes));
        let jx = choose|jx: int|
            #![trigger scenes[jx]]
            0 <= jx < scenes.len() && scene_from_config(scenes[jx], cfgs[i]);
        let sc = scenes[jx];
        assert forall|k: int|
            0 <= k < cfgs[i].transitions@.len() implies cfg_has_id(
            cfgs,
            (#[trigger] cfgs[i].transitions@[k]).target@,
        ) by {
            reveal(scenes_built);
            reveal(scene_from_config);
            let t = sc.transitions@[k];
            assert(t.target@ == cfgs[i].transitions@[k].target@);
            assert(cfgs[keep[t.target_idx as int] as int].id@ == t.target@);
        }
        assert forall|k: int|
            0 <= k < cfgs[i].color_anchors@.len() implies hex_color_spec(
            (#[trigger] cfgs[i].color_anchors@[k]).val@,
        ) is Some by {
            reveal(scene_from_config);
            let a = sc.color_anchors@[k];
            assert(hex_color_spec(cfgs[i].color_anchors@[k].val@) == Some(
                (a.red, a.green, a.blue),
            ));
        }
    }
}

impl SceneGraph {
    /// Build the navigation graph from loaded configuration.
    ///
    /// Duplicate ids follow last-write-wins (a documented gap of the format,
    /// not silently repaired): the kept scene stands at its id's first
    /// position, with the content of its id's last entry. Every transition
    /// target is validated here and resolved to a stable index, so traversal
    /// never re-validates a string lookup; a reference to a missing id or a
    /// malformed color is a load-time error, never a deferred failure.
    pub fn load(configs: Vec<SceneConfig>) -> (r: Result<SceneGraph, ConfigError>)
        ensures
            r is Ok <==> (forall|i: int|
                is_last_occurrence(configs@, i) ==> config_ok(configs@, #[trigger] configs@[i])),
            r matches Ok(g) ==> {
                &&& g.wf()
                &&& forall|j1: int, j2: int|
                    0 <= j1 < j2 < g.scenes@.len() ==> (#[trigger] g.scenes@[j1]).id@ != (
                    #[trigger] g.scenes@[j2]).id@
                &&& forall|i: int|
                    0 <= i < configs@.len() ==> exists|j: int|
                        0 <= j < g.scenes@.len() && (#[trigger] g.scenes@[j]).id@ == (
                        #[trigger] configs@[i]).id@
                &&& forall|j: int|
                    0 <= j < g.scenes@.len() ==> scene_has_origin(
                        configs@,
                        #[trigger] g.scenes@[j],
                    )
                &&& forall|i: int|
                    is_last_occurrence(configs@, i) ==> config_represented(
                        #[trigger] configs@[i],
                        g.scenes@,
                    )
            },
            r matches Err(e) ==> (e == ConfigError::DanglingTarget || e == ConfigError::BadColor),
    {
        let ghost cfgs = configs@;
        let keep = dedup_keep_indices(&configs);
        let ghost gkeep = keep@;
        let mut scenes_v: Vec<Scene> = Vec::new();
        proof {
            lemma_scenes_built_empty(cfgs, gkeep);
            assert(scenes_v@ =~= Seq::<Scene>::empty());
        }
        let mut j: usize = 0;
        while j < keep.len()
            invariant
                cfgs == configs@,
                gkeep == keep@,
                keep_fits(cfgs, gkeep),
                j <= keep@.len(),
                scenes_v@.len() == j as int,
                scenes_built(cfgs, gkeep, scenes_v@),
            decreases keep@.len() - j,
        {
            match convert_scene(&configs, &keep, j) {
                Ok(sc) => {
                    proof {
                        lemma_scenes_built_push(cfgs, gkeep, scenes_v@, sc);
                    }
                    scenes_v.push(sc);
                },
                Err(e) => {
                    proof {
                        lemma_load_err(cfgs, gkeep, j as int);
                    }
                    return Err(e);
                },
            }
            j += 1;
        }
        let g = SceneGraph { scenes: scenes_v };
        proof {
            lemma_load_post_wf(cfgs, gkeep, g.scenes@);
            lemma_load_post_sound(cfgs, gkeep, g.scenes@);
            lemma_load_post_complete(cfgs, gkeep, g.scenes@);
            lemma_load_post_ok(cfgs, gkeep, g.scenes@);
        }
        Ok(g)
    }
}

} // verus!
