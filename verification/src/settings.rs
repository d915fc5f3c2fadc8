//! The integer and text parts of the user settings: per-board Wooting
//! options, the control-bar LED map and the defaults that apply when the
//! settings file leaves a field out.
use vstd::prelude::*;

use crate::num::{parse_bounded, parse_u64};
use crate::text::{chars_of, eq_str, trim, trim_str};

verus! {

/// The settings file's `exquis` section; it holds nothing yet.
#[derive(Debug, Clone, Default)]
pub struct ExquisSettings {}

/// One LED column, or several.
#[derive(Debug, Clone)]
pub enum OneOrManyU8 {
    One(u8),
    Many(Vec<u8>),
}

impl OneOrManyU8 {
    /// The columns, in order.
    pub open spec fn cols(&self) -> Seq<u8> {
        match self {
            OneOrManyU8::One(v) => seq![*v],
            OneOrManyU8::Many(vs) => vs@,
        }
    }

    pub fn as_vec(&self) -> (r: Vec<u8>)
        ensures
            r@ == self.cols(),
    {
        match self {
            OneOrManyU8::One(v) => {
                let mut r: Vec<u8> = Vec::new();
                r.push(*v);
                r
            },
            OneOrManyU8::Many(vs) => {
                let mut r: Vec<u8> = Vec::new();
                let mut i: usize = 0;
                while i < vs.len()
                    invariant
                        i <= vs.len(),
                        r@ == vs@.take(i as int),
                    decreases vs.len() - i,
                {
                    r.push(vs[i]);
                    i = i + 1;
                    assert(r@ =~= vs@.take(i as int));
                }
                assert(vs@.take(vs.len() as int) =~= vs@);
                r
            },
        }
    }
}

/// The control-bar row and, per key name (`"Space"`, `"RightAlt"`, ...),
/// the LED columns that key lights.
#[derive(Debug, Clone)]
pub struct ControlBarSettings {
    pub row: u8,
    pub led_cols_by_hid: Vec<(String, OneOrManyU8)>,
}

/// The entries as (name, columns).
pub open spec fn cols_entries(s: Seq<(String, OneOrManyU8)>) -> Seq<(Seq<char>, Seq<u8>)> {
    s.map_values(|e: (String, OneOrManyU8)| (e.0@, e.1.cols()))
}

/// The columns of the first entry named `name`, if any.
pub open spec fn lookup_cols(s: Seq<(Seq<char>, Seq<u8>)>, name: Seq<char>) -> Option<Seq<u8>>
    decreases s.len(),
{
    if s.len() == 0 {
        None
    } else if s[0].0 == name {
        Some(s[0].1)
    } else {
        lookup_cols(s.drop_first(), name)
    }
}

/// The key names and columns of a 60HE control bar.
pub open spec fn default_control_bar_entries() -> Seq<(Seq<char>, Seq<u8>)> {
    seq![
        ("LeftCtrl"@, seq![0u8]),
        ("LeftMeta"@, seq![1u8]),
        ("LeftAlt"@, seq![2u8]),
        ("Space"@, seq![4u8, 5, 6, 7, 8]),
        ("RightAlt"@, seq![10u8]),
        ("ContextMenu"@, seq![11u8]),
        ("RightCtrl"@, seq![12u8]),
    ]
}

/// The default control bar names each key once.
pub proof fn lemma_default_control_bar_names_unique()
    ensures
        crate::xtn::board_names_unique(default_control_bar_entries()),
{
    reveal_strlit("LeftCtrl");
    reveal_strlit("LeftMeta");
    reveal_strlit("LeftAlt");
    reveal_strlit("Space");
    reveal_strlit("RightAlt");
    reveal_strlit("ContextMenu");
    reveal_strlit("RightCtrl");
    let e = default_control_bar_entries();
    assert("LeftCtrl"@[4] != "LeftMeta"@[4]);
    assert("LeftCtrl"@[0] != "RightAlt"@[0]);
    assert("LeftMeta"@[0] != "RightAlt"@[0]);
    assert forall|i: int, j: int| 0 <= i < j < e.len() implies (#[trigger] e[i]).0 != (#[trigger] e[j]).0 by {
        assert(e[i].0[0] != e[j].0[0] || e[i].0.len() != e[j].0.len() || e[i].0[4] != e[j].0[4]);
    }
}

fn named_one(name: &str, col: u8) -> (r: (String, OneOrManyU8))
    ensures
        r.0@ == name@,
        r.1.cols() == seq![col],
{
    (name.to_owned(), OneOrManyU8::One(col))
}

impl ControlBarSettings {
    /// The columns configured for the key called `name`.
    pub fn cols_named(&self, name: &str) -> (r: Option<Vec<u8>>)
        ensures
            match r {
                Some(v) => lookup_cols(cols_entries(self.led_cols_by_hid@), name@) == Some(v@),
                None => lookup_cols(cols_entries(self.led_cols_by_hid@), name@) is None,
            },
    {
        let n = chars_of(name);
        let ghost es = cols_entries(self.led_cols_by_hid@);
        let mut i: usize = 0;
        assert(es.skip(0) =~= es);
        while i < self.led_cols_by_hid.len()
            invariant
                i <= self.led_cols_by_hid.len(),
                n@ == name@,
                es == cols_entries(self.led_cols_by_hid@),
                lookup_cols(es, name@) == lookup_cols(es.skip(i as int), name@),
            decreases self.led_cols_by_hid.len() - i,
        {
            let e = &self.led_cols_by_hid[i];
            let en = chars_of(e.0.as_str());
            assert(es.skip(i as int).drop_first() =~= es.skip(i + 1));
            if eq_str(&en, name) {
                return Some(e.1.as_vec());
            }
            i = i + 1;
        }
        None
    }

    pub open spec fn default_spec(r: Self) -> bool {
        r.row == 5 && cols_entries(r.led_cols_by_hid@) == default_control_bar_entries()
    }
}

impl Default for ControlBarSettings {
    fn default() -> (r: Self)
        ensures
            ControlBarSettings::default_spec(r),
    {
        let mut m: Vec<(String, OneOrManyU8)> = Vec::new();
        m.push(named_one("LeftCtrl", 0));
        m.push(named_one("LeftMeta", 1));
        m.push(named_one("LeftAlt", 2));
        let mut space: Vec<u8> = Vec::new();
        space.push(4);
        space.push(5);
        space.push(6);
        space.push(7);
        space.push(8);
        assert(space@ =~= seq![4u8, 5, 6, 7, 8]);
        m.push(("Space".to_owned(), OneOrManyU8::Many(space)));
        m.push(named_one("RightAlt", 10));
        m.push(named_one("ContextMenu", 11));
        m.push(named_one("RightCtrl", 12));
        let r = ControlBarSettings { row: default_control_bar_row(), led_cols_by_hid: m };
        let ghost e = cols_entries(r.led_cols_by_hid@);
        assert(e.len() == 7);
        assert(e[3] == ("Space"@, seq![4u8, 5, 6, 7, 8]));
        assert(e =~= default_control_bar_entries());
        r
    }
}

/// Screensaver timeout of the RGB painter.
#[derive(Debug, Clone)]
pub struct RgbSettings {
    pub screensaver_timeout_sec: u32,
}

impl Default for RgbSettings {
    fn default() -> (r: Self)
        ensures
            r.screensaver_timeout_sec == 300,
    {
        RgbSettings { screensaver_timeout_sec: default_screensaver_timeout_sec() }
    }
}

/// Why a settings value was refused.
#[derive(Debug, Clone, Copy, PartialEq, Eq, Structural)]
pub enum SettingsError {
    /// `device_id` is not a decimal `u64`.
    InvalidDeviceId,
}

/// Options of one Wooting keyboard.
#[derive(Debug, Clone)]
pub struct BoardSettings {
    /// Analog SDK device id, in decimal (kept as text: `u64::MAX` does not
    /// survive a JSON number).
    pub device_id: Option<String>,
    /// Which `.wtn` board section this keyboard plays.
    pub wtn_board: u8,
    /// Rotation of the playable grid: 0 or 180.
    pub rotation_deg: u16,
    /// Mirror the playable grid left to right for `.wtn` lookup.
    pub mirror_cols: bool,
    /// Name of the key whose analog depth drives a MIDI CC.
    pub cc_analog_hid: Option<String>,
    /// That CC's number; by default 4 for board 0 and 3 for board 1.
    pub cc_analog_cc: Option<u8>,
    /// RGB SDK device index for this keyboard's LEDs (default: `wtn_board`).
    pub rgb_device_index: Option<u8>,
}

pub open spec fn default_board_spec(b: BoardSettings) -> bool {
    &&& b.device_id is None
    &&& b.wtn_board == 0
    &&& b.rotation_deg == 0
    &&& !b.mirror_cols
    &&& b.cc_analog_hid is None
    &&& b.cc_analog_cc is None
    &&& b.rgb_device_index is None
}

impl Default for BoardSettings {
    fn default() -> (r: Self)
        ensures
            default_board_spec(r),
    {
        BoardSettings {
            device_id: None,
            wtn_board: 0,
            rotation_deg: 0,
            mirror_cols: false,
            cc_analog_hid: None,
            cc_analog_cc: None,
            rgb_device_index: None,
        }
    }
}

/// The CC number a board uses: the configured one, else 4 for board 0 and 3
/// for board 1.
pub open spec fn cc_number_spec(b: BoardSettings) -> Option<u8> {
    match b.cc_analog_cc {
        Some(c) => Some(c),
        None => if b.wtn_board == 0 {
            Some(4u8)
        } else if b.wtn_board == 1 {
            Some(3u8)
        } else {
            None
        },
    }
}

impl BoardSettings {
    /// `device_id`, trimmed and read as a decimal `u64`.
    pub fn device_id_u64(&self) -> (r: Result<Option<u64>, SettingsError>)
        ensures
            match self.device_id {
                None => r == Ok::<Option<u64>, SettingsError>(None),
                Some(s) => match parse_bounded(trim(s@), u64::MAX as int) {
                    Some(v) => r == Ok::<Option<u64>, SettingsError>(Some(v as u64)),
                    None => r == Err::<Option<u64>, SettingsError>(SettingsError::InvalidDeviceId),
                },
            },
    {
        match &self.device_id {
            None => Ok(None),
            Some(s) => {
                let t = trim_str(s.as_str());
                match parse_u64(&t) {
                    Some(v) => Ok(Some(v)),
                    None => Err(SettingsError::InvalidDeviceId),
                }
            },
        }
    }

    /// The key name and CC number of this board's analog CC, with the
    /// defaults filled in (`"LeftMeta"`; CC 4 on board 0, 3 on board 1).
    pub fn cc_analog(&self) -> (r: Option<(String, u8)>)
        ensures
            match r {
                None => cc_number_spec(*self) is None,
                Some((h, c)) => cc_number_spec(*self) == Some(c) && h@ == match self.cc_analog_hid {
                    Some(s) => s@,
                    None => "LeftMeta"@,
                },
            },
    {
        let default_cc: Option<u8> = if self.wtn_board == 0 {
            Some(4)
        } else if self.wtn_board == 1 {
            Some(3)
        } else {
            None
        };
        let cc = match self.cc_analog_cc {
            Some(c) => c,
            None => match default_cc {
                Some(c) => c,
                None => {
                    return None;
                },
            },
        };
        let hid = match &self.cc_analog_hid {
            Some(s) => s.clone(),
            None => "LeftMeta".to_owned(),
        };
        Some((hid, cc))
    }
}

/// Two boards: board 0 with CC 4 and board 1 with CC 3, both on `LeftMeta`.
pub fn default_boards() -> (r: Vec<BoardSettings>)
    ensures
        r.len() == 2,
        r[0].wtn_board == 0 && r[0].cc_analog_cc == Some(4u8),
        r[1].wtn_board == 1 && r[1].cc_analog_cc == Some(3u8),
        forall|i: int|
            0 <= i < 2 ==> {
                let b = #[trigger] r[i];
                &&& b.device_id is None
                &&& b.rotation_deg == 0
                &&& !b.mirror_cols
                &&& b.rgb_device_index is None
                &&& b.cc_analog_hid matches Some(h) && h@ == "LeftMeta"@
            },
{
    let mut r: Vec<BoardSettings> = Vec::new();
    let mut b0 = BoardSettings::default();
    b0.wtn_board = 0;
    b0.cc_analog_hid = Some("LeftMeta".to_owned());
    b0.cc_analog_cc = Some(4);
    r.push(b0);
    let mut b1 = BoardSettings::default();
    b1.wtn_board = 1;
    b1.cc_analog_hid = Some("LeftMeta".to_owned());
    b1.cc_analog_cc = Some(3);
    r.push(b1);
    r
}

pub fn default_velocity_peak_track_ms() -> (r: u32)
    ensures
        r == 6,
{
    6
}

pub fn default_aftershock_ms() -> (r: u32)
    ensures
        r == 35,
{
    35
}

pub fn default_aftertouch_speed_attack_ms() -> (r: u32)
    ensures
        r == 12,
{
    12
}

pub fn default_aftertouch_speed_decay_ms() -> (r: u32)
    ensures
        r == 250,
{
    250
}

pub fn default_screensaver_timeout_sec() -> (r: u32)
    ensures
        r == 300,
{
    300
}

pub fn default_control_bar_row() -> (r: u8)
    ensures
        r == 5,
{
    5
}

} // verus!
