//! The game's parameters and the `set key = value` command that changes them.
use vstd::prelude::*;
use crate::command::{get_values, parse_bool, same_text, setting_parts};

verus! {

/// How a game is set up.
#[derive(Debug, Clone, Copy, PartialEq, Eq, Structural)]
pub struct Parameters {
    /// The computer plays seat Two.
    pub singleplayer: bool,
    /// Number of layers of the tree.
    pub depth: u32,
    /// Player One, who moves at the root, is the maximizer.
    pub root_maximizes: bool,
}

/// Why a `set` command changed nothing.
#[derive(Debug, Clone, Copy, PartialEq, Eq, Structural)]
pub enum SettingError {
    /// Not of the form `key = value`.
    Syntax,
    /// A key other than `singleplayer`, `depth`, `min` and `max`.
    UnknownKey,
    /// `singleplayer` given something other than `true` or `false`.
    NotBoolean,
    /// `depth` given zero.
    ZeroDepth,
    /// `depth` given something that is not a `u32`.
    BadDepth,
    /// `min` or `max` given something other than `player_one` or `player_two`.
    UnknownPlayer,
}

/// `s` is an optional `+` followed by one or more decimal digits.
pub open spec fn is_decimal(s: Seq<char>) -> bool {
    let d = unsigned_part(s);
    d.len() > 0 && forall|i: int| 0 <= i < d.len() ==> '0' <= #[trigger] d[i] <= '9'
}

/// `s` without a leading `+`.
pub open spec fn unsigned_part(s: Seq<char>) -> Seq<char> {
    if s.len() > 0 && s[0] == '+' {
        s.drop_first()
    } else {
        s
    }
}

/// The number that the decimal digits `d` write.
pub open spec fn digits_value(d: Seq<char>) -> int
    decreases d.len(),
{
    if d.len() == 0 {
        0
    } else {
        10 * digits_value(d.drop_last()) + (d.last() as int - '0' as int)
    }
}

/// Relies on `str::parse::<u32>`: it accepts an optional `+` followed by
/// decimal digits and nothing else, and fails when the number exceeds `u32::MAX`.
#[verifier::external_body]
fn parse_u32(s: &str) -> (r: Option<u32>)
    ensures
        r is Some <==> (is_decimal(s@) && digits_value(unsigned_part(s@)) <= u32::MAX),
        r matches Some(v) ==> v == digits_value(unsigned_part(s@)),
{
    match s.parse::<u32>() {
        Ok(v) => Some(v),
        Err(_) => None,
    }
}

/// The defaults: single player, four layers, player One maximizing.
pub fn default_parameters() -> (r: Parameters)
    ensures
        r == (Parameters { singleplayer: true, depth: 4, root_maximizes: true }),
{
    Parameters { singleplayer: true, depth: 4, root_maximizes: true }
}

/// The parameters after setting `key` to `value` in `p`, or why that fails.
pub open spec fn updated(p: Parameters, key: Seq<char>, value: Seq<char>) -> Result<Parameters, SettingError> {
    if key == "singleplayer"@ {
        if value == "true"@ {
            Ok(Parameters { singleplayer: true, ..p })
        } else if value == "false"@ {
            Ok(Parameters { singleplayer: false, ..p })
        } else {
            Err(SettingError::NotBoolean)
        }
    } else if key == "depth"@ {
        if !is_decimal(value) || digits_value(unsigned_part(value)) > u32::MAX {
            Err(SettingError::BadDepth)
        } else if digits_value(unsigned_part(value)) == 0 {
            Err(SettingError::ZeroDepth)
        } else {
            Ok(Parameters { depth: digits_value(unsigned_part(value)) as u32, ..p })
        }
    } else if key == "min"@ || key == "max"@ {
        if value == "player_one"@ {
            Ok(Parameters { root_maximizes: key == "max"@, ..p })
        } else if value == "player_two"@ {
            Ok(Parameters { root_maximizes: key == "min"@, ..p })
        } else {
            Err(SettingError::UnknownPlayer)
        }
    } else {
        Err(SettingError::UnknownKey)
    }
}

/// Carries out `set <setting>`, where `setting` reads `key = value`. On an
/// error the parameters stay as they were.
pub fn apply_setting(params: &mut Parameters, setting: &str) -> (r: Result<(), SettingError>)
    ensures
        setting_parts(setting@) is None ==> r == Err::<(), SettingError>(SettingError::Syntax)
            && *final(params) == *old(params),
        setting_parts(setting@) matches Some((key, value)) ==> match updated(*old(params), key, value) {
            Ok(p) => r is Ok && *final(params) == p,
            Err(e) => r == Err::<(), SettingError>(e) && *final(params) == *old(params),
        },
{
    proof {
        reveal_strlit("singleplayer");
        reveal_strlit("depth");
        reveal_strlit("min");
        reveal_strlit("max");
        reveal_strlit("player_one");
        reveal_strlit("player_two");
        assert("singleplayer"@[0] == 's' && "depth"@[0] == 'd');
        assert("min"@[1] == 'i' && "max"@[1] == 'a');
        assert("player_one"@[7] == 'o' && "player_two"@[7] == 't');
    }
    let (key, value) = match get_values(setting) {
        Ok(parts) => parts,
        Err(()) => {
            return Err(SettingError::Syntax);
        },
    };
    if same_text(key, "singleplayer") {
        match parse_bool(value) {
            Ok(b) => {
                params.singleplayer = b;
                Ok(())
            },
            Err(_) => Err(SettingError::NotBoolean),
        }
    } else if same_text(key, "depth") {
        match parse_u32(value) {
            Some(n) => {
                if n > 0 {
                    params.depth = n;
                    Ok(())
                } else {
                    Err(SettingError::ZeroDepth)
                }
            },
            None => Err(SettingError::BadDepth),
        }
    } else if same_text(key, "min") || same_text(key, "max") {
        let maximizing = same_text(key, "max");
        if same_text(value, "player_one") {
            params.root_maximizes = maximizing;
            Ok(())
        } else if same_text(value, "player_two") {
            params.root_maximizes = !maximizing;
            Ok(())
        } else {
            Err(SettingError::UnknownPlayer)
        }
    } else {
        Err(SettingError::UnknownKey)
    }
}

} // verus!
