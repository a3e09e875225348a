//! The closed set of operating modes, their stable integer codes used at the
//! foreign-call boundary, and their names in the configuration document.

use vstd::prelude::*;

use crate::errors::Error;
use crate::text::str_eq;

verus! {

/// An operating mode a scheduler can be started in.
#[derive(Clone, Copy, Debug, PartialEq, Eq, Structural)]
pub enum SchedMode {
    /// Default values for the scheduler.
    Auto,
    /// Flags for a better gaming experience.
    Gaming,
    /// Flags for lower power usage.
    PowerSave,
    /// Low latency operation.
    LowLatency,
    /// Server-oriented operation.
    Server,
}

/// The stable integer encoding of a mode.
pub open spec fn code_of(m: SchedMode) -> u32 {
    match m {
        SchedMode::Auto => 0,
        SchedMode::Gaming => 1,
        SchedMode::PowerSave => 2,
        SchedMode::LowLatency => 3,
        SchedMode::Server => 4,
    }
}

/// The mode a raw code decodes to, if any: the exact inverse of `code_of`.
pub open spec fn mode_of_code(code: u32) -> Option<SchedMode> {
    if code == 0 {
        Some(SchedMode::Auto)
    } else if code == 1 {
        Some(SchedMode::Gaming)
    } else if code == 2 {
        Some(SchedMode::PowerSave)
    } else if code == 3 {
        Some(SchedMode::LowLatency)
    } else if code == 4 {
        Some(SchedMode::Server)
    } else {
        None
    }
}

/// Decodes a raw mode code from the foreign-call boundary; any code outside
/// the five documented ones is invalid input.
pub fn convert_from_raw_mode(raw_mode: u32) -> (r: Result<SchedMode, Error>)
    ensures
        r == match mode_of_code(raw_mode) {
            Some(m) => Result::<SchedMode, Error>::Ok(m),
            None => Result::<SchedMode, Error>::Err(Error::InvalidInput),
        },
{
    match raw_mode {
        0 => Ok(SchedMode::Auto),
        1 => Ok(SchedMode::Gaming),
        2 => Ok(SchedMode::PowerSave),
        3 => Ok(SchedMode::LowLatency),
        4 => Ok(SchedMode::Server),
        _ => Err(Error::InvalidInput),
    }
}

/// Encodes a mode as its stable integer code.
pub fn mode_code(m: SchedMode) -> (r: u32)
    ensures
        r == code_of(m),
{
    match m {
        SchedMode::Auto => 0,
        SchedMode::Gaming => 1,
        SchedMode::PowerSave => 2,
        SchedMode::LowLatency => 3,
        SchedMode::Server => 4,
    }
}

/// Decoding a code and re-encoding the mode round-trips, both ways.
pub proof fn lemma_mode_code_roundtrip(m: SchedMode, code: u32)
    ensures
        mode_of_code(code_of(m)) == Some(m),
        mode_of_code(code) matches Some(d) ==> code_of(d) == code,
{
}

/// The name of a mode in the configuration document.
pub open spec fn word_of(m: SchedMode) -> Seq<char> {
    match m {
        SchedMode::Auto => "Auto"@,
        SchedMode::Gaming => "Gaming"@,
        SchedMode::PowerSave => "PowerSave"@,
        SchedMode::LowLatency => "LowLatency"@,
        SchedMode::Server => "Server"@,
    }
}

/// The mode a document name denotes, if any.
pub open spec fn mode_of_word(w: Seq<char>) -> Option<SchedMode> {
    if w == word_of(SchedMode::Auto) {
        Some(SchedMode::Auto)
    } else if w == word_of(SchedMode::Gaming) {
        Some(SchedMode::Gaming)
    } else if w == word_of(SchedMode::PowerSave) {
        Some(SchedMode::PowerSave)
    } else if w == word_of(SchedMode::LowLatency) {
        Some(SchedMode::LowLatency)
    } else if w == word_of(SchedMode::Server) {
        Some(SchedMode::Server)
    } else {
        None
    }
}

/// The document name of a mode.
pub fn mode_word(m: SchedMode) -> (r: &'static str)
    ensures
        r@ == word_of(m),
{
    match m {
        SchedMode::Auto => "Auto",
        SchedMode::Gaming => "Gaming",
        SchedMode::PowerSave => "PowerSave",
        SchedMode::LowLatency => "LowLatency",
        SchedMode::Server => "Server",
    }
}

/// Reads a mode name from the configuration document.
pub fn mode_from_word(w: &str) -> (r: Option<SchedMode>)
    ensures
        r == mode_of_word(w@),
{
    if str_eq(w, "Auto") {
        Some(SchedMode::Auto)
    } else if str_eq(w, "Gaming") {
        Some(SchedMode::Gaming)
    } else if str_eq(w, "PowerSave") {
        Some(SchedMode::PowerSave)
    } else if str_eq(w, "LowLatency") {
        Some(SchedMode::LowLatency)
    } else if str_eq(w, "Server") {
        Some(SchedMode::Server)
    } else {
        None
    }
}

/// A mode's document name always reads back as that mode.
pub proof fn lemma_mode_word_roundtrip(m: SchedMode)
    ensures
        mode_of_word(word_of(m)) == Some(m),
{
    reveal_strlit("Auto");
    reveal_strlit("Gaming");
    reveal_strlit("PowerSave");
    reveal_strlit("LowLatency");
    reveal_strlit("Server");
    assert(("Auto"@).len() == 4);
    assert(("Gaming"@).len() == 6);
    assert(("PowerSave"@).len() == 9);
    assert(("LowLatency"@).len() == 10);
    assert(("Server"@).len() == 6);
    assert(("Gaming"@)[0] == 'G' && ("Server"@)[0] == 'S');
}

/// A mode's document name holds only storable characters.
pub proof fn lemma_mode_word_ok(m: SchedMode)
    ensures
        crate::text::str_ok(word_of(m)),
{
    reveal_strlit("Auto");
    reveal_strlit("Gaming");
    reveal_strlit("PowerSave");
    reveal_strlit("LowLatency");
    reveal_strlit("Server");
}

} // verus!
