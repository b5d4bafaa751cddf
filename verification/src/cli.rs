//! Command-line decisions: presentation option values, option conflicts,
//! and the exit code of a run.
//!
//! Exit codes follow the documented contract: `0` success, `1` a failed
//! result, `2` a blocked or skipped result, `3` usage or configuration
//! errors, `4` internal failures, and `130` an interrupted validation.

use vstd::prelude::*;
use crate::contracts::report::exit_code_of;
use crate::error::ValidatorError;
use crate::execution::outcome::RunOutcome;
use crate::reporting::execution::{ascii_lower, eq_ignore_ascii_case, same_ignoring_ascii_case};
use crate::reporting::theme::{PaletteProfile, PresentationProfile, Theme};
use crate::text::owned;

verus! {

/// Exit code of an interrupted validation.
pub const INTERRUPTED_EXIT_CODE: i32 = 130;

/// The palette a `--color` value names, ignoring ASCII case.
pub open spec fn palette_named(text: Seq<char>) -> Option<PaletteProfile> {
    if same_ignoring_ascii_case(text, "standard"@) {
        Some(PaletteProfile::Standard)
    } else if same_ignoring_ascii_case(text, "high-contrast"@) {
        Some(PaletteProfile::HighContrast)
    } else if same_ignoring_ascii_case(text, "protanopia"@) {
        Some(PaletteProfile::Protanopia)
    } else if same_ignoring_ascii_case(text, "deuteranopia"@) {
        Some(PaletteProfile::Deuteranopia)
    } else if same_ignoring_ascii_case(text, "tritanopia"@) {
        Some(PaletteProfile::Tritanopia)
    } else if same_ignoring_ascii_case(text, "achromatopsia"@) {
        Some(PaletteProfile::Achromatopsia)
    } else {
        None
    }
}

/// Reads a `--color` value, ignoring ASCII case.
pub fn palette_argument(text: &str) -> (r: Option<PaletteProfile>)
    ensures
        r == palette_named(text@),
{
    if eq_ignore_ascii_case(text, "standard") {
        Some(PaletteProfile::Standard)
    } else if eq_ignore_ascii_case(text, "high-contrast") {
        Some(PaletteProfile::HighContrast)
    } else if eq_ignore_ascii_case(text, "protanopia") {
        Some(PaletteProfile::Protanopia)
    } else if eq_ignore_ascii_case(text, "deuteranopia") {
        Some(PaletteProfile::Deuteranopia)
    } else if eq_ignore_ascii_case(text, "tritanopia") {
        Some(PaletteProfile::Tritanopia)
    } else if eq_ignore_ascii_case(text, "achromatopsia") {
        Some(PaletteProfile::Achromatopsia)
    } else {
        None
    }
}

/// The presentation a `--presentation` value names, ignoring ASCII case.
pub open spec fn presentation_named(text: Seq<char>) -> Option<PresentationProfile> {
    if same_ignoring_ascii_case(text, "standard"@) {
        Some(PresentationProfile::Standard)
    } else if same_ignoring_ascii_case(text, "low-vision"@) {
        Some(PresentationProfile::LowVision)
    } else {
        None
    }
}

/// Reads a `--presentation` value, ignoring ASCII case.
pub fn presentation_argument(text: &str) -> (r: Option<PresentationProfile>)
    ensures
        r == presentation_named(text@),
{
    if eq_ignore_ascii_case(text, "standard") {
        Some(PresentationProfile::Standard)
    } else if eq_ignore_ascii_case(text, "low-vision") {
        Some(PresentationProfile::LowVision)
    } else {
        None
    }
}

/// Some argument is `flag` and the next one is a value it accepts; `None`
/// stands for an argument that is not Unicode.
pub open spec fn value_follows(
    arguments: Seq<Option<String>>,
    flag: Seq<char>,
    accepts: spec_fn(Seq<char>) -> bool,
) -> bool {
    exists|i: int|
        0 <= i < arguments.len() - 1 && (match #[trigger] arguments[i] {
            Some(a) => a@ == flag,
            None => false,
        }) && match arguments[i + 1] {
            Some(b) => accepts(b@),
            None => false,
        }
}

/// A named palette was passed as a separate argument after `--color`,
/// which would otherwise be read as a target.
#[verifier::spinoff_prover]
#[verifier::rlimit(40)]
pub fn color_value_without_equals(arguments: &Vec<Option<String>>) -> (r: bool)
    ensures
        r == value_follows(arguments@, "--color"@, |t: Seq<char>| palette_named(t) is Some),
{
    let mut i: usize = 0;
    while i < arguments.len() && i + 1 < arguments.len()
        invariant
            i <= arguments@.len(),
            forall|j: int|
                0 <= j < i && j < arguments@.len() - 1 ==> !((match #[trigger] arguments@[j] {
                    Some(a) => a@ == "--color"@,
                    None => false,
                }) && match arguments@[j + 1] {
                    Some(b) => palette_named(b@) is Some,
                    None => false,
                }),
        decreases arguments@.len() - i,
    {
        let first = match &arguments[i] {
            Some(a) => crate::text::text_eq(a.as_str(), "--color"),
            None => false,
        };
        let second = match &arguments[i + 1] {
            Some(b) => palette_argument(b.as_str()).is_some(),
            None => false,
        };
        if first && second {
            return true;
        }
        i = i + 1;
    }
    false
}

/// A presentation mode was passed as a separate argument after
/// `--presentation`, which would otherwise be read as a target.
#[verifier::spinoff_prover]
#[verifier::rlimit(40)]
pub fn presentation_value_without_equals(arguments: &Vec<Option<String>>) -> (r: bool)
    ensures
        r == value_follows(arguments@, "--presentation"@, |t: Seq<char>| presentation_named(t) is Some),
{
    let mut i: usize = 0;
    while i < arguments.len() && i + 1 < arguments.len()
        invariant
            i <= arguments@.len(),
            forall|j: int|
                0 <= j < i && j < arguments@.len() - 1 ==> !((match #[trigger] arguments@[j] {
                    Some(a) => a@ == "--presentation"@,
                    None => false,
                }) && match arguments@[j + 1] {
                    Some(b) => presentation_named(b@) is Some,
                    None => false,
                }),
        decreases arguments@.len() - i,
    {
        let first = match &arguments[i] {
            Some(a) => crate::text::text_eq(a.as_str(), "--presentation"),
            None => false,
        };
        let second = match &arguments[i + 1] {
            Some(b) => presentation_argument(b.as_str()).is_some(),
            None => false,
        };
        if first && second {
            return true;
        }
        i = i + 1;
    }
    false
}

/// Styling options cannot be combined with JSON output.
pub fn styling_conflict(json: bool, color: bool, presentation: bool) -> (r: Option<ValidatorError>)
    ensures
        r is Some <==> json && (color || presentation),
        r matches Some(e) ==> (e matches ValidatorError::Usage(detail) && detail@
            == "--color and --presentation cannot be combined with --format=json"@),
{
    if json && (color || presentation) {
        Some(ValidatorError::Usage(owned("--color and --presentation cannot be combined with --format=json")))
    } else {
        None
    }
}

/// The theme of a human run: the chosen palette, else plain; the chosen
/// presentation, else standard.
pub fn theme_for(color: Option<PaletteProfile>, presentation: Option<PresentationProfile>) -> (r: Theme)
    ensures
        r.palette() == match color {
            Some(p) => p,
            None => PaletteProfile::Plain,
        },
        r.presentation() == match presentation {
            Some(p) => p,
            None => PresentationProfile::Standard,
        },
{
    let palette = match color {
        Some(p) => p,
        None => PaletteProfile::Plain,
    };
    let mode = match presentation {
        Some(p) => p,
        None => PresentationProfile::Standard,
    };
    Theme::resolve(palette, mode)
}

/// The exit code of a run: interruption first, else the summary's code.
pub fn run_exit_code(outcome: &RunOutcome) -> (r: i32)
    ensures
        r == if outcome.interrupted {
            INTERRUPTED_EXIT_CODE
        } else {
            exit_code_of(outcome.report.summary.result)
        },
{
    if outcome.interrupted {
        INTERRUPTED_EXIT_CODE
    } else {
        outcome.report.summary.exit_code()
    }
}

} // verus!
