//! Composable, accessible visual themes for human reporting.
//!
//! A theme resolves, for each semantic role of report text, the style that a
//! palette (colors) and a presentation (emphasis and spacing) give it. The
//! two axes are independent: a presentation only adjusts attributes and
//! metrics, never hues.

use vstd::prelude::*;
use crate::text::{concat2, join_strings, join_texts, owned, views};

verus! {

/// Bold text.
pub const BOLD: u8 = 1;
/// Dimmed text.
pub const DIM: u8 = 2;
/// Underlined text.
pub const UNDERLINE: u8 = 4;
/// Reversed foreground and background.
pub const REVERSE: u8 = 8;
/// Bright variant of the foreground color.
pub const BRIGHT: u8 = 16;

/// Width of framed rules, in terminal columns.
pub const FRAME_WIDTH: usize = 78;

/// Number of semantic roles.
pub const ROLE_COUNT: usize = 21;

/// Terminal foreground colors used by palettes.
#[derive(Clone, Copy, Debug, PartialEq, Eq, Structural)]
pub enum TerminalColor {
    Red,
    Green,
    Yellow,
    Blue,
    Magenta,
    Cyan,
    White,
}

/// A foreground color, if any, and a set of attribute flags.
#[derive(Clone, Copy, Debug, PartialEq, Eq, Structural)]
pub struct StyleSpec {
    /// Foreground color, or the terminal's own.
    pub foreground: Option<TerminalColor>,
    /// Attribute flags: [`BOLD`], [`DIM`], [`UNDERLINE`], [`REVERSE`], [`BRIGHT`].
    pub attributes: u8,
}

/// Attribute flags a presentation removes from and adds to a style.
#[derive(Clone, Copy, Debug, PartialEq, Eq, Structural)]
pub struct StyleModifier {
    /// Flags removed first.
    pub remove: u8,
    /// Flags added afterwards.
    pub add: u8,
}

/// Spacing and progress dimensions of a presentation.
#[derive(Clone, Copy, Debug, PartialEq, Eq, Structural)]
pub struct PresentationMetrics {
    /// Width of progress bars.
    pub progress_width: usize,
    /// Blank guide lines around report sections.
    pub section_gap: usize,
    /// Blank guide lines between items.
    pub item_gap: usize,
    /// Blank guide lines between execution stages.
    pub execution_gap: usize,
}

/// Color palette selected independently from report presentation.
#[derive(Clone, Copy, Debug, PartialEq, Eq, Structural)]
pub enum PaletteProfile {
    /// Terminal foreground and typographic presentation only.
    Plain,
    /// Familiar terminal colors.
    Standard,
    /// Bright terminal colors selected for strong visual separation.
    HighContrast,
    /// Palette avoiding red-green distinctions for reduced red perception.
    Protanopia,
    /// Palette avoiding red-green distinctions for reduced green perception.
    Deuteranopia,
    /// Palette avoiding documented blue-green, purple-red, and yellow-pink pairs.
    Tritanopia,
    /// Non-chromatic palette using typographic attributes.
    Achromatopsia,
}

/// Layout and emphasis selected independently from color.
#[derive(Clone, Copy, Debug, PartialEq, Eq, Structural)]
pub enum PresentationProfile {
    /// Regular density and emphasis.
    Standard,
    /// Expanded spacing, progress width, and short-label emphasis.
    LowVision,
}

/// Semantic role of a piece of report text.
#[derive(Clone, Copy, Debug, PartialEq, Eq, Structural)]
pub enum Role {
    Heading,
    Section,
    Border,
    Metadata,
    Duration,
    Path,
    Shared,
    Tool,
    Group,
    Suite,
    Check,
    Gate,
    Success,
    Failure,
    Blocked,
    Skipped,
    DiagnosticLabel,
    DiagnosticContent,
    ActiveSpinner,
    ProgressComplete,
    ProgressPending,
}

/// The position of a role in a theme's style table.
pub open spec fn role_index(role: Role) -> int {
    match role {
        Role::Heading => 0,
        Role::Section => 1,
        Role::Border => 2,
        Role::Metadata => 3,
        Role::Duration => 4,
        Role::Path => 5,
        Role::Shared => 6,
        Role::Tool => 7,
        Role::Group => 8,
        Role::Suite => 9,
        Role::Check => 10,
        Role::Gate => 11,
        Role::Success => 12,
        Role::Failure => 13,
        Role::Blocked => 14,
        Role::Skipped => 15,
        Role::DiagnosticLabel => 16,
        Role::DiagnosticContent => 17,
        Role::ActiveSpinner => 18,
        Role::ProgressComplete => 19,
        Role::ProgressPending => 20,
    }
}

/// The role at position `i` of a theme's style table.
pub open spec fn role_at(i: int) -> Role {
    if i == 0 {
        Role::Heading
    } else     if i == 1 {
        Role::Section
    } else     if i == 2 {
        Role::Border
    } else     if i == 3 {
        Role::Metadata
    } else     if i == 4 {
        Role::Duration
    } else     if i == 5 {
        Role::Path
    } else     if i == 6 {
        Role::Shared
    } else     if i == 7 {
        Role::Tool
    } else     if i == 8 {
        Role::Group
    } else     if i == 9 {
        Role::Suite
    } else     if i == 10 {
        Role::Check
    } else     if i == 11 {
        Role::Gate
    } else     if i == 12 {
        Role::Success
    } else     if i == 13 {
        Role::Failure
    } else     if i == 14 {
        Role::Blocked
    } else     if i == 15 {
        Role::Skipped
    } else     if i == 16 {
        Role::DiagnosticLabel
    } else     if i == 17 {
        Role::DiagnosticContent
    } else     if i == 18 {
        Role::ActiveSpinner
    } else     if i == 19 {
        Role::ProgressComplete
    } else {
        Role::ProgressPending
    }
}

/// Returns the position of a role in a theme's style table.
pub fn role_slot(role: Role) -> (r: usize)
    ensures
        r == role_index(role),
        r < ROLE_COUNT,
        role_at(r as int) == role,
{
    match role {
        Role::Heading => 0,
        Role::Section => 1,
        Role::Border => 2,
        Role::Metadata => 3,
        Role::Duration => 4,
        Role::Path => 5,
        Role::Shared => 6,
        Role::Tool => 7,
        Role::Group => 8,
        Role::Suite => 9,
        Role::Check => 10,
        Role::Gate => 11,
        Role::Success => 12,
        Role::Failure => 13,
        Role::Blocked => 14,
        Role::Skipped => 15,
        Role::DiagnosticLabel => 16,
        Role::DiagnosticContent => 17,
        Role::ActiveSpinner => 18,
        Role::ProgressComplete => 19,
        Role::ProgressPending => 20,
    }
}

/// Every role, in table order.
pub fn all_roles() -> (r: Vec<Role>)
    ensures
        r@.len() == ROLE_COUNT,
        forall|i: int| 0 <= i < ROLE_COUNT ==> r@[i] == role_at(i),
{
    let mut roles: Vec<Role> = Vec::new();
    roles.push(Role::Heading);
    roles.push(Role::Section);
    roles.push(Role::Border);
    roles.push(Role::Metadata);
    roles.push(Role::Duration);
    roles.push(Role::Path);
    roles.push(Role::Shared);
    roles.push(Role::Tool);
    roles.push(Role::Group);
    roles.push(Role::Suite);
    roles.push(Role::Check);
    roles.push(Role::Gate);
    roles.push(Role::Success);
    roles.push(Role::Failure);
    roles.push(Role::Blocked);
    roles.push(Role::Skipped);
    roles.push(Role::DiagnosticLabel);
    roles.push(Role::DiagnosticContent);
    roles.push(Role::ActiveSpinner);
    roles.push(Role::ProgressComplete);
    roles.push(Role::ProgressPending);
    roles
}

/// The style a palette gives each role; the plain palette styles nothing.
pub open spec fn palette_spec(profile: PaletteProfile, role: Role) -> StyleSpec {
    match profile {
        PaletteProfile::Plain => StyleSpec { foreground: None, attributes: 0 },
        PaletteProfile::Standard => match role {
            Role::Heading => StyleSpec { foreground: Some(TerminalColor::White), attributes: BOLD },
            Role::Section => StyleSpec { foreground: Some(TerminalColor::Cyan), attributes: BOLD },
            Role::Border => StyleSpec { foreground: None, attributes: 0 },
            Role::Metadata => StyleSpec { foreground: Some(TerminalColor::Cyan), attributes: 0 },
            Role::Duration => StyleSpec { foreground: Some(TerminalColor::White), attributes: DIM },
            Role::Path => StyleSpec { foreground: Some(TerminalColor::Blue), attributes: 0 },
            Role::Shared => StyleSpec { foreground: Some(TerminalColor::Magenta), attributes: UNDERLINE },
            Role::Tool => StyleSpec { foreground: Some(TerminalColor::Cyan), attributes: BOLD },
            Role::Group => StyleSpec { foreground: Some(TerminalColor::Blue), attributes: BOLD },
            Role::Suite => StyleSpec { foreground: Some(TerminalColor::Magenta), attributes: BOLD },
            Role::Check => StyleSpec { foreground: Some(TerminalColor::Cyan), attributes: BOLD },
            Role::Gate => StyleSpec { foreground: Some(TerminalColor::Yellow), attributes: BOLD },
            Role::Success => StyleSpec { foreground: Some(TerminalColor::Green), attributes: BOLD },
            Role::Failure => StyleSpec { foreground: Some(TerminalColor::Red), attributes: BOLD | UNDERLINE },
            Role::Blocked => StyleSpec { foreground: Some(TerminalColor::Yellow), attributes: BOLD },
            Role::Skipped => StyleSpec { foreground: Some(TerminalColor::Yellow), attributes: UNDERLINE },
            Role::DiagnosticLabel => StyleSpec { foreground: Some(TerminalColor::Red), attributes: BOLD },
            Role::DiagnosticContent => StyleSpec { foreground: Some(TerminalColor::White), attributes: 0 },
            Role::ActiveSpinner => StyleSpec { foreground: Some(TerminalColor::Cyan), attributes: BOLD },
            Role::ProgressComplete => StyleSpec { foreground: Some(TerminalColor::Green), attributes: BOLD },
            Role::ProgressPending => StyleSpec { foreground: Some(TerminalColor::Blue), attributes: DIM },
        },
        PaletteProfile::HighContrast => match role {
            Role::Heading => StyleSpec { foreground: Some(TerminalColor::White), attributes: BOLD | BRIGHT },
            Role::Section => StyleSpec { foreground: Some(TerminalColor::Cyan), attributes: BOLD | BRIGHT | UNDERLINE },
            Role::Border => StyleSpec { foreground: Some(TerminalColor::Cyan), attributes: BRIGHT },
            Role::Metadata => StyleSpec { foreground: Some(TerminalColor::White), attributes: BOLD },
            Role::Duration => StyleSpec { foreground: Some(TerminalColor::White), attributes: BRIGHT },
            Role::Path => StyleSpec { foreground: Some(TerminalColor::Cyan), attributes: BRIGHT | UNDERLINE },
            Role::Shared => StyleSpec { foreground: Some(TerminalColor::Magenta), attributes: BOLD | UNDERLINE },
            Role::Tool => StyleSpec { foreground: Some(TerminalColor::Cyan), attributes: BOLD | BRIGHT },
            Role::Group => StyleSpec { foreground: Some(TerminalColor::White), attributes: BOLD | BRIGHT },
            Role::Suite => StyleSpec { foreground: Some(TerminalColor::Magenta), attributes: BOLD | BRIGHT },
            Role::Check => StyleSpec { foreground: Some(TerminalColor::Cyan), attributes: BOLD | BRIGHT },
            Role::Gate => StyleSpec { foreground: Some(TerminalColor::Yellow), attributes: BOLD | BRIGHT },
            Role::Success => StyleSpec { foreground: Some(TerminalColor::White), attributes: BOLD | BRIGHT },
            Role::Failure => StyleSpec { foreground: Some(TerminalColor::Yellow), attributes: BOLD | REVERSE },
            Role::Blocked => StyleSpec { foreground: Some(TerminalColor::Cyan), attributes: BOLD | UNDERLINE },
            Role::Skipped => StyleSpec { foreground: Some(TerminalColor::White), attributes: UNDERLINE },
            Role::DiagnosticLabel => StyleSpec { foreground: Some(TerminalColor::Yellow), attributes: BOLD | UNDERLINE },
            Role::DiagnosticContent => StyleSpec { foreground: Some(TerminalColor::White), attributes: BRIGHT },
            Role::ActiveSpinner => StyleSpec { foreground: Some(TerminalColor::Cyan), attributes: BOLD | BRIGHT },
            Role::ProgressComplete => StyleSpec { foreground: Some(TerminalColor::White), attributes: BOLD | BRIGHT },
            Role::ProgressPending => StyleSpec { foreground: Some(TerminalColor::White), attributes: BRIGHT },
        },
        PaletteProfile::Protanopia => match role {
            Role::Heading => StyleSpec { foreground: Some(TerminalColor::White), attributes: BOLD },
            Role::Section => StyleSpec { foreground: Some(TerminalColor::Cyan), attributes: BOLD },
            Role::Border => StyleSpec { foreground: None, attributes: 0 },
            Role::Metadata => StyleSpec { foreground: Some(TerminalColor::Cyan), attributes: 0 },
            Role::Duration => StyleSpec { foreground: Some(TerminalColor::White), attributes: DIM },
            Role::Path => StyleSpec { foreground: Some(TerminalColor::Blue), attributes: UNDERLINE },
            Role::Shared => StyleSpec { foreground: Some(TerminalColor::Magenta), attributes: UNDERLINE },
            Role::Tool => StyleSpec { foreground: Some(TerminalColor::Cyan), attributes: BOLD },
            Role::Group => StyleSpec { foreground: Some(TerminalColor::Blue), attributes: BOLD },
            Role::Suite => StyleSpec { foreground: Some(TerminalColor::Magenta), attributes: BOLD },
            Role::Check => StyleSpec { foreground: Some(TerminalColor::Cyan), attributes: BOLD },
            Role::Gate => StyleSpec { foreground: Some(TerminalColor::Yellow), attributes: BOLD },
            Role::Success => StyleSpec { foreground: Some(TerminalColor::Blue), attributes: BOLD },
            Role::Failure => StyleSpec { foreground: Some(TerminalColor::Yellow), attributes: BOLD | REVERSE | UNDERLINE },
            Role::Blocked => StyleSpec { foreground: Some(TerminalColor::Magenta), attributes: BOLD },
            Role::Skipped => StyleSpec { foreground: Some(TerminalColor::Cyan), attributes: UNDERLINE },
            Role::DiagnosticLabel => StyleSpec { foreground: Some(TerminalColor::Yellow), attributes: BOLD },
            Role::DiagnosticContent => StyleSpec { foreground: Some(TerminalColor::White), attributes: 0 },
            Role::ActiveSpinner => StyleSpec { foreground: Some(TerminalColor::Cyan), attributes: BOLD },
            Role::ProgressComplete => StyleSpec { foreground: Some(TerminalColor::Blue), attributes: BOLD },
            Role::ProgressPending => StyleSpec { foreground: Some(TerminalColor::White), attributes: DIM },
        },
        PaletteProfile::Deuteranopia => match role {
            Role::Heading => StyleSpec { foreground: Some(TerminalColor::White), attributes: BOLD },
            Role::Section => StyleSpec { foreground: Some(TerminalColor::Blue), attributes: BOLD },
            Role::Border => StyleSpec { foreground: None, attributes: 0 },
            Role::Metadata => StyleSpec { foreground: Some(TerminalColor::Cyan), attributes: 0 },
            Role::Duration => StyleSpec { foreground: Some(TerminalColor::White), attributes: DIM },
            Role::Path => StyleSpec { foreground: Some(TerminalColor::Blue), attributes: UNDERLINE },
            Role::Shared => StyleSpec { foreground: Some(TerminalColor::Magenta), attributes: UNDERLINE },
            Role::Tool => StyleSpec { foreground: Some(TerminalColor::Cyan), attributes: BOLD },
            Role::Group => StyleSpec { foreground: Some(TerminalColor::Blue), attributes: BOLD },
            Role::Suite => StyleSpec { foreground: Some(TerminalColor::Magenta), attributes: BOLD },
            Role::Check => StyleSpec { foreground: Some(TerminalColor::Cyan), attributes: BOLD },
            Role::Gate => StyleSpec { foreground: Some(TerminalColor::Yellow), attributes: BOLD },
            Role::Success => StyleSpec { foreground: Some(TerminalColor::Cyan), attributes: BOLD },
            Role::Failure => StyleSpec { foreground: Some(TerminalColor::Magenta), attributes: BOLD | REVERSE | UNDERLINE },
            Role::Blocked => StyleSpec { foreground: Some(TerminalColor::Yellow), attributes: BOLD },
            Role::Skipped => StyleSpec { foreground: Some(TerminalColor::Blue), attributes: UNDERLINE },
            Role::DiagnosticLabel => StyleSpec { foreground: Some(TerminalColor::Magenta), attributes: BOLD },
            Role::DiagnosticContent => StyleSpec { foreground: Some(TerminalColor::White), attributes: 0 },
            Role::ActiveSpinner => StyleSpec { foreground: Some(TerminalColor::Cyan), attributes: BOLD },
            Role::ProgressComplete => StyleSpec { foreground: Some(TerminalColor::Cyan), attributes: BOLD },
            Role::ProgressPending => StyleSpec { foreground: Some(TerminalColor::White), attributes: DIM },
        },
        PaletteProfile::Tritanopia => match role {
            Role::Heading => StyleSpec { foreground: Some(TerminalColor::White), attributes: BOLD },
            Role::Section => StyleSpec { foreground: Some(TerminalColor::White), attributes: BOLD | UNDERLINE },
            Role::Border => StyleSpec { foreground: None, attributes: 0 },
            Role::Metadata => StyleSpec { foreground: Some(TerminalColor::White), attributes: 0 },
            Role::Duration => StyleSpec { foreground: Some(TerminalColor::White), attributes: DIM },
            Role::Path => StyleSpec { foreground: Some(TerminalColor::White), attributes: UNDERLINE },
            Role::Shared => StyleSpec { foreground: Some(TerminalColor::White), attributes: REVERSE },
            Role::Tool => StyleSpec { foreground: Some(TerminalColor::White), attributes: BOLD },
            Role::Group => StyleSpec { foreground: Some(TerminalColor::White), attributes: BOLD | UNDERLINE },
            Role::Suite => StyleSpec { foreground: Some(TerminalColor::White), attributes: BOLD | REVERSE },
            Role::Check => StyleSpec { foreground: Some(TerminalColor::White), attributes: UNDERLINE },
            Role::Gate => StyleSpec { foreground: Some(TerminalColor::Red), attributes: BOLD },
            Role::Success => StyleSpec { foreground: Some(TerminalColor::White), attributes: BOLD },
            Role::Failure => StyleSpec { foreground: Some(TerminalColor::Red), attributes: BOLD | REVERSE | UNDERLINE },
            Role::Blocked => StyleSpec { foreground: Some(TerminalColor::White), attributes: BOLD | UNDERLINE },
            Role::Skipped => StyleSpec { foreground: Some(TerminalColor::White), attributes: REVERSE },
            Role::DiagnosticLabel => StyleSpec { foreground: Some(TerminalColor::Red), attributes: BOLD | UNDERLINE },
            Role::DiagnosticContent => StyleSpec { foreground: Some(TerminalColor::White), attributes: 0 },
            Role::ActiveSpinner => StyleSpec { foreground: Some(TerminalColor::White), attributes: BOLD },
            Role::ProgressComplete => StyleSpec { foreground: Some(TerminalColor::White), attributes: BOLD },
            Role::ProgressPending => StyleSpec { foreground: Some(TerminalColor::White), attributes: DIM },
        },
        PaletteProfile::Achromatopsia => match role {
            Role::Heading => StyleSpec { foreground: None, attributes: BOLD },
            Role::Section => StyleSpec { foreground: None, attributes: BOLD | UNDERLINE },
            Role::Border => StyleSpec { foreground: None, attributes: 0 },
            Role::Metadata => StyleSpec { foreground: None, attributes: UNDERLINE },
            Role::Duration => StyleSpec { foreground: None, attributes: DIM },
            Role::Path => StyleSpec { foreground: None, attributes: UNDERLINE },
            Role::Shared => StyleSpec { foreground: None, attributes: REVERSE },
            Role::Tool => StyleSpec { foreground: None, attributes: BOLD },
            Role::Group => StyleSpec { foreground: None, attributes: BOLD | UNDERLINE },
            Role::Suite => StyleSpec { foreground: None, attributes: BOLD | REVERSE },
            Role::Check => StyleSpec { foreground: None, attributes: UNDERLINE },
            Role::Gate => StyleSpec { foreground: None, attributes: BOLD | REVERSE },
            Role::Success => StyleSpec { foreground: None, attributes: BOLD },
            Role::Failure => StyleSpec { foreground: None, attributes: BOLD | REVERSE | UNDERLINE },
            Role::Blocked => StyleSpec { foreground: None, attributes: BOLD | UNDERLINE },
            Role::Skipped => StyleSpec { foreground: None, attributes: REVERSE },
            Role::DiagnosticLabel => StyleSpec { foreground: None, attributes: BOLD | UNDERLINE },
            Role::DiagnosticContent => StyleSpec { foreground: None, attributes: BOLD },
            Role::ActiveSpinner => StyleSpec { foreground: None, attributes: BOLD },
            Role::ProgressComplete => StyleSpec { foreground: None, attributes: BOLD | REVERSE },
            Role::ProgressPending => StyleSpec { foreground: None, attributes: DIM },
        },
    }
}

/// Returns the style a palette gives a role.
pub fn palette_style(profile: PaletteProfile, role: Role) -> (r: StyleSpec)
    ensures
        r == palette_spec(profile, role),
{
    match profile {
        PaletteProfile::Plain => StyleSpec { foreground: None, attributes: 0 },
        PaletteProfile::Standard => match role {
            Role::Heading => StyleSpec { foreground: Some(TerminalColor::White), attributes: BOLD },
            Role::Section => StyleSpec { foreground: Some(TerminalColor::Cyan), attributes: BOLD },
            Role::Border => StyleSpec { foreground: None, attributes: 0 },
            Role::Metadata => StyleSpec { foreground: Some(TerminalColor::Cyan), attributes: 0 },
            Role::Duration => StyleSpec { foreground: Some(TerminalColor::White), attributes: DIM },
            Role::Path => StyleSpec { foreground: Some(TerminalColor::Blue), attributes: 0 },
            Role::Shared => StyleSpec { foreground: Some(TerminalColor::Magenta), attributes: UNDERLINE },
            Role::Tool => StyleSpec { foreground: Some(TerminalColor::Cyan), attributes: BOLD },
            Role::Group => StyleSpec { foreground: Some(TerminalColor::Blue), attributes: BOLD },
            Role::Suite => StyleSpec { foreground: Some(TerminalColor::Magenta), attributes: BOLD },
            Role::Check => StyleSpec { foreground: Some(TerminalColor::Cyan), attributes: BOLD },
            Role::Gate => StyleSpec { foreground: Some(TerminalColor::Yellow), attributes: BOLD },
            Role::Success => StyleSpec { foreground: Some(TerminalColor::Green), attributes: BOLD },
            Role::Failure => StyleSpec { foreground: Some(TerminalColor::Red), attributes: BOLD | UNDERLINE },
            Role::Blocked => StyleSpec { foreground: Some(TerminalColor::Yellow), attributes: BOLD },
            Role::Skipped => StyleSpec { foreground: Some(TerminalColor::Yellow), attributes: UNDERLINE },
            Role::DiagnosticLabel => StyleSpec { foreground: Some(TerminalColor::Red), attributes: BOLD },
            Role::DiagnosticContent => StyleSpec { foreground: Some(TerminalColor::White), attributes: 0 },
            Role::ActiveSpinner => StyleSpec { foreground: Some(TerminalColor::Cyan), attributes: BOLD },
            Role::ProgressComplete => StyleSpec { foreground: Some(TerminalColor::Green), attributes: BOLD },
            Role::ProgressPending => StyleSpec { foreground: Some(TerminalColor::Blue), attributes: DIM },
        },
        PaletteProfile::HighContrast => match role {
            Role::Heading => StyleSpec { foreground: Some(TerminalColor::White), attributes: BOLD | BRIGHT },
            Role::Section => StyleSpec { foreground: Some(TerminalColor::Cyan), attributes: BOLD | BRIGHT | UNDERLINE },
            Role::Border => StyleSpec { foreground: Some(TerminalColor::Cyan), attributes: BRIGHT },
            Role::Metadata => StyleSpec { foreground: Some(TerminalColor::White), attributes: BOLD },
            Role::Duration => StyleSpec { foreground: Some(TerminalColor::White), attributes: BRIGHT },
            Role::Path => StyleSpec { foreground: Some(TerminalColor::Cyan), attributes: BRIGHT | UNDERLINE },
            Role::Shared => StyleSpec { foreground: Some(TerminalColor::Magenta), attributes: BOLD | UNDERLINE },
            Role::Tool => StyleSpec { foreground: Some(TerminalColor::Cyan), attributes: BOLD | BRIGHT },
            Role::Group => StyleSpec { foreground: Some(TerminalColor::White), attributes: BOLD | BRIGHT },
            Role::Suite => StyleSpec { foreground: Some(TerminalColor::Magenta), attributes: BOLD | BRIGHT },
            Role::Check => StyleSpec { foreground: Some(TerminalColor::Cyan), attributes: BOLD | BRIGHT },
            Role::Gate => StyleSpec { foreground: Some(TerminalColor::Yellow), attributes: BOLD | BRIGHT },
            Role::Success => StyleSpec { foreground: Some(TerminalColor::White), attributes: BOLD | BRIGHT },
            Role::Failure => StyleSpec { foreground: Some(TerminalColor::Yellow), attributes: BOLD | REVERSE },
            Role::Blocked => StyleSpec { foreground: Some(TerminalColor::Cyan), attributes: BOLD | UNDERLINE },
            Role::Skipped => StyleSpec { foreground: Some(TerminalColor::White), attributes: UNDERLINE },
            Role::DiagnosticLabel => StyleSpec { foreground: Some(TerminalColor::Yellow), attributes: BOLD | UNDERLINE },
            Role::DiagnosticContent => StyleSpec { foreground: Some(TerminalColor::White), attributes: BRIGHT },
            Role::ActiveSpinner => StyleSpec { foreground: Some(TerminalColor::Cyan), attributes: BOLD | BRIGHT },
            Role::ProgressComplete => StyleSpec { foreground: Some(TerminalColor::White), attributes: BOLD | BRIGHT },
            Role::ProgressPending => StyleSpec { foreground: Some(TerminalColor::White), attributes: BRIGHT },
        },
        PaletteProfile::Protanopia => match role {
            Role::Heading => StyleSpec { foreground: Some(TerminalColor::White), attributes: BOLD },
            Role::Section => StyleSpec { foreground: Some(TerminalColor::Cyan), attributes: BOLD },
            Role::Border => StyleSpec { foreground: None, attributes: 0 },
            Role::Metadata => StyleSpec { foreground: Some(TerminalColor::Cyan), attributes: 0 },
            Role::Duration => StyleSpec { foreground: Some(TerminalColor::White), attributes: DIM },
            Role::Path => StyleSpec { foreground: Some(TerminalColor::Blue), attributes: UNDERLINE },
            Role::Shared => StyleSpec { foreground: Some(TerminalColor::Magenta), attributes: UNDERLINE },
            Role::Tool => StyleSpec { foreground: Some(TerminalColor::Cyan), attributes: BOLD },
            Role::Group => StyleSpec { foreground: Some(TerminalColor::Blue), attributes: BOLD },
            Role::Suite => StyleSpec { foreground: Some(TerminalColor::Magenta), attributes: BOLD },
            Role::Check => StyleSpec { foreground: Some(TerminalColor::Cyan), attributes: BOLD },
            Role::Gate => StyleSpec { foreground: Some(TerminalColor::Yellow), attributes: BOLD },
            Role::Success => StyleSpec { foreground: Some(TerminalColor::Blue), attributes: BOLD },
            Role::Failure => StyleSpec { foreground: Some(TerminalColor::Yellow), attributes: BOLD | REVERSE | UNDERLINE },
            Role::Blocked => StyleSpec { foreground: Some(TerminalColor::Magenta), attributes: BOLD },
            Role::Skipped => StyleSpec { foreground: Some(TerminalColor::Cyan), attributes: UNDERLINE },
            Role::DiagnosticLabel => StyleSpec { foreground: Some(TerminalColor::Yellow), attributes: BOLD },
            Role::DiagnosticContent => StyleSpec { foreground: Some(TerminalColor::White), attributes: 0 },
            Role::ActiveSpinner => StyleSpec { foreground: Some(TerminalColor::Cyan), attributes: BOLD },
            Role::ProgressComplete => StyleSpec { foreground: Some(TerminalColor::Blue), attributes: BOLD },
            Role::ProgressPending => StyleSpec { foreground: Some(TerminalColor::White), attributes: DIM },
        },
        PaletteProfile::Deuteranopia => match role {
            Role::Heading => StyleSpec { foreground: Some(TerminalColor::White), attributes: BOLD },
            Role::Section => StyleSpec { foreground: Some(TerminalColor::Blue), attributes: BOLD },
            Role::Border => StyleSpec { foreground: None, attributes: 0 },
            Role::Metadata => StyleSpec { foreground: Some(TerminalColor::Cyan), attributes: 0 },
            Role::Duration => StyleSpec { foreground: Some(TerminalColor::White), attributes: DIM },
            Role::Path => StyleSpec { foreground: Some(TerminalColor::Blue), attributes: UNDERLINE },
            Role::Shared => StyleSpec { foreground: Some(TerminalColor::Magenta), attributes: UNDERLINE },
            Role::Tool => StyleSpec { foreground: Some(TerminalColor::Cyan), attributes: BOLD },
            Role::Group => StyleSpec { foreground: Some(TerminalColor::Blue), attributes: BOLD },
            Role::Suite => StyleSpec { foreground: Some(TerminalColor::Magenta), attributes: BOLD },
            Role::Check => StyleSpec { foreground: Some(TerminalColor::Cyan), attributes: BOLD },
            Role::Gate => StyleSpec { foreground: Some(TerminalColor::Yellow), attributes: BOLD },
            Role::Success => StyleSpec { foreground: Some(TerminalColor::Cyan), attributes: BOLD },
            Role::Failure => StyleSpec { foreground: Some(TerminalColor::Magenta), attributes: BOLD | REVERSE | UNDERLINE },
            Role::Blocked => StyleSpec { foreground: Some(TerminalColor::Yellow), attributes: BOLD },
            Role::Skipped => StyleSpec { foreground: Some(TerminalColor::Blue), attributes: UNDERLINE },
            Role::DiagnosticLabel => StyleSpec { foreground: Some(TerminalColor::Magenta), attributes: BOLD },
            Role::DiagnosticContent => StyleSpec { foreground: Some(TerminalColor::White), attributes: 0 },
            Role::ActiveSpinner => StyleSpec { foreground: Some(TerminalColor::Cyan), attributes: BOLD },
            Role::ProgressComplete => StyleSpec { foreground: Some(TerminalColor::Cyan), attributes: BOLD },
            Role::ProgressPending => StyleSpec { foreground: Some(TerminalColor::White), attributes: DIM },
        },
        PaletteProfile::Tritanopia => match role {
            Role::Heading => StyleSpec { foreground: Some(TerminalColor::White), attributes: BOLD },
            Role::Section => StyleSpec { foreground: Some(TerminalColor::White), attributes: BOLD | UNDERLINE },
            Role::Border => StyleSpec { foreground: None, attributes: 0 },
            Role::Metadata => StyleSpec { foreground: Some(TerminalColor::White), attributes: 0 },
            Role::Duration => StyleSpec { foreground: Some(TerminalColor::White), attributes: DIM },
            Role::Path => StyleSpec { foreground: Some(TerminalColor::White), attributes: UNDERLINE },
            Role::Shared => StyleSpec { foreground: Some(TerminalColor::White), attributes: REVERSE },
            Role::Tool => StyleSpec { foreground: Some(TerminalColor::White), attributes: BOLD },
            Role::Group => StyleSpec { foreground: Some(TerminalColor::White), attributes: BOLD | UNDERLINE },
            Role::Suite => StyleSpec { foreground: Some(TerminalColor::White), attributes: BOLD | REVERSE },
            Role::Check => StyleSpec { foreground: Some(TerminalColor::White), attributes: UNDERLINE },
            Role::Gate => StyleSpec { foreground: Some(TerminalColor::Red), attributes: BOLD },
            Role::Success => StyleSpec { foreground: Some(TerminalColor::White), attributes: BOLD },
            Role::Failure => StyleSpec { foreground: Some(TerminalColor::Red), attributes: BOLD | REVERSE | UNDERLINE },
            Role::Blocked => StyleSpec { foreground: Some(TerminalColor::White), attributes: BOLD | UNDERLINE },
            Role::Skipped => StyleSpec { foreground: Some(TerminalColor::White), attributes: REVERSE },
            Role::DiagnosticLabel => StyleSpec { foreground: Some(TerminalColor::Red), attributes: BOLD | UNDERLINE },
            Role::DiagnosticContent => StyleSpec { foreground: Some(TerminalColor::White), attributes: 0 },
            Role::ActiveSpinner => StyleSpec { foreground: Some(TerminalColor::White), attributes: BOLD },
            Role::ProgressComplete => StyleSpec { foreground: Some(TerminalColor::White), attributes: BOLD },
            Role::ProgressPending => StyleSpec { foreground: Some(TerminalColor::White), attributes: DIM },
        },
        PaletteProfile::Achromatopsia => match role {
            Role::Heading => StyleSpec { foreground: None, attributes: BOLD },
            Role::Section => StyleSpec { foreground: None, attributes: BOLD | UNDERLINE },
            Role::Border => StyleSpec { foreground: None, attributes: 0 },
            Role::Metadata => StyleSpec { foreground: None, attributes: UNDERLINE },
            Role::Duration => StyleSpec { foreground: None, attributes: DIM },
            Role::Path => StyleSpec { foreground: None, attributes: UNDERLINE },
            Role::Shared => StyleSpec { foreground: None, attributes: REVERSE },
            Role::Tool => StyleSpec { foreground: None, attributes: BOLD },
            Role::Group => StyleSpec { foreground: None, attributes: BOLD | UNDERLINE },
            Role::Suite => StyleSpec { foreground: None, attributes: BOLD | REVERSE },
            Role::Check => StyleSpec { foreground: None, attributes: UNDERLINE },
            Role::Gate => StyleSpec { foreground: None, attributes: BOLD | REVERSE },
            Role::Success => StyleSpec { foreground: None, attributes: BOLD },
            Role::Failure => StyleSpec { foreground: None, attributes: BOLD | REVERSE | UNDERLINE },
            Role::Blocked => StyleSpec { foreground: None, attributes: BOLD | UNDERLINE },
            Role::Skipped => StyleSpec { foreground: None, attributes: REVERSE },
            Role::DiagnosticLabel => StyleSpec { foreground: None, attributes: BOLD | UNDERLINE },
            Role::DiagnosticContent => StyleSpec { foreground: None, attributes: BOLD },
            Role::ActiveSpinner => StyleSpec { foreground: None, attributes: BOLD },
            Role::ProgressComplete => StyleSpec { foreground: None, attributes: BOLD | REVERSE },
            Role::ProgressPending => StyleSpec { foreground: None, attributes: DIM },
        },
    }
}

/// The modifier a presentation applies to each role's style.
pub open spec fn presentation_spec(profile: PresentationProfile, role: Role) -> StyleModifier {
    match profile {
        PresentationProfile::Standard => StyleModifier { remove: 0, add: 0 },
        PresentationProfile::LowVision => match role {
            Role::Heading => StyleModifier { remove: DIM, add: BOLD | BRIGHT },
            Role::Section => StyleModifier { remove: DIM, add: BOLD | UNDERLINE | BRIGHT },
            Role::Border => StyleModifier { remove: DIM, add: BOLD },
            Role::Metadata => StyleModifier { remove: DIM, add: BOLD },
            Role::Duration => StyleModifier { remove: DIM, add: BRIGHT },
            Role::Path => StyleModifier { remove: DIM, add: UNDERLINE | BRIGHT },
            Role::Shared => StyleModifier { remove: DIM, add: BOLD | UNDERLINE },
            Role::Tool => StyleModifier { remove: DIM, add: BOLD | BRIGHT },
            Role::Group => StyleModifier { remove: DIM, add: BOLD | BRIGHT },
            Role::Suite => StyleModifier { remove: DIM, add: BOLD | BRIGHT },
            Role::Check => StyleModifier { remove: DIM, add: BOLD | BRIGHT },
            Role::Gate => StyleModifier { remove: DIM, add: BOLD | BRIGHT },
            Role::Success => StyleModifier { remove: DIM, add: BOLD | BRIGHT },
            Role::Failure => StyleModifier { remove: DIM, add: BOLD | UNDERLINE | BRIGHT },
            Role::Blocked => StyleModifier { remove: DIM, add: BOLD | UNDERLINE | BRIGHT },
            Role::Skipped => StyleModifier { remove: DIM, add: BOLD | UNDERLINE },
            Role::DiagnosticLabel => StyleModifier { remove: DIM, add: BOLD | UNDERLINE },
            Role::DiagnosticContent => StyleModifier { remove: DIM, add: BRIGHT },
            Role::ActiveSpinner => StyleModifier { remove: DIM, add: BOLD | BRIGHT },
            Role::ProgressComplete => StyleModifier { remove: DIM, add: BOLD | BRIGHT },
            Role::ProgressPending => StyleModifier { remove: DIM, add: BRIGHT },
        },
    }
}

/// Returns the modifier a presentation applies to a role.
pub fn presentation_modifier(profile: PresentationProfile, role: Role) -> (r: StyleModifier)
    ensures
        r == presentation_spec(profile, role),
{
    match profile {
        PresentationProfile::Standard => StyleModifier { remove: 0, add: 0 },
        PresentationProfile::LowVision => match role {
            Role::Heading => StyleModifier { remove: DIM, add: BOLD | BRIGHT },
            Role::Section => StyleModifier { remove: DIM, add: BOLD | UNDERLINE | BRIGHT },
            Role::Border => StyleModifier { remove: DIM, add: BOLD },
            Role::Metadata => StyleModifier { remove: DIM, add: BOLD },
            Role::Duration => StyleModifier { remove: DIM, add: BRIGHT },
            Role::Path => StyleModifier { remove: DIM, add: UNDERLINE | BRIGHT },
            Role::Shared => StyleModifier { remove: DIM, add: BOLD | UNDERLINE },
            Role::Tool => StyleModifier { remove: DIM, add: BOLD | BRIGHT },
            Role::Group => StyleModifier { remove: DIM, add: BOLD | BRIGHT },
            Role::Suite => StyleModifier { remove: DIM, add: BOLD | BRIGHT },
            Role::Check => StyleModifier { remove: DIM, add: BOLD | BRIGHT },
            Role::Gate => StyleModifier { remove: DIM, add: BOLD | BRIGHT },
            Role::Success => StyleModifier { remove: DIM, add: BOLD | BRIGHT },
            Role::Failure => StyleModifier { remove: DIM, add: BOLD | UNDERLINE | BRIGHT },
            Role::Blocked => StyleModifier { remove: DIM, add: BOLD | UNDERLINE | BRIGHT },
            Role::Skipped => StyleModifier { remove: DIM, add: BOLD | UNDERLINE },
            Role::DiagnosticLabel => StyleModifier { remove: DIM, add: BOLD | UNDERLINE },
            Role::DiagnosticContent => StyleModifier { remove: DIM, add: BRIGHT },
            Role::ActiveSpinner => StyleModifier { remove: DIM, add: BOLD | BRIGHT },
            Role::ProgressComplete => StyleModifier { remove: DIM, add: BOLD | BRIGHT },
            Role::ProgressPending => StyleModifier { remove: DIM, add: BRIGHT },
        },
    }
}


/// The style without color or attributes.
pub open spec fn plain_style() -> StyleSpec {
    StyleSpec { foreground: None, attributes: 0 }
}

/// A style after a modifier: its color kept, flags removed, then flags added.
pub open spec fn merged(style: StyleSpec, modifier: StyleModifier) -> StyleSpec {
    StyleSpec { foreground: style.foreground, attributes: (style.attributes & !modifier.remove) | modifier.add }
}

impl StyleSpec {
    /// The style without color or attributes.
    pub fn plain() -> (r: StyleSpec)
        ensures
            r == plain_style(),
    {
        StyleSpec { foreground: None, attributes: 0 }
    }

    /// Applies a presentation modifier to this style.
    pub fn merge(self, modifier: StyleModifier) -> (r: StyleSpec)
        ensures
            r == merged(self, modifier),
    {
        StyleSpec { foreground: self.foreground, attributes: (self.attributes & !modifier.remove) | modifier.add }
    }
}

/// The spacing and progress dimensions of a presentation.
pub open spec fn metrics_spec(profile: PresentationProfile) -> PresentationMetrics {
    match profile {
        PresentationProfile::Standard => PresentationMetrics { progress_width: 14, section_gap: 0, item_gap: 0, execution_gap: 0 },
        PresentationProfile::LowVision => PresentationMetrics { progress_width: 22, section_gap: 2, item_gap: 1, execution_gap: 2 },
    }
}

/// Returns the spacing and progress dimensions of a presentation.
pub fn presentation_metrics(profile: PresentationProfile) -> (r: PresentationMetrics)
    ensures
        r == metrics_spec(profile),
{
    match profile {
        PresentationProfile::Standard => PresentationMetrics { progress_width: 14, section_gap: 0, item_gap: 0, execution_gap: 0 },
        PresentationProfile::LowVision => PresentationMetrics { progress_width: 22, section_gap: 2, item_gap: 1, execution_gap: 2 },
    }
}

/// The style a theme of `palette` and `presentation` gives `role`.
pub open spec fn resolved_style(palette: PaletteProfile, presentation: PresentationProfile, role: Role) -> StyleSpec {
    merged(palette_spec(palette, role), presentation_spec(presentation, role))
}

/// A local, immutable combination of one palette and one presentation.
#[derive(Debug)]
pub struct Theme {
    palette_profile: PaletteProfile,
    presentation_profile: PresentationProfile,
    styles: Vec<StyleSpec>,
    metrics: PresentationMetrics,
}

impl Theme {
    /// The style table and metrics follow from the two profiles.
    #[verifier::type_invariant]
    spec fn resolved(&self) -> bool {
        &&& self.styles@.len() == ROLE_COUNT
        &&& forall|i: int| 0 <= i < ROLE_COUNT ==> #[trigger] self.styles@[i] == resolved_style(
            self.palette_profile,
            self.presentation_profile,
            role_at(i),
        )
        &&& self.metrics == metrics_spec(self.presentation_profile)
    }

    /// The palette of this theme.
    pub closed spec fn palette(&self) -> PaletteProfile {
        self.palette_profile
    }

    /// The presentation of this theme.
    pub closed spec fn presentation(&self) -> PresentationProfile {
        self.presentation_profile
    }

    /// Resolves palette styles and presentation modifiers deterministically.
    pub fn resolve(palette_profile: PaletteProfile, presentation_profile: PresentationProfile) -> (r: Self)
        ensures
            r.palette() == palette_profile,
            r.presentation() == presentation_profile,
    {
        let roles = all_roles();
        let mut styles: Vec<StyleSpec> = Vec::new();
        let mut i: usize = 0;
        while i < roles.len()
            invariant
                roles@.len() == ROLE_COUNT,
                forall|k: int| 0 <= k < ROLE_COUNT ==> roles@[k] == role_at(k),
                i <= ROLE_COUNT,
                styles@.len() == i,
                forall|k: int| 0 <= k < i ==> #[trigger] styles@[k] == resolved_style(palette_profile, presentation_profile, role_at(k)),
            decreases ROLE_COUNT - i,
        {
            let role = roles[i];
            let style = palette_style(palette_profile, role).merge(presentation_modifier(presentation_profile, role));
            styles.push(style);
            i = i + 1;
        }
        let metrics = presentation_metrics(presentation_profile);
        assert(styles@.len() == ROLE_COUNT);
        assert(forall|k: int| 0 <= k < ROLE_COUNT ==> #[trigger] styles@[k] == resolved_style(palette_profile, presentation_profile, role_at(k)));
        Theme { palette_profile, presentation_profile, styles, metrics }
    }

    /// Creates the default theme with no styling and regular density.
    pub fn plain() -> (r: Self)
        ensures
            r.palette() == PaletteProfile::Plain,
            r.presentation() == PresentationProfile::Standard,
    {
        Self::resolve(PaletteProfile::Plain, PresentationProfile::Standard)
    }

    /// Returns the palette used by this resolved theme.
    pub fn palette_profile(&self) -> (r: PaletteProfile)
        ensures
            r == self.palette(),
    {
        self.palette_profile
    }

    /// Returns the presentation used by this resolved theme.
    pub fn presentation_profile(&self) -> (r: PresentationProfile)
        ensures
            r == self.presentation(),
    {
        self.presentation_profile
    }

    /// Returns the style this theme gives a role.
    pub fn style(&self, role: Role) -> (r: StyleSpec)
        ensures
            r == resolved_style(self.palette(), self.presentation(), role),
    {
        proof {
            use_type_invariant(self);
        }
        self.styles[role_slot(role)]
    }

    /// Returns the progress-bar width.
    pub fn progress_width(&self) -> (r: usize)
        ensures
            r == metrics_spec(self.presentation()).progress_width,
    {
        proof {
            use_type_invariant(self);
        }
        self.metrics.progress_width
    }

    /// Returns the number of guide lines around sections.
    pub fn section_gap(&self) -> (r: usize)
        ensures
            r == metrics_spec(self.presentation()).section_gap,
    {
        proof {
            use_type_invariant(self);
        }
        self.metrics.section_gap
    }

    /// Returns the number of guide lines between items.
    pub fn item_gap(&self) -> (r: usize)
        ensures
            r == metrics_spec(self.presentation()).item_gap,
    {
        proof {
            use_type_invariant(self);
        }
        self.metrics.item_gap
    }

    /// Returns the number of guide lines between execution stages.
    pub fn execution_gap(&self) -> (r: usize)
        ensures
            r == metrics_spec(self.presentation()).execution_gap,
    {
        proof {
            use_type_invariant(self);
        }
        self.metrics.execution_gap
    }
}

/// The progress-template name of a color.
pub open spec fn color_name(color: TerminalColor) -> Seq<char> {
    match color {
        TerminalColor::Red => "red"@,
        TerminalColor::Green => "green"@,
        TerminalColor::Yellow => "yellow"@,
        TerminalColor::Blue => "blue"@,
        TerminalColor::Magenta => "magenta"@,
        TerminalColor::Cyan => "cyan"@,
        TerminalColor::White => "white"@,
    }
}

fn color_text(color: TerminalColor) -> (r: &'static str)
    ensures
        r@ == color_name(color),
{
    match color {
        TerminalColor::Red => "red",
        TerminalColor::Green => "green",
        TerminalColor::Yellow => "yellow",
        TerminalColor::Blue => "blue",
        TerminalColor::Magenta => "magenta",
        TerminalColor::Cyan => "cyan",
        TerminalColor::White => "white",
    }
}

/// `name` when `style` has the flag `flag`.
pub open spec fn flag_part(style: StyleSpec, flag: u8, name: Seq<char>) -> Seq<Seq<char>> {
    if style.attributes & flag != 0 {
        seq![name]
    } else {
        Seq::empty()
    }
}

/// The progress-template words of a style: its color, then its flags.
pub open spec fn modifier_parts(style: StyleSpec) -> Seq<Seq<char>> {
    (match style.foreground {
        Some(color) => seq![color_name(color)],
        None => Seq::empty(),
    }) + flag_part(style, BOLD, "bold"@) + flag_part(style, DIM, "dim"@) + flag_part(style, UNDERLINE, "underlined"@)
        + flag_part(style, REVERSE, "reverse"@) + flag_part(style, BRIGHT, "bright"@)
}

/// The progress-template modifier of a style: its words, each after a dot.
pub open spec fn modifier_text(style: StyleSpec) -> Seq<char> {
    if modifier_parts(style).len() == 0 {
        Seq::empty()
    } else {
        "."@ + join_texts(modifier_parts(style), "."@)
    }
}

fn push_flag(parts: &mut Vec<String>, style: StyleSpec, flag: u8, name: &str)
    ensures
        views(final(parts)@) == views(old(parts)@) + flag_part(style, flag, name@),
{
    if style.attributes & flag != 0 {
        let ghost before = parts@;
        let item = owned(name);
        parts.push(item);
        assert(parts@ == before.push(item));
        assert(views(parts@) =~= views(before) + flag_part(style, flag, name@));
    } else {
        assert(views(parts@) =~= views(parts@) + flag_part(style, flag, name@));
    }
}

impl StyleSpec {
    /// Renders this style as a progress-template modifier such as `.cyan.bold`.
    pub fn indicatif_modifier(self) -> (r: String)
        ensures
            r@ == modifier_text(self),
    {
        let mut parts: Vec<String> = Vec::new();
        match self.foreground {
            Some(color) => {
                parts.push(owned(color_text(color)));
            },
            None => {},
        }
        assert(views(parts@) =~= match self.foreground {
            Some(color) => seq![color_name(color)],
            None => Seq::<Seq<char>>::empty(),
        });
        push_flag(&mut parts, self, BOLD, "bold");
        push_flag(&mut parts, self, DIM, "dim");
        push_flag(&mut parts, self, UNDERLINE, "underlined");
        push_flag(&mut parts, self, REVERSE, "reverse");
        push_flag(&mut parts, self, BRIGHT, "bright");
        assert(views(parts@) =~= modifier_parts(self));
        if parts.len() == 0 {
            return String::new();
        }
        concat2(".", join_strings(&parts, ".").as_str())
    }
}

/// A framed rule: a border edge, a label in its role, and a border fill.
#[derive(Clone, Debug)]
pub struct FramedRule {
    /// The edge and its connector, painted as border.
    pub leading: String,
    /// The label.
    pub label: String,
    /// The role the label is painted in.
    pub label_role: Role,
    /// The fill up to the frame width, painted as border.
    pub trailing: String,
}

/// `n` horizontal rule characters.
pub open spec fn rule_fill(n: nat) -> Seq<char> {
    Seq::new(n, |i: int| '─')
}

/// The fill length after a label of `label_len` characters.
pub open spec fn fill_len(label_len: nat) -> nat {
    if 4 + label_len <= FRAME_WIDTH {
        (FRAME_WIDTH - 4 - label_len) as nat
    } else {
        0
    }
}

impl Theme {
    /// Returns the progress-template modifier of a role.
    pub fn indicatif_modifier(&self, role: Role) -> (r: String)
        ensures
            r@ == modifier_text(resolved_style(self.palette(), self.presentation(), role)),
    {
        self.style(role).indicatif_modifier()
    }

    /// Builds a rule of the frame width: `edge`, a connector, the label and a fill.
    pub fn frame_rule(&self, edge: &str, label: &str, label_role: Role) -> (r: FramedRule)
        requires
            edge@.len() == 1,
        ensures
            r.leading@ == edge@ + "─ "@,
            r.label@ == label@,
            r.label_role == label_role,
            r.trailing@ == " "@ + rule_fill(fill_len(label@.len())),
    {
        let leading = concat2(edge, "─ ");
        let n = label.unicode_len();
        let fill = if n <= FRAME_WIDTH - 4 {
            FRAME_WIDTH - 4 - n
        } else {
            0
        };
        let mut trailing = owned(" ");
        let mut i: usize = 0;
        while i < fill
            invariant
                i <= fill,
                trailing@ == " "@ + rule_fill(i as nat),
            decreases fill - i,
        {
            proof {
                reveal_strlit("─");
            }
            trailing.append("─");
            assert(trailing@ =~= " "@ + rule_fill((i + 1) as nat));
            i = i + 1;
        }
        FramedRule { leading, label: owned(label), label_role, trailing }
    }
}

proof fn lemma_flag_facts()
    ensures
        forall|a: u8, add: u8| #![trigger ((a & !DIM) | add)] add & DIM == 0 ==> ((a & !DIM) | add) & DIM == 0,
        (BOLD | BRIGHT) & DIM == 0,
        (BOLD | UNDERLINE | BRIGHT) & DIM == 0,
        BOLD & DIM == 0,
        BRIGHT & DIM == 0,
        (UNDERLINE | BRIGHT) & DIM == 0,
        (BOLD | UNDERLINE) & DIM == 0,
        (BOLD | BRIGHT | UNDERLINE) & DIM == 0,
        (BOLD | REVERSE) & DIM == 0,
        UNDERLINE & DIM == 0,
        (BOLD | BRIGHT) & BRIGHT != 0,
{
    assert(forall|a: u8, add: u8| #![trigger ((a & !DIM) | add)] add & DIM == 0 ==> ((a & !DIM) | add) & DIM == 0) by (bit_vector);
    assert((1u8 | 16u8) & 2u8 == 0 && (1u8 | 4u8 | 16u8) & 2u8 == 0 && 1u8 & 2u8 == 0 && 16u8 & 2u8 == 0 && (4u8 | 16u8) & 2u8
        == 0 && (1u8 | 4u8) & 2u8 == 0 && (1u8 | 16u8 | 4u8) & 2u8 == 0 && (1u8 | 8u8) & 2u8 == 0 && 4u8 & 2u8 == 0 && (1u8
        | 16u8) & 16u8 != 0) by (bit_vector);
}

/// A low-vision presentation removes dimming from every role, whatever the palette.
pub proof fn lemma_low_vision_never_dims(palette: PaletteProfile, role: Role)
    ensures
        resolved_style(palette, PresentationProfile::LowVision, role).attributes & DIM == 0,
{
    lemma_flag_facts();
    let add = presentation_spec(PresentationProfile::LowVision, role).add;
    assert(presentation_spec(PresentationProfile::LowVision, role).remove == DIM);
    assert(add & DIM == 0);
    let a = palette_spec(palette, role).attributes;
    assert(((a & !DIM) | add) & DIM == 0);
}

/// Presentations never change colors: every role keeps its palette color.
pub proof fn lemma_presentation_keeps_color(palette: PaletteProfile, presentation: PresentationProfile, role: Role)
    ensures
        resolved_style(palette, presentation, role).foreground == palette_spec(palette, role).foreground,
{
}

/// The plain and achromatic palettes add no hue under any presentation.
pub proof fn lemma_colorless_palettes(presentation: PresentationProfile, role: Role)
    ensures
        resolved_style(PaletteProfile::Plain, presentation, role).foreground is None,
        resolved_style(PaletteProfile::Achromatopsia, presentation, role).foreground is None,
        resolved_style(PaletteProfile::Plain, PresentationProfile::Standard, role) == plain_style(),
{
    assert((0u8 & !0u8) | 0u8 == 0u8) by (bit_vector);
}

/// The explicit color promises of the palettes: high contrast never dims and
/// brightens its heading; the protanopia and deuteranopia palettes use
/// neither red nor green; the tritanopia palette uses none of blue, green,
/// yellow and magenta; only high contrast colors the border, in cyan.
pub proof fn lemma_palette_promises(role: Role)
    ensures
        palette_spec(PaletteProfile::HighContrast, role).attributes & DIM == 0,
        palette_spec(PaletteProfile::HighContrast, Role::Heading).attributes & BRIGHT != 0,
        !(palette_spec(PaletteProfile::Protanopia, role).foreground matches Some(TerminalColor::Red)),
        !(palette_spec(PaletteProfile::Protanopia, role).foreground matches Some(TerminalColor::Green)),
        !(palette_spec(PaletteProfile::Deuteranopia, role).foreground matches Some(TerminalColor::Red)),
        !(palette_spec(PaletteProfile::Deuteranopia, role).foreground matches Some(TerminalColor::Green)),
        !(palette_spec(PaletteProfile::Tritanopia, role).foreground matches Some(TerminalColor::Blue)),
        !(palette_spec(PaletteProfile::Tritanopia, role).foreground matches Some(TerminalColor::Green)),
        !(palette_spec(PaletteProfile::Tritanopia, role).foreground matches Some(TerminalColor::Yellow)),
        !(palette_spec(PaletteProfile::Tritanopia, role).foreground matches Some(TerminalColor::Magenta)),
        palette_spec(PaletteProfile::HighContrast, Role::Border).foreground == Some(TerminalColor::Cyan),
        forall|palette: PaletteProfile|
            palette != PaletteProfile::HighContrast ==> (#[trigger] palette_spec(palette, Role::Border)).foreground is None,
{
    lemma_flag_facts();
    assert((1u8 | 4u8 | 8u8) & 2u8 == 0 && (1u8 | 8u8) & 2u8 == 0 && 8u8 & 2u8 == 0 && (16u8 | 4u8) & 2u8 == 0) by (bit_vector);
}

} // verus!
