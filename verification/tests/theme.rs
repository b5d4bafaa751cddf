use workspace_validator::reporting::theme::{
    all_roles, palette_style, PaletteProfile, PresentationProfile, Role, StyleSpec, TerminalColor, Theme, BRIGHT, DIM,
    FRAME_WIDTH,
};

const PALETTES: [PaletteProfile; 7] = [
    PaletteProfile::Plain,
    PaletteProfile::Standard,
    PaletteProfile::HighContrast,
    PaletteProfile::Protanopia,
    PaletteProfile::Deuteranopia,
    PaletteProfile::Tritanopia,
    PaletteProfile::Achromatopsia,
];

const PRESENTATIONS: [PresentationProfile; 2] = [PresentationProfile::Standard, PresentationProfile::LowVision];

#[test]
fn plain_standard_is_ansi_free_and_plain_presentations_never_add_hue() {
    for role in all_roles() {
        assert_eq!(Theme::plain().style(role), StyleSpec::plain(), "token");
    }
    let theme = Theme::resolve(PaletteProfile::Plain, PresentationProfile::LowVision);
    assert!(all_roles().into_iter().all(|role| theme.style(role).foreground.is_none()));
    assert_ne!(theme.style(Role::Heading), StyleSpec::plain(), "heading");
}

#[test]
fn low_vision_removes_dim_after_every_palette() {
    for palette in PALETTES {
        let theme = Theme::resolve(palette, PresentationProfile::LowVision);
        assert!(all_roles().into_iter().all(|role| theme.style(role).attributes & DIM == 0));
    }
}

#[test]
fn palettes_never_change_presentation_metrics() {
    for presentation in PRESENTATIONS {
        let expected = Theme::resolve(PaletteProfile::Plain, presentation);
        for palette in PALETTES {
            let theme = Theme::resolve(palette, presentation);
            assert_eq!(theme.progress_width(), expected.progress_width());
            assert_eq!(theme.section_gap(), expected.section_gap());
            assert_eq!(theme.item_gap(), expected.item_gap());
            assert_eq!(theme.execution_gap(), expected.execution_gap());
        }
    }
    assert_eq!(Theme::plain().progress_width(), 14);
    assert_eq!(Theme::resolve(PaletteProfile::Plain, PresentationProfile::LowVision).progress_width(), 22);
    let low_vision = Theme::resolve(PaletteProfile::Plain, PresentationProfile::LowVision);
    assert_eq!(low_vision.section_gap(), 2);
    assert_eq!(low_vision.item_gap(), 1);
    assert_eq!(low_vision.execution_gap(), 2);
    assert_eq!(Theme::plain().item_gap(), 0);
}

#[test]
fn presentations_preserve_each_palette_structural_color() {
    for palette in PALETTES {
        let specification = palette_style(palette, Role::Border);
        for presentation in PRESENTATIONS {
            let theme = Theme::resolve(palette, presentation);
            assert_eq!(theme.style(Role::Border).foreground, specification.foreground);
        }
    }
}

#[test]
fn palette_color_invariants_are_explicit() {
    let styles = |palette| all_roles().into_iter().map(move |role| palette_style(palette, role)).collect::<Vec<_>>();
    assert!(styles(PaletteProfile::HighContrast).iter().all(|style| style.attributes & DIM == 0));
    assert!(styles(PaletteProfile::HighContrast).iter().any(|style| style.attributes & BRIGHT != 0));
    assert!(styles(PaletteProfile::Achromatopsia).iter().all(|style| style.foreground.is_none()));
    for palette in [PaletteProfile::Protanopia, PaletteProfile::Deuteranopia] {
        assert!(styles(palette)
            .iter()
            .all(|style| !matches!(style.foreground, Some(TerminalColor::Red | TerminalColor::Green))));
    }
    assert!(styles(PaletteProfile::Tritanopia).iter().all(|style| !matches!(
        style.foreground,
        Some(TerminalColor::Blue | TerminalColor::Green | TerminalColor::Yellow | TerminalColor::Magenta)
    )));
}

#[test]
fn regular_palettes_use_terminal_borders_and_high_contrast_colors_its_border() {
    for profile in [
        PaletteProfile::Plain,
        PaletteProfile::Standard,
        PaletteProfile::Protanopia,
        PaletteProfile::Deuteranopia,
        PaletteProfile::Tritanopia,
        PaletteProfile::Achromatopsia,
    ] {
        assert_eq!(palette_style(profile, Role::Border).foreground, None);
    }
    assert_eq!(palette_style(PaletteProfile::HighContrast, Role::Border).foreground, Some(TerminalColor::Cyan));
}

#[test]
fn frame_width_is_stable_for_all_combinations() {
    for palette in PALETTES {
        for presentation in PRESENTATIONS {
            let theme = Theme::resolve(palette, presentation);
            let rule = theme.frame_rule("├", "Tools", Role::Section);
            let line = format!("{}{}{}", rule.leading, rule.label, rule.trailing);
            assert_eq!(line.chars().count(), FRAME_WIDTH);
            assert!(!line.contains('\n'));
        }
    }
}

#[test]
fn plain_modifiers_are_empty_and_styled_ones_name_their_attributes() {
    assert_eq!(Theme::plain().indicatif_modifier(Role::Duration), "");
    let standard = Theme::resolve(PaletteProfile::Standard, PresentationProfile::Standard);
    assert!(!standard.indicatif_modifier(Role::Failure).is_empty());
}
