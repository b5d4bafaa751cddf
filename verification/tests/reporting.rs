use workspace_validator::contracts::report::{Status, Summary};
use workspace_validator::reporting::execution::{
    active_check_message, bar_placeholder, branches_for, key, styled_placeholder, tree_gap_size,
};
use workspace_validator::reporting::format::{format_selection, format_summary, status_label};
use workspace_validator::reporting::result::Segment;
use workspace_validator::reporting::theme::{PaletteProfile, PresentationProfile, Role, Theme};
use workspace_validator::reporting::tree::{continuation, prefix};
use workspace_validator::planning::ExecutionNodeRef;
use workspace_validator::contracts::report::ValidationSelection;

fn plain_text(segments: &[Segment]) -> String {
    segments
        .iter()
        .map(|segment| match segment {
            Segment::Text(text) | Segment::Painted(_, text) => text.clone(),
            Segment::Duration(ms) => format!("{ms} ms"),
        })
        .collect()
}

#[test]
fn low_vision_separates_stages_more_than_nested_tree_items() {
    let low_vision = Theme::resolve(PaletteProfile::Plain, PresentationProfile::LowVision);
    assert_eq!(tree_gap_size(&low_vision, &[]), 2);
    assert_eq!(tree_gap_size(&low_vision, &[false]), 1);
    assert_eq!(tree_gap_size(&low_vision, &[false, true]), 1);

    let regular = Theme::plain();
    assert_eq!(tree_gap_size(&regular, &[]), 0);
    assert_eq!(tree_gap_size(&regular, &[false]), 0);
}

#[test]
fn active_check_message_does_not_repeat_identical_labels() {
    assert_eq!(plain_text(&active_check_message("Testes Rust", "Testes Rust")), "Testes Rust");
    assert_eq!(
        plain_text(&active_check_message("Svelte", "Análise estática Svelte")),
        "Svelte › Análise estática Svelte"
    );
    let message = active_check_message("Svelte", "Análise estática Svelte");
    assert!(matches!(&message[1], Segment::Painted(Role::Check, label) if label == "Análise estática Svelte"));
    assert_eq!(plain_text(&active_check_message("testes rust", "Testes Rust")), "testes rust");
}

#[test]
fn default_reporter_and_plain_templates_have_no_style_modifiers() {
    let plain = Theme::plain();
    assert_eq!(plain.palette_profile(), PaletteProfile::Plain);
    assert_eq!(plain.presentation_profile(), PresentationProfile::Standard);
    let standard = Theme::resolve(PaletteProfile::Standard, PresentationProfile::LowVision);
    assert_eq!(standard.palette_profile(), PaletteProfile::Standard);
    assert_eq!(standard.presentation_profile(), PresentationProfile::LowVision);
    assert_eq!(styled_placeholder("spinner", ""), "{spinner}");
    assert_eq!(bar_placeholder(14, "", ""), "{bar:14}");
    assert_eq!(bar_placeholder(22, ".bold", ".dim"), "{bar:22.bold/dim}");
}

#[test]
fn placeholders_carry_their_modifiers() {
    assert_eq!(styled_placeholder("elapsed_precise", ".cyan"), "{elapsed_precise:.cyan}");
    assert_eq!(bar_placeholder(14, ".green", "..dim"), "{bar:14.green/dim}");
}

#[test]
fn selections_are_named_by_kind() {
    assert_eq!(format_selection(&ValidationSelection::Suite { id: "fixture".into() }), "suite fixture");
    assert_eq!(format_selection(&ValidationSelection::Group { id: "all".into() }), "group all");
    assert_eq!(format_selection(&ValidationSelection::Check { id: "c".into() }), "check c");
}

#[test]
fn summary_text_omits_zero_statuses() {
    assert_eq!(format_summary(&Summary::from_statuses(&[Status::Pass, Status::Pass])), "2 checks");
    assert_eq!(
        format_summary(&Summary::from_statuses(&[Status::Pass, Status::Fail, Status::Skipped])),
        "1 pass · 1 fail · 1 skipped"
    );
}

#[test]
fn one_passing_check_is_singular() {
    assert_eq!(format_summary(&Summary::from_statuses(&[Status::Pass])), "1 check");
}

#[test]
fn status_labels_are_stable() {
    assert_eq!(status_label(Status::Pass), "PASS");
    assert_eq!(status_label(Status::Fail), "FAIL");
    assert_eq!(status_label(Status::Blocked), "BLOCKED");
    assert_eq!(status_label(Status::Skipped), "SKIPPED");
}

#[test]
fn prefix_preserves_open_ancestor_branches() {
    assert_eq!(prefix(&[]), "│ ");
    assert_eq!(prefix(&[false]), "│ ├─ ");
    assert_eq!(prefix(&[true]), "│ └─ ");
    assert_eq!(prefix(&[false, true]), "│ │  └─ ");
    assert_eq!(prefix(&[true, false]), "│    ├─ ");
}

#[test]
fn continuation_connects_spaced_hierarchy_items() {
    assert_eq!(continuation(&[]), "│");
    assert_eq!(continuation(&[false]), "│ │");
    assert_eq!(continuation(&[true]), "│ │");
    assert_eq!(continuation(&[false, true]), "│ │  │");
    assert_eq!(continuation(&[true, false]), "│    │");
}

#[test]
fn node_keys_follow_membership_paths() {
    let path = vec![ExecutionNodeRef::Group { id: "all".into() }, ExecutionNodeRef::Suite { id: "fixture".into() }];
    assert_eq!(key(&path), "g:all/s:fixture");
    assert_eq!(key(&[]), "");
}

#[test]
fn children_take_their_position_from_the_parent_bar() {
    let parent = vec![false];
    assert_eq!(branches_for(1, None), Vec::<bool>::new());
    assert_eq!(branches_for(3, None), [false, false]);
    assert_eq!(branches_for(2, Some((&parent, 1, Some(2)))), [false, true]);
    assert_eq!(branches_for(2, Some((&parent, 0, Some(2)))), [false, false]);
    assert_eq!(branches_for(2, Some((&parent, 0, None))), [false, true]);
}
