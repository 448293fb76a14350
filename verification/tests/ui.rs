use osctet::input::Action;
use osctet::ui::{info, info::ControlInfo, info::Info, instruments, instruments_tab, text};

#[test]
fn fix_patch_index_clamps() {
    let mut i = Some(5);
    instruments::fix_patch_index(&mut i, 3);
    assert_eq!(i, Some(2));
    let mut i = Some(1);
    instruments::fix_patch_index(&mut i, 3);
    assert_eq!(i, Some(1));
    let mut i = Some(1);
    instruments_tab::fix_patch_index(&mut i, 0);
    assert_eq!(i, None);
    let mut i = None;
    instruments_tab::fix_patch_index(&mut i, 4);
    assert_eq!(i, None);
}

#[test]
fn shift_patch_index_moves_within_bounds() {
    let mut i = Some(1);
    instruments::shift_patch_index(1, &mut i, 3);
    assert_eq!(i, Some(2));
    instruments::shift_patch_index(1, &mut i, 3);
    assert_eq!(i, Some(2));
    instruments_tab::shift_patch_index(-3, &mut i, 3);
    assert_eq!(i, None);
    instruments_tab::shift_patch_index(2, &mut i, 3);
    assert_eq!(i, Some(1));
    let mut i = None;
    instruments::shift_patch_index(-1, &mut i, 3);
    assert_eq!(i, None);
}

#[test]
fn superscripts() {
    assert_eq!(text::digit_superscript(3) as u32, text::SUP_3);
    assert_eq!(text::digit_superscript(9) as u32, text::SUP_9);
    assert_eq!(text::digit_superscript(2) as u32, text::SUP_QUESTION);
}

#[test]
fn info_default_is_blank() {
    assert!(matches!(Info::Blank, Info::Blank));
}

#[test]
fn info_text_of_a_slider() {
    let keys = Vec::new();
    assert_eq!(
        info::text(&Info::DelayTime, &ControlInfo::Slider, &keys),
        "Time between echoes.\n\nRight-click slider to edit value as text."
    );
    assert_eq!(info::text(&Info::Blank, &ControlInfo::Blank, &keys), "");
    assert_eq!(
        info::text(&Info::Blank, &ControlInfo::Slider, &keys),
        "Right-click slider to edit value as text."
    );
    assert_eq!(info::text(&Info::Add("track"), &ControlInfo::Blank, &keys), "Add track.");
    assert_eq!(info::text(&Info::FontSize("Increase"), &ControlInfo::Blank, &keys), "Increase font size.");
    assert_eq!(
        info::text(&Info::ResetTheme("dark"), &ControlInfo::Blank, &keys),
        "Reset colors to the default dark theme."
    );
    assert_eq!(info::text(&Info::Action(Action::HalveDivision), &ControlInfo::Blank, &keys), "");
}

#[test]
fn info_text_lists_hotkeys() {
    let keys = vec![
        ("Ctrl+Up".to_string(), Action::IncrementDivision),
        ("Ctrl+Down".to_string(), Action::DecrementDivision),
        ("Alt+Down".to_string(), Action::DecrementDivision),
    ];
    assert_eq!(
        info::text(&Info::Division, &ControlInfo::Blank, &keys),
        "Current number of rows per beat.\n\n\
         Ctrl+Up - Increment division\n\
         Ctrl+Down - Decrement division\n\
         (no hotkey) - Halve division\n\
         (no hotkey) - Double division"
    );
    assert_eq!(info::hotkey_string(&keys, Action::DecrementDivision), "Ctrl+Down - Decrement division");
    assert_eq!(
        info::text(&Info::KitNoteIn, &ControlInfo::Note, &keys),
        "The note that activates this kit mapping.\n\nNote input. Click to focus, then enter a note\nusing the keyboard."
    );
}
