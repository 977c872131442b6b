use display_fs::cli::{all_presets, pages_or_text, OrientationArg, PageSchedule, PresetName};
use display_fs::image::Orientation;

#[test]
fn orientation_arg_with_flip() {
    assert_eq!(OrientationArg::Landscape.to_orientation(false), Orientation::Landscape);
    assert_eq!(OrientationArg::Landscape.to_orientation(true), Orientation::LandscapeFlip);
    assert_eq!(OrientationArg::Portrait.to_orientation(false), Orientation::Portrait);
    assert_eq!(OrientationArg::Portrait.to_orientation(true), Orientation::PortraitFlip);
    assert_eq!(OrientationArg::default(), OrientationArg::Landscape);
}

#[test]
fn preset_info_texts() {
    assert_eq!(PresetName::Clock.info(), ("Current time", "date '+%H:%M:%S'"));
    assert_eq!(PresetName::Pwd.info(), ("Current directory", "basename \"$PWD\""));
    assert_eq!(PresetName::Fortune.info().0, "Random fortune");
}

#[test]
fn all_presets_in_demo_order() {
    let all = all_presets();
    assert_eq!(all.len(), 12);
    assert_eq!(all[0], PresetName::Clock);
    assert_eq!(all[1], PresetName::DateTime);
    assert_eq!(all[11], PresetName::Fortune);
}

#[test]
fn empty_pages_fall_back_to_text() {
    assert_eq!(pages_or_text(Vec::new(), "hi"), vec!["hi".to_string()]);
    let pages = vec!["a".to_string(), "b".to_string()];
    assert_eq!(pages_or_text(pages.clone(), "hi"), pages);
}

#[test]
fn single_pass_schedule() {
    let s = PageSchedule::new(3, false);
    assert!(s.announces_pages());
    assert!(!s.announces_success());
    assert_eq!(s.next_page(0), Some(1));
    assert_eq!(s.next_page(1), Some(2));
    assert_eq!(s.next_page(2), None);
    assert!(s.pauses_after(0));
    assert!(s.pauses_after(1));
    assert!(!s.pauses_after(2));
}

#[test]
fn looping_schedule() {
    let s = PageSchedule::new(2, true);
    assert_eq!(s.next_page(1), Some(0));
    assert!(s.pauses_after(1));
    let one = PageSchedule::new(1, true);
    assert!(!one.announces_pages());
    assert!(!one.announces_success());
    assert!(one.pauses_after(0));
    assert_eq!(one.next_page(0), Some(0));
}

#[test]
fn single_page_once() {
    let s = PageSchedule::new(1, false);
    assert!(s.announces_success());
    assert!(!s.pauses_after(0));
    assert_eq!(s.next_page(0), None);
}
