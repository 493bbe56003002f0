use unique_files::progress::{ProgressEvent, ProgressTracker, UiCommand};
use unique_files::source_list::{decide_add_source, start_enabled, AddSourceDecision};

fn bars(cmds: &[UiCommand]) -> Vec<i32> {
    cmds.iter()
        .filter_map(|c| match c {
            UiCommand::SetBar(p) => Some(*p),
            _ => None,
        })
        .collect()
}

#[test]
fn target_pass_then_source_pass() {
    let mut t = ProgressTracker::new();
    assert!(t.on_message(ProgressEvent::TotalTarget(2)).is_empty());
    assert!(t.on_message(ProgressEvent::TotalSources(4)).is_empty());
    let c = t.on_message(ProgressEvent::TargetFile("/t/a".to_string()));
    assert_eq!(bars(&c), vec![50]);
    assert!(matches!(&c[1], UiCommand::SetPathLabel(p) if p == "/t/a"));
    let c = t.on_message(ProgressEvent::TargetFile("/t/b".to_string()));
    assert_eq!(bars(&c), vec![100, 0]);
    assert!(matches!(c[2], UiCommand::ShowSourcesSection));
    for (i, expected) in [25, 50, 75].iter().enumerate() {
        let c = t.on_message(ProgressEvent::SourceFile(format!("/s/{}", i)));
        assert_eq!(bars(&c), vec![*expected]);
        assert!(!c.iter().any(|x| matches!(x, UiCommand::ShowFinished)));
    }
    let c = t.on_message(ProgressEvent::SourceFile("/s/last".to_string()));
    assert_eq!(bars(&c), vec![100]);
    assert!(matches!(c.last(), Some(UiCommand::ShowFinished)));
}

#[test]
fn empty_target_switches_section_at_first_source_file() {
    let mut t = ProgressTracker::new();
    t.on_message(ProgressEvent::TotalTarget(0));
    t.on_message(ProgressEvent::TotalSources(3));
    let c = t.on_message(ProgressEvent::SourceFile("/s/a".to_string()));
    assert!(matches!(c[0], UiCommand::ShowSourcesSection));
    assert_eq!(bars(&c), vec![33]);
    let c = t.on_message(ProgressEvent::SourceFile("/s/b".to_string()));
    assert!(!matches!(c[0], UiCommand::ShowSourcesSection));
    assert_eq!(bars(&c), vec![66]);
}

#[test]
fn negative_total_rounds_toward_zero() {
    let mut t = ProgressTracker::new();
    t.on_message(ProgressEvent::TotalTarget(-3));
    let c = t.on_message(ProgressEvent::TargetFile("x".to_string()));
    assert_eq!(bars(&c), vec![-33]);
}

#[test]
fn empty_pick_is_ignored() {
    assert!(matches!(decide_add_source(&vec![], ""), AddSourceDecision::Ignore));
}

#[test]
fn new_folder_is_accepted() {
    let list = vec!["/home/me/photos".to_string()];
    assert!(matches!(decide_add_source(&list, "/home/me/music"), AddSourceDecision::Accept));
    assert!(matches!(decide_add_source(&list, "/home/me/photos2"), AddSourceDecision::Accept));
    assert!(matches!(decide_add_source(&list, "/home/me"), AddSourceDecision::Accept));
}

#[test]
fn listed_folder_and_its_subfolders_are_refused() {
    let list = vec!["/home/me/photos".to_string()];
    assert!(matches!(decide_add_source(&list, "/home/me/photos"), AddSourceDecision::Refuse));
    assert!(matches!(
        decide_add_source(&list, "/home/me/photos/2020/summer"),
        AddSourceDecision::Refuse
    ));
}

#[test]
fn added_folder_is_refused_the_next_time() {
    let mut list: Vec<String> = Vec::new();
    let path = "/data/pics";
    assert!(matches!(decide_add_source(&list, path), AddSourceDecision::Accept));
    list.push(path.to_string());
    assert!(matches!(decide_add_source(&list, path), AddSourceDecision::Refuse));
}

#[test]
fn start_needs_a_target_and_a_source() {
    assert!(start_enabled("/t", 1));
    assert!(!start_enabled("", 1));
    assert!(!start_enabled("/t", 0));
}
