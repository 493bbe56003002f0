use unique_files::digest::get_hash;
use unique_files::files_map::{
    get_total_files, CopyStep, FileCounter, FileRecord, SourceFileBrowser, TargetFileBrowser,
};

fn expect_probe(step: CopyStep) -> Vec<u8> {
    match step {
        CopyStep::Probe(p) => p,
        other => panic!("expected a probe, got {:?}", other),
    }
}

#[test]
fn target_keeps_its_base_path() {
    let target = TargetFileBrowser::new("/media/target", true);
    assert_eq!(target.get_base_path(), "/media/target".to_string());
}

#[test]
fn target_records_the_files_it_meets() {
    let mut target = TargetFileBrowser::new("/tgt", true);
    let h = get_hash(b"content");
    assert!(!target.is_in_files(&h));
    target.on_file_entry("/tgt/a.txt", &h);
    assert!(target.is_in_files(&h));
    assert!(!target.is_in_files(&get_hash(b"other")));
}

#[test]
fn target_init_records_every_walked_file() {
    let mut target = TargetFileBrowser::new("/tgt", false);
    let records = vec![
        FileRecord { path: "/tgt/a".to_string(), hash: get_hash(b"a") },
        FileRecord { path: "/tgt/b".to_string(), hash: get_hash(b"b") },
    ];
    target.init(&records);
    assert!(target.is_in_files(&get_hash(b"a")));
    assert!(target.is_in_files(&get_hash(b"b")));
    assert!(!target.is_in_files(&get_hash(b"c")));
}

#[test]
fn content_already_in_target_is_not_copied() {
    let mut target = TargetFileBrowser::new("/tgt", true);
    let h = get_hash(b"same");
    target.on_file_entry("/tgt/old.jpg", &h);
    let mut source = SourceFileBrowser::new("/src");
    let step = source.on_file_entry(&target, "/src/new.jpg", &h);
    assert!(matches!(step, CopyStep::AlreadyPresent));
    assert_eq!(source.pending_attempt(), None);
}

#[test]
fn preserved_path_with_a_taken_name_gets_a_number() {
    let mut target = TargetFileBrowser::new("/tgt", true);
    let mut source = SourceFileBrowser::new("/src");
    let h = get_hash(b"new content");
    let p = expect_probe(source.on_file_entry(&target, "/src/sub/a.txt", &h));
    assert_eq!(p, b"/tgt/sub/a.txt".to_vec());
    assert_eq!(source.pending_attempt(), Some(0));
    let p = expect_probe(source.on_probe_result(&mut target, true));
    assert_eq!(p, b"/tgt/sub/a (1).txt".to_vec());
    assert_eq!(source.pending_attempt(), Some(1));
    match source.on_probe_result(&mut target, false) {
        CopyStep::Copy(order) => {
            assert_eq!(order.source, b"/src/sub/a.txt".to_vec());
            assert_eq!(order.dest, b"/tgt/sub/a (1).txt".to_vec());
            assert_eq!(order.dest_dir, b"/tgt/sub".to_vec());
        }
        other => panic!("expected a copy, got {:?}", other),
    }
    assert_eq!(source.pending_attempt(), None);
    assert!(target.is_in_files(&h));
    // a second file with the same content is not copied again
    let again = source.on_file_entry(&target, "/src/other/b.txt", &h);
    assert!(matches!(again, CopyStep::AlreadyPresent));
}

#[test]
fn flat_copy_uses_the_file_name_and_slashes() {
    let mut target = TargetFileBrowser::new("C:\\tgt", false);
    let mut source = SourceFileBrowser::new("C:\\src");
    let h = get_hash(b"picture");
    let p = expect_probe(source.on_file_entry(&target, "C:\\src\\deep\\x.png", &h));
    assert_eq!(p, b"C:\\tgt/x.png".to_vec());
    match source.on_probe_result(&mut target, false) {
        CopyStep::Copy(order) => {
            assert_eq!(order.source, b"C:/src/deep/x.png".to_vec());
            assert_eq!(order.dest, b"C:/tgt/x.png".to_vec());
            assert_eq!(order.dest_dir, b"C:/tgt".to_vec());
        }
        other => panic!("expected a copy, got {:?}", other),
    }
}

#[test]
fn add_to_file_records_and_orders_the_copy() {
    let mut target = TargetFileBrowser::new("/tgt", true);
    let h = get_hash(b"x");
    let order = target.add_to_file(&h, b"/src\\a", b"/tgt\\dir\\a");
    assert_eq!(order.source, b"/src/a".to_vec());
    assert_eq!(order.dest, b"/tgt/dir/a".to_vec());
    assert_eq!(order.dest_dir, b"/tgt/dir".to_vec());
    assert!(target.is_in_files(&h));
}

#[test]
fn distinct_contents_each_get_copied() {
    let mut target = TargetFileBrowser::new("/t", false);
    let mut source = SourceFileBrowser::new("/s");
    let mut copies = 0;
    for (name, body) in [("/s/a", "1"), ("/s/b", "2"), ("/s/c", "1"), ("/s/d", "2"), ("/s/e", "3")] {
        let h = get_hash(body.as_bytes());
        match source.on_file_entry(&target, name, &h) {
            CopyStep::AlreadyPresent => {}
            CopyStep::Probe(_) => {
                if let CopyStep::Copy(_) = source.on_probe_result(&mut target, false) {
                    copies += 1;
                }
            }
            CopyStep::Copy(_) => panic!("a copy needs a probe first"),
        }
    }
    assert_eq!(copies, 3);
}

#[test]
fn counter_counts_a_walk() {
    let mut counter = FileCounter::new();
    let files = vec!["a".to_string(), "b".to_string(), "c".to_string()];
    assert_eq!(counter.count(&files), 3);
    assert_eq!(counter.count(&Vec::new()), 0);
}

#[test]
fn total_files_adds_all_walks() {
    let listings = vec![
        vec!["a".to_string(), "b".to_string()],
        vec![],
        vec!["c".to_string(), "d".to_string(), "e".to_string()],
    ];
    assert_eq!(get_total_files(&listings), 5);
    assert_eq!(get_total_files(&Vec::new()), 0);
}

#[test]
fn present_content_is_skipped_whatever_its_path() {
    let mut target = TargetFileBrowser::new("/tgt", true);
    let h = get_hash(b"kept");
    target.on_file_entry("/tgt/kept.bin", &h);
    let mut source = SourceFileBrowser::new("/a/rather/long/source/base");
    let step = source.on_file_entry(&target, "/x", &h);
    assert!(matches!(step, CopyStep::AlreadyPresent));
}

#[test]
fn counter_starts_over_at_each_count() {
    let mut counter = FileCounter::new();
    let p = vec!["a".to_string(), "b".to_string()];
    let q = vec!["c".to_string(), "d".to_string(), "e".to_string()];
    assert_eq!(counter.count(&q), 3);
    assert_eq!(counter.count(&p), FileCounter::new().count(&p));
    assert_eq!(counter.count(&p), 2);
}

#[test]
fn total_adds_over_joined_lists_and_ignores_order() {
    let a = vec![vec!["x".to_string()], vec!["y".to_string(), "z".to_string()]];
    let b = vec![vec![], vec!["w".to_string()]];
    let joined = [a.clone(), b.clone()].concat();
    assert_eq!(get_total_files(&joined), get_total_files(&a) + get_total_files(&b));
    let mut reversed = joined.clone();
    reversed.reverse();
    assert_eq!(get_total_files(&reversed), get_total_files(&joined));
}

#[test]
fn numbered_copy_stays_in_a_dotted_target_folder() {
    let mut target = TargetFileBrowser::new("/t.d", true);
    let mut source = SourceFileBrowser::new("/s");
    let h = get_hash(b"fresh");
    let p = expect_probe(source.on_file_entry(&target, "/s/a", &h));
    assert_eq!(p, b"/t.d/a".to_vec());
    let p = expect_probe(source.on_probe_result(&mut target, true));
    assert_eq!(p, b"/t.d/a (1)".to_vec());
    match source.on_probe_result(&mut target, false) {
        CopyStep::Copy(order) => {
            assert_eq!(order.dest, b"/t.d/a (1)".to_vec());
            assert_eq!(order.dest_dir, b"/t.d".to_vec());
        }
        other => panic!("expected a copy, got {:?}", other),
    }
}
