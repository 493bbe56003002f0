use unique_files::digest::{get_hash, to_lower_hex};
use unique_files::paths::{get_file_name, make_candidate, to_forward_slashes};

#[test]
fn hash_of_abc_is_the_sha256_hex() {
    assert_eq!(
        get_hash(b"abc"),
        b"ba7816bf8f01cfea414140de5dae2223b00361a396177a9cb410ff61f20015ad".to_vec()
    );
}

#[test]
fn hash_of_empty_contents() {
    assert_eq!(
        get_hash(b""),
        b"e3b0c44298fc1c149afbf4c8996fb92427ae41e4649b934ca495991b7852b855".to_vec()
    );
}

#[test]
fn hash_depends_on_contents() {
    assert_ne!(get_hash(b"photo one"), get_hash(b"photo two"));
    assert_eq!(get_hash(b"same bytes"), get_hash(b"same bytes"));
    assert_eq!(get_hash(b"any").len(), 64);
}

#[test]
fn lower_hex_renders_each_byte_as_two_digits() {
    assert_eq!(to_lower_hex(&[10, 20, 30]), b"0a141e".to_vec());
    assert_eq!(to_lower_hex(&[0, 255, 171]), b"00ffab".to_vec());
    assert_eq!(to_lower_hex(&[]), Vec::<u8>::new());
}

#[test]
fn file_name_is_the_last_component() {
    assert_eq!(get_file_name(b"/a/b\\c.txt"), b"c.txt".to_vec());
    assert_eq!(get_file_name(b"/a/b/c.txt"), b"c.txt".to_vec());
    assert_eq!(get_file_name(b"plain"), b"plain".to_vec());
    assert_eq!(get_file_name(b"dir/"), Vec::<u8>::new());
}

#[test]
fn backslashes_become_slashes() {
    assert_eq!(to_forward_slashes(b"C:\\a\\b/c"), b"C:/a/b/c".to_vec());
    assert_eq!(to_forward_slashes(b"/x/y"), b"/x/y".to_vec());
}

#[test]
fn candidates_number_the_stem() {
    assert_eq!(make_candidate(b"/t/a.txt", 0), b"/t/a.txt".to_vec());
    assert_eq!(make_candidate(b"/t/a.txt", 1), b"/t/a (1).txt".to_vec());
    assert_eq!(make_candidate(b"/t/a.txt", 12), b"/t/a (12).txt".to_vec());
    assert_eq!(make_candidate(b"/t/a.tar.gz", 3), b"/t/a.tar (3).gz".to_vec());
    assert_eq!(make_candidate(b"/t/a", 2), b"/t/a (2)".to_vec());
}

#[test]
fn candidates_number_the_last_component_only() {
    assert_eq!(make_candidate(b"/t.d/a", 1), b"/t.d/a (1)".to_vec());
    assert_eq!(make_candidate(b"/t/dir.v2/file", 2), b"/t/dir.v2/file (2)".to_vec());
    assert_eq!(make_candidate(b"C:\\t.d\\a.txt", 1), b"C:\\t.d\\a (1).txt".to_vec());
}

#[test]
fn candidates_never_repeat() {
    let mut seen: Vec<Vec<u8>> = Vec::new();
    for attempt in 0..200u32 {
        let c = make_candidate(b"/t/photo.jpg", attempt);
        assert!(!seen.contains(&c));
        seen.push(c);
    }
}
