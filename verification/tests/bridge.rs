use engine_editor::codec::{decode_component, encode_component};
use engine_editor::fs::{FileSystem, FsError};
use engine_editor::paths::{file_name_of, is_valid_name, is_valid_path, join_path, parent_path};

#[test]
fn create_directory_then_repeat_already_exists() {
    let mut fs = FileSystem::new();
    let made = fs.create_directory("/tmp", "proj");
    assert_eq!(made.unwrap(), "/tmp/proj");
    let first = fs.create_directory("/tmp/proj", "demo");
    assert_eq!(first.unwrap(), "/tmp/proj/demo");
    let second = fs.create_directory("/tmp/proj", "demo");
    assert_eq!(second.unwrap_err(), FsError::AlreadyExists);
}

#[test]
fn create_directory_creates_missing_ancestors() {
    let mut fs = FileSystem::new();
    let made = fs.create_directory("/a/b/c", "d");
    assert_eq!(made.unwrap(), "/a/b/c/d");
    let listed = fs.list_directory("/a").unwrap();
    assert_eq!(listed.len(), 1);
    assert_eq!(listed[0].path, "/a/b");
    assert!(listed[0].is_dir);
    assert!(fs.write_file_content("/a/b/c/d/e.txt", "deep").is_ok());
}

#[test]
fn create_directory_rejects_bad_inputs() {
    let mut fs = FileSystem::new();
    assert_eq!(fs.create_directory("/x", "a/b").unwrap_err(), FsError::IoFailure);
    assert_eq!(fs.create_directory("/x", "").unwrap_err(), FsError::IoFailure);
    assert_eq!(fs.create_directory("x", "a").unwrap_err(), FsError::IoFailure);
    assert_eq!(fs.create_directory("/x/", "a").unwrap_err(), FsError::IoFailure);
}

#[test]
fn create_directory_blocked_by_file() {
    let mut fs = FileSystem::new();
    fs.create_directory("/", "proj").unwrap();
    fs.write_file_content("/proj/f.txt", "text").unwrap();
    assert_eq!(fs.create_directory("/proj/f.txt", "sub").unwrap_err(), FsError::IoFailure);
    assert_eq!(fs.create_directory("/proj/f.txt/deep", "sub").unwrap_err(), FsError::IoFailure);
}

#[test]
fn list_directory_three_entries() {
    let mut fs = FileSystem::new();
    fs.create_directory("/", "proj").unwrap();
    fs.write_file_content("/proj/a.txt", "alpha").unwrap();
    fs.write_file_content("/proj/b.txt", "beta").unwrap();
    fs.create_directory("/proj", "sub").unwrap();
    let entries = fs.list_directory("/proj").unwrap();
    assert_eq!(entries.len(), 3);
    let mut names: Vec<String> = entries.iter().map(|e| e.name.clone()).collect();
    names.sort();
    assert_eq!(names, vec!["a.txt".to_string(), "b.txt".to_string(), "sub".to_string()]);
    for e in &entries {
        assert_eq!(e.is_dir, e.name == "sub");
        assert_eq!(e.path, format!("/proj/{}", e.name));
    }
}

#[test]
fn list_directory_of_missing_or_file_fails() {
    let mut fs = FileSystem::new();
    assert_eq!(fs.list_directory("/nope").unwrap_err(), FsError::IoFailure);
    fs.write_file_content("/f.txt", "x").unwrap();
    assert_eq!(fs.list_directory("/f.txt").unwrap_err(), FsError::IoFailure);
}

#[test]
fn read_nonexistent_file_io_failure() {
    let fs = FileSystem::new();
    assert_eq!(fs.read_file_content("/nope.txt").unwrap_err(), FsError::IoFailure);
}

#[test]
fn write_then_read_round_trip() {
    let mut fs = FileSystem::new();
    fs.create_directory("/", "proj").unwrap();
    let content = "fn main() {}\n// a second line\n";
    fs.write_file_content("/proj/main.rs", content).unwrap();
    assert_eq!(fs.read_file_content("/proj/main.rs").unwrap(), content);
}

#[test]
fn overwrite_replaces_whole_content() {
    let mut fs = FileSystem::new();
    fs.write_file_content("/note.txt", "first").unwrap();
    fs.write_file_content("/note.txt", "second").unwrap();
    assert_eq!(fs.read_file_content("/note.txt").unwrap(), "second");
}

#[test]
fn write_failures_leave_filesystem_unchanged() {
    let mut fs = FileSystem::new();
    assert_eq!(fs.write_file_content("/missing/f.txt", "x").unwrap_err(), FsError::IoFailure);
    assert_eq!(fs.write_file_content("/", "x").unwrap_err(), FsError::IoFailure);
    assert_eq!(fs.read_file_content("/missing/f.txt").unwrap_err(), FsError::IoFailure);
}

#[test]
fn raw_file_reads_as_not_utf8() {
    let mut fs = FileSystem::new();
    fs.create_directory("/", "proj").unwrap();
    fs.place_raw_file("/proj/blob.bin").unwrap();
    assert_eq!(fs.read_file_content("/proj/blob.bin").unwrap_err(), FsError::NotUtf8);
}

#[test]
fn path_components() {
    assert_eq!(file_name_of("/a/b/c.txt"), "c.txt");
    assert_eq!(file_name_of("/c.txt"), "c.txt");
    assert_eq!(parent_path("/a/b/c.txt"), "/a/b");
    assert_eq!(parent_path("/a"), "/");
    assert_eq!(join_path("/", "x"), "/x");
    assert_eq!(join_path("/a", "x"), "/a/x");
    assert!(is_valid_path("/"));
    assert!(is_valid_path("/a/b"));
    assert!(!is_valid_path(""));
    assert!(!is_valid_path("a/b"));
    assert!(!is_valid_path("/a//b"));
    assert!(!is_valid_path("/a/"));
    assert!(is_valid_name("x.txt"));
    assert!(!is_valid_name(""));
    assert!(!is_valid_name("a/b"));
}

#[test]
fn encode_escapes_separators() {
    let input: Vec<u8> = b"/tmp/proj".to_vec();
    let encoded = encode_component(&input);
    assert_eq!(encoded, b"%2Ftmp%2Fproj".to_vec());
}

#[test]
fn encode_keeps_unreserved_bytes() {
    let input: Vec<u8> = b"Az09-_.~!*'()".to_vec();
    let encoded = encode_component(&input);
    assert_eq!(encoded, input);
}

#[test]
fn decode_inverts_encode() {
    let original = "/home/user name/\u{03b1}\u{03b2}.txt";
    let input: Vec<u8> = original.as_bytes().to_vec();
    let encoded = encode_component(&input);
    let decoded = decode_component(&encoded).unwrap();
    assert_eq!(decoded, input);
    assert_eq!(String::from_utf8(decoded).unwrap(), original);
}

#[test]
fn decode_accepts_lowercase_hex() {
    let input: Vec<u8> = b"%2f".to_vec();
    assert_eq!(decode_component(&input).unwrap(), b"/".to_vec());
}

#[test]
fn decode_rejects_malformed_escapes() {
    assert!(decode_component(&b"%2".to_vec()).is_none());
    assert!(decode_component(&b"abc%zz".to_vec()).is_none());
    assert!(decode_component(&b"tail%".to_vec()).is_none());
}
