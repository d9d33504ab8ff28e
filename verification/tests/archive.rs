use jar_rename::archive::{
    is_archive_name, is_compiled_unit_name, transcode_entries, transcode_entry, ArchiveEntry,
    CompressionMethod, TranscodeError,
};
use jar_rename::error::FormatError;
use jar_rename::pattern::RenamePattern;

fn old_new() -> RenamePattern {
    RenamePattern::new("com/old".to_string(), "com/new".to_string())
}

fn foo_class(text: &[u8]) -> Vec<u8> {
    let mut bytes = vec![0xCA, 0xFE, 0xBA, 0xBE, 0, 0, 0, 52, 0, 3, 1];
    bytes.extend_from_slice(&(text.len() as u16).to_be_bytes());
    bytes.extend_from_slice(text);
    bytes.extend_from_slice(&[7, 0, 1, 0, 0x21, 0, 2, 0, 0]);
    bytes
}

fn entry(name: &str, content: Vec<u8>) -> ArchiveEntry {
    ArchiveEntry { name: name.to_string(), content, method: CompressionMethod::Deflated }
}

#[test]
fn archive_names_end_in_jar() {
    assert!(is_archive_name("app.jar"));
    assert!(is_archive_name("/some/dir/app.jar"));
    assert!(is_archive_name(".jar"));
    assert!(!is_archive_name("app.zip"));
    assert!(!is_archive_name("app.jar.bak"));
    assert!(!is_archive_name("app.JAR"));
    assert!(!is_archive_name("jar"));
    assert!(!is_archive_name(""));
}

#[test]
fn compiled_units_end_in_class() {
    assert!(is_compiled_unit_name("com/old/Foo.class"));
    assert!(is_compiled_unit_name(".class"));
    assert!(!is_compiled_unit_name("com/old/Foo.java"));
    assert!(!is_compiled_unit_name("com/old/Foo.class/"));
    assert!(!is_compiled_unit_name("com/old/Foo.CLASS"));
    assert!(!is_compiled_unit_name("class"));
    assert!(!is_compiled_unit_name(""));
}

#[test]
fn output_method_is_the_one_it_came_with_or_deflate() {
    assert_eq!(CompressionMethod::Stored.for_output(), CompressionMethod::Stored);
    assert_eq!(CompressionMethod::Deflated.for_output(), CompressionMethod::Deflated);
    assert_eq!(CompressionMethod::Other(12).for_output(), CompressionMethod::Deflated);
    assert_eq!(CompressionMethod::Other(0).for_output(), CompressionMethod::Deflated);
}

#[test]
fn compiled_unit_is_renamed_and_rewritten() {
    let input = entry("com/old/Foo.class", foo_class(b"com/old/Foo"));
    let output = transcode_entry(input, &old_new()).unwrap();
    assert_eq!(output, entry("com/new/Foo.class", foo_class(b"com/new/Foo")));
    assert_eq!(&output.content[10..13], &[1, 0, 11]);
}

#[test]
fn passthrough_entry_keeps_its_content() {
    let content = b"Main-Class: com/old/Foo\ncom/old\n".to_vec();
    let output = transcode_entry(entry("META-INF/MANIFEST.MF", content.clone()), &old_new());
    assert_eq!(output, Ok(entry("META-INF/MANIFEST.MF", content)));
}

#[test]
fn passthrough_entry_is_renamed_too() {
    let content = vec![1u8, 0];
    let output = transcode_entry(entry("com/old/data.bin", content.clone()), &old_new());
    assert_eq!(output, Ok(entry("com/new/data.bin", content)));
}

#[test]
fn passthrough_entry_may_hold_anything() {
    let content = vec![0xCA, 0xFE, 0xBA, 0xBE, 0, 0];
    let output = transcode_entry(entry("broken.klass", content.clone()), &old_new());
    assert_eq!(output, Ok(entry("broken.klass", content)));
    let empty = transcode_entry(entry("dir/", Vec::new()), &old_new());
    assert_eq!(empty, Ok(entry("dir/", Vec::new())));
}

#[test]
fn entry_with_the_source_in_the_middle_keeps_its_name() {
    let input = entry("lib/com/old/Foo.class", foo_class(b"com/old/Foo"));
    assert_eq!(
        transcode_entry(input, &old_new()),
        Ok(entry("lib/com/old/Foo.class", foo_class(b"com/new/Foo")))
    );
}

#[test]
fn entry_is_classified_by_the_name_it_came_with() {
    let pattern = RenamePattern::new("Foo.class".to_string(), "Foo.txt".to_string());
    let input = entry("Foo.class", foo_class(b"Foo.class"));
    assert_eq!(
        transcode_entry(input, &pattern),
        Ok(entry("Foo.txt", foo_class(b"Foo.txt")))
    );
    let back = RenamePattern::new("Foo.txt".to_string(), "Foo.class".to_string());
    let text = entry("Foo.txt", vec![1, 2, 3]);
    assert_eq!(transcode_entry(text, &back), Ok(entry("Foo.class", vec![1, 2, 3])));
}

#[test]
fn entry_keeps_its_method() {
    let mut input = entry("a.txt", vec![1]);
    input.method = CompressionMethod::Stored;
    let output = transcode_entry(input, &old_new()).unwrap();
    assert_eq!(output.method, CompressionMethod::Stored);
    let mut unit = entry("A.class", foo_class(b"A"));
    unit.method = CompressionMethod::Stored;
    assert_eq!(transcode_entry(unit, &old_new()).unwrap().method, CompressionMethod::Stored);
    let mut other = entry("a.txt", vec![1]);
    other.method = CompressionMethod::Other(14);
    assert_eq!(transcode_entry(other, &old_new()).unwrap().method, CompressionMethod::Deflated);
}

#[test]
fn truncated_compiled_unit_fails_the_entry() {
    let mut content = foo_class(b"com/old/Foo");
    content.truncate(10 + 3 + 5);
    assert_eq!(
        transcode_entry(entry("com/old/Foo.class", content), &old_new()),
        Err(FormatError::Truncated)
    );
    assert_eq!(
        transcode_entry(entry("Empty.class", Vec::new()), &old_new()),
        Err(FormatError::Truncated)
    );
}

#[test]
fn archive_comes_out_in_stored_order() {
    let entries = vec![
        entry("META-INF/MANIFEST.MF", b"Manifest-Version: 1.0\n".to_vec()),
        entry("com/old/Foo.class", foo_class(b"com/old/Foo")),
        entry("com/old/res/app.properties", b"pkg=com/old".to_vec()),
        entry("other/Bar.class", foo_class(b"Lcom/old/Foo;")),
    ];
    let expected = vec![
        entry("META-INF/MANIFEST.MF", b"Manifest-Version: 1.0\n".to_vec()),
        entry("com/new/Foo.class", foo_class(b"com/new/Foo")),
        entry("com/new/res/app.properties", b"pkg=com/old".to_vec()),
        entry("other/Bar.class", foo_class(b"Lcom/new/Foo;")),
    ];
    assert_eq!(transcode_entries(entries, &old_new()), Ok(expected));
}

#[test]
fn empty_archive_gives_an_empty_archive() {
    assert_eq!(transcode_entries(Vec::new(), &old_new()), Ok(Vec::new()));
}

#[test]
fn truncated_compiled_unit_fails_the_whole_archive() {
    let mut cut = foo_class(b"com/old/Foo");
    cut.truncate(10 + 3 + 5);
    let entries = vec![
        entry("META-INF/MANIFEST.MF", b"Manifest-Version: 1.0\n".to_vec()),
        entry("com/old/Foo.class", foo_class(b"com/old/Foo")),
        entry("com/old/Cut.class", cut),
        entry("com/old/Short.class", vec![0xCA, 0xFE]),
    ];
    assert_eq!(
        transcode_entries(entries, &old_new()),
        Err(TranscodeError { entry: 2, cause: FormatError::Truncated })
    );
}

#[test]
fn overlong_text_fails_the_whole_archive() {
    let pattern = RenamePattern::new("a".to_string(), "aa".to_string());
    let entries = vec![entry("Big.class", foo_class(&vec![b'a'; 40_000]))];
    assert_eq!(
        transcode_entries(entries, &pattern),
        Err(TranscodeError { entry: 0, cause: FormatError::TextTooLong })
    );
}
