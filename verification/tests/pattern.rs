use jar_rename::error::FormatError;
use jar_rename::pattern::{RenamePattern, MAX_TEXT_LEN};

fn pattern(source: &str, target: &str) -> RenamePattern {
    RenamePattern::new(source.to_string(), target.to_string())
}

#[test]
fn new_keeps_both_prefixes_as_written() {
    let p = pattern("com.old", "com/new");
    assert_eq!(p.source, "com.old");
    assert_eq!(p.target, "com/new");
}

#[test]
fn dotted_names_become_paths() {
    let p = RenamePattern::from_dotted("com.old.pkg", "org.example");
    assert_eq!(p.source, "com/old/pkg");
    assert_eq!(p.target, "org/example");
}

#[test]
fn dotted_names_without_dots_stay() {
    let p = RenamePattern::from_dotted("com/old", "");
    assert_eq!(p.source, "com/old");
    assert_eq!(p.target, "");
}

#[test]
fn dotted_names_of_dots_only() {
    let p = RenamePattern::from_dotted("...", ".a.");
    assert_eq!(p.source, "///");
    assert_eq!(p.target, "/a/");
}

#[test]
fn apply_replaces_every_match() {
    let p = pattern("com/old", "com/new");
    assert_eq!(p.apply("com/old/Foo"), "com/new/Foo");
    assert_eq!(p.apply("Lcom/old/A;Lcom/old/B;"), "Lcom/new/A;Lcom/new/B;");
    assert_eq!(p.apply("com/old"), "com/new");
    assert_eq!(p.apply("com/oldcom/old"), "com/newcom/new");
}

#[test]
fn apply_leaves_a_text_without_match() {
    let p = pattern("com/old", "com/new");
    assert_eq!(p.apply("java/lang/Object"), "java/lang/Object");
    assert_eq!(p.apply("com/ol"), "com/ol");
    assert_eq!(p.apply(""), "");
}

#[test]
fn apply_changes_the_length() {
    let p = pattern("a/b", "x/y/z/w");
    assert_eq!(p.apply("a/b/C"), "x/y/z/w/C");
    let q = pattern("x/y/z/w", "");
    assert_eq!(q.apply("x/y/z/w/C"), "/C");
}

#[test]
fn apply_matches_from_the_left_without_overlap() {
    assert_eq!(pattern("aa", "b").apply("aaa"), "ba");
    assert_eq!(pattern("aa", "b").apply("aaaa"), "bb");
    assert_eq!(pattern("aba", "X").apply("ababa"), "Xba");
}

#[test]
fn apply_does_not_look_at_what_it_wrote() {
    assert_eq!(pattern("ab", "a").apply("aabb"), "aab");
    assert_eq!(pattern("a", "aa").apply("aa"), "aaaa");
}

#[test]
fn apply_with_an_empty_source_puts_the_target_everywhere() {
    assert_eq!(pattern("", "-").apply("abc"), "-a-b-c-");
    assert_eq!(pattern("", "-").apply(""), "-");
    assert_eq!(pattern("", "").apply("abc"), "abc");
}

#[test]
fn apply_works_on_characters_of_any_width() {
    assert_eq!(pattern("\u{e9}", "e").apply("caf\u{e9}/\u{e9}"), "cafe/e");
    assert_eq!(pattern("b", "\u{df}").apply("abc"), "a\u{df}c");
}

#[test]
fn rename_text_accepts_what_fits() {
    let p = pattern("b", "c");
    let text = "a".repeat(MAX_TEXT_LEN);
    assert_eq!(p.rename_text(&text), Ok(text.clone()));
    let q = pattern("a", "b");
    assert_eq!(q.rename_text(&text), Ok("b".repeat(MAX_TEXT_LEN)));
}

#[test]
fn rename_text_refuses_what_no_longer_fits() {
    let p = pattern("a", "aa");
    let text = "a".repeat(MAX_TEXT_LEN);
    assert_eq!(p.rename_text(&text), Err(FormatError::TextTooLong));
    let q = pattern("x", "xy");
    let mut one_short = "a".repeat(MAX_TEXT_LEN - 1);
    one_short.push('x');
    assert_eq!(q.rename_text(&one_short), Err(FormatError::TextTooLong));
}

#[test]
fn rename_text_counts_bytes_not_characters() {
    let p = pattern("a", "\u{e9}");
    let text = "a".repeat(40_000);
    assert_eq!(p.rename_text(&text), Err(FormatError::TextTooLong));
    let shorter = "a".repeat(32_767);
    assert_eq!(p.rename_text(&shorter), Ok("\u{e9}".repeat(32_767)));
}

#[test]
fn rename_entry_replaces_the_prefix() {
    let p = pattern("com/old", "com/new");
    assert_eq!(p.rename_entry("com/old/Foo.class"), "com/new/Foo.class");
    assert_eq!(p.rename_entry("com/old"), "com/new");
    assert_eq!(p.rename_entry("com/older/Foo.class"), "com/newer/Foo.class");
}

#[test]
fn rename_entry_leaves_a_match_in_the_middle() {
    let p = pattern("com/old", "com/new");
    assert_eq!(p.rename_entry("lib/com/old/Foo.class"), "lib/com/old/Foo.class");
    assert_eq!(p.rename_entry("/com/old/Foo.class"), "/com/old/Foo.class");
    assert_eq!(p.rename_entry("META-INF/MANIFEST.MF"), "META-INF/MANIFEST.MF");
    assert_eq!(p.rename_entry("com/ol"), "com/ol");
    assert_eq!(p.rename_entry(""), "");
}

#[test]
fn rename_entry_replaces_the_prefix_once() {
    let p = pattern("com/old", "com/new");
    assert_eq!(
        p.rename_entry("com/old/com/old/Foo.class"),
        "com/new/com/old/Foo.class"
    );
    assert_eq!(pattern("a", "b").rename_entry("aaa"), "baa");
}

#[test]
fn rename_entry_with_an_empty_source_puts_the_target_in_front() {
    assert_eq!(pattern("", "x/").rename_entry("Foo.class"), "x/Foo.class");
    assert_eq!(pattern("", "x/").rename_entry(""), "x/");
}

#[test]
fn replaced_matches_stand_behind_the_same_pieces() {
    let text = "Lcom/old/A;(Lcom/old/B;)Vcom/old";
    let replaced = pattern("com/old", "org/renamed").apply(text);
    assert_eq!(replaced, "Lorg/renamed/A;(Lorg/renamed/B;)Vorg/renamed");
    let before: Vec<&str> = text.split("com/old").collect();
    let after: Vec<&str> = replaced.split("org/renamed").collect();
    assert_eq!(before, vec!["L", "/A;(L", "/B;)V", ""]);
    assert_eq!(after, before);
    assert_eq!(replaced.matches("org/renamed").count(), 3);
    assert!(!replaced.contains("com/old"));
    assert_eq!(replaced.len(), text.len() + 3 * 4);
}

#[test]
fn dotted_pattern_renames_slashed_text() {
    let p = RenamePattern::from_dotted("com.old", "com.new");
    assert_eq!(p.apply("Lcom/old/Foo;"), "Lcom/new/Foo;");
    assert_eq!(p.apply("com.old.Foo"), "com.old.Foo");
    assert_eq!(p.rename_entry("com/old/Foo.class"), "com/new/Foo.class");
}
