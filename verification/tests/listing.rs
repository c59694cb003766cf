use serve_static::listing::{precedes, sort, Entry};

fn file(name: &str) -> Entry {
    Entry {
        name: name.to_owned(),
        is_dir: false,
        size: Some(100),
        modified: None,
    }
}

fn dir(name: &str) -> Entry {
    Entry {
        name: name.to_owned(),
        is_dir: true,
        size: None,
        modified: None,
    }
}

#[test]
fn directories_before_files() {
    let mut entries = vec![file("b.txt"), dir("docs"), file("a.txt"), dir("assets")];
    sort(&mut entries);
    assert!(entries[0].is_dir);
    assert!(entries[1].is_dir);
    assert!(!entries[2].is_dir);
    assert!(!entries[3].is_dir);
}

#[test]
fn case_insensitive_ordering() {
    let mut entries = vec![file("Banana"), file("apple"), file("Cherry")];
    sort(&mut entries);
    assert_eq!(entries[0].name, "apple");
    assert_eq!(entries[1].name, "Banana");
    assert_eq!(entries[2].name, "Cherry");
}

#[test]
fn empty_list() {
    let mut entries: Vec<Entry> = vec![];
    sort(&mut entries);
    assert!(entries.is_empty());
}

#[test]
fn single_entry() {
    let mut entries = vec![file("only.txt")];
    sort(&mut entries);
    assert_eq!(entries.len(), 1);
}

#[test]
fn mixed_sort() {
    let mut entries = vec![
        file("readme.md"),
        dir("src"),
        file("Cargo.toml"),
        dir("examples"),
    ];
    sort(&mut entries);
    assert_eq!(entries[0].name, "examples");
    assert_eq!(entries[1].name, "src");
    assert_eq!(entries[2].name, "Cargo.toml");
    assert_eq!(entries[3].name, "readme.md");
}

fn sized(name: &str, size: u64) -> Entry {
    Entry {
        name: name.to_owned(),
        is_dir: false,
        size: Some(size),
        modified: None,
    }
}

fn names(entries: &[Entry]) -> Vec<&str> {
    entries.iter().map(|e| e.name.as_str()).collect()
}

#[test]
fn directory_first_regardless_of_case() {
    let mut entries = vec![file("b"), dir("A")];
    sort(&mut entries);
    assert_eq!(names(&entries), ["A", "b"]);
    assert!(entries[0].is_dir);

    let mut entries = vec![file("A"), dir("b")];
    sort(&mut entries);
    assert_eq!(names(&entries), ["b", "A"]);
    assert!(entries[0].is_dir);
}

#[test]
fn ties_keep_their_order() {
    let mut entries = vec![
        sized("readme", 1),
        sized("README", 2),
        sized("ReadMe", 3),
        sized("a", 4),
        sized("Readme", 5),
    ];
    sort(&mut entries);
    assert_eq!(names(&entries), ["a", "readme", "README", "ReadMe", "Readme"]);
    let sizes: Vec<u64> = entries.iter().map(|e| e.size.unwrap()).collect();
    assert_eq!(sizes, [4, 1, 2, 3, 5]);
}

#[test]
fn already_sorted_stays() {
    let mut entries = vec![dir("a"), dir("b"), file("a"), file("b")];
    let before = entries.clone();
    sort(&mut entries);
    assert_eq!(entries, before);
}

#[test]
fn reversed_is_put_right() {
    let mut entries = vec![file("d"), file("c"), file("b"), file("a"), dir("z"), dir("y")];
    sort(&mut entries);
    assert_eq!(names(&entries), ["y", "z", "a", "b", "c", "d"]);
}

#[test]
fn shorter_name_before_its_extension() {
    let mut entries = vec![file("abc"), file("ab"), file("a"), file("")];
    sort(&mut entries);
    assert_eq!(names(&entries), ["", "a", "ab", "abc"]);
}

#[test]
fn names_compare_by_their_bytes_in_lower_case() {
    // '_' (0x5f) sorts before 'a' (0x61) but after 'A' (0x41): lower case decides
    let mut entries = vec![file("a"), file("_"), file("B")];
    sort(&mut entries);
    assert_eq!(names(&entries), ["_", "a", "B"]);

    let mut entries = vec![file("\u{e9}t\u{e9}"), file("zebra"), file("\u{c9}cole")];
    sort(&mut entries);
    assert_eq!(names(&entries), ["zebra", "\u{c9}cole", "\u{e9}t\u{e9}"]);
}

#[test]
fn sort_agrees_with_a_stable_sort_by_key() {
    let words = ["b", "A", "a", "B", "c", "", "Ab", "aB", "ab", "z", "Z", "0", "_x", "X_"];
    let mut entries: Vec<Entry> = Vec::new();
    let mut seed: u64 = 7;
    for round in 0..60u64 {
        seed = seed.wrapping_mul(6364136223846793005).wrapping_add(1442695040888963407);
        let word = words[((seed >> 33) % words.len() as u64) as usize];
        let mut e = sized(word, round);
        e.is_dir = (seed >> 20) % 3 == 0;
        entries.push(e);
    }
    let mut expected = entries.clone();
    expected.sort_by_key(|e| (!e.is_dir, e.name.to_lowercase()));
    sort(&mut entries);
    assert_eq!(entries, expected);
}

#[test]
fn sort_keeps_every_entry() {
    let mut entries = vec![sized("x", 1), dir("x"), sized("x", 1), sized("X", 9)];
    sort(&mut entries);
    assert_eq!(entries.len(), 4);
    assert_eq!(entries.iter().filter(|e| e.is_dir).count(), 1);
    assert_eq!(entries.iter().filter(|e| e.size == Some(1)).count(), 2);
    assert_eq!(entries.iter().filter(|e| e.size == Some(9)).count(), 1);
}

#[test]
fn sort_takes_a_slice() {
    let mut entries = [file("b"), file("a"), file("c")];
    sort(&mut entries[..2]);
    assert_eq!(names(&entries), ["a", "b", "c"]);
}

#[test]
fn directory_precedes_file() {
    assert!(precedes(true, "z", false, "a"));
    assert!(!precedes(false, "a", true, "z"));
    assert!(precedes(true, "", false, ""));
}

#[test]
fn names_precede_by_their_bytes() {
    for dir in [true, false] {
        assert!(precedes(dir, "a", dir, "b"));
        assert!(!precedes(dir, "b", dir, "a"));
        assert!(precedes(dir, "a", dir, "aa"));
        assert!(!precedes(dir, "aa", dir, "a"));
        assert!(precedes(dir, "", dir, "a"));
        assert!(precedes(dir, "B", dir, "a"));
        assert!(precedes(dir, "z", dir, "\u{e9}"));
        assert!(precedes(dir, "\u{e9}", dir, "\u{4e2d}"));
    }
}

#[test]
fn nothing_precedes_its_like() {
    for dir in [true, false] {
        for name in ["", "a", "abc", "\u{e9}"] {
            assert!(!precedes(dir, name, dir, name));
        }
    }
}
