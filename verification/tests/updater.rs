//! What already lies in a directory.

use std::path::Path;

use ymelorix::updater::{file_stem, Existing, Mode};

#[test]
fn indexes_existing_files_by_stem() {
    let existing = Existing::from_names(&["Burial - Archangel.flac", "заметка.txt"]);

    assert!(existing.contains_stem("Burial - Archangel"));
    assert!(existing.contains_stem("заметка"));
    assert!(!existing.contains_stem("Burial - Untrue"));
}

#[test]
fn keeps_file_names_as_they_are() {
    let existing = Existing::from_names(&["Burial - Archangel.flac"]);

    assert!(existing.names().contains("Burial - Archangel.flac"));
    assert_eq!(existing.names().len(), 1);
}

#[test]
fn does_not_mistake_partial_download_for_a_finished_file() {
    let existing = Existing::from_names(&["Burial - Archangel.flac.part"]);

    assert!(!existing.contains_stem("Burial - Archangel"));
    assert!(existing.contains_stem("Burial - Archangel.flac"));
}

#[test]
fn stems_are_those_of_the_standard_library() {
    for name in [
        "a.flac", "a", ".hidden", ".hidden.txt", "a.b.c", "a.", "..", ".", "", "...", "....", "/",
        "a/b.c", "a/b.c/", "a/.", "a/..", "./a.b", "//a.b//", "..a", "a..", "т.е.", "a/./b.x/.",
    ] {
        let expected = Path::new(name)
            .file_stem()
            .and_then(|stem| stem.to_str())
            .map(str::to_owned);
        assert_eq!(file_stem(name), expected, "{name}");
    }
}

#[test]
fn repeated_names_count_once() {
    let existing = Existing::from_names(&["a.mp3", "a.flac", "a.mp3"]);
    assert_eq!(existing.names().len(), 2);
    assert!(existing.contains_stem("a"));
    assert!(!Existing::from_names(&[]).contains_stem(""));
}

#[test]
fn only_an_update_looks_at_the_directory() {
    assert!(Mode::Update.needs_snapshot());
    assert!(!Mode::Full.needs_snapshot());
}
