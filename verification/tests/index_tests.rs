use kura_voice::index::{build, FileEntry, IndexStore};

fn entry(path: &str, name: &str, is_file: bool) -> FileEntry {
    FileEntry { path: path.to_string(), name: name.to_string(), is_file }
}

#[test]
fn build_selects_only_cache_files() {
    let entries = vec![
        entry("/cache", "cache", false),
        entry("/cache/Bohemian Rhapsody.opus", "Bohemian Rhapsody.opus", true),
        entry("/cache/readme.txt", "readme.txt", true),
        entry("/cache/sub", "sub", false),
        entry("/cache/sub/Take Five.opus", "Take Five.opus", true),
        entry("/cache/sub/deep", "deep", false),
        entry("/cache/sub/deep/Rhapsody in Blue.OPUS", "Rhapsody in Blue.OPUS", true),
        entry("/cache/cover.jpg", "cover.jpg", true),
    ];
    let snap = build("/cache".to_string(), &entries);
    assert_eq!(snap.root, "/cache");
    assert_eq!(snap.tracks.len(), 3);
    assert_eq!(snap.tracks[0].stem, "Bohemian Rhapsody");
    assert_eq!(snap.tracks[1].stem, "Take Five");
    assert_eq!(snap.tracks[2].stem, "Rhapsody in Blue");
    let norm0: String = snap.tracks[0].norm.iter().collect();
    assert_eq!(norm0, "bohemian rhapsody");
    assert_eq!(snap.tracks[1].path, "/cache/sub/Take Five.opus");
}

#[test]
fn build_count_is_independent_of_other_entries() {
    let mut entries = vec![
        entry("/c/a.opus", "a.opus", true),
        entry("/c/b.opus", "b.opus", true),
    ];
    let two = build("/c".to_string(), &entries);
    assert_eq!(two.tracks.len(), 2);
    entries.push(entry("/c/x.mp3", "x.mp3", true));
    entries.push(entry("/c/d1", "d1", false));
    entries.push(entry("/c/d1/d2", "d2", false));
    entries.push(entry("/c/notes", "notes", true));
    let still_two = build("/c".to_string(), &entries);
    assert_eq!(still_two.tracks.len(), 2);
}

#[test]
fn build_extension_edge_cases() {
    let entries = vec![
        // hidden file: the whole name is the stem, there is no extension
        entry("/c/.opus", ".opus", true),
        // trailing dot: empty extension, not the cache extension
        entry("/c/foo.", "foo.", true),
        // no dot at all
        entry("/c/opus", "opus", true),
        // double extension: only the last one counts
        entry("/c/a.opus.txt", "a.opus.txt", true),
        entry("/c/b.txt.opus", "b.txt.opus", true),
        // a directory whose name looks like a track is not selected
        entry("/c/dir.opus", "dir.opus", false),
    ];
    let snap = build("/c".to_string(), &entries);
    assert_eq!(snap.tracks.len(), 1);
    assert_eq!(snap.tracks[0].stem, "b.txt");
    let norm: String = snap.tracks[0].norm.iter().collect();
    assert_eq!(norm, "b.txt");
}

#[test]
fn build_normalizes_unicode_stems() {
    let entries = vec![entry("/c/\u{a0}BEYONCÉ\u{a0}.opus", "\u{a0}BEYONCÉ\u{a0}.opus", true)];
    let snap = build("/c".to_string(), &entries);
    assert_eq!(snap.tracks.len(), 1);
    assert_eq!(snap.tracks[0].stem, "\u{a0}BEYONCÉ\u{a0}");
    let norm: String = snap.tracks[0].norm.iter().collect();
    assert_eq!(norm, "beyoncé");
}

#[test]
fn store_starts_empty_and_publishes_on_success() {
    let mut store = IndexStore::new();
    assert!(!store.has_index());
    let entries = vec![entry("/c/a.opus", "a.opus", true)];
    let r = store.reindex("/c".to_string(), Ok(entries));
    assert!(r.is_ok());
    assert!(store.has_index());
    let snap = store.current.as_ref().unwrap();
    assert_eq!(snap.tracks.len(), 1);
    assert_eq!(snap.tracks[0].stem, "a");
}

#[test]
fn failed_reindex_keeps_previous_snapshot() {
    let mut store = IndexStore::new();
    let entries = vec![
        entry("/c/a.opus", "a.opus", true),
        entry("/c/b.opus", "b.opus", true),
    ];
    store.reindex("/c".to_string(), Ok(entries)).unwrap();
    let r = store.reindex("/c".to_string(), Err("disk unplugged".to_string()));
    let e = r.err().unwrap();
    assert_eq!(e.message, "disk unplugged");
    // the previous snapshot is still fully there
    let snap = store.current.as_ref().unwrap();
    assert_eq!(snap.tracks.len(), 2);
    assert_eq!(snap.tracks[0].stem, "a");
    assert_eq!(snap.tracks[1].stem, "b");
}

#[test]
fn failed_initial_reindex_leaves_index_absent() {
    let mut store = IndexStore::new();
    let r = store.reindex("/c".to_string(), Err("boom".to_string()));
    assert!(r.is_err());
    assert!(!store.has_index());
}
