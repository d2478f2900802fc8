use kura_voice::index::{build, FileEntry};
use kura_voice::index::IndexSnapshot;
use kura_voice::matcher::{list_stems, pick_candidate, resolve};

fn entry(path: &str, name: &str) -> FileEntry {
    FileEntry { path: path.to_string(), name: name.to_string(), is_file: true }
}

fn three_track_snapshot() -> IndexSnapshot {
    let entries = vec![
        entry("/c/Bohemian Rhapsody.opus", "Bohemian Rhapsody.opus"),
        entry("/c/Rhapsody in Blue.opus", "Rhapsody in Blue.opus"),
        entry("/c/Take Five.opus", "Take Five.opus"),
    ];
    build("/c".to_string(), &entries)
}

#[test]
fn empty_query_returns_every_track_in_order() {
    let snap = three_track_snapshot();
    let ids = resolve(&snap, "").unwrap();
    assert_eq!(ids, vec![0, 1, 2]);
    let ids = resolve(&snap, "   ").unwrap();
    assert_eq!(ids, vec![0, 1, 2]);
}

#[test]
fn substring_fallback_finds_both_rhapsodies() {
    let snap = three_track_snapshot();
    // no stem starts with "hapsody", so the substring phase answers
    let ids = resolve(&snap, "hapsody").unwrap();
    assert_eq!(ids, vec![0, 1]);
}

#[test]
fn rhap_is_a_prefix_of_one_stem_and_wins() {
    // "rhapsody in blue" starts with "rhap", so the prefix phase answers
    // alone even though "bohemian rhapsody" would substring-match
    let snap = three_track_snapshot();
    let ids = resolve(&snap, "rhap").unwrap();
    assert_eq!(ids, vec![1]);
}

#[test]
fn prefix_phase_wins_alone() {
    let snap = three_track_snapshot();
    let ids = resolve(&snap, "take").unwrap();
    assert_eq!(ids, vec![2]);
}

#[test]
fn prefix_match_excludes_substring_only_matches() {
    // "Rhapsody in Blue" starts with "rhapsody"; "Bohemian Rhapsody" only
    // contains it. The prefix phase alone answers.
    let snap = three_track_snapshot();
    let ids = resolve(&snap, "Rhapsody").unwrap();
    assert_eq!(ids, vec![1]);
}

#[test]
fn query_is_normalized_before_matching() {
    let snap = three_track_snapshot();
    let ids = resolve(&snap, "  TAKE  ").unwrap();
    assert_eq!(ids, vec![2]);
}

#[test]
fn no_match_fails_with_query_and_root() {
    let snap = three_track_snapshot();
    let e = resolve(&snap, "zzz").err().unwrap();
    assert_eq!(e.query, "zzz");
    assert_eq!(e.root, "/c");
}

#[test]
fn empty_query_on_empty_snapshot_is_ok_and_empty() {
    let snap = build("/c".to_string(), &vec![]);
    let ids = resolve(&snap, "").unwrap();
    assert!(ids.is_empty());
    // but a non-empty query on an empty snapshot is a miss
    assert!(resolve(&snap, "anything").is_err());
}

#[test]
fn list_empty_query_is_sorted() {
    let snap = three_track_snapshot();
    let stems = list_stems(&snap, "");
    assert_eq!(stems, vec!["Bohemian Rhapsody", "Rhapsody in Blue", "Take Five"]);
}

#[test]
fn list_keeps_duplicate_stems() {
    let entries = vec![
        entry("/c/one/Same Song.opus", "Same Song.opus"),
        entry("/c/two/Same Song.opus", "Same Song.opus"),
        entry("/c/Alpha.opus", "Alpha.opus"),
    ];
    let snap = build("/c".to_string(), &entries);
    let stems = list_stems(&snap, "");
    assert_eq!(stems, vec!["Alpha", "Same Song", "Same Song"]);
}

#[test]
fn list_with_query_filters_then_sorts() {
    let snap = three_track_snapshot();
    let stems = list_stems(&snap, "hapsody");
    assert_eq!(stems, vec!["Bohemian Rhapsody", "Rhapsody in Blue"]);
    let stems = list_stems(&snap, "zzz");
    assert!(stems.is_empty());
}

#[test]
fn removing_a_file_and_rebuilding_removes_it_from_results() {
    let mut entries = vec![
        entry("/c/Bohemian Rhapsody.opus", "Bohemian Rhapsody.opus"),
        entry("/c/Rhapsody in Blue.opus", "Rhapsody in Blue.opus"),
    ];
    let snap = build("/c".to_string(), &entries);
    assert_eq!(resolve(&snap, "hapsody").unwrap().len(), 2);

    entries.remove(1);
    let rebuilt = build("/c".to_string(), &entries);
    let ids = resolve(&rebuilt, "hapsody").unwrap();
    assert_eq!(ids.len(), 1);
    assert_eq!(rebuilt.tracks[ids[0]].stem, "Bohemian Rhapsody");

    entries.push(entry("/c/Grand Hapsody.opus", "Grand Hapsody.opus"));
    let regrown = build("/c".to_string(), &entries);
    let ids = resolve(&regrown, "hapsody").unwrap();
    assert_eq!(ids.len(), 2);
    assert_eq!(regrown.tracks[ids[0]].stem, "Bohemian Rhapsody");
    assert_eq!(regrown.tracks[ids[1]].stem, "Grand Hapsody");
}

#[test]
fn unicode_names_match_case_insensitively() {
    let entries = vec![
        entry("/c/Beyoncé.opus", "Beyoncé.opus"),
        entry("/c/Étude.opus", "Étude.opus"),
    ];
    let snap = build("/c".to_string(), &entries);
    let ids = resolve(&snap, "BEYONCÉ").unwrap();
    assert_eq!(ids, vec![0]);
    let ids = resolve(&snap, "étude").unwrap();
    assert_eq!(ids, vec![1]);
    // a no-break-spaced query is trimmed like an ASCII-spaced one
    let ids = resolve(&snap, "\u{a0}BEY\u{a0}").unwrap();
    assert_eq!(ids, vec![0]);
}

#[test]
fn pick_candidate_returns_a_member() {
    let candidates = vec![4usize, 7, 9];
    for _ in 0..50 {
        let got = pick_candidate(&candidates);
        assert!(candidates.contains(&got));
    }
    let single = vec![3usize];
    assert_eq!(pick_candidate(&single), 3);
}

#[test]
fn pick_candidate_reaches_every_member_over_trials() {
    let candidates = vec![0usize, 1];
    let mut seen = [false, false];
    for _ in 0..200 {
        seen[pick_candidate(&candidates)] = true;
    }
    assert!(seen[0] && seen[1]);
}
