use spotify_exporter::persistence::{
    extract_snapshot_dir_number, snapshot_dir_name, Persistence, PersistenceError,
};
use spotify_exporter::spotify::list_user_tracks::{Artist, Item, Track};

fn item(id: &str, name: &str, artist: &str) -> Item {
    Item {
        track: Track {
            artists: vec![Artist { name: artist.to_string() }],
            id: id.to_string(),
            name: name.to_string(),
        },
    }
}

fn fixture_tracks() -> Vec<Item> {
    vec![
        item("abc123", "Ain't Talkin' Bout Love", "Van Halen"),
        item("def456", "Bringin' on the Heartbreak", "Def Leppard"),
    ]
}

#[test]
fn it_writes_collection_file() {
    let tracks = fixture_tracks();
    let mut persistence = Persistence::new("test-output".to_string());
    let snapshot = persistence.snapshot(tracks.clone(), 0);
    assert_eq!(snapshot.generation, 1);
    assert_eq!(snapshot.dir, "test-output/snapshot-000001");
    let output = persistence.read_snapshot(1).expect("generation 1 should be readable");
    assert_eq!(output, &tracks);
}

#[test]
fn it_writes_metadata_file() {
    let mut persistence = Persistence::new("test-output".to_string());
    let snapshot = persistence.snapshot(Vec::new(), 1700000000);
    assert_eq!(snapshot.generation, 1);
    assert_eq!(snapshot.captured_at, 1700000000);
}

#[test]
fn when_no_previous_snapshot_exists_it_doesnt_write_diff() {
    let mut persistence = Persistence::new("test-output".to_string());
    let snapshot = persistence.snapshot(Vec::new(), 0);
    assert_eq!(snapshot.generation, 1);
    assert!(snapshot.diff.is_none());
}

#[test]
fn generations_count_up_from_one() {
    let mut persistence = Persistence::new("out".to_string());
    assert_eq!(persistence.get_last_snapshot(), None);
    let s1 = persistence.snapshot(Vec::new(), 0);
    let s2 = persistence.snapshot(Vec::new(), 0);
    let s3 = persistence.snapshot(Vec::new(), 0);
    assert_eq!((s1.generation, s2.generation, s3.generation), (1, 2, 3));
    assert_eq!(persistence.get_last_snapshot(), Some(3));
}

#[test]
fn second_write_diffs_against_first() {
    let t1 = item("t1", "One", "A");
    let t2 = item("t2", "Two", "B");
    let t3 = item("t3", "Three", "C");
    let mut persistence = Persistence::new("out".to_string());
    let first = persistence.snapshot(vec![t1.clone(), t2.clone()], 0);
    assert_eq!(first.generation, 1);
    let second = persistence.snapshot(vec![t2.clone(), t3.clone()], 0);
    assert_eq!(second.generation, 2);
    let diff = second.diff.expect("the second snapshot should carry a diff");
    assert_eq!(diff.added, vec![t3]);
    assert_eq!(diff.removed, vec![t1]);
}

#[test]
fn read_of_missing_generation_is_not_found() {
    let mut persistence = Persistence::new("out".to_string());
    persistence.snapshot(Vec::new(), 0);
    assert_eq!(persistence.read_snapshot(7), Err(PersistenceError::NotFound));
}

#[test]
fn restore_resumes_after_the_highest_conforming_name() {
    let entries = vec![
        ("snapshot-000001".to_string(), Some(fixture_tracks())),
        ("cache".to_string(), None),
        ("snapshot-000005".to_string(), Some(Vec::new())),
        ("snapshot-junk".to_string(), None),
    ];
    let mut persistence = Persistence::restore("out".to_string(), entries);
    assert_eq!(persistence.get_last_snapshot(), Some(5));
    let next = persistence.snapshot(Vec::new(), 0);
    assert_eq!(next.generation, 6);
    let early = persistence.read_snapshot(1).expect("generation 1 was restored");
    assert_eq!(early, &fixture_tracks());
}

#[test]
fn unretrievable_prior_collection_skips_the_diff() {
    let entries = vec![("snapshot-000003".to_string(), None)];
    let mut persistence = Persistence::restore("out".to_string(), entries);
    let snapshot = persistence.snapshot(fixture_tracks(), 0);
    assert_eq!(snapshot.generation, 4);
    assert!(snapshot.diff.is_none());
    assert_eq!(persistence.read_snapshot(3), Err(PersistenceError::NotFound));
}

#[test]
fn snapshot_dir_names_are_zero_padded_to_six() {
    assert_eq!(snapshot_dir_name(1), "snapshot-000001");
    assert_eq!(snapshot_dir_name(42), "snapshot-000042");
    assert_eq!(snapshot_dir_name(999999), "snapshot-999999");
    assert_eq!(snapshot_dir_name(1234567), "snapshot-1234567");
}

#[test]
fn extract_reads_back_conforming_names_only() {
    assert_eq!(extract_snapshot_dir_number("snapshot-000123"), Some(123));
    assert_eq!(extract_snapshot_dir_number("snapshot-0000001"), Some(1));
    assert_eq!(extract_snapshot_dir_number("snapshot-12345"), None);
    assert_eq!(extract_snapshot_dir_number("snapshot-abcdef"), None);
    assert_eq!(extract_snapshot_dir_number("snapshot-00001x"), None);
    assert_eq!(extract_snapshot_dir_number("cache"), None);
    assert_eq!(extract_snapshot_dir_number(""), None);
    assert_eq!(extract_snapshot_dir_number("snapshot-999999999999999999999"), None);
    assert_eq!(extract_snapshot_dir_number(&snapshot_dir_name(999999)), Some(999999));
    assert_eq!(extract_snapshot_dir_number(&snapshot_dir_name(7)), Some(7));
}

#[test]
fn paths_are_rooted_in_the_output_directory() {
    let persistence = Persistence::new("out".to_string());
    assert_eq!(persistence.snapshot_path(1), "out/snapshot-000001");
    assert_eq!(persistence.get_token_cache_path(), "out/cache/tokens.json");
}
