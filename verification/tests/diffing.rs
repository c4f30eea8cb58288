use spotify_exporter::persistence::Diff;
use spotify_exporter::spotify::list_user_tracks::{Artist, Item, Track};

fn item(id: &str, name: &str) -> Item {
    Item {
        track: Track {
            artists: vec![Artist { name: "Somebody".to_string() }],
            id: id.to_string(),
            name: name.to_string(),
        },
    }
}

#[test]
fn diff_of_a_collection_with_itself_is_empty() {
    let a = vec![item("a", "One"), item("b", "Two"), item("c", "Three")];
    let diff = Diff::calculate(&a, &a);
    assert!(diff.added.is_empty());
    assert!(diff.removed.is_empty());
}

#[test]
fn diff_of_empty_collections_is_empty() {
    let diff = Diff::calculate(&Vec::new(), &Vec::new());
    assert!(diff.added.is_empty());
    assert!(diff.removed.is_empty());
}

#[test]
fn added_and_removed_partition_the_symmetric_difference() {
    let old = vec![item("a", "One"), item("b", "Two"), item("c", "Three")];
    let new = vec![item("b", "Two"), item("d", "Four"), item("e", "Five")];
    let diff = Diff::calculate(&old, &new);
    let added_ids: Vec<&str> = diff.added.iter().map(|t| t.track.id.as_str()).collect();
    let removed_ids: Vec<&str> = diff.removed.iter().map(|t| t.track.id.as_str()).collect();
    assert_eq!(added_ids, vec!["d", "e"]);
    assert_eq!(removed_ids, vec!["a", "c"]);
    for id in &added_ids {
        assert!(!removed_ids.contains(id));
    }
}

#[test]
fn tracks_changed_in_place_are_neither_added_nor_removed() {
    let old = vec![item("a", "Old Title")];
    let new = vec![item("a", "New Title")];
    let diff = Diff::calculate(&old, &new);
    assert!(diff.added.is_empty());
    assert!(diff.removed.is_empty());
}

#[test]
fn output_keeps_the_order_of_the_source_collections() {
    let old = vec![item("x", "X"), item("y", "Y"), item("z", "Z")];
    let new = vec![item("q", "Q"), item("p", "P")];
    let diff = Diff::calculate(&old, &new);
    assert_eq!(diff.added, new);
    assert_eq!(diff.removed, old);
}
