use mm3u_rs::{collect_hits, find_best_match, merge_parts, resolve_chunk, split_user_list, Song};

fn song(name: &str) -> Song {
    Song::new(
        name.to_string(),
        "dir".to_string(),
        "mp3".to_string(),
        format!("/abs/{}.mp3", name),
    )
}

#[test]
fn best_match_empty_catalog_is_none() {
    let catalog: Vec<Song> = vec![];
    assert_eq!(find_best_match("anything", &catalog), None);
}

#[test]
fn best_match_picks_highest_score() {
    let catalog = vec![song("Imagine"), song("Imagine Dragons"), song("Let It Be")];
    assert_eq!(find_best_match("Imagine", &catalog), Some(0));
    assert_eq!(find_best_match("Let It Bleed", &catalog), Some(2));
}

#[test]
fn best_match_tie_breaks_to_first_entry() {
    let catalog = vec![song("Imagine"), song("Imagine")];
    assert_eq!(find_best_match("Imagine", &catalog), Some(0));
    let catalog = vec![song("aaaa"), song("bbbb"), song("bbbb")];
    assert_eq!(find_best_match("bbbb", &catalog), Some(1));
}

#[test]
fn split_empty_text_gives_one_empty_name() {
    assert_eq!(split_user_list(""), vec!["".to_string()]);
}

#[test]
fn split_keeps_every_line_including_blanks() {
    assert_eq!(
        split_user_list("one\ntwo\nthree"),
        vec!["one".to_string(), "two".to_string(), "three".to_string()]
    );
    assert_eq!(
        split_user_list("one\n\ntwo\n"),
        vec![
            "one".to_string(),
            "".to_string(),
            "two".to_string(),
            "".to_string()
        ]
    );
}

#[test]
fn split_handles_multibyte_characters() {
    assert_eq!(
        split_user_list("caf\u{e9}\nna\u{ef}ve"),
        vec!["caf\u{e9}".to_string(), "na\u{ef}ve".to_string()]
    );
}

#[test]
fn chunk_resolution_carries_original_indices() {
    let catalog = vec![song("Imagine")];
    let chunk = vec!["zzzzzzzz".to_string(), "Imagine".to_string()];
    let (slots, misses) = resolve_chunk(&chunk, 5, &catalog, false);
    assert_eq!(slots.len(), 2);
    assert_eq!(slots[0], None);
    assert_eq!(slots[1], Some("dir/Imagine.mp3".to_string()));
    assert_eq!(misses.len(), 1);
    assert!(misses[0].starts_with("target: 5.zzzzzzzz\n"));
}

#[test]
fn collect_hits_keeps_slot_order_and_drops_misses() {
    let slots = vec![
        Some("a".to_string()),
        None,
        Some("b".to_string()),
        None,
        Some("c".to_string()),
    ];
    assert_eq!(
        collect_hits(&slots),
        vec!["a".to_string(), "b".to_string(), "c".to_string()]
    );
}

#[test]
fn merge_parts_reassembles_in_chunk_order() {
    let slot_parts = vec![
        vec![Some("a".to_string()), None],
        vec![None, Some("b".to_string())],
    ];
    let miss_parts = vec![vec!["m1".to_string()], vec!["m2".to_string()]];
    let (hits, misses) = merge_parts(&slot_parts, &miss_parts);
    assert_eq!(hits, vec!["a".to_string(), "b".to_string()]);
    assert_eq!(misses, vec!["m1".to_string(), "m2".to_string()]);
}
