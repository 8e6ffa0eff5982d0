use mm3u_rs::{list_to_m3u_fuzzy, list_to_m3u_fuzzy_parallel, RunError, Song};

fn song(name: &str, dir: &str, ext: &str, abs: &str) -> Song {
    Song::new(
        name.to_string(),
        dir.to_string(),
        ext.to_string(),
        abs.to_string(),
    )
}

fn sample_catalog() -> Vec<Song> {
    vec![
        song(
            "Bohemian Rhapsody",
            "music",
            "mp3",
            "/media/music/Bohemian Rhapsody.mp3",
        ),
        song("I'm Yours", "music", "flac", "/media/music/I'm Yours.flac"),
    ]
}

#[test]
fn two_close_names_both_hit() {
    let list = vec!["Bohemian Rhapsody".to_string(), "Im Yours".to_string()];
    let catalog = sample_catalog();
    let (hits, misses) = list_to_m3u_fuzzy(&list, &catalog, false).unwrap();
    assert_eq!(
        hits,
        vec![
            "music/Bohemian Rhapsody.mp3".to_string(),
            "music/I'm Yours.flac".to_string()
        ]
    );
    assert!(misses.is_empty());
}

#[test]
fn absolute_output_uses_canonical_paths() {
    let list = vec!["Bohemian Rhapsody".to_string(), "Im Yours".to_string()];
    let catalog = sample_catalog();
    let (hits, misses) = list_to_m3u_fuzzy(&list, &catalog, true).unwrap();
    assert_eq!(
        hits,
        vec![
            "/media/music/Bohemian Rhapsody.mp3".to_string(),
            "/media/music/I'm Yours.flac".to_string()
        ]
    );
    assert!(misses.is_empty());
}

// The expected two-decimal rendering of the score `1 - d/m`, rounded
// half to even, mirroring the diagnostic output.
fn expected_rate(d: usize, m: usize) -> String {
    if m == 0 {
        return "1.00".to_string();
    }
    let t = 100 * (m - d);
    let q = t / m;
    let r = t % m;
    let h = if 2 * r > m {
        q + 1
    } else if 2 * r < m {
        q
    } else if q % 2 == 0 {
        q
    } else {
        q + 1
    };
    if h == 100 {
        "1.00".to_string()
    } else {
        format!("0.{}{}", h / 10, h % 10)
    }
}

#[test]
fn unrelated_name_misses_with_diagnostic() {
    let list = vec!["xyz completely unrelated".to_string()];
    let catalog = vec![song("Imagine", "music", "mp3", "/media/music/Imagine.mp3")];
    let (hits, misses) = list_to_m3u_fuzzy(&list, &catalog, false).unwrap();
    assert!(hits.is_empty());
    assert_eq!(misses.len(), 1);
    let d = strsim::levenshtein("xyz completely unrelated", "Imagine");
    let m = "xyz completely unrelated".chars().count();
    assert!(5 * d > 2 * m, "scenario expects a score below 0.6");
    let expected = format!(
        "target: 0.xyz completely unrelated\nmatch_song:Imagine\nmatch_rate: {}\n ",
        expected_rate(d, m)
    );
    assert_eq!(misses[0], expected);
}

#[test]
fn empty_catalog_fails_with_empty_catalog() {
    let list = vec!["anything".to_string()];
    let catalog: Vec<Song> = vec![];
    assert_eq!(
        list_to_m3u_fuzzy(&list, &catalog, false),
        Err(RunError::EmptyCatalog)
    );
    assert_eq!(
        list_to_m3u_fuzzy_parallel(&list, &catalog, false, 4),
        Err(RunError::EmptyCatalog)
    );
}

#[test]
fn empty_list_succeeds_with_empty_output() {
    let list: Vec<String> = vec![];
    let catalog: Vec<Song> = vec![];
    let (hits, misses) = list_to_m3u_fuzzy(&list, &catalog, false).unwrap();
    assert!(hits.is_empty());
    assert!(misses.is_empty());
    let (hits, misses) = list_to_m3u_fuzzy_parallel(&list, &catalog, false, 4).unwrap();
    assert!(hits.is_empty());
    assert!(misses.is_empty());
}

#[test]
fn more_workers_than_names_still_resolves_each_once() {
    let list = vec!["Bohemian Rhapsody".to_string(), "Im Yours".to_string()];
    let catalog = sample_catalog();
    let (seq_hits, seq_misses) = list_to_m3u_fuzzy(&list, &catalog, false).unwrap();
    let (par_hits, par_misses) = list_to_m3u_fuzzy_parallel(&list, &catalog, false, 8).unwrap();
    assert_eq!(par_hits, seq_hits);
    assert_eq!(par_misses, seq_misses);
    assert_eq!(par_hits.len() + par_misses.len(), list.len());
}

#[test]
fn sequential_and_chunked_drivers_agree() {
    let list = vec![
        "Bohemian Rhapsody".to_string(),
        "zz nothing like it".to_string(),
        "Im Yours".to_string(),
        "imagine".to_string(),
        "".to_string(),
    ];
    let mut catalog = sample_catalog();
    catalog.push(song("Imagine", "music", "mp3", "/media/music/Imagine.mp3"));
    for workers in [1usize, 2, 3, 4, 16] {
        for abs in [false, true] {
            let (seq_hits, seq_misses) = list_to_m3u_fuzzy(&list, &catalog, abs).unwrap();
            let (par_hits, par_misses) =
                list_to_m3u_fuzzy_parallel(&list, &catalog, abs, workers).unwrap();
            assert_eq!(par_hits, seq_hits);
            assert_eq!(par_misses, seq_misses);
            assert_eq!(seq_hits.len() + seq_misses.len(), list.len());
        }
    }
}

#[test]
fn miss_indices_follow_input_order() {
    let list = vec![
        "qqqqqqqq".to_string(),
        "Imagine".to_string(),
        "wwwwwwww".to_string(),
    ];
    let catalog = vec![song("Imagine", "music", "mp3", "/media/music/Imagine.mp3")];
    let (hits, misses) = list_to_m3u_fuzzy(&list, &catalog, false).unwrap();
    assert_eq!(hits, vec!["music/Imagine.mp3".to_string()]);
    assert_eq!(misses.len(), 2);
    assert!(misses[0].starts_with("target: 0.qqqqqqqq\n"));
    assert!(misses[1].starts_with("target: 2.wwwwwwww\n"));
}

#[test]
fn score_exactly_at_threshold_is_a_hit() {
    // distance 2 over longer length 5: score exactly 0.6
    let list = vec!["abcde".to_string()];
    let catalog = vec![song("abcxy", "d", "m", "/d/abcxy.m")];
    assert_eq!(strsim::levenshtein("abcde", "abcxy"), 2);
    let (hits, misses) = list_to_m3u_fuzzy(&list, &catalog, false).unwrap();
    assert_eq!(hits, vec!["d/abcxy.m".to_string()]);
    assert!(misses.is_empty());
}

#[test]
fn half_hundredth_rounds_to_even() {
    // distance 5 over longer length 8: score 0.375, printed half-to-even as 0.38
    let list = vec!["abcdefgh".to_string()];
    let catalog = vec![song("abcvwxyz", "d", "m", "/d/abcvwxyz.m")];
    assert_eq!(strsim::levenshtein("abcdefgh", "abcvwxyz"), 5);
    let (_, misses) = list_to_m3u_fuzzy(&list, &catalog, false).unwrap();
    assert_eq!(misses.len(), 1);
    assert!(misses[0].ends_with("match_rate: 0.38\n "));
}

#[test]
fn identical_strings_score_one() {
    let list = vec!["Imagine".to_string(), "".to_string()];
    let catalog = vec![song("Imagine", "music", "mp3", "/m/Imagine.mp3")];
    let (hits, misses) = list_to_m3u_fuzzy(&list, &catalog, false).unwrap();
    // the exact copy is a hit; the empty request misses the seven-letter name
    assert_eq!(hits, vec!["music/Imagine.mp3".to_string()]);
    assert_eq!(misses.len(), 1);
    assert!(misses[0].ends_with("match_rate: 0.00\n "));
}

#[test]
fn two_digit_indices_render_in_full() {
    let mut list: Vec<String> = Vec::new();
    for _ in 0..10 {
        list.push("Imagine".to_string());
    }
    list.push("qqqqqqqqqq".to_string());
    let catalog = vec![song("Imagine", "music", "mp3", "/m/Imagine.mp3")];
    let (hits, misses) = list_to_m3u_fuzzy(&list, &catalog, false).unwrap();
    assert_eq!(hits.len(), 10);
    assert_eq!(misses.len(), 1);
    assert!(misses[0].starts_with("target: 10.qqqqqqqqqq\n"));
}

#[test]
fn score_is_symmetric_between_request_and_candidate() {
    let a = "Stairway to Heaven";
    let b = "Highway to Hell";
    let (_, m1) = list_to_m3u_fuzzy(
        &vec![a.to_string()],
        &vec![song(b, "d", "m", "/d/x.m")],
        false,
    )
    .unwrap();
    let (_, m2) = list_to_m3u_fuzzy(
        &vec![b.to_string()],
        &vec![song(a, "d", "m", "/d/x.m")],
        false,
    )
    .unwrap();
    assert_eq!(m1.len(), 1);
    assert_eq!(m2.len(), 1);
    let rate1 = m1[0].rsplit("match_rate: ").next().unwrap();
    let rate2 = m2[0].rsplit("match_rate: ").next().unwrap();
    assert_eq!(rate1, rate2);
}
