use rust_apps::tracks::{has_mp3_extension, now_playing, select_mp3s, track_title};

#[test]
fn mp3_extension_in_any_case() {
    assert!(has_mp3_extension("song.mp3"));
    assert!(has_mp3_extension("SONG.MP3"));
    assert!(has_mp3_extension("a.b.Mp3"));
    assert!(!has_mp3_extension(".mp3"));
    assert!(!has_mp3_extension("song.mp3.bak"));
    assert!(!has_mp3_extension("mp3"));
    assert!(!has_mp3_extension("song.mp4"));
    assert!(!has_mp3_extension(".."));
    assert!(!has_mp3_extension("song."));
}

#[test]
fn selection_is_sorted_by_name() {
    let names: Vec<String> = ["b.MP3", "a.mp3", "c.txt", ".mp3", "d.mp3.bak", "x.Mp3", "B.mp3"]
        .iter()
        .map(|s| s.to_string())
        .collect();
    assert_eq!(select_mp3s(&names), vec![6, 1, 0, 5]);
    assert!(select_mp3s(&[]).is_empty());
}

#[test]
fn selection_orders_prefix_first() {
    let names: Vec<String> = ["ab.mp3", "a.mp3", "a0.mp3"].iter().map(|s| s.to_string()).collect();
    assert_eq!(select_mp3s(&names), vec![1, 2, 0]);
}

#[test]
fn titles_are_file_stems() {
    assert_eq!(track_title(Some("song.mp3")), "song");
    assert_eq!(track_title(Some("a.b.mp3")), "a.b");
    assert_eq!(track_title(Some(".hidden")), ".hidden");
    assert_eq!(track_title(Some("plain")), "plain");
    assert_eq!(track_title(None), "Unknown");
    assert_eq!(now_playing("song"), "Currently playing: song");
}
