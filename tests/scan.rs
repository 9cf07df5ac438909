use media_scan::backgrounds::{get_backgrounds, list_background_paths};
use media_scan::scan::{make_track, scan_directory, scan_files, FileEntry, ScannedFile, Track};
use media_scan::tags::{parse_metadata, TagFields};

fn entry(path: &str, is_file: bool) -> FileEntry {
    let file_name = path.rsplit('/').next().unwrap().to_string();
    FileEntry { path: path.to_string(), file_name, is_file }
}

fn file(path: &str) -> Option<ScannedFile> {
    Some(ScannedFile { file: entry(path, true), tags: TagFields::none() })
}

fn titled(path: &str, title: &str) -> Option<ScannedFile> {
    let tags = TagFields { title: Some(title.to_string()), artist: Some("Band".to_string()), album: None };
    Some(ScannedFile { file: entry(path, true), tags })
}

fn names(tracks: &[Track]) -> Vec<(usize, String)> {
    tracks.iter().map(|t| (t.id, t.filename.clone())).collect()
}

#[test]
fn title_falls_back_to_stem() {
    let f = ScannedFile { file: entry("/m/track01.mp3", true), tags: TagFields::none() };
    let t = make_track(4, &f);
    assert_eq!(t.id, 4);
    assert_eq!(t.title.as_deref(), Some("track01"));
    assert_eq!(t.filename, "track01.mp3");
    assert_eq!(t.path, "/m/track01.mp3");
    assert!(t.artist.is_none() && t.album.is_none());
}

#[test]
fn title_fallback_keeps_extension_case() {
    let f = ScannedFile { file: entry("/m/Song.MP3", true), tags: TagFields::none() };
    assert_eq!(make_track(0, &f).title.as_deref(), Some("Song"));
}

#[test]
fn embedded_title_wins() {
    let t = make_track(0, &titled("/m/track01.mp3", "Song").unwrap());
    assert_eq!(t.title.as_deref(), Some("Song"));
    assert_eq!(t.artist.as_deref(), Some("Band"));
    assert!(t.album.is_none());
}

#[test]
fn scan_keeps_only_audio_files() {
    let entries = vec![
        file("/m/b.mp3"),
        file("/m/notes.txt"),
        Some(ScannedFile { file: entry("/m/folder.mp3", false), tags: TagFields::none() }),
        file("/m/sub/c.FLAC"),
        file("/m/cover.jpg"),
        file("/m/noext"),
    ];
    let r = scan_directory(&entries);
    assert_eq!(names(&r), vec![(0, "b.mp3".to_string()), (1, "c.FLAC".to_string())]);
    assert_eq!(r[1].path, "/m/sub/c.FLAC");
}

#[test]
fn scan_sorts_case_insensitively_ties_in_walk_order() {
    let entries = vec![file("/m/b.mp3"), file("/m/a.mp3"), file("/m/B.ogg"), file("/m/A.mp3")];
    let r = scan_directory(&entries);
    assert_eq!(
        names(&r),
        vec![
            (1, "a.mp3".to_string()),
            (3, "A.mp3".to_string()),
            (0, "b.mp3".to_string()),
            (2, "B.ogg".to_string()),
        ]
    );
}

#[test]
fn repeated_scans_agree() {
    let entries = vec![file("/m/Zed.wav"), file("/m/alpha.mp3"), file("/m/Alpha.mp3"), file("/m/beta.m4a")];
    let r1 = scan_directory(&entries);
    let r2 = scan_directory(&entries);
    assert_eq!(names(&r1), names(&r2));
    assert_eq!(names(&r1)[0], (1, "alpha.mp3".to_string()));
}

#[test]
fn scan_of_empty_walk_is_empty() {
    assert!(scan_directory(&Vec::new()).is_empty());
}

#[test]
fn failed_entries_do_not_stop_the_scan() {
    let entries = vec![file("/m/one.mp3"), None, file("/m/locked/two.mp3"), None, file("/m/three.ogg")];
    let r = scan_directory(&entries);
    assert_eq!(
        names(&r),
        vec![(0, "one.mp3".to_string()), (2, "three.ogg".to_string()), (1, "two.mp3".to_string())]
    );
}

#[test]
fn scan_files_mixes_files_and_folders() {
    let groups = vec![
        vec![file("/a/song.mp3")],
        vec![file("/a/subdir/Beta.flac"), file("/a/subdir/art.png"), file("/a/subdir/alpha.mp3")],
        vec![],
    ];
    let r = scan_files(&groups);
    assert_eq!(
        names(&r),
        vec![(2, "alpha.mp3".to_string()), (1, "Beta.flac".to_string()), (0, "song.mp3".to_string())]
    );
}

#[test]
fn scan_files_skips_non_audio_file() {
    let groups = vec![vec![file("/a/readme.txt")], vec![file("/a/x.wma")]];
    let r = scan_files(&groups);
    assert_eq!(names(&r), vec![(0, "x.wma".to_string())]);
}

#[test]
fn scan_uses_tags_read_from_file() {
    let mut tag = b"ID3\x03\x00\x00\x00\x00\x00\x0f".to_vec();
    tag.extend_from_slice(b"TIT2\x00\x00\x00\x05\x00\x00\x00Song");
    let tags = parse_metadata("track01.mp3", &Some(tag));
    let entries = vec![
        Some(ScannedFile { file: entry("/m/track01.mp3", true), tags }),
        file("/m/track02.mp3"),
    ];
    let r = scan_directory(&entries);
    assert_eq!(r[0].title.as_deref(), Some("Song"));
    assert_eq!(r[1].title.as_deref(), Some("track02"));
}

#[test]
fn empty_backgrounds_folder_lists_nothing() {
    assert!(get_backgrounds(&Vec::new()).is_empty());
    assert!(list_background_paths(&Vec::new()).is_empty());
}

#[test]
fn backgrounds_by_name_case_insensitive() {
    let entries = vec![
        Some(entry("/bg/sunset.PNG", true)),
        Some(entry("/bg/readme.txt", true)),
        None,
        Some(entry("/bg/Beach.jpg", true)),
        Some(entry("/bg/old.gif", false)),
        Some(entry("/bg/aurora.webp", true)),
    ];
    let r = get_backgrounds(&entries);
    let got: Vec<(String, String)> = r.iter().map(|b| (b.name.clone(), b.path.clone())).collect();
    assert_eq!(
        got,
        vec![
            ("aurora".to_string(), "/bg/aurora.webp".to_string()),
            ("Beach".to_string(), "/bg/Beach.jpg".to_string()),
            ("sunset".to_string(), "/bg/sunset.PNG".to_string()),
        ]
    );
}

#[test]
fn background_paths_in_string_order() {
    let entries = vec![
        Some(entry("/bg/sunset.png", true)),
        Some(entry("/bg/Beach.jpg", true)),
        Some(entry("/bg/notes.md", true)),
        Some(entry("/bg/aurora.jpeg", true)),
    ];
    let r = list_background_paths(&entries);
    assert_eq!(r, vec!["/bg/Beach.jpg".to_string(), "/bg/aurora.jpeg".to_string(), "/bg/sunset.png".to_string()]);
}

#[test]
fn untagged_files_keep_only_title_fallback() {
    let y_tags = parse_metadata("y.mp3", &Some(b"plain audio bytes, no tag".to_vec()));
    let entries = vec![
        file("/app/x.flac"),
        Some(ScannedFile { file: entry("/app/y.mp3", true), tags: y_tags }),
    ];
    let r = scan_directory(&entries);
    let titles: Vec<Option<String>> = r.iter().map(|t| t.title.clone()).collect();
    assert_eq!(titles, vec![Some("x".to_string()), Some("y".to_string())]);
    assert!(r.iter().all(|t| t.artist.is_none() && t.album.is_none()));
}
