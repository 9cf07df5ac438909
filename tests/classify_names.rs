use media_scan::classify::{is_audio, is_image, wants_tags};
use media_scan::names::{extension_of, file_stem};

#[test]
fn audio_extensions_any_case() {
    for name in ["a.mp3", "a.FLAC", "a.Wav", "a.ogg", "a.m4a", "a.AAC", "a.wma"] {
        assert!(is_audio(name), "{}", name);
    }
}

#[test]
fn non_audio_names_are_excluded() {
    assert!(!is_audio("notes.txt"));
    assert!(!is_audio("mp3"));
    assert!(!is_audio(".mp3"));
    assert!(!is_audio("song.mp3.bak"));
    assert!(!is_audio("cover.png"));
}

#[test]
fn image_extensions_any_case() {
    for name in ["a.png", "a.JPG", "a.jpeg", "a.WebP", "a.gif"] {
        assert!(is_image(name), "{}", name);
    }
    assert!(!is_image("a.bmp"));
    assert!(!is_image("a.mp3"));
}

#[test]
fn only_mp3_files_are_tag_read() {
    assert!(wants_tags("x.mp3"));
    assert!(wants_tags("x.MP3"));
    assert!(!wants_tags("x.flac"));
    assert!(!wants_tags("mp3"));
}

#[test]
fn extension_splits_at_last_dot() {
    assert_eq!(extension_of("a.b.mp3"), Some("mp3".to_string()));
    assert_eq!(extension_of("Song.MP3"), Some("MP3".to_string()));
    assert_eq!(extension_of("noext"), None);
    assert_eq!(extension_of(".bashrc"), None);
    assert_eq!(extension_of(".."), None);
    assert_eq!(extension_of("trail."), Some(String::new()));
}

#[test]
fn stem_drops_extension() {
    assert_eq!(file_stem("track01.mp3"), "track01");
    assert_eq!(file_stem("a.b.mp3"), "a.b");
    assert_eq!(file_stem("Song.MP3"), "Song");
    assert_eq!(file_stem(".bashrc"), ".bashrc");
    assert_eq!(file_stem("noext"), "noext");
}
