use media_scan::tags::{cover_from_pictures, get_cover_art, parse_metadata, PictureData};

fn frame(id: &[u8], data: &[u8]) -> Vec<u8> {
    let mut f = id.to_vec();
    f.extend_from_slice(&(data.len() as u32).to_be_bytes());
    f.extend_from_slice(&[0, 0]);
    f.extend_from_slice(data);
    f
}

fn id3_tag(frames: &[Vec<u8>]) -> Vec<u8> {
    let body: Vec<u8> = frames.concat();
    let n = body.len() as u32;
    let mut t = b"ID3".to_vec();
    t.extend_from_slice(&[3, 0, 0]);
    t.extend_from_slice(&[((n >> 21) & 0x7f) as u8, ((n >> 14) & 0x7f) as u8, ((n >> 7) & 0x7f) as u8, (n & 0x7f) as u8]);
    t.extend_from_slice(&body);
    t.extend_from_slice(&[0xff, 0xfb, 0x90, 0x00]);
    t
}

fn text(id: &[u8], s: &str) -> Vec<u8> {
    let mut d = vec![0u8];
    d.extend_from_slice(s.as_bytes());
    frame(id, &d)
}

fn apic(mime: &str, data: &[u8]) -> Vec<u8> {
    let mut d = vec![0u8];
    d.extend_from_slice(mime.as_bytes());
    d.push(0);
    d.push(3);
    d.push(0);
    d.extend_from_slice(data);
    frame(b"APIC", &d)
}

fn pic(mime: &str, data: &[u8]) -> PictureData {
    PictureData { mime_type: mime.to_string(), data: data.to_vec() }
}

#[test]
fn cover_skips_gif_takes_png() {
    let pics = vec![pic("image/gif", &[9, 9]), pic("image/png", &[1, 2, 3])];
    let c = cover_from_pictures(&pics).unwrap();
    assert_eq!(c.mime_type, "image/png");
    assert_eq!(c.data, "AQID");
}

#[test]
fn cover_takes_first_of_jpeg_and_png() {
    let pics = vec![pic("image/jpeg", &[0xff, 0xd8]), pic("image/png", &[1])];
    let c = cover_from_pictures(&pics).unwrap();
    assert_eq!(c.mime_type, "image/jpeg");
    assert_eq!(c.data, "/9g=");
}

#[test]
fn cover_none_without_jpeg_or_png() {
    assert!(cover_from_pictures(&vec![pic("image/gif", &[1]), pic("image/PNG", &[2])]).is_none());
    assert!(cover_from_pictures(&Vec::new()).is_none());
}

#[test]
fn cover_of_unsupported_container_is_none() {
    let tag = id3_tag(&[apic("image/png", &[1, 2, 3])]);
    assert!(get_cover_art("song.flac", &Some(tag)).is_none());
    assert!(get_cover_art("song.mp3", &None).is_none());
    assert!(get_cover_art("song.mp3", &Some(vec![1, 2, 3, 4, 5])).is_none());
}

#[test]
fn cover_read_from_id3_tag() {
    let tag = id3_tag(&[apic("image/gif", &[7]), apic("image/png", &[1, 2, 3])]);
    let c = get_cover_art("song.MP3", &Some(tag)).unwrap();
    assert_eq!(c.mime_type, "image/png");
    assert_eq!(c.data, "AQID");
}

#[test]
fn metadata_read_from_id3_tag() {
    let tag = id3_tag(&[text(b"TIT2", "Song"), text(b"TPE1", "Band"), text(b"TALB", "Record")]);
    let m = parse_metadata("track01.mp3", &Some(tag));
    assert_eq!(m.title.as_deref(), Some("Song"));
    assert_eq!(m.artist.as_deref(), Some("Band"));
    assert_eq!(m.album.as_deref(), Some("Record"));
}

#[test]
fn metadata_absent_when_unread() {
    let tag = id3_tag(&[text(b"TIT2", "Song")]);
    let m = parse_metadata("track01.flac", &Some(tag));
    assert!(m.title.is_none() && m.artist.is_none() && m.album.is_none());
    let m = parse_metadata("track01.mp3", &None);
    assert!(m.title.is_none() && m.artist.is_none() && m.album.is_none());
    let m = parse_metadata("track01.mp3", &Some(b"not a tag at all".to_vec()));
    assert!(m.title.is_none() && m.artist.is_none() && m.album.is_none());
}

#[test]
fn metadata_of_uppercase_mp3_without_album() {
    let tag = id3_tag(&[text(b"TIT2", "Song"), text(b"TPE1", "Art")]);
    let m = parse_metadata("Song.MP3", &Some(tag.clone()));
    assert_eq!(m.title.as_deref(), Some("Song"));
    assert_eq!(m.artist.as_deref(), Some("Art"));
    assert!(m.album.is_none());
    let again = parse_metadata("Song.MP3", &Some(tag));
    assert_eq!(again.title, m.title);
    assert_eq!(again.artist, m.artist);
}

#[test]
fn cover_none_for_corrupt_or_missing_tag() {
    let mut corrupt = id3_tag(&[apic("image/png", &[1, 2, 3])]);
    corrupt.truncate(14);
    assert!(get_cover_art("song.mp3", &Some(corrupt)).is_none());
    assert!(get_cover_art("song.mp3", &Some(Vec::new())).is_none());
}
