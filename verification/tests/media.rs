use video_transcriber::media::{
    classify_extract_failure, kind_of_extension, validate_media, ExtractFailure, MediaError,
    MediaKind, MAX_MEDIA_SIZE,
};
use video_transcriber::session::{is_blank, Session, WorkerEvent};

fn mp4_header() -> Vec<u8> {
    vec![0, 0, 0, 0x20, b'f', b't', b'y', b'p', b'i', b's', b'o', b'm']
}

fn webm_header() -> Vec<u8> {
    vec![0x1a, 0x45, 0xdf, 0xa3, 0x9f, 0x42, 0x86, 0x81, 0x01, 0x42, 0xf7, 0x81]
}

#[test]
fn reads_extensions() {
    assert_eq!(kind_of_extension(b"mp4"), Some(MediaKind::Mp4));
    assert_eq!(kind_of_extension(b"MP4"), Some(MediaKind::Mp4));
    assert_eq!(kind_of_extension(b"WebM"), Some(MediaKind::Webm));
    assert_eq!(kind_of_extension(b"mkv"), None);
    assert_eq!(kind_of_extension(b""), None);
    assert_eq!(kind_of_extension(b"mp4 "), None);
}

#[test]
fn accepts_mp4() {
    assert_eq!(validate_media(1000, b"mp4", &mp4_header(), b""), Ok(MediaKind::Mp4));
    assert_eq!(validate_media(MAX_MEDIA_SIZE, b"Mp4", &mp4_header(), b""), Ok(MediaKind::Mp4));
}

#[test]
fn refuses_large_files() {
    assert_eq!(
        validate_media(MAX_MEDIA_SIZE + 1, b"mp4", &mp4_header(), b""),
        Err(MediaError::TooLarge)
    );
}

#[test]
fn refuses_short_files() {
    assert_eq!(validate_media(5, b"mp4", &[0, 0, 0, 0, 1], b""), Err(MediaError::HeaderTooShort));
}

#[test]
fn refuses_other_extensions() {
    assert_eq!(
        validate_media(1000, b"avi", &mp4_header(), b""),
        Err(MediaError::UnsupportedExtension)
    );
}

#[test]
fn mp4_needs_ftyp() {
    let mut h = mp4_header();
    h[5] = b'x';
    assert_eq!(validate_media(1000, b"mp4", &h, b""), Err(MediaError::MissingFtyp));
    assert_eq!(validate_media(1000, b"mp4", &webm_header(), b""), Err(MediaError::MissingFtyp));
}

#[test]
fn webm_needs_magic_and_doctype() {
    let probe = b"\x42\x82\x84webm\x42\x87";
    assert_eq!(validate_media(1000, b"webm", &webm_header(), probe), Ok(MediaKind::Webm));
    assert_eq!(validate_media(1000, b"webm", &webm_header(), b"xxWEBMxx"), Ok(MediaKind::Webm));
    assert_eq!(
        validate_media(1000, b"webm", &mp4_header(), probe),
        Err(MediaError::MissingEbmlMagic)
    );
    assert_eq!(
        validate_media(1000, b"webm", &webm_header(), b"matroska"),
        Err(MediaError::MissingWebmDocType)
    );
    assert_eq!(
        validate_media(1000, b"webm", &webm_header(), b"\xffweb\xffm"),
        Err(MediaError::MissingWebmDocType)
    );
}

#[test]
fn classifies_extraction_failures() {
    let no_stream = b"Output file #0 does not contain any stream\n";
    assert_eq!(classify_extract_failure(no_stream), ExtractFailure::NoAudioStream);
    let map = b"[error] Stream map '0:a:0' matches no streams.";
    assert_eq!(classify_extract_failure(map), ExtractFailure::NoAudioStream);
    assert_eq!(classify_extract_failure(b"Invalid data found"), ExtractFailure::Other);
    assert_eq!(classify_extract_failure(b""), ExtractFailure::Other);
}

#[test]
fn blank_fields() {
    assert!(is_blank(""));
    assert!(is_blank(" \t\n\u{3000}"));
    assert!(!is_blank(" a "));
}

#[test]
fn session_follows_worker() {
    let mut s = Session::new();
    assert!(!s.can_start("/v.mp4", "/m.bin", ""));
    assert!(s.can_start("/v.mp4", "/m.bin", "/out"));
    s.start("basladi".to_string());
    assert!(s.in_progress && s.listening);
    assert!(!s.can_start("/v.mp4", "/m.bin", "/out"));
    assert!(s.on_event(WorkerEvent::Progress("adim".to_string())));
    assert_eq!(s.status, "adim");
    assert!(!s.on_event(WorkerEvent::Empty));
    assert!(s.in_progress);
    assert!(!s.on_event(WorkerEvent::Done("bitti".to_string())));
    assert_eq!(s.status, "bitti");
    assert!(!s.in_progress && !s.listening);
    s.start("yeniden".to_string());
    assert!(!s.on_event(WorkerEvent::Disconnected));
    assert_eq!(s.status, "yeniden");
    assert!(!s.in_progress && !s.listening);
}
