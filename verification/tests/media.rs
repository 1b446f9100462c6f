use dedupe::media::{
    classify, parse_probe_output, parse_seconds_ms, probe_media, MediaInfo, MediaKind, ProbeFormat,
    ProbeOutput, ProbeStream,
};
use dedupe::path::{FilePath, PathPart};
use serde_json::Value;
use std::path::{Component, Path};

fn file_path(text: &str) -> FilePath {
    let path = Path::new(text);
    let parts = path
        .components()
        .map(|c| match c {
            Component::Prefix(p) => PathPart::Prefix(p.as_os_str().as_encoded_bytes().to_vec()),
            Component::RootDir => PathPart::RootDir,
            Component::CurDir => PathPart::CurDir,
            Component::ParentDir => PathPart::ParentDir,
            Component::Normal(n) => PathPart::Normal(n.as_encoded_bytes().to_vec()),
        })
        .collect();
    FilePath {
        raw: path.as_os_str().as_encoded_bytes().to_vec(),
        text: path.to_string_lossy().into_owned(),
        parts,
    }
}

fn number(v: &Value) -> Option<u32> {
    v.as_u64().map(|n| n as u32)
}

fn text(v: &Value) -> Option<String> {
    v.as_str().map(|s| s.to_string())
}

/// Reads a probe output: an object by its names, a list by its positions.
fn probe_output(blob: &[u8]) -> Option<ProbeOutput> {
    let v: Value = serde_json::from_slice(blob).ok()?;
    let (streams, format) = match &v {
        Value::Object(_) => (v["streams"].clone(), v["format"].clone()),
        Value::Array(items) => (
            items.first().cloned().unwrap_or(Value::Null),
            items.get(1).cloned().unwrap_or(Value::Null),
        ),
        _ => return None,
    };
    let streams = streams
        .as_array()
        .map(|list| {
            list.iter()
                .map(|s| ProbeStream {
                    width: number(&s["width"]),
                    height: number(&s["height"]),
                    codec_name: text(&s["codec_name"]),
                })
                .collect()
        })
        .unwrap_or_default();
    let format = format
        .as_object()
        .map(|f| ProbeFormat { duration: f.get("duration").and_then(text) });
    Some(ProbeOutput { streams, format })
}

fn parse(blob: &[u8]) -> Option<MediaInfo> {
    parse_probe_output(&probe_output(blob))
}

#[test]
fn classify_by_extension() {
    assert_eq!(classify(&file_path("a.JPG")), MediaKind::Image);
    assert_eq!(classify(&file_path("a.jpeg")), MediaKind::Image);
    assert_eq!(classify(&file_path("clip.MP4")), MediaKind::Video);
    assert_eq!(classify(&file_path("clip.mkv")), MediaKind::Video);
    assert_eq!(classify(&file_path("notes.txt")), MediaKind::Other);
    assert_eq!(classify(&file_path("noext")), MediaKind::Other);
}

#[test]
fn every_media_extension_is_known() {
    for ext in [
        "jpg", "jpeg", "jfif", "png", "gif", "bmp", "webp", "tiff", "tif", "heic", "heif", "avif",
        "svg", "ico",
    ] {
        assert_eq!(classify(&file_path(&format!("/x/y.{ext}"))), MediaKind::Image, "{ext}");
    }
    for ext in [
        "mp4", "mkv", "avi", "mov", "webm", "m4v", "flv", "wmv", "mpg", "mpeg", "ts", "m2ts", "3gp",
        "ogv", "rmvb", "vob",
    ] {
        assert_eq!(classify(&file_path(&format!("/x/y.{ext}"))), MediaKind::Video, "{ext}");
    }
}

#[test]
fn only_the_last_extension_of_a_file_name_counts() {
    assert_eq!(classify(&file_path("a.mp4.txt")), MediaKind::Other);
    assert_eq!(classify(&file_path("a.txt.mp4")), MediaKind::Video);
    assert_eq!(classify(&file_path(".png")), MediaKind::Other);
    assert_eq!(classify(&file_path("png")), MediaKind::Other);
    assert_eq!(classify(&file_path("a.")), MediaKind::Other);
    assert_eq!(classify(&file_path("x.png/..")), MediaKind::Other);
    assert_eq!(classify(&file_path("/")), MediaKind::Other);
    assert_eq!(classify(&file_path("x.png/")), MediaKind::Image);
}

#[test]
fn an_extension_that_is_no_text_is_no_media() {
    let bytes = vec![b'a', b'.', 0xff, b'p'];
    let path = FilePath {
        raw: bytes.clone(),
        text: "a.\u{fffd}p".to_string(),
        parts: vec![PathPart::Normal(bytes)],
    };
    assert_eq!(classify(&path), MediaKind::Other);
    assert_eq!(path.extension(), None);
    assert_eq!(path.exact_text(), None);
}

#[test]
fn parses_ffprobe_video_json() {
    let blob = br#"{
            "streams": [{"width": 1920, "height": 1080, "codec_name": "h264"}],
            "format": {"duration": "65.234000"}
        }"#;
    let info = parse(blob).expect("valid ffprobe JSON");
    assert_eq!(info.width, Some(1920));
    assert_eq!(info.height, Some(1080));
    assert_eq!(info.codec.as_deref(), Some("h264"));
    assert_eq!(info.duration_ms, Some(65_234));
    assert_eq!(info.summary(), "1920x1080, 1:05");
}

#[test]
fn parses_ffprobe_image_json_without_duration() {
    let blob = br#"{
            "streams": [{"width": 800, "height": 600, "codec_name": "png"}],
            "format": {}
        }"#;
    let info = parse(blob).expect("valid ffprobe JSON");
    assert_eq!(info.width, Some(800));
    assert_eq!(info.duration_ms, None);
    assert_eq!(info.summary(), "800x600");
}

#[test]
fn rejects_garbage_and_failures() {
    assert!(parse(b"not json").is_none());
    assert!(parse(b"null").is_none());
    assert!(parse(b"42").is_none());
    // An output without streams or format is read as one that says nothing.
    assert!(parse(b"{}").is_some());
    assert!(parse(b"[]").is_some());
}

#[test]
fn the_first_stream_counts() {
    let blob = br#"{"streams": [{"codec_name": "mjpeg"}, {"width": 3, "height": 4}]}"#;
    let info = parse(blob).unwrap();
    assert_eq!(info.width, None);
    assert_eq!(info.height, None);
    assert_eq!(info.codec.as_deref(), Some("mjpeg"));
    assert_eq!(info.resolution(), None);
    assert_eq!(info.summary(), "?x?");
    let none = MediaInfo::default();
    assert!(none.width.is_none() && none.height.is_none());
    assert!(none.duration_ms.is_none() && none.codec.is_none());
}

#[test]
fn a_probe_needs_success_and_a_video_stream() {
    let blob = br#"{"streams": [{"width": 2, "height": 1}], "format": {"duration": "1.5"}}"#;
    let info = probe_media(true, &probe_output(blob)).unwrap();
    assert_eq!(info.resolution().as_deref(), Some("2x1"));
    assert_eq!(info.duration_ms, Some(1500));
    assert!(probe_media(false, &probe_output(blob)).is_none());
    assert!(probe_media(true, &None).is_none());
    let audio = br#"{"streams": [], "format": {"duration": "9.0"}}"#;
    assert!(probe_media(true, &probe_output(audio)).is_none());
}

#[test]
fn durations_are_read_like_doubles() {
    for raw in [
        "65.234000", "0", "0.0004", "0.0005", "0.0015", "1e3", "1.5E-2", "+7", "-0", "-1.5",
        "123456789.123456789", "1e400", "-1e400", "inf", "-Infinity", "NaN", "nan", "1e-400",
        "18446744073709551.615", "18446744073709552", "99999999999999999999", ".5", "5.", "1e+2",
        "0.00049999999999999999999999999999999999999999999", "4.35", "1.005", "2.675",
        "9007199254740.993", "00012.50", "1E2",
    ] {
        let expected = raw.parse::<f64>().ok().map(|s| (s * 1000.0).round() as u64);
        assert!(expected.is_some(), "{raw}");
        assert_eq!(parse_seconds_ms(raw), expected, "{raw}");
    }
    for raw in ["", " 1", "1 ", "abc", ".", "+", "-", "1e", "1e+", "--1", "1.2.3", "0x10", "N/A", "1_0"] {
        assert!(raw.parse::<f64>().is_err(), "{raw}");
        assert_eq!(parse_seconds_ms(raw), None, "{raw}");
    }
}
