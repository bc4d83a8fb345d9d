use base64::Engine;
use trait_export::ImageFormat;
use trait_export::encode::{file_read_kind, FileContent, ReadKind};
use trait_export::pipeline::process_trait_file;

fn decode_payload(data: &str, mime: &str) -> Vec<u8> {
    let prefix = format!("data:{};base64,", mime);
    assert!(
        data.starts_with(&prefix),
        "data field {:?} does not start with {:?}",
        data,
        prefix
    );
    let payload = &data[prefix.len()..];
    base64::engine::general_purpose::STANDARD
        .decode(payload)
        .expect("payload is not valid standard base64")
}

#[test]
fn base64_mode_round_trips_every_supported_extension() {
    let bytes: Vec<u8> = (0u8..=255).collect();
    let cases = [
        ("png", "image/png"),
        ("jpg", "image/jpeg"),
        ("jpeg", "image/jpeg"),
        ("gif", "image/gif"),
        ("webp", "image/webp"),
        ("avif", "image/avif"),
        ("svg", "image/svg+xml"),
    ];
    for (ext, mime) in cases {
        let filename = format!("item.{}", ext);
        let content = FileContent::Binary(bytes.clone());
        let rec = process_trait_file(&filename, &content, ImageFormat::Base64, 1);
        assert_eq!(rec.mime_type, mime);
        assert_eq!(rec.filename, filename);
        assert_eq!(decode_payload(&rec.data, mime), bytes);
    }
}

#[test]
fn base64_payload_is_standard_with_padding() {
    let bytes = vec![1u8, 2, 3, 4];
    let rec = process_trait_file(
        "thing.png",
        &FileContent::Binary(bytes.clone()),
        ImageFormat::Base64,
        7,
    );
    let expected = format!(
        "data:image/png;base64,{}",
        base64::engine::general_purpose::STANDARD.encode(&bytes)
    );
    assert_eq!(rec.data, expected);
    assert_eq!(rec.order, 7);
}

#[test]
fn raw_svg_keeps_text_exactly() {
    let text = "<svg>\n  <rect width=\"5\"/>\n</svg>\n";
    let rec = process_trait_file(
        "shape.svg",
        &FileContent::Text(text.to_string()),
        ImageFormat::Raw,
        2,
    );
    assert_eq!(rec.data, text);
    assert_eq!(rec.mime_type, "image/svg");
    assert_eq!(rec.name, "Shape");
    assert_eq!(rec.rarity, None);
    assert_eq!(rec.order, 2);
}

#[test]
fn raw_mode_still_encodes_raster_files() {
    let bytes = vec![9u8, 8, 7];
    let rec = process_trait_file(
        "dot.gif",
        &FileContent::Binary(bytes.clone()),
        ImageFormat::Raw,
        1,
    );
    assert_eq!(rec.mime_type, "image/gif");
    assert_eq!(decode_payload(&rec.data, "image/gif"), bytes);
}

#[test]
fn empty_file_encodes_to_empty_payload() {
    let rec = process_trait_file(
        "blank.webp",
        &FileContent::Binary(Vec::new()),
        ImageFormat::Base64,
        1,
    );
    assert_eq!(rec.data, "data:image/webp;base64,");
}

#[test]
fn record_carries_parsed_name_and_rarity() {
    let rec = process_trait_file(
        "golden_crown.0.5.png",
        &FileContent::Binary(vec![0u8]),
        ImageFormat::Raw,
        3,
    );
    // stem "golden_crown.0.5" splits at its last dot
    assert_eq!(rec.name, "Golden Crown.0");
    assert_eq!(rec.rarity.as_deref(), Some("5"));
    assert_eq!(rec.filename, "golden_crown.0.5.png");
}

#[test]
fn read_kind_follows_extension_and_format() {
    assert_eq!(file_read_kind(ImageFormat::Raw, "a.svg"), ReadKind::Text);
    assert_eq!(file_read_kind(ImageFormat::Base64, "a.svg"), ReadKind::Binary);
    assert_eq!(file_read_kind(ImageFormat::Raw, "a.SVG"), ReadKind::Text);
    assert_eq!(file_read_kind(ImageFormat::Raw, "a.png"), ReadKind::Binary);
    assert_eq!(file_read_kind(ImageFormat::Raw, "notes.txt"), ReadKind::Skip);
    assert_eq!(file_read_kind(ImageFormat::Raw, "no_extension"), ReadKind::Skip);
    assert_eq!(file_read_kind(ImageFormat::Raw, ".svg"), ReadKind::Skip);
    assert_eq!(file_read_kind(ImageFormat::Raw, "a."), ReadKind::Skip);
    assert_eq!(file_read_kind(ImageFormat::Base64, "x.jpeg"), ReadKind::Binary);
}
