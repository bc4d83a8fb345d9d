use base64::Engine;
use trait_export::ImageFormat;
use trait_export::encode::{file_read_kind, FileContent, ReadKind};
use trait_export::pipeline::{process_traits_directory, CategoryScan, ScannedFile};
use trait_export::records::{TraitRecord, TraitsMap};

fn scanned(filename: &str, format: ImageFormat, text: Option<&str>, bytes: Option<Vec<u8>>)
    -> ScannedFile {
    let content = match file_read_kind(format, filename) {
        ReadKind::Skip => None,
        ReadKind::Text => Some(FileContent::Text(text.expect("text content").to_string())),
        ReadKind::Binary => Some(FileContent::Binary(bytes.expect("byte content"))),
    };
    ScannedFile { filename: filename.to_string(), content }
}

#[test]
fn end_to_end_two_categories() {
    let format = ImageFormat::Raw;
    let scans = vec![
        CategoryScan {
            name: "02_bodies".to_string(),
            files: vec![
                scanned("round.svg", format, Some("<svg/>"), None),
                scanned("square.png", format, None, Some(vec![1, 2, 3])),
            ],
        },
        CategoryScan {
            name: "01_misc".to_string(),
            files: vec![scanned("readme.txt", format, None, None)],
        },
    ];
    let m: TraitsMap = process_traits_directory(&scans, format);

    // the category with no supported file is omitted entirely
    assert_eq!(m.entries.len(), 1);
    let entry = &m.entries[0];
    assert_eq!(entry.name, "02_bodies");
    assert_eq!(entry.records.len(), 2);

    let svg: &TraitRecord = &entry.records[0];
    assert_eq!(svg.name, "Round");
    assert_eq!(svg.filename, "round.svg");
    assert_eq!(svg.mime_type, "image/svg");
    assert_eq!(svg.data, "<svg/>");
    assert_eq!(svg.rarity, None);
    assert_eq!(svg.order, 2);

    let png: &TraitRecord = &entry.records[1];
    assert_eq!(png.name, "Square");
    assert_eq!(png.mime_type, "image/png");
    let expected = format!(
        "data:image/png;base64,{}",
        base64::engine::general_purpose::STANDARD.encode([1u8, 2, 3])
    );
    assert_eq!(png.data, expected);
    assert_eq!(png.order, 2);
}

#[test]
fn category_keys_come_out_sorted() {
    let format = ImageFormat::Base64;
    let names = ["zebra", "apple", "mango", "apple2"];
    let scans: Vec<CategoryScan> = names
        .iter()
        .map(|n| CategoryScan {
            name: n.to_string(),
            files: vec![scanned("x.gif", format, None, Some(vec![0]))],
        })
        .collect();
    let m = process_traits_directory(&scans, format);
    let keys: Vec<&str> = m.entries.iter().map(|e| e.name.as_str()).collect();
    assert_eq!(keys, vec!["apple", "apple2", "mango", "zebra"]);
}

#[test]
fn keys_sort_by_code_point() {
    let format = ImageFormat::Base64;
    let names = ["zebra", "Zebra", "énote", "apple"];
    let scans: Vec<CategoryScan> = names
        .iter()
        .map(|n| CategoryScan {
            name: n.to_string(),
            files: vec![scanned("x.png", format, None, Some(vec![1]))],
        })
        .collect();
    let m = process_traits_directory(&scans, format);
    let keys: Vec<&str> = m.entries.iter().map(|e| e.name.as_str()).collect();
    // code point order: ASCII upper case first, non-ASCII last
    assert_eq!(keys, vec!["Zebra", "apple", "zebra", "énote"]);
}

#[test]
fn repeated_category_name_merges_in_order() {
    let format = ImageFormat::Base64;
    let scans = vec![
        CategoryScan {
            name: "hats".to_string(),
            files: vec![scanned("first.png", format, None, Some(vec![1]))],
        },
        CategoryScan {
            name: "hats".to_string(),
            files: vec![scanned("second.png", format, None, Some(vec![2]))],
        },
    ];
    let m = process_traits_directory(&scans, format);
    assert_eq!(m.entries.len(), 1);
    let names: Vec<&str> = m.entries[0].records.iter().map(|r| r.filename.as_str()).collect();
    assert_eq!(names, vec!["first.png", "second.png"]);
}

#[test]
fn unsupported_files_leave_no_trace() {
    let format = ImageFormat::Raw;
    let scans = vec![CategoryScan {
        name: "03_hats".to_string(),
        files: vec![
            scanned("cap.svg", format, Some("<svg/>"), None),
            scanned("notes.txt", format, None, None),
            scanned("thumbs.db", format, None, None),
        ],
    }];
    let m = process_traits_directory(&scans, format);
    assert_eq!(m.entries.len(), 1);
    assert_eq!(m.entries[0].records.len(), 1);
    assert_eq!(m.entries[0].records[0].filename, "cap.svg");
    assert_eq!(m.entries[0].records[0].order, 3);
}

#[test]
fn empty_input_builds_empty_table() {
    let m = process_traits_directory(&Vec::new(), ImageFormat::Raw);
    assert!(m.entries.is_empty());
}

#[test]
fn identical_runs_build_identical_tables() {
    let format = ImageFormat::Raw;
    let build = || {
        let scans = vec![
            CategoryScan {
                name: "10_eyes".to_string(),
                files: vec![
                    scanned("wide_open.2.svg", format, Some("<svg>eyes</svg>"), None),
                    scanned("closed.png", format, None, Some(vec![42, 0, 9])),
                ],
            },
            CategoryScan {
                name: "2_mouths".to_string(),
                files: vec![scanned("grin.jpeg", format, None, Some(vec![7]))],
            },
        ];
        process_traits_directory(&scans, format)
    };
    let first = build();
    let second = build();
    assert_eq!(first, second);
}
