use vstd::prelude::*;
use vstd::string::StringExecFns;
use crate::ImageFormat;
use crate::chars::{str_to_chars, chars_to_string};
use crate::parse::{
    spec_ext_exists, spec_ext_of, spec_stem_of, spec_is_supported, spec_category_order,
    category_order, split_stem_ext,
};
use crate::text::{spec_name_of, spec_rarity_of, parse_name_and_rarity};
use crate::encode::{
    FileContent, ReadKind, spec_content_data, spec_read_kind, spec_is_raw_svg, spec_data_uri,
    b64_of, mime_of, encode_content,
};
use crate::records::{
    TraitRecord, TraitView, TraitsMap, spec_insert, insert_pos, lemma_insert_pos_bounds,
    lemma_insert_nonempty, spec_sorted, lemma_insert_sorted,
};

verus! {

/// The read kind a piece of contents stands for.
pub open spec fn spec_content_kind(c: FileContent) -> ReadKind {
    match c {
        FileContent::Text(_) => ReadKind::Text,
        FileContent::Binary(_) => ReadKind::Binary,
    }
}

/// The record built for one file: name and rarity from the stem, data and
/// MIME type from the contents, the file name as found, the category's
/// order.
pub open spec fn spec_trait_view(filename: Seq<char>, content: FileContent, order: u32) -> TraitView {
    let stem = spec_stem_of(filename);
    let dm = spec_content_data(content, spec_ext_of(filename));
    TraitView {
        name: spec_name_of(stem),
        filename: filename,
        mime_type: dm.1,
        data: dm.0,
        rarity: spec_rarity_of(stem),
        order: order,
    }
}

/// Builds the trait record for one supported file from its name, its
/// contents as the read plan asked for them, and its category's order.
pub fn process_trait_file(filename: &str, content: &FileContent, format: ImageFormat, order: u32)
    -> (r: TraitRecord)
    requires
        spec_read_kind(format, filename@) == spec_content_kind(*content),
    ensures
        r@ == spec_trait_view(filename@, *content, order),
{
    proof {
        assert(spec_content_kind(*content) != ReadKind::Skip);
        assert(spec_ext_exists(filename@) && spec_is_supported(spec_ext_of(filename@)));
    }
    let cs: Vec<char> = str_to_chars(filename);
    let (stem, ext_opt) = split_stem_ext(&cs);
    let ext: Vec<char> = ext_opt.unwrap();
    let stem_string: String = chars_to_string(&stem);
    let nr: (String, Option<String>) = parse_name_and_rarity(stem_string.as_str());
    proof {
        if *content is Text {
            assert(spec_read_kind(format, filename@) == ReadKind::Text);
            assert(spec_is_raw_svg(format, ext@));
        } else {
            assert(spec_read_kind(format, filename@) == ReadKind::Binary);
            assert(!spec_is_raw_svg(format, ext@));
        }
    }
    let dm: (String, String) = encode_content(content, format, &ext);
    let r = TraitRecord {
        name: nr.0,
        filename: filename.to_owned(),
        mime_type: dm.1,
        data: dm.0,
        rarity: nr.1,
        order,
    };
    proof {
        let v = spec_trait_view(filename@, *content, order);
        assert(r@.rarity == v.rarity) by {
            if spec_rarity_of(stem@) is Some {
                assert(r.rarity is Some);
            } else {
                assert(r.rarity is None);
            }
        }
    }
    r
}

/// One file as the scanner found it: its base name, and its contents when
/// the read plan asked for them (`None` for a skipped file).
pub struct ScannedFile {
    pub filename: String,
    pub content: Option<FileContent>,
}

/// One category folder: its name and the files found under it, in
/// traversal order.
pub struct CategoryScan {
    pub name: String,
    pub files: Vec<ScannedFile>,
}

/// The contents of a scanned file agree with the read plan: absent exactly
/// for a skipped file, text or bytes as the plan asks.
pub open spec fn spec_file_ok(format: ImageFormat, f: ScannedFile) -> bool {
    match f.content {
        Option::None => spec_read_kind(format, f.filename@) is Skip,
        Option::Some(c) => spec_read_kind(format, f.filename@) == spec_content_kind(c),
    }
}

pub open spec fn spec_scan_ok(format: ImageFormat, s: CategoryScan) -> bool {
    forall|i: int| 0 <= i < s.files@.len() ==> spec_file_ok(format, #[trigger] s.files@[i])
}

/// What one file adds to the table: nothing when skipped, its record under
/// the category key otherwise.
pub open spec fn spec_add_file(
    m: Seq<(Seq<char>, Seq<TraitView>)>,
    cat: Seq<char>,
    order: u32,
    f: ScannedFile,
) -> Seq<(Seq<char>, Seq<TraitView>)> {
    match f.content {
        Option::None => m,
        Option::Some(c) => spec_insert(m, cat, spec_trait_view(f.filename@, c, order)),
    }
}

pub open spec fn spec_add_files(
    m: Seq<(Seq<char>, Seq<TraitView>)>,
    cat: Seq<char>,
    order: u32,
    files: Seq<ScannedFile>,
) -> Seq<(Seq<char>, Seq<TraitView>)>
    decreases files.len(),
{
    if files.len() == 0 {
        m
    } else {
        spec_add_files(spec_add_file(m, cat, order, files[0]), cat, order, files.skip(1))
    }
}

/// What one category folder adds: each of its files in traversal order,
/// all under its name, all with its order hint.
pub open spec fn spec_add_category(
    m: Seq<(Seq<char>, Seq<TraitView>)>,
    s: CategoryScan,
) -> Seq<(Seq<char>, Seq<TraitView>)> {
    spec_add_files(m, s.name@, spec_category_order(s.name@), s.files@)
}

pub open spec fn spec_add_categories(
    m: Seq<(Seq<char>, Seq<TraitView>)>,
    scans: Seq<CategoryScan>,
) -> Seq<(Seq<char>, Seq<TraitView>)>
    decreases scans.len(),
{
    if scans.len() == 0 {
        m
    } else {
        spec_add_categories(spec_add_category(m, scans[0]), scans.skip(1))
    }
}

/// The whole run: every category folder in scanner order, starting from an
/// empty table.
pub open spec fn spec_build(scans: Seq<CategoryScan>) -> Seq<(Seq<char>, Seq<TraitView>)> {
    spec_add_categories(Seq::empty(), scans)
}

proof fn lemma_add_files_snoc(
    m: Seq<(Seq<char>, Seq<TraitView>)>,
    cat: Seq<char>,
    order: u32,
    files: Seq<ScannedFile>,
    f: ScannedFile,
)
    ensures
        spec_add_files(m, cat, order, files.push(f)) == spec_add_file(
            spec_add_files(m, cat, order, files),
            cat,
            order,
            f,
        ),
    decreases files.len(),
{
    if files.len() == 0 {
        assert(files.push(f)[0] == f);
        assert(files.push(f).skip(1) =~= Seq::<ScannedFile>::empty());
        assert(spec_add_files(m, cat, order, files.push(f)) == spec_add_files(
            spec_add_file(m, cat, order, f),
            cat,
            order,
            files.push(f).skip(1),
        ));
        assert(spec_add_files(spec_add_file(m, cat, order, f), cat, order, files.push(f).skip(1))
            == spec_add_file(m, cat, order, f));
        assert(spec_add_files(m, cat, order, files) == m);
    } else {
        assert(files.push(f)[0] == files[0]);
        assert(files.push(f).skip(1) =~= files.skip(1).push(f));
        let m1 = spec_add_file(m, cat, order, files[0]);
        lemma_add_files_snoc(m1, cat, order, files.skip(1), f);
        assert(spec_add_files(m, cat, order, files.push(f)) == spec_add_files(
            m1,
            cat,
            order,
            files.skip(1).push(f),
        ));
        assert(spec_add_files(m, cat, order, files) == spec_add_files(m1, cat, order, files.skip(1)));
    }
}

proof fn lemma_add_categories_snoc(
    m: Seq<(Seq<char>, Seq<TraitView>)>,
    scans: Seq<CategoryScan>,
    s: CategoryScan,
)
    ensures
        spec_add_categories(m, scans.push(s)) == spec_add_category(
            spec_add_categories(m, scans),
            s,
        ),
    decreases scans.len(),
{
    if scans.len() == 0 {
        assert(scans.push(s)[0] == s);
        assert(scans.push(s).skip(1) =~= Seq::<CategoryScan>::empty());
        assert(spec_add_categories(m, scans.push(s)) == spec_add_categories(
            spec_add_category(m, s),
            scans.push(s).skip(1),
        ));
        assert(spec_add_categories(spec_add_category(m, s), scans.push(s).skip(1))
            == spec_add_category(m, s));
        assert(spec_add_categories(m, scans) == m);
    } else {
        assert(scans.push(s)[0] == scans[0]);
        assert(scans.push(s).skip(1) =~= scans.skip(1).push(s));
        let m1 = spec_add_category(m, scans[0]);
        lemma_add_categories_snoc(m1, scans.skip(1), s);
        assert(spec_add_categories(m, scans.push(s)) == spec_add_categories(
            m1,
            scans.skip(1).push(s),
        ));
        assert(spec_add_categories(m, scans) == spec_add_categories(m1, scans.skip(1)));
    }
}

/// Walks the scanned category folders in order and builds the full table:
/// every supported file's record lands under its category, categories keep
/// sorted keys, skipped files leave no mark.
pub fn process_traits_directory(scans: &Vec<CategoryScan>, format: ImageFormat) -> (r: TraitsMap)
    requires
        forall|i: int| 0 <= i < scans@.len() ==> spec_scan_ok(format, #[trigger] scans@[i]),
    ensures
        r.wf(),
        r@ == spec_build(scans@),
{
    let mut m: TraitsMap = TraitsMap::new();
    proof {
        assert(scans@.take(0) =~= Seq::<CategoryScan>::empty());
    }
    let mut ci: usize = 0;
    while ci < scans.len()
        invariant
            0 <= ci <= scans@.len(),
            forall|i: int| 0 <= i < scans@.len() ==> spec_scan_ok(format, #[trigger] scans@[i]),
            m.wf(),
            m@ == spec_add_categories(Seq::empty(), scans@.take(ci as int)),
        decreases scans@.len() - ci,
    {
        let scan: &CategoryScan = &scans[ci];
        let order: u32 = category_order(scan.name.as_str());
        let ghost m0 = m@;
        let ghost cname = scan.name@;
        proof {
            assert(spec_scan_ok(format, scans@[ci as int]));
            assert(scan.files@.take(0) =~= Seq::<ScannedFile>::empty());
        }
        let mut fi: usize = 0;
        while fi < scan.files.len()
            invariant
                0 <= fi <= scan.files@.len(),
                m.wf(),
                spec_scan_ok(format, *scan),
                order == spec_category_order(scan.name@),
                cname == scan.name@,
                m@ == spec_add_files(m0, cname, order, scan.files@.take(fi as int)),
            decreases scan.files@.len() - fi,
        {
            let file: &ScannedFile = &scan.files[fi];
            proof {
                assert(spec_file_ok(format, scan.files@[fi as int]));
            }
            match &file.content {
                Option::None => {
                },
                Option::Some(c) => {
                    let rec: TraitRecord = process_trait_file(
                        file.filename.as_str(),
                        c,
                        format,
                        order,
                    );
                    m.insert_trait(scan.name.as_str(), rec);
                },
            }
            proof {
                lemma_add_files_snoc(m0, cname, order, scan.files@.take(fi as int), *file);
                assert(scan.files@.take(fi + 1) =~= scan.files@.take(fi as int).push(
                    scan.files@[fi as int],
                ));
            }
            fi = fi + 1;
        }
        proof {
            assert(scan.files@.take(scan.files@.len() as int) =~= scan.files@);
            lemma_add_categories_snoc(Seq::empty(), scans@.take(ci as int), scans@[ci as int]);
            assert(scans@.take(ci + 1) =~= scans@.take(ci as int).push(scans@[ci as int]));
        }
        ci = ci + 1;
    }
    proof {
        assert(scans@.take(scans@.len() as int) =~= scans@);
    }
    m
}

// ------------------------------------------------------------------
// Laws the pipeline obeys.
// ------------------------------------------------------------------

/// In raw mode an `svg` file's data field is its text, exactly as read and
/// unmodified.
pub proof fn lemma_raw_svg_data_exact(filename: Seq<char>, t: String, order: u32)
    ensures
        spec_trait_view(filename, FileContent::Text(t), order).data == t@,
        spec_trait_view(filename, FileContent::Text(t), order).mime_type == "image/svg"@,
{
}

/// Every file read as bytes lands in a data URI of the exact shape
/// `data:<mime>;base64,<payload>`, the payload being the standard base64
/// encoding of the file's bytes and the MIME type the one resolved for the
/// file's extension.
pub proof fn lemma_base64_data_shape(filename: Seq<char>, b: Vec<u8>, order: u32)
    ensures
        spec_trait_view(filename, FileContent::Binary(b), order).data == spec_data_uri(
            mime_of(spec_ext_of(filename)),
            b64_of(b@),
        ),
        spec_trait_view(filename, FileContent::Binary(b), order).mime_type == mime_of(
            spec_ext_of(filename),
        ),
{
}

/// The read plan skips exactly the files whose name carries no supported
/// extension.
pub proof fn lemma_skip_iff_unsupported(format: ImageFormat, filename: Seq<char>)
    ensures
        (spec_read_kind(format, filename) is Skip) <==> !(spec_ext_exists(filename)
            && spec_is_supported(spec_ext_of(filename))),
{
}

/// A skipped file leaves the table exactly as it stood; it neither errors
/// nor adds an entry.
pub proof fn lemma_skipped_file_unchanged(
    m: Seq<(Seq<char>, Seq<TraitView>)>,
    cat: Seq<char>,
    order: u32,
    f: ScannedFile,
)
    requires
        f.content is None,
    ensures
        spec_add_file(m, cat, order, f) == m,
{
}

proof fn lemma_add_files_nonempty(
    m: Seq<(Seq<char>, Seq<TraitView>)>,
    cat: Seq<char>,
    order: u32,
    files: Seq<ScannedFile>,
)
    requires
        forall|i: int| 0 <= i < m.len() ==> #[trigger] m[i].1.len() > 0,
    ensures
        forall|i: int|
            0 <= i < spec_add_files(m, cat, order, files).len() ==> #[trigger] spec_add_files(
                m,
                cat,
                order,
                files,
            )[i].1.len() > 0,
    decreases files.len(),
{
    if files.len() == 0 {
        assert(spec_add_files(m, cat, order, files) == m);
    } else {
        let m1 = spec_add_file(m, cat, order, files[0]);
        match files[0].content {
            Option::None => {
                assert(m1 == m);
            },
            Option::Some(c) => {
                let rec = spec_trait_view(files[0].filename@, c, order);
                lemma_insert_pos_bounds(m, cat);
                lemma_insert_nonempty(m, cat, rec);
                assert(m1 == spec_insert(m, cat, rec));
                assert forall|i: int| 0 <= i < m1.len() implies #[trigger] m1[i].1.len() > 0 by {
                    assert(m1[i] == spec_insert(m, cat, rec)[i]);
                }
            },
        }
        lemma_add_files_nonempty(m1, cat, order, files.skip(1));
        assert(spec_add_files(m, cat, order, files) == spec_add_files(m1, cat, order, files.skip(1)));
        assert forall|i: int|
            0 <= i < spec_add_files(m, cat, order, files).len() implies #[trigger] spec_add_files(
            m,
            cat,
            order,
            files,
        )[i].1.len() > 0 by {
            assert(spec_add_files(m, cat, order, files)[i] == spec_add_files(
                m1,
                cat,
                order,
                files.skip(1),
            )[i]);
        }
    }
}

proof fn lemma_add_categories_nonempty(
    m: Seq<(Seq<char>, Seq<TraitView>)>,
    scans: Seq<CategoryScan>,
)
    requires
        forall|i: int| 0 <= i < m.len() ==> #[trigger] m[i].1.len() > 0,
    ensures
        forall|i: int|
            0 <= i < spec_add_categories(m, scans).len() ==> #[trigger] spec_add_categories(
                m,
                scans,
            )[i].1.len() > 0,
    decreases scans.len(),
{
    if scans.len() == 0 {
        assert(spec_add_categories(m, scans) == m);
    } else {
        let s = scans[0];
        let m1 = spec_add_category(m, scans[0]);
        lemma_add_files_nonempty(m, s.name@, spec_category_order(s.name@), s.files@);
        assert forall|i: int| 0 <= i < m1.len() implies #[trigger] m1[i].1.len() > 0 by {
            assert(m1[i] == spec_add_files(m, s.name@, spec_category_order(s.name@), s.files@)[i]);
        }
        lemma_add_categories_nonempty(m1, scans.skip(1));
        assert(spec_add_categories(m, scans) == spec_add_categories(m1, scans.skip(1)));
        assert forall|i: int|
            0 <= i < spec_add_categories(m, scans).len() implies #[trigger] spec_add_categories(
            m,
            scans,
        )[i].1.len() > 0 by {
            assert(spec_add_categories(m, scans)[i] == spec_add_categories(m1, scans.skip(1))[i]);
        }
    }
}

/// Every category that appears in the built table carries at least one
/// record: a folder with no supported file is omitted entirely.
pub proof fn lemma_build_categories_nonempty(scans: Seq<CategoryScan>)
    ensures
        forall|i: int|
            0 <= i < spec_build(scans).len() ==> #[trigger] spec_build(scans)[i].1.len() > 0,
{
    lemma_add_categories_nonempty(Seq::empty(), scans);
}

proof fn lemma_add_files_sorted(
    m: Seq<(Seq<char>, Seq<TraitView>)>,
    cat: Seq<char>,
    order: u32,
    files: Seq<ScannedFile>,
)
    requires
        spec_sorted(m),
    ensures
        spec_sorted(spec_add_files(m, cat, order, files)),
    decreases files.len(),
{
    if files.len() == 0 {
        assert(spec_add_files(m, cat, order, files) == m);
    } else {
        let m1 = spec_add_file(m, cat, order, files[0]);
        match files[0].content {
            Option::None => {
                assert(m1 == m);
            },
            Option::Some(c) => {
                let rec = spec_trait_view(files[0].filename@, c, order);
                lemma_insert_sorted(m, cat, rec);
                assert(m1 == spec_insert(m, cat, rec));
            },
        }
        lemma_add_files_sorted(m1, cat, order, files.skip(1));
        assert(spec_add_files(m, cat, order, files) == spec_add_files(m1, cat, order, files.skip(1)));
    }
}

proof fn lemma_add_categories_sorted(
    m: Seq<(Seq<char>, Seq<TraitView>)>,
    scans: Seq<CategoryScan>,
)
    requires
        spec_sorted(m),
    ensures
        spec_sorted(spec_add_categories(m, scans)),
    decreases scans.len(),
{
    if scans.len() == 0 {
        assert(spec_add_categories(m, scans) == m);
    } else {
        let s = scans[0];
        let m1 = spec_add_category(m, scans[0]);
        lemma_add_files_sorted(m, s.name@, spec_category_order(s.name@), s.files@);
        lemma_add_categories_sorted(m1, scans.skip(1));
        assert(spec_add_categories(m, scans) == spec_add_categories(m1, scans.skip(1)));
    }
}

/// The category keys of the built table stand in strictly increasing
/// order, whatever order the folders were scanned in.
pub proof fn lemma_build_sorted(scans: Seq<CategoryScan>)
    ensures
        spec_sorted(spec_build(scans)),
{
    lemma_add_categories_sorted(Seq::empty(), scans);
}

/// The built table is a function of the scanned input alone: two runs over
/// the same input yield the same table.
pub proof fn lemma_build_deterministic(
    scans: Seq<CategoryScan>,
    m1: Seq<(Seq<char>, Seq<TraitView>)>,
    m2: Seq<(Seq<char>, Seq<TraitView>)>,
)
    requires
        m1 == spec_build(scans),
        m2 == spec_build(scans),
    ensures
        m1 == m2,
{
}

} // verus!
