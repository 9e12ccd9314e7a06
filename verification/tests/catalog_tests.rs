use catalog::catalog_file::{catalog_file_name, CatalogFile, MetadataValue, ParsedCatalogFile, SingleFile};
use catalog::catalog_format::CoverageField;
use catalog::coverage::Coverage;
use catalog::csv_io::CsvRecords;
use catalog::errors::CatalogError;
use catalog::input_file::InputFile;

fn coverage(x: f64) -> Coverage {
    Coverage::new(x.to_bits(), x.to_string())
}

/// The coverage field of each row, as the updater reads it.
fn coverage_fields(records: &CsvRecords) -> Vec<CoverageField> {
    records
        .records
        .iter()
        .map(|r| match r.get(4) {
            None => CoverageField::Absent,
            Some(t) => match t.parse::<f64>() {
                Ok(x) => CoverageField::Parsed(coverage(x)),
                Err(e) => CoverageField::Invalid(e),
            },
        })
        .collect()
}

fn read_catalog(path: &str, text: &[u8]) -> (CatalogFile, Result<(), CatalogError>) {
    let mut c = CatalogFile::for_path(path.to_string()).unwrap();
    let recs = CsvRecords::from_bytes(text);
    let covs = coverage_fields(&recs);
    let res = c.read(Some(&recs), covs);
    (c, res)
}

fn written(c: &CatalogFile) -> String {
    let mut out = Vec::new();
    c.write_to(&mut out).unwrap();
    String::from_utf8(out).unwrap()
}

fn input(name: &str, hash: &str) -> InputFile {
    InputFile { path: format!("{}.pmtiles", name), s2_cells: vec![], display_name: name.to_string(), hash: hash.to_string() }
}

fn hashes(c: &CatalogFile) -> Vec<String> {
    c.parsed().unwrap().files.iter().map(|f| f.hash.clone()).collect()
}

fn count(c: &CatalogFile) -> u64 {
    c.parsed()
        .unwrap()
        .metadata
        .iter()
        .find_map(|m| match m {
            MetadataValue::Count(n) => Some(*n),
            _ => None,
        })
        .unwrap()
}

const BASIC: &str = "meta,version,1\nmeta,count,2\nfile,1,Tokyo 2020,aaaa,0.75\nfile,1,\"Osaka, north\",bbbb,0.25\n";

#[test]
fn test_roundtrip() {
    let (c, res) = read_catalog("examples/353d.csv", BASIC.as_bytes());
    assert!(res.is_ok());
    assert_eq!(written(&c), BASIC, "The contents of the files do not match!");
}

#[test]
fn test_update_catalog() {
    // one cell of a tileset's covering: its catalog is opened, read (it does
    // not exist yet), the tileset is added and the catalog is written
    let cell: u64 = 0x353d_2040_0000_0000;
    let mut c = CatalogFile::for_cell("api/v1/catalog", cell);
    assert_eq!(c.file_path(), "api/v1/catalog/353d204.csv");
    assert_eq!(c.cell_id(), cell);
    assert!(c.read(None, vec![]).is_ok());
    assert!(c.add_file(&input("Kagoshima", "0123abcd"), coverage(0.5)).is_ok());
    assert_eq!(written(&c), "meta,version,1\nmeta,count,1\nfile,1,Kagoshima,0123abcd,0.5\n");
}

#[test]
fn catalog_file_names_its_cell() {
    assert_eq!(catalog_file_name(0x353d_2040_0000_0000), "353d204.csv");
    assert_eq!(catalog_file_name(0x3000_0000_0000_0000), "3.csv");
    let c = CatalogFile::for_path("api/v1/catalog/353d21c.csv".to_string()).unwrap();
    assert_eq!(c.cell_id(), 0x353d_21c0_0000_0000);
    assert!(c.parsed().is_none());
    let c = CatalogFile::for_cell("root", 0x3540_0000_0000_0000);
    assert_eq!(c.file_path(), "root/354.csv");
    assert!(CatalogFile::for_path("/".to_string()).is_none());
    assert_eq!(CatalogFile::new("not-a-token.csv".to_string()).cell_id(), 0);
}

#[test]
fn unreadable_file_starts_empty() {
    let mut c = CatalogFile::for_path("a/353.csv".to_string()).unwrap();
    assert!(c.read(None, vec![]).is_ok());
    assert_eq!(written(&c), "meta,version,1\nmeta,count,0\n");
    // a field that is not UTF-8 makes the CSV reader fail
    let (c, res) = read_catalog("a/353.csv", b"meta,version,1\nfile,1,\xff\xfe,h,0.5\n");
    assert!(res.is_ok());
    assert_eq!(written(&c), "meta,version,1\nmeta,count,0\n");
}

#[test]
fn write_before_read_is_refused() {
    let c = CatalogFile::for_path("a/353.csv".to_string()).unwrap();
    let mut out = vec![1u8];
    assert!(matches!(c.write_to(&mut out), Err(CatalogError::CatalogFileNotParsed)));
    assert_eq!(out, vec![1u8]);
    let mut c = CatalogFile::for_path("a/353.csv".to_string()).unwrap();
    assert!(matches!(c.add_file(&input("x", "h"), coverage(0.1)), Err(CatalogError::CatalogFileNotParsed)));
}

#[test]
fn rows_with_problems_are_reported() {
    let cases: Vec<(&str, &str)> = vec![
        ("meta,version\n", "No version found"),
        ("meta,count\n", "No count found"),
        ("file\n", "No kind found"),
        ("file,1\n", "No display name found"),
        ("file,1,name\n", "No hash found"),
        ("file,1,name,hash\n", "No coverage found"),
    ];
    for (text, msg) in cases {
        let (c, res) = read_catalog("a/353.csv", text.as_bytes());
        match res {
            Err(CatalogError::GenericError(m)) => assert_eq!(m, msg),
            _ => panic!("expected a generic error for {:?}", text),
        }
        assert!(c.parsed().is_none());
    }
    let (_, res) = read_catalog("a/353.csv", b"meta,version,256\n");
    assert!(matches!(res, Err(CatalogError::ParseIntError(_))));
    let (_, res) = read_catalog("a/353.csv", b"meta,count,-1\n");
    assert!(matches!(res, Err(CatalogError::ParseIntError(_))));
    let (_, res) = read_catalog("a/353.csv", b"file,x,name,hash,0.5\n");
    assert!(matches!(res, Err(CatalogError::ParseIntError(_))));
    let (_, res) = read_catalog("a/353.csv", b"file,1,name,hash,half\n");
    match res {
        Err(CatalogError::ParseFloatError(e)) => {
            assert_eq!(e.to_string(), "half".parse::<f64>().unwrap_err().to_string())
        }
        _ => panic!("expected the error of reading the coverage"),
    }
    let (_, res) = read_catalog("a/353.csv", b"file,1,name,hash,\n");
    match res {
        Err(CatalogError::ParseFloatError(e)) => {
            assert_eq!(e.to_string(), "".parse::<f64>().unwrap_err().to_string())
        }
        _ => panic!("expected the error of reading an empty coverage"),
    }
    // the first problem wins: the kind is read before the coverage
    let (_, res) = read_catalog("a/353.csv", b"file,x,name,hash,half\n");
    assert!(matches!(res, Err(CatalogError::ParseIntError(_))));
    // a problem stops the reading before a later unreadable row
    let (_, res) = read_catalog("a/353.csv", b"meta,count,x\nfile,1,\xff,h,0.5\n");
    assert!(matches!(res, Err(CatalogError::ParseIntError(_))));
}

#[test]
fn other_rows_are_ignored_and_numbers_are_rewritten() {
    let text = "comment,whatever\nmeta,version,+01\nmeta,other,3\nmeta,count,007\nfile,01,n,h,0.50,extra\n";
    let (c, res) = read_catalog("a/353.csv", text.as_bytes());
    assert!(res.is_ok());
    assert_eq!(written(&c), "meta,version,1\nmeta,count,7\nfile,1,n,h,0.5\n");
}

#[test]
fn adding_a_new_file_counts_it_and_sorts_by_coverage() {
    let (mut c, _) = read_catalog("a/353.csv", BASIC.as_bytes());
    assert!(c.add_file(&input("Mid", "cccc"), coverage(0.5)).is_ok());
    assert_eq!(hashes(&c), vec!["aaaa", "cccc", "bbbb"]);
    assert_eq!(count(&c), 3);
    assert!(c.add_file(&input("Top", "dddd"), coverage(1.0)).is_ok());
    assert_eq!(hashes(&c), vec!["dddd", "aaaa", "cccc", "bbbb"]);
    assert_eq!(count(&c), 4);
    // equal coverages keep their order; -0 and +0 are equal
    assert!(c.add_file(&input("Tie", "eeee"), coverage(0.5)).is_ok());
    assert!(c.add_file(&input("Zero", "ffff"), coverage(-0.0)).is_ok());
    assert!(c.add_file(&input("Zero2", "gggg"), coverage(0.0)).is_ok());
    assert_eq!(hashes(&c), vec!["dddd", "aaaa", "cccc", "eeee", "bbbb", "ffff", "gggg"]);
}

#[test]
fn adding_a_known_hash_replaces_it_in_place() {
    let (mut c, _) = read_catalog("a/353.csv", BASIC.as_bytes());
    assert!(c.add_file(&input("Osaka again", "bbbb"), coverage(0.9)).is_ok());
    // replaced where it stands, not sorted again, and not counted again
    assert_eq!(hashes(&c), vec!["aaaa", "bbbb"]);
    assert_eq!(count(&c), 2);
    let f = &c.parsed().unwrap().files[1];
    assert_eq!(f.display_name, "Osaka again");
    assert_eq!(f.coverage.text, "0.9");
    assert_eq!(f.kind, 1);
    // adding the same tileset twice is adding it once
    let before = written(&c);
    assert!(c.add_file(&input("Osaka again", "bbbb"), coverage(0.9)).is_ok());
    assert_eq!(written(&c), before);
}

#[test]
fn an_unsorted_file_is_sorted_when_a_file_is_added() {
    let text = "meta,version,1\nmeta,count,2\nfile,1,a,h1,0.1\nfile,1,b,h2,0.9\n";
    let (mut c, _) = read_catalog("a/353.csv", text.as_bytes());
    assert_eq!(hashes(&c), vec!["h1", "h2"]);
    assert!(c.add_file(&input("c", "h3"), coverage(0.5)).is_ok());
    assert_eq!(hashes(&c), vec!["h2", "h3", "h1"]);
}

#[test]
fn a_catalog_without_count_row_gets_no_count() {
    let (mut c, _) = read_catalog("a/353.csv", b"meta,version,2\n");
    assert!(c.add_file(&input("n", "h"), coverage(0.3)).is_ok());
    assert_eq!(written(&c), "meta,version,2\nfile,1,n,h,0.3\n");
}

#[test]
fn parsed_catalog_and_single_file() {
    let p = ParsedCatalogFile::new(42);
    assert_eq!(p.cell_id, 42);
    assert!(matches!(p.metadata[..], [MetadataValue::Version(1), MetadataValue::Count(0)]));
    let f = SingleFile::new_within_catalog(&input("name", "hash"), coverage(0.25));
    assert_eq!((f.kind, f.display_name.as_str(), f.hash.as_str(), f.coverage.text.as_str()), (1, "name", "hash", "0.25"));
    let mut p = ParsedCatalogFile::new(7);
    p.increment_count();
    p.increment_count();
    assert!(matches!(p.metadata[..], [MetadataValue::Version(1), MetadataValue::Count(2)]));
}

#[test]
fn a_written_catalog_reads_back_the_same() {
    let (mut c, _) = read_catalog("a/353.csv", BASIC.as_bytes());
    assert!(c.add_file(&input("Third", "cccc"), coverage(1.0 / 3.0)).is_ok());
    let text = written(&c);
    let (c2, res) = read_catalog("b/353.csv", text.as_bytes());
    assert!(res.is_ok());
    let (a, b) = (c.parsed().unwrap(), c2.parsed().unwrap());
    assert_eq!(a.files.len(), b.files.len());
    for (x, y) in a.files.iter().zip(b.files.iter()) {
        assert_eq!((x.kind, &x.display_name, &x.hash, x.coverage.bits, &x.coverage.text),
                   (y.kind, &y.display_name, &y.hash, y.coverage.bits, &y.coverage.text));
    }
    assert_eq!(count(&c), count(&c2));
    assert_eq!(written(&c2), text);
}

#[test]
fn fields_that_need_quotes_survive() {
    let mut c = CatalogFile::for_path("a/353.csv".to_string()).unwrap();
    assert!(c.read(None, vec![]).is_ok());
    assert!(c.add_file(&input("say \"hi\", then\nleave", "h,1"), coverage(0.5)).is_ok());
    let text = written(&c);
    assert_eq!(text, "meta,version,1\nmeta,count,1\nfile,1,\"say \"\"hi\"\", then\nleave\",\"h,1\",0.5\n");
    let (c2, _) = read_catalog("a/353.csv", text.as_bytes());
    assert_eq!(c2.parsed().unwrap().files[0].display_name, "say \"hi\", then\nleave");
}

#[test]
fn an_empty_catalog_is_written_as_its_two_metadata_rows() {
    let mut c = CatalogFile::for_path("cat/353d.csv".to_string()).unwrap();
    assert!(c.read(None, vec![]).is_ok());
    let mut out = b"kept ".to_vec();
    assert!(c.write_to(&mut out).is_ok());
    assert_eq!(String::from_utf8(out).unwrap(), "kept meta,version,1\nmeta,count,0\n");
}

#[test]
fn a_leading_byte_order_mark_is_dropped_on_reading() {
    let recs = CsvRecords::from_bytes(b"\xef\xbb\xbfmeta,version,1\n");
    assert_eq!(recs.records, vec![vec!["meta".to_string(), "version".to_string(), "1".to_string()]]);
    assert!(!recs.failed);
}

#[test]
fn read_contents_carry_the_catalogs_cell() {
    let (c, res) = read_catalog("cat/353d.csv", b"meta,version,1\nfile,1,A,h,0.5\n");
    assert!(res.is_ok());
    assert_eq!(c.parsed().unwrap().cell_id, c.cell_id());
    let mut c = CatalogFile::for_path("cat/353d.csv".to_string()).unwrap();
    assert!(c.add_file(&input("A", "h"), coverage(0.5)).is_err());
    assert!(c.parsed().is_none());
    assert!(c.read(None, vec![]).is_ok());
    assert!(c.add_file(&input("A", "h"), coverage(0.5)).is_ok());
    assert_eq!(c.parsed().unwrap().cell_id, c.cell_id());
}
