use catalog::coverage::{float_greater, Coverage};
use catalog::errors::CatalogError;
use catalog::input_file::{name_from_metadata, sha256_file, to_hex_lower, InputFile};
use catalog::text::decimal_text;

#[test]
fn hash_is_lowercase_hex_sha256() {
    assert_eq!(sha256_file(b"abc"), "ba7816bf8f01cfea414140de5dae2223b00361a396177a9cb410ff61f20015ad");
    assert_eq!(sha256_file(b""), "e3b0c44298fc1c149afbf4c8996fb92427ae41e4649b934ca495991b7852b855");
    assert_eq!(to_hex_lower(&vec![0x00, 0x0f, 0xa0, 0xff]), "000fa0ff");
}

#[test]
fn name_comes_from_metadata_or_file_name() {
    let n = name_from_metadata(r#"{"name":"Kagoshima 2024","format":"png"}"#, "k.pmtiles".to_string());
    assert_eq!(n.unwrap(), "Kagoshima 2024");
    let n = name_from_metadata(r#"{"format":"png"}"#, "k.pmtiles".to_string());
    assert_eq!(n.unwrap(), "k.pmtiles");
    let n = name_from_metadata(r#"{"name":3}"#, "k.pmtiles".to_string());
    assert_eq!(n.unwrap(), "k.pmtiles");
    let n = name_from_metadata("not json", "k.pmtiles".to_string());
    assert!(matches!(n, Err(CatalogError::JSONError(_))));
}

#[test]
fn input_file_reads_name_and_hash() {
    let f = InputFile::new("tiles/k.pmtiles".to_string(), vec![7, 9], r#"{"name":"K"}"#, b"abc").unwrap();
    assert_eq!(f.path, "tiles/k.pmtiles");
    assert_eq!(f.s2_cells, vec![7, 9]);
    assert_eq!(f.display_name, "K");
    assert_eq!(f.hash, "ba7816bf8f01cfea414140de5dae2223b00361a396177a9cb410ff61f20015ad");
    let f = InputFile::for_path("tiles/k.pmtiles".to_string(), vec![], "{}", b"").unwrap().unwrap();
    assert_eq!(f.display_name, "k.pmtiles");
    assert!(InputFile::for_path("/".to_string(), vec![], "{}", b"").is_none());
    assert!(matches!(InputFile::for_path("a/b".to_string(), vec![], "[", b""), Some(Err(CatalogError::JSONError(_)))));
}

#[test]
fn decimal_text_is_to_string() {
    for n in [0u64, 7, 10, 99, 100, 12345, u64::MAX] {
        assert_eq!(decimal_text(n), n.to_string());
    }
}

#[test]
fn coverage_order_is_the_order_of_doubles() {
    let values = [f64::NEG_INFINITY, -2.5, -1e-300, -0.0, 0.0, 1e-300, 0.25, 0.5, 1.0, f64::INFINITY];
    for a in values {
        for b in values {
            assert_eq!(float_greater(a.to_bits(), b.to_bits()), a > b, "{} > {}", a, b);
        }
    }
    assert!(Coverage::new(f64::NAN.to_bits(), "NaN".to_string()).is_nan());
    assert!(!Coverage::new(f64::INFINITY.to_bits(), "inf".to_string()).is_nan());
    assert!(!Coverage::new(0.5f64.to_bits(), "0.5".to_string()).is_nan());
}
