//! A tileset that is being added to the catalog: its name, as its archive's
//! metadata gives it, and the hash of its contents.
use vstd::prelude::*;
use crate::cells::{hex_char_value, hex_digit_char, is_word_char_hex, lemma_hex_char};
use crate::errors::CatalogError;
use crate::paths::{file_name, path_file_name, plain_path_name};
use crate::text::push_char;

verus! {

/// A tileset to add: where it lies, the cells that its outline touches, the
/// name to show for it and the hash of its contents.
pub struct InputFile {
    pub path: String,
    pub s2_cells: Vec<u64>,
    pub display_name: String,
    pub hash: String,
}

// ----------------------------------------------------------------------------
// The hash of the contents.

/// The SHA-256 digest of the bytes.
pub uninterp spec fn sha256_of(data: Seq<u8>) -> Seq<u8>;

/// `Sha256::digest` of the bytes (the `sha2` crate): the 32-byte SHA-256
/// digest, named `sha256_of`.
#[verifier::external_body]
fn sha256_digest(data: &[u8]) -> (res: Vec<u8>)
    ensures
        res@ == sha256_of(data@),
        res@.len() == 32,
{
    <sha2::Sha256 as sha2::Digest>::digest(data).to_vec()
}

/// The bytes as lower-case hexadecimal, two digits per byte (`{:x}` of a
/// digest).
pub open spec fn hex_lower(s: Seq<u8>) -> Seq<char>
    decreases s.len(),
{
    if s.len() == 0 {
        Seq::<char>::empty()
    } else {
        hex_lower(s.drop_last()) + seq![
            hex_digit_char((s.last() / 16) as u64),
            hex_digit_char((s.last() % 16) as u64),
        ]
    }
}

/// The hexadecimal text of bytes is two lower-case hexadecimal digits per
/// byte, in order, and reads back as the bytes: characters `2i` and `2i + 1`
/// are the high and the low four bits of byte `i`.
pub proof fn lemma_hex_reads_back(s: Seq<u8>)
    ensures
        hex_lower(s).len() == 2 * s.len(),
        forall|j: int| 0 <= j < hex_lower(s).len() ==> is_word_char_hex(#[trigger] hex_lower(s)[j]),
        forall|i: int| 0 <= i < s.len()
            ==> hex_char_value(#[trigger] hex_lower(s)[2 * i]) * 16 + hex_char_value(hex_lower(s)[2 * i + 1]) == s[i],
    decreases s.len(),
{
    if s.len() > 0 {
        let t = s.drop_last();
        lemma_hex_reads_back(t);
        let b = s.last();
        let hi = (b / 16) as u64;
        let lo = (b % 16) as u64;
        lemma_hex_char(hi);
        lemma_hex_char(lo);
        let h = hex_lower(s);
        assert(h == hex_lower(t) + seq![hex_digit_char(hi), hex_digit_char(lo)]);
        assert forall|j: int| 0 <= j < h.len() implies is_word_char_hex(#[trigger] h[j]) by {
            if j < hex_lower(t).len() {
                assert(h[j] == hex_lower(t)[j]);
            }
        }
        assert forall|i: int| 0 <= i < s.len()
            implies hex_char_value(#[trigger] h[2 * i]) * 16 + hex_char_value(h[2 * i + 1]) == s[i] by {
            if i < t.len() {
                assert(h[2 * i] == hex_lower(t)[2 * i]);
                assert(h[2 * i + 1] == hex_lower(t)[2 * i + 1]);
                assert(s[i] == t[i]);
            } else {
                assert(h[2 * i] == hex_digit_char(hi));
                assert(h[2 * i + 1] == hex_digit_char(lo));
            }
        }
    }
}

/// Writes the bytes as lower-case hexadecimal, two digits per byte.
pub fn to_hex_lower(data: &Vec<u8>) -> (res: String)
    ensures
        res@ == hex_lower(data@),
        res@.len() == 2 * data@.len(),
{
    let mut out = String::new();
    let n = data.len();
    let mut i: usize = 0;
    while i < n
        invariant
            n == data@.len(),
            i <= n,
            out@ == hex_lower(data@.subrange(0, i as int)),
            out@.len() == 2 * i,
        decreases n - i,
    {
        let b = data[i];
        let hi: u8 = b / 16;
        let lo: u8 = b % 16;
        let c_hi: char = if hi < 10 { (hi + 48) as char } else { (hi + 87) as char };
        let c_lo: char = if lo < 10 { (lo + 48) as char } else { (lo + 87) as char };
        push_char(&mut out, c_hi);
        push_char(&mut out, c_lo);
        proof {
            let s = data@.subrange(0, i + 1);
            assert(s.drop_last() =~= data@.subrange(0, i as int));
            assert(s.last() == b);
            assert(c_hi == hex_digit_char(hi as u64));
            assert(c_lo == hex_digit_char(lo as u64));
            assert(out@ =~= hex_lower(s));
        }
        i = i + 1;
    }
    assert(data@.subrange(0, n as int) =~= data@);
    out
}

/// The hash of a tileset's contents: their SHA-256 digest in lower-case
/// hexadecimal, 64 characters.
pub fn sha256_file(contents: &[u8]) -> (res: String)
    ensures
        res@ == hex_lower(sha256_of(contents@)),
        res@.len() == 64,
{
    let digest = sha256_digest(contents);
    to_hex_lower(&digest)
}

// ----------------------------------------------------------------------------
// The name to show.

/// The `name` member of the JSON text: `None` where the text is not JSON,
/// `Some(None)` where it has no `name` member that is a string.
pub uninterp spec fn json_name_member(text: Seq<char>) -> Option<Option<Seq<char>>>;

/// Reads the text as a `serde_json::Value` and takes its `name` member where
/// that is a string.  The contract names the result (`json_name_member`).
#[verifier::external_body]
fn json_name(text: &str) -> (res: Result<Option<String>, serde_json::Error>)
    ensures
        match res {
            Ok(Some(n)) => json_name_member(text@) == Some(Some(n@)),
            Ok(None) => json_name_member(text@) == Some(None::<Seq<char>>),
            Err(_) => json_name_member(text@) is None,
        },
{
    match serde_json::from_str::<serde_json::Value>(text) {
        Ok(v) => Ok(match &v["name"] {
            serde_json::Value::String(n) => Some(n.clone()),
            _ => None,
        }),
        Err(e) => Err(e),
    }
}

/// The name to show for a tileset: the `name` of its archive's JSON
/// metadata, or else the given file name.
pub fn name_from_metadata(metadata: &str, filename: String) -> (res: Result<String, CatalogError>)
    ensures
        match json_name_member(metadata@) {
            None => res matches Err(e) && e is JSONError,
            Some(Some(n)) => res matches Ok(s) && s@ == n,
            Some(None) => res matches Ok(s) && s@ == filename@,
        },
{
    match json_name(metadata) {
        Ok(Some(n)) => Ok(n),
        Ok(None) => Ok(filename),
        Err(e) => Err(CatalogError::JSONError(e)),
    }
}

/// What reading a tileset gives: its path and cells as given, the name from
/// its metadata (or else its file name), and the hash of its contents.
pub open spec fn input_file_read(
    path: Seq<char>,
    cells: Seq<u64>,
    metadata: Seq<char>,
    contents: Seq<u8>,
    f: InputFile,
) -> bool {
    &&& f.path@ == path
    &&& f.s2_cells@ == cells
    &&& f.display_name@ == match json_name_member(metadata) {
        Some(Some(n)) => n,
        _ => path_file_name(path).unwrap(),
    }
    &&& f.hash@ == hex_lower(sha256_of(contents))
}

impl InputFile {
    /// The tileset at `path`, whose outline touches the cells `s2_cells`,
    /// whose archive holds the JSON metadata `metadata` and whose file holds
    /// `contents`.  The path must have a file name.
    pub fn new(path: String, s2_cells: Vec<u64>, metadata: &str, contents: &[u8]) -> (res: Result<InputFile, CatalogError>)
        requires
            path_file_name(path@) is Some,
        ensures
            match json_name_member(metadata@) {
                None => res matches Err(e) && e is JSONError,
                Some(_) => res matches Ok(f) && input_file_read(path@, s2_cells@, metadata@, contents@, f),
            },
            plain_path_name(path@) is Some ==> path_file_name(path@) == plain_path_name(path@),
    {
        let filename = match file_name(path.as_str()) {
            Some(n) => n,
            None => {
                proof {
                    assert(false);
                }
                String::new()
            },
        };
        let display_name = match name_from_metadata(metadata, filename) {
            Ok(n) => n,
            Err(e) => {
                return Err(e);
            },
        };
        let hash = sha256_file(contents);
        Ok(InputFile { path, s2_cells, display_name, hash })
    }

    /// `new`, where the path has a file name; `None` where it has none (where
    /// `new` would stop the program).
    pub fn for_path(path: String, s2_cells: Vec<u64>, metadata: &str, contents: &[u8]) -> (res: Option<Result<InputFile, CatalogError>>)
        ensures
            match path_file_name(path@) {
                None => res is None,
                Some(_) => res matches Some(r) && match json_name_member(metadata@) {
                    None => r matches Err(e) && e is JSONError,
                    Some(_) => r matches Ok(f) && input_file_read(path@, s2_cells@, metadata@, contents@, f),
                },
            },
            plain_path_name(path@) is Some ==> path_file_name(path@) == plain_path_name(path@),
    {
        match file_name(path.as_str()) {
            Some(_) => Some(InputFile::new(path, s2_cells, metadata, contents)),
            None => None,
        }
    }
}

/// The name under which a copy of a tileset's file is kept in the API
/// (`files/{hash}.{extension}`): the hash, a dot and the extension.
pub fn api_file_name(hash: &str, extension: &str) -> (res: String)
    ensures
        res@ == hash@ + seq!['.'] + extension@,
{
    let mut name = String::from_str(hash);
    push_char(&mut name, '.');
    name.append(extension);
    name
}

} // verus!
