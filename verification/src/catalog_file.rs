//! The catalog of one S2 cell: which tilesets cover it, and how much.
//!
//! A catalog file is a CSV file without a header.  Its rows are
//! `meta,version,<n>`, `meta,count,<n>` and
//! `file,<kind>,<display name>,<hash>,<coverage>`; other rows are ignored.
use vstd::prelude::*;
use crate::coverage::{float_greater, float_is_nan, float_key, Coverage, CoverageView};
use crate::errors::CatalogError;
use crate::input_file::InputFile;
use crate::catalog_format::{
    catalog_rows, catalog_rows_of, coverage_fields_match, coverage_fields_view, error_for,
    read_catalog_rows, read_rows, CoverageField,
};
use crate::csv_io::{csv_read_rows, csv_written, no_leading_bom, rows_have_two_fields, write_csv_rows, CsvRecords};
use crate::cells::{cell_token, from_token, is_valid_cell, is_word_char_hex, lemma_token_names_cell, to_token, token_cell};
use crate::paths::{file_stem, is_plain_dir, is_plain_word, lemma_plain_path_stem, path_file_stem};
use crate::text::push_char;

verus! {

/// A metadata row of a catalog.
#[derive(Clone, Copy, Debug)]
pub enum MetadataValue {
    Version(u8),
    Count(u64),
}

/// One tileset listed in a catalog.
pub struct SingleFile {
    pub kind: u8,
    pub display_name: String,
    pub hash: String,
    pub coverage: Coverage,
}

/// What a listed tileset stands for.
pub struct FileView {
    pub kind: u8,
    pub display_name: Seq<char>,
    pub hash: Seq<char>,
    pub coverage: CoverageView,
}

impl View for SingleFile {
    type V = FileView;

    open spec fn view(&self) -> FileView {
        FileView {
            kind: self.kind,
            display_name: self.display_name@,
            hash: self.hash@,
            coverage: self.coverage@,
        }
    }
}

/// The views of a run of listed tilesets.
pub open spec fn files_view(v: Seq<SingleFile>) -> Seq<FileView> {
    Seq::new(v.len(), |i: int| v[i]@)
}

/// The contents of a catalog.
pub struct ParsedCatalogFile {
    pub cell_id: u64,
    pub metadata: Vec<MetadataValue>,
    pub files: Vec<SingleFile>,
}

/// What the contents of a catalog stand for.
pub struct CatalogView {
    pub cell_id: u64,
    pub metadata: Seq<MetadataValue>,
    pub files: Seq<FileView>,
}

impl View for ParsedCatalogFile {
    type V = CatalogView;

    open spec fn view(&self) -> CatalogView {
        CatalogView { cell_id: self.cell_id, metadata: self.metadata@, files: files_view(self.files@) }
    }
}

// ----------------------------------------------------------------------------
// The order of the listed tilesets.

/// The coverage key of a listed tileset.
pub open spec fn file_key(f: FileView) -> int {
    float_key(f.coverage.bits)
}

/// The tilesets of `s` whose coverage has key `k`, in their order in `s`.
pub open spec fn key_class(s: Seq<FileView>, k: int) -> Seq<FileView> {
    s.filter(|f: FileView| file_key(f) == k)
}

/// The tilesets are listed from the largest coverage down.
pub open spec fn sorted_by_coverage(s: Seq<FileView>) -> bool {
    forall|i: int, j: int| 0 <= i < j < s.len() ==> file_key(#[trigger] s[i]) >= file_key(#[trigger] s[j])
}

/// `r` lists the rows of `s` in another order: row `i` of `r` is row
/// `perm[i]` of `s`, and no row of `s` is taken twice.
pub open spec fn is_reordering(s: Seq<FileView>, r: Seq<FileView>, perm: Seq<int>) -> bool {
    &&& perm.len() == r.len()
    &&& r.len() == s.len()
    &&& forall|i: int| 0 <= i < r.len() ==> 0 <= #[trigger] perm[i] < s.len() && r[i] == s[perm[i]]
    &&& forall|i: int, j: int| 0 <= i < j < r.len() ==> #[trigger] perm[i] != #[trigger] perm[j]
}

/// `r` is `s` sorted from the largest coverage down, where tilesets of equal
/// coverage keep their order (a stable sort).
pub open spec fn stable_sorted_by_coverage(s: Seq<FileView>, r: Seq<FileView>) -> bool {
    &&& r.len() == s.len()
    &&& sorted_by_coverage(r)
    &&& forall|k: int| #[trigger] key_class(r, k) == key_class(s, k)
    &&& exists|perm: Seq<int>| is_reordering(s, r, perm)
}

/// A coverage is a NaN.
pub open spec fn has_nan_coverage(s: Seq<FileView>) -> bool {
    exists|i: int| 0 <= i < s.len() && float_is_nan(#[trigger] s[i].coverage.bits)
}

proof fn lemma_key_class_push(s: Seq<FileView>, x: FileView, k: int)
    ensures
        key_class(s.push(x), k) == if file_key(x) == k { key_class(s, k).push(x) } else { key_class(s, k) },
{
    reveal_with_fuel(Seq::filter, 1);
    assert(s.push(x).drop_last() =~= s);
}

proof fn lemma_key_class_none(s: Seq<FileView>, k: int)
    requires
        forall|i: int| 0 <= i < s.len() ==> file_key(#[trigger] s[i]) != k,
    ensures
        key_class(s, k) == Seq::<FileView>::empty(),
    decreases s.len(),
{
    reveal_with_fuel(Seq::filter, 1);
    if s.len() > 0 {
        lemma_key_class_none(s.drop_last(), k);
    }
}

proof fn lemma_key_class_single(x: FileView, k: int)
    ensures
        key_class(seq![x], k) == if file_key(x) == k { seq![x] } else { Seq::<FileView>::empty() },
{
    lemma_key_class_push(Seq::<FileView>::empty(), x, k);
    assert(Seq::<FileView>::empty().push(x) =~= seq![x]);
    lemma_key_class_none(Seq::<FileView>::empty(), k);
}

/// Inserting `x` after every tileset of at least its coverage and before
/// every tileset of less keeps the list sorted and each class in order.
proof fn lemma_insert_sorted(r: Seq<FileView>, p: int, x: FileView)
    requires
        0 <= p <= r.len(),
        sorted_by_coverage(r),
        forall|t: int| 0 <= t < p ==> file_key(#[trigger] r[t]) >= file_key(x),
        p < r.len() ==> file_key(x) > file_key(r[p]),
    ensures
        sorted_by_coverage(r.insert(p, x)),
        forall|k: int| #[trigger] key_class(r.insert(p, x), k)
            == if file_key(x) == k { key_class(r, k).push(x) } else { key_class(r, k) },
{
    let r2 = r.insert(p, x);
    let a = r.subrange(0, p);
    let b = r.subrange(p, r.len() as int);
    assert(r2 =~= a + seq![x] + b);
    assert(r =~= a + b);
    assert forall|t: int| 0 <= t < b.len() implies file_key(#[trigger] b[t]) < file_key(x) by {
        assert(b[t] == r[p + t]);
        if t > 0 {
            assert(file_key(r[p]) >= file_key(r[p + t]));
        }
    }
    assert forall|i: int, j: int| 0 <= i < j < r2.len() implies file_key(#[trigger] r2[i]) >= file_key(#[trigger] r2[j]) by {
        if j < p {
            assert(r2[i] == r[i] && r2[j] == r[j]);
        } else if j == p {
            assert(r2[j] == x && r2[i] == r[i]);
        } else if i > p {
            assert(r2[i] == r[i - 1] && r2[j] == r[j - 1]);
        } else if i == p {
            assert(r2[i] == x && r2[j] == b[j - p - 1]);
        } else {
            assert(r2[i] == r[i] && r2[j] == b[j - p - 1]);
        }
    }
    assert forall|k: int| #[trigger] key_class(r2, k)
        == if file_key(x) == k { key_class(r, k).push(x) } else { key_class(r, k) } by {
        Seq::filter_distributes_over_add(a + seq![x], b, |f: FileView| file_key(f) == k);
        Seq::filter_distributes_over_add(a, seq![x], |f: FileView| file_key(f) == k);
        Seq::filter_distributes_over_add(a, b, |f: FileView| file_key(f) == k);
        lemma_key_class_single(x, k);
        if file_key(x) == k {
            lemma_key_class_none(b, k);
            assert(key_class(r, k) =~= key_class(a, k));
            assert(key_class(r2, k) =~= key_class(a, k).push(x));
        } else {
            assert(key_class(r2, k) =~= key_class(a, k) + key_class(b, k));
        }
    }
}

/// Sorts the tilesets from the largest coverage down, keeping tilesets of
/// equal coverage in their order, as `sort_by` with `partial_cmp` does.
/// `partial_cmp` cannot order a NaN, so a NaN in a list of two or more
/// tilesets is left out.
pub fn sort_by_coverage(files: Vec<SingleFile>) -> (res: Vec<SingleFile>)
    requires
        files@.len() >= 2 ==> !has_nan_coverage(files_view(files@)),
    ensures
        stable_sorted_by_coverage(files_view(files@), files_view(res@)),
{
    let ghost orig = files_view(files@);
    let ghost mut perm: Seq<int> = Seq::empty();
    let mut rest = files;
    let mut out: Vec<SingleFile> = Vec::new();
    let n = rest.len();
    let mut i: usize = 0;
    while rest.len() > 0
        invariant
            n == orig.len(),
            i + rest@.len() == n,
            files_view(rest@) =~= orig.subrange(i as int, n as int),
            out@.len() == i,
            sorted_by_coverage(files_view(out@)),
            forall|k: int| #[trigger] key_class(files_view(out@), k) == key_class(orig.subrange(0, i as int), k),
            is_reordering(orig.subrange(0, i as int), files_view(out@), perm),
        decreases rest@.len(),
    {
        let ghost r = files_view(out@);
        let ghost before = rest@;
        assert(files_view(before)[0] == orig[i as int]);
        let x = rest.remove(0);
        assert(x == before[0]);
        assert(rest@ =~= before.subrange(1, before.len() as int));
        assert forall|t: int| 0 <= t < rest@.len() implies #[trigger] files_view(rest@)[t] == orig.subrange(i + 1, n as int)[t] by {
            assert(rest@[t] == before[t + 1]);
            assert(files_view(before)[t + 1] == orig.subrange(i as int, n as int)[t + 1]);
        }
        assert(files_view(rest@) =~= orig.subrange(i + 1, n as int));
        let mut p: usize = 0;
        while p < out.len()
            invariant
                0 <= p <= out@.len(),
                r == files_view(out@),
                x@ == orig[i as int],
                forall|t: int| 0 <= t < p ==> file_key(#[trigger] r[t]) >= file_key(x@),
            ensures
                0 <= p <= out@.len(),
                forall|t: int| 0 <= t < p ==> file_key(#[trigger] r[t]) >= file_key(x@),
                p < out@.len() ==> file_key(x@) > file_key(r[p as int]),
            decreases out@.len() - p,
        {
            if float_greater(x.coverage.bits, out[p].coverage.bits) {
                break;
            }
            p = p + 1;
        }
        proof {
            lemma_insert_sorted(r, p as int, x@);
        }
        out.insert(p, x);
        proof {
            assert(files_view(out@) =~= r.insert(p as int, x@));
            lemma_reordering_insert(orig, i as int, r, perm, p as int);
            perm = perm.insert(p as int, i as int);
            assert(orig.subrange(0, i + 1) =~= orig.subrange(0, i as int).push(orig[i as int]));
            assert forall|k: int| #[trigger] key_class(files_view(out@), k) == key_class(orig.subrange(0, i + 1), k) by {
                lemma_key_class_push(orig.subrange(0, i as int), orig[i as int], k);
            }
        }
        i = i + 1;
    }
    assert(orig.subrange(0, n as int) =~= orig);
    out
}

/// Placing row `i` of `orig` at position `p` extends a reordering of the
/// rows before `i`.
proof fn lemma_reordering_insert(orig: Seq<FileView>, i: int, r: Seq<FileView>, perm: Seq<int>, p: int)
    requires
        0 <= i < orig.len(),
        0 <= p <= r.len(),
        is_reordering(orig.subrange(0, i), r, perm),
    ensures
        is_reordering(orig.subrange(0, i + 1), r.insert(p, orig[i]), perm.insert(p, i)),
{
    let s2 = orig.subrange(0, i + 1);
    let r2 = r.insert(p, orig[i]);
    let q = perm.insert(p, i);
    assert(r2.len() == s2.len());
    assert forall|t: int| 0 <= t < r2.len() implies 0 <= #[trigger] q[t] < s2.len() && r2[t] == s2[q[t]] by {
        if t < p {
            assert(q[t] == perm[t] && r2[t] == r[t]);
        } else if t == p {
            assert(q[t] == i && r2[t] == orig[i]);
        } else {
            assert(q[t] == perm[t - 1] && r2[t] == r[t - 1]);
        }
    }
    assert forall|a: int, b: int| 0 <= a < b < r2.len() implies #[trigger] q[a] != #[trigger] q[b] by {
        if a < p && b < p {
            assert(q[a] == perm[a] && q[b] == perm[b]);
        } else if a < p && b == p {
            assert(q[a] == perm[a] && q[b] == i);
        } else if a < p {
            assert(q[a] == perm[a] && q[b] == perm[b - 1]);
        } else if a == p {
            assert(q[a] == i && q[b] == perm[b - 1]);
        } else {
            assert(q[a] == perm[a - 1] && q[b] == perm[b - 1]);
        }
    }
}

// ----------------------------------------------------------------------------
// Metadata.

/// The contents of a catalog that lists nothing yet: version 1, count 0.
pub open spec fn fresh_catalog(cell_id: u64) -> CatalogView {
    CatalogView {
        cell_id,
        metadata: seq![MetadataValue::Version(1), MetadataValue::Count(0)],
        files: Seq::<FileView>::empty(),
    }
}

/// A metadata row after one more tileset was counted.
pub open spec fn bump_count(m: MetadataValue) -> MetadataValue {
    match m {
        MetadataValue::Count(c) => MetadataValue::Count((c + 1) as u64),
        MetadataValue::Version(v) => MetadataValue::Version(v),
    }
}

/// No count row is at the largest `u64`, so each can be incremented.
pub open spec fn counts_below_max(m: Seq<MetadataValue>) -> bool {
    forall|i: int| 0 <= i < m.len() ==> !(#[trigger] m[i] matches MetadataValue::Count(c) && c == u64::MAX)
}

impl ParsedCatalogFile {
    /// The contents of a catalog of the given cell that lists nothing yet.
    pub fn new(cell_id: u64) -> (res: ParsedCatalogFile)
        ensures
            res@ == fresh_catalog(cell_id),
    {
        let res = ParsedCatalogFile {
            cell_id,
            metadata: vec![MetadataValue::Version(1), MetadataValue::Count(0)],
            files: Vec::new(),
        };
        assert(res@.metadata =~= fresh_catalog(cell_id).metadata);
        assert(res@.files =~= fresh_catalog(cell_id).files);
        res
    }

    /// Counts one more tileset in every count row.
    pub fn increment_count(&mut self)
        requires
            counts_below_max(old(self).metadata@),
        ensures
            final(self)@ == (CatalogView {
                metadata: old(self)@.metadata.map_values(|m: MetadataValue| bump_count(m)),
                ..old(self)@
            }),
    {
        let n = self.metadata.len();
        let ghost m0 = self.metadata@;
        let mut i: usize = 0;
        while i < n
            invariant
                n == self.metadata@.len(),
                n == m0.len(),
                counts_below_max(m0),
                i <= n,
                forall|t: int| 0 <= t < i ==> #[trigger] self.metadata@[t] == bump_count(m0[t]),
                forall|t: int| i <= t < n ==> #[trigger] self.metadata@[t] == m0[t],
                self.cell_id == old(self).cell_id,
                self.files@ == old(self).files@,
                m0 == old(self).metadata@,
            decreases n - i,
        {
            let v = self.metadata[i];
            match v {
                MetadataValue::Count(c) => {
                    assert(m0[i as int] == v);
                    self.metadata.set(i, MetadataValue::Count(c + 1));
                },
                MetadataValue::Version(_) => {},
            }
            i = i + 1;
        }
        assert(self.metadata@ =~= m0.map_values(|m: MetadataValue| bump_count(m)));
    }
}

// ----------------------------------------------------------------------------
// Adding a tileset.

impl SingleFile {
    /// The row of a tileset in a catalog: kind 1, the tileset's display name
    /// and hash, and its coverage of the catalog's cell.
    pub fn new_within_catalog(file: &InputFile, coverage: Coverage) -> (res: SingleFile)
        ensures
            res@ == new_entry(file, coverage@),
    {
        SingleFile {
            kind: 1,
            display_name: file.display_name.clone(),
            hash: file.hash.clone(),
            coverage,
        }
    }
}

/// The row that adding `file` with the given coverage makes.
pub open spec fn new_entry(file: &InputFile, coverage: CoverageView) -> FileView {
    FileView { kind: 1, display_name: file.display_name@, hash: file.hash@, coverage }
}

/// Some listed tileset has the hash `h`.
pub open spec fn has_hash(files: Seq<FileView>, h: Seq<char>) -> bool {
    exists|i: int| 0 <= i < files.len() && (#[trigger] files[i]).hash == h
}

/// `i` is the first position of a tileset with hash `h`.
pub open spec fn is_first_hash_index(files: Seq<FileView>, h: Seq<char>, i: int) -> bool {
    &&& 0 <= i < files.len()
    &&& files[i].hash == h
    &&& forall|j: int| 0 <= j < i ==> (#[trigger] files[j]).hash != h
}

/// What adding entry `e` to catalog `p` may not meet: a count that cannot
/// grow, or a NaN coverage when the list to sort has two or more rows.
pub open spec fn can_add_entry(p: CatalogView, e: FileView) -> bool {
    !has_hash(p.files, e.hash) ==> {
        &&& counts_below_max(p.metadata)
        &&& p.files.len() + 1 >= 2 ==> !has_nan_coverage(p.files.push(e))
    }
}

/// The catalog `q` is `p` after adding entry `e`: a tileset of the same hash
/// is replaced where it stands; otherwise the count grows by one and the new
/// row joins the list, which is then sorted from the largest coverage down.
pub open spec fn entry_added(p: CatalogView, e: FileView, q: CatalogView) -> bool {
    &&& q.cell_id == p.cell_id
    &&& forall|i: int| is_first_hash_index(p.files, e.hash, i) ==> {
        &&& q.files == p.files.update(i, e)
        &&& q.metadata == p.metadata
    }
    &&& !has_hash(p.files, e.hash) ==> {
        &&& q.metadata == p.metadata.map_values(|m: MetadataValue| bump_count(m))
        &&& stable_sorted_by_coverage(p.files.push(e), q.files)
    }
}

/// The position of the first tileset with hash `h`, if any.
fn position_of_hash(files: &Vec<SingleFile>, h: &String) -> (res: Option<usize>)
    ensures
        match res {
            Some(i) => is_first_hash_index(files_view(files@), h@, i as int),
            None => !has_hash(files_view(files@), h@),
        },
{
    let ghost fv = files_view(files@);
    let mut j: usize = 0;
    while j < files.len()
        invariant
            j <= files@.len(),
            fv == files_view(files@),
            forall|t: int| 0 <= t < j ==> (#[trigger] fv[t]).hash != h@,
        decreases files@.len() - j,
    {
        if files[j].hash == *h {
            assert(fv[j as int].hash == h@);
            return Some(j);
        }
        assert(fv[j as int].hash != h@);
        j = j + 1;
    }
    None
}

impl ParsedCatalogFile {
    /// Adds the entry to the contents, as `CatalogFile::add_file` describes.
    pub fn add_entry(&mut self, entry: SingleFile)
        requires
            can_add_entry(old(self)@, entry@),
        ensures
            entry_added(old(self)@, entry@, final(self)@),
    {
        let ghost e = entry@;
        let ghost p = self@;
        match position_of_hash(&self.files, &entry.hash) {
            Some(pos) => {
                self.files.set(pos, entry);
                assert(self@.files =~= p.files.update(pos as int, e));
                assert forall|i: int| is_first_hash_index(p.files, e.hash, i) implies i == pos by {
                    if i < pos {
                        assert(p.files[i].hash != e.hash);
                    } else if i > pos {
                        assert(p.files[pos as int].hash != e.hash);
                    }
                }
            },
            None => {
                self.increment_count();
                let mut files: Vec<SingleFile> = Vec::new();
                std::mem::swap(&mut files, &mut self.files);
                files.push(entry);
                assert(files_view(files@) =~= p.files.push(e));
                let sorted = sort_by_coverage(files);
                self.files = sorted;
            },
        }
    }
}

// ----------------------------------------------------------------------------
// The catalog of a cell.

/// The catalog file of one S2 cell: where it is kept, the cell, and its
/// contents once read.
pub struct CatalogFile {
    file_path: String,
    cell_id: u64,
    parsed_file: Option<ParsedCatalogFile>,
}

/// What a catalog file stands for.
pub struct CatalogFileView {
    pub file_path: Seq<char>,
    pub cell_id: u64,
    pub parsed: Option<CatalogView>,
}

impl CatalogFile {
    /// Read contents are those of the catalog's own cell.
    #[verifier::type_invariant]
    spec fn contents_of_own_cell(self) -> bool {
        self.parsed_file matches Some(p) ==> p.cell_id == self.cell_id
    }
}

impl View for CatalogFile {
    type V = CatalogFileView;

    closed spec fn view(&self) -> CatalogFileView {
        CatalogFileView {
            file_path: self.file_path@,
            cell_id: self.cell_id,
            parsed: match self.parsed_file {
                Some(p) => Some(p@),
                None => None,
            },
        }
    }
}

impl CatalogFile {
    /// Adds a tileset to the catalog, with its coverage of the catalog's cell.
    ///
    /// A tileset of the same hash is replaced where it stands.  Otherwise the
    /// count grows by one, the tileset joins the list, and the list is sorted
    /// from the largest coverage down, tilesets of equal coverage keeping
    /// their order.  The catalog must have been read first.
    pub fn add_file(&mut self, file: &InputFile, coverage: Coverage) -> (res: Result<(), CatalogError>)
        requires
            old(self)@.parsed matches Some(p) ==> can_add_entry(p, new_entry(file, coverage@)),
        ensures
            final(self)@.file_path == old(self)@.file_path,
            final(self)@.cell_id == old(self)@.cell_id,
            match old(self)@.parsed {
                None => {
                    &&& res matches Err(CatalogError::CatalogFileNotParsed)
                    &&& final(self)@ == old(self)@
                },
                Some(p) => {
                    &&& res is Ok
                    &&& final(self)@.parsed matches Some(q) && entry_added(p, new_entry(file, coverage@), q)
                },
            },
    {
        proof {
            use_type_invariant(&*self);
        }
        let mut contents: Option<ParsedCatalogFile> = None;
        std::mem::swap(&mut contents, &mut self.parsed_file);
        match contents {
            None => Err(CatalogError::CatalogFileNotParsed),
            Some(mut parsed) => {
                let single_file = SingleFile::new_within_catalog(file, coverage);
                parsed.add_entry(single_file);
                self.parsed_file = Some(parsed);
                Ok(())
            },
        }
    }
}

impl CatalogFile {
    /// Reads the catalog's contents from the rows of its file.
    ///
    /// `contents` is `None` where the file could not be read (most often
    /// because it does not exist yet); `coverages` holds, for each row, its
    /// fifth field read as a number.  Where the file cannot be read, or holds
    /// a row that the CSV reader cannot read, the catalog starts empty
    /// (version 1, count 0).  Otherwise a row with a problem is reported and
    /// the catalog is left as it was; the rows that have none become the
    /// catalog's contents.
    pub fn read(&mut self, contents: Option<&CsvRecords>, coverages: Vec<CoverageField>) -> (res: Result<(), CatalogError>)
        requires
            contents matches Some(c) ==> coverage_fields_match(c@.0, coverage_fields_view(coverages@)),
        ensures
            final(self)@.file_path == old(self)@.file_path,
            final(self)@.cell_id == old(self)@.cell_id,
            match contents {
                None => res is Ok && final(self)@.parsed == Some(fresh_catalog(old(self)@.cell_id)),
                Some(c) => match read_rows(c@.0, coverage_fields_view(coverages@)) {
                    Err(problem) => {
                        &&& res matches Err(e) && error_for(e, problem)
                        &&& final(self)@ == old(self)@
                    },
                    Ok((m, f)) => {
                        &&& res is Ok
                        &&& final(self)@.parsed == Some(
                            if c@.1 {
                                fresh_catalog(old(self)@.cell_id)
                            } else {
                                CatalogView { cell_id: old(self)@.cell_id, metadata: m, files: f }
                            },
                        )
                    },
                },
            },
    {
        match contents {
            None => {
                self.parsed_file = Some(ParsedCatalogFile::new(self.cell_id));
                Ok(())
            },
            Some(c) => match read_catalog_rows(&c.records, coverages) {
                Err(e) => Err(e),
                Ok((metadata, files)) => {
                    if c.failed {
                        self.parsed_file = Some(ParsedCatalogFile::new(self.cell_id));
                    } else {
                        self.parsed_file = Some(ParsedCatalogFile { cell_id: self.cell_id, metadata, files });
                    }
                    Ok(())
                },
            },
        }
    }

    /// Writes the catalog's rows as CSV to the end of `out`: the metadata
    /// rows, then one row per tileset.  The catalog must have been read
    /// first; a read catalog is always written, and the `csv` reader reads
    /// the written bytes back as the same rows.
    pub fn write_to(&self, out: &mut Vec<u8>) -> (res: Result<(), CatalogError>)
        ensures
            match self@.parsed {
                None => res matches Err(CatalogError::CatalogFileNotParsed) && final(out)@ == old(out)@,
                Some(p) => {
                    &&& res is Ok
                    &&& p.cell_id == self@.cell_id
                    &&& final(out)@ == old(out)@ + csv_written(catalog_rows(p))
                    &&& csv_read_rows(csv_written(catalog_rows(p))) == (catalog_rows(p), false)
                },
            },
    {
        proof {
            use_type_invariant(self);
        }
        match &self.parsed_file {
            None => Err(CatalogError::CatalogFileNotParsed),
            Some(parsed) => {
                let rows = catalog_rows_of(parsed);
                proof {
                    lemma_catalog_rows_read_back(parsed@);
                }
                match write_csv_rows(&rows) {
                    Ok(mut bytes) => {
                        out.append(&mut bytes);
                        Ok(())
                    },
                    Err(e) => Err(CatalogError::CSVError(e)),
                }
            },
        }
    }
}

/// Every row of a catalog has three fields or five, and the first field of
/// each starts with `m` or `f`.
proof fn lemma_catalog_rows_read_back(c: CatalogView)
    ensures
        rows_have_two_fields(catalog_rows(c)),
        no_leading_bom(catalog_rows(c)),
{
    reveal_strlit("meta");
    reveal_strlit("file");
    let rows = catalog_rows(c);
    let nm = c.metadata.len() as int;
    assert forall|i: int| 0 <= i < rows.len() implies (#[trigger] rows[i]).len() >= 2 && rows[i][0].len() > 0
        && rows[i][0][0] != '\u{feff}' by {
        if i < nm {
            assert(rows[i] == crate::catalog_format::meta_row(c.metadata[i]));
        } else {
            assert(rows[i] == crate::catalog_format::file_row(c.files[i - nm]));
        }
    }
}

/// The name of the catalog file of a cell: its token and `.csv`.
pub open spec fn catalog_name(cell_id: u64) -> Seq<char> {
    cell_token(cell_id) + seq!['.', 'c', 's', 'v']
}

/// The name of the catalog file of a cell: its token and `.csv`.
pub fn catalog_file_name(cell_id: u64) -> (res: String)
    ensures
        res@ == catalog_name(cell_id),
{
    let mut name = to_token(cell_id);
    push_char(&mut name, '.');
    push_char(&mut name, 'c');
    push_char(&mut name, 's');
    push_char(&mut name, 'v');
    assert(name@ =~= catalog_name(cell_id));
    name
}

/// The name of a cell's catalog file is `.csv` after a stem that names the
/// cell: a non-empty run of lower-case hexadecimal digits, not ending in
/// `0`, that reads back as the cell.  So the stem is the cell's token, with
/// nothing added and nothing left out.
pub proof fn lemma_catalog_name_names_cell(cell_id: u64)
    requires
        cell_id != 0,
    ensures
        catalog_name(cell_id).len() > 4,
        catalog_name(cell_id).subrange(catalog_name(cell_id).len() - 4, catalog_name(cell_id).len() as int)
            == seq!['.', 'c', 's', 'v'],
        ({
            let stem = catalog_name(cell_id).subrange(0, catalog_name(cell_id).len() - 4);
            &&& stem.len() > 0
            &&& forall|i: int| 0 <= i < stem.len() ==> is_word_char_hex(#[trigger] stem[i])
            &&& stem.last() != '0'
            &&& token_cell(stem) == cell_id
        }),
{
    lemma_token_names_cell(cell_id);
    let n = catalog_name(cell_id);
    let t = cell_token(cell_id);
    assert(n.subrange(0, n.len() - 4) =~= t);
    assert(n.subrange(n.len() - 4, n.len() as int) =~= seq!['.', 'c', 's', 'v']);
}

/// The path of the catalog file of a cell in a directory.
pub open spec fn catalog_path(dir: Seq<char>, cell_id: u64) -> Seq<char> {
    dir + seq!['/'] + catalog_name(cell_id)
}

impl CatalogFile {
    /// The catalog kept at `file`, for the cell whose token is the file's
    /// name without its extension; not read yet.
    pub fn new(file: String) -> (res: CatalogFile)
        requires
            path_file_stem(file@) is Some,
        ensures
            res@ == (CatalogFileView {
                file_path: file@,
                cell_id: token_cell(path_file_stem(file@).unwrap()),
                parsed: None,
            }),
    {
        match file_stem(file.as_str()) {
            Some(cell_token) => {
                let cell_id = from_token(cell_token.as_str());
                CatalogFile { file_path: file, parsed_file: None, cell_id }
            },
            None => {
                proof {
                    assert(false);
                }
                CatalogFile { file_path: file, parsed_file: None, cell_id: 0 }
            },
        }
    }

    /// The catalog kept at `file`, where the path has a file name; `None`
    /// where it has none (where `new` would stop the program).
    pub fn for_path(file: String) -> (res: Option<CatalogFile>)
        ensures
            match path_file_stem(file@) {
                Some(stem) => res matches Some(c) && c@ == (CatalogFileView {
                    file_path: file@,
                    cell_id: token_cell(stem),
                    parsed: None,
                }),
                None => res is None,
            },
    {
        match file_stem(file.as_str()) {
            Some(_) => Some(CatalogFile::new(file)),
            None => None,
        }
    }

    /// The catalog of a cell in a directory: the file named by the cell's
    /// token, which names that very cell back.
    pub fn for_cell(dir: &str, cell_id: u64) -> (res: CatalogFile)
        requires
            is_valid_cell(cell_id),
            is_plain_dir(dir@),
        ensures
            res@ == (CatalogFileView { file_path: catalog_path(dir@, cell_id), cell_id, parsed: None }),
    {
        let mut path = String::from_str(dir);
        push_char(&mut path, '/');
        let name = catalog_file_name(cell_id);
        path.append(name.as_str());
        proof {
            assert(cell_id != 0) by {
                assert(vstd::std_specs::bits::u64_trailing_zeros(0) == 64);
            }
            lemma_token_names_cell(cell_id);
            let token = cell_token(cell_id);
            let ext = seq!['c', 's', 'v'];
            assert(is_plain_word(token)) by {
                assert forall|i: int| 0 <= i < token.len() implies crate::paths::is_word_char(#[trigger] token[i]) by {
                    assert(crate::cells::is_word_char_hex(token[i]));
                }
            }
            assert(is_plain_word(ext)) by {
                assert(ext[0] == 'c' && ext[1] == 's' && ext[2] == 'v');
            }
            assert(path@ =~= dir@ + seq!['/'] + token + seq!['.'] + ext);
            lemma_plain_path_stem(dir@, token, ext);
        }
        proof {
            assert(path@ =~= catalog_path(dir@, cell_id));
        }
        match file_stem(path.as_str()) {
            Some(token) => {
                let id = from_token(token.as_str());
                CatalogFile { file_path: path, parsed_file: None, cell_id: id }
            },
            None => {
                proof {
                    assert(false);
                }
                CatalogFile { file_path: path, parsed_file: None, cell_id }
            },
        }
    }

    /// The cell of the catalog.
    pub fn cell_id(&self) -> (res: u64)
        ensures
            res == self@.cell_id,
    {
        self.cell_id
    }

    /// The path of the catalog file.
    pub fn file_path(&self) -> (res: &str)
        ensures
            res@ == self@.file_path,
    {
        self.file_path.as_str()
    }

    /// The catalog's contents, where it has been read.
    pub fn parsed(&self) -> (res: Option<&ParsedCatalogFile>)
        ensures
            match self@.parsed {
                Some(p) => res matches Some(q) && q@ == p && q@.cell_id == self@.cell_id,
                None => res is None,
            },
    {
        proof {
            use_type_invariant(self);
        }
        match &self.parsed_file {
            Some(p) => Some(p),
            None => None,
        }
    }
}

} // verus!
