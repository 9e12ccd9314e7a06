//! The rows of a catalog file: what each row means when read, and the rows
//! that a catalog's contents are written as.
use vstd::prelude::*;
use crate::catalog_file::{
    files_view, CatalogView, FileView, MetadataValue, ParsedCatalogFile, SingleFile,
};
use crate::coverage::{Coverage, CoverageView};
use crate::errors::CatalogError;
use crate::text::{decimal_digits, decimal_text, parse_u64, parse_u8, text_is, unsigned_decimal};

verus! {

/// The coverage field of a row (its fifth field) as the reader of the file
/// found it: absent, read as a number, or not a number.
pub enum CoverageField {
    Absent,
    Parsed(Coverage),
    Invalid(std::num::ParseFloatError),
}

/// What a coverage field stands for: the error of an invalid field is
/// carried as it is.
pub enum CoverageFieldView {
    Absent,
    Parsed(CoverageView),
    Invalid(std::num::ParseFloatError),
}

impl View for CoverageField {
    type V = CoverageFieldView;

    open spec fn view(&self) -> CoverageFieldView {
        match self {
            CoverageField::Absent => CoverageFieldView::Absent,
            CoverageField::Parsed(c) => CoverageFieldView::Parsed(c@),
            CoverageField::Invalid(e) => CoverageFieldView::Invalid(*e),
        }
    }
}

/// The views of the coverage fields of a run of rows.
pub open spec fn coverage_fields_view(v: Seq<CoverageField>) -> Seq<CoverageFieldView> {
    Seq::new(v.len(), |i: int| v[i]@)
}

/// There is one coverage field per row, present exactly where the row has a
/// fifth field.
pub open spec fn coverage_fields_match(rows: Seq<Seq<Seq<char>>>, covs: Seq<CoverageFieldView>) -> bool {
    &&& covs.len() == rows.len()
    &&& forall|i: int| 0 <= i < rows.len() ==> ((#[trigger] covs[i]) is Absent <==> rows[i].len() <= 4)
}

/// What one row of a catalog file means.
pub enum RowMeaning {
    Meta(MetadataValue),
    File(FileView),
    Ignored,
    /// A needed field is missing; the text says which.
    Missing(Seq<char>),
    BadInteger,
    /// The coverage field is not a number; the error says why.
    BadFloat(std::num::ParseFloatError),
}

/// The meaning of a row, given its coverage field: `meta` rows with
/// `version` or `count` and a value, `file` rows with kind, display name,
/// hash and coverage; any other row is ignored.  The first problem met,
/// field by field, is the row's meaning where there is one.
pub open spec fn row_meaning(r: Seq<Seq<char>>, cov: CoverageFieldView) -> RowMeaning {
    if r.len() > 0 && r[0] == "meta"@ {
        if r.len() > 1 && r[1] == "version"@ {
            if r.len() <= 2 {
                RowMeaning::Missing("No version found"@)
            } else {
                match unsigned_decimal(r[2]) {
                    Some(v) if v <= u8::MAX => RowMeaning::Meta(MetadataValue::Version(v as u8)),
                    _ => RowMeaning::BadInteger,
                }
            }
        } else if r.len() > 1 && r[1] == "count"@ {
            if r.len() <= 2 {
                RowMeaning::Missing("No count found"@)
            } else {
                match unsigned_decimal(r[2]) {
                    Some(v) if v <= u64::MAX => RowMeaning::Meta(MetadataValue::Count(v as u64)),
                    _ => RowMeaning::BadInteger,
                }
            }
        } else {
            RowMeaning::Ignored
        }
    } else if r.len() > 0 && r[0] == "file"@ {
        if r.len() <= 1 {
            RowMeaning::Missing("No kind found"@)
        } else if r.len() <= 2 {
            RowMeaning::Missing("No display name found"@)
        } else if r.len() <= 3 {
            RowMeaning::Missing("No hash found"@)
        } else if r.len() <= 4 {
            RowMeaning::Missing("No coverage found"@)
        } else {
            match unsigned_decimal(r[1]) {
                Some(k) if k <= u8::MAX => match cov {
                    CoverageFieldView::Parsed(c) => RowMeaning::File(
                        FileView { kind: k as u8, display_name: r[2], hash: r[3], coverage: c },
                    ),
                    CoverageFieldView::Invalid(e) => RowMeaning::BadFloat(e),
                    CoverageFieldView::Absent => RowMeaning::Ignored,
                },
                _ => RowMeaning::BadInteger,
            }
        }
    } else {
        RowMeaning::Ignored
    }
}

/// The metadata and the tilesets that the rows of a catalog file list, in
/// file order; or the problem of the first row that has one.
pub open spec fn read_rows(rows: Seq<Seq<Seq<char>>>, covs: Seq<CoverageFieldView>) -> Result<
    (Seq<MetadataValue>, Seq<FileView>),
    RowMeaning,
>
    decreases rows.len(),
{
    if rows.len() == 0 {
        Ok((Seq::<MetadataValue>::empty(), Seq::<FileView>::empty()))
    } else {
        match read_rows(rows.drop_last(), covs) {
            Err(e) => Err(e),
            Ok((m, f)) => match row_meaning(rows.last(), covs[rows.len() - 1]) {
                RowMeaning::Meta(x) => Ok((m.push(x), f)),
                RowMeaning::File(x) => Ok((m, f.push(x))),
                RowMeaning::Ignored => Ok((m, f)),
                e => Err(e),
            },
        }
    }
}

/// The error that the library reports for the problem of a row.
pub open spec fn error_for(e: CatalogError, problem: RowMeaning) -> bool {
    match problem {
        RowMeaning::Missing(msg) => e matches CatalogError::GenericError(m) && m@ == msg,
        RowMeaning::BadInteger => e is ParseIntError,
        RowMeaning::BadFloat(pe) => e matches CatalogError::ParseFloatError(x) && x == pe,
        _ => false,
    }
}

/// The rows of a metadata entry.
pub open spec fn meta_row(m: MetadataValue) -> Seq<Seq<char>> {
    match m {
        MetadataValue::Version(v) => seq!["meta"@, "version"@, decimal_digits(v as nat)],
        MetadataValue::Count(c) => seq!["meta"@, "count"@, decimal_digits(c as nat)],
    }
}

/// The row of a listed tileset.
pub open spec fn file_row(f: FileView) -> Seq<Seq<char>> {
    seq!["file"@, decimal_digits(f.kind as nat), f.display_name, f.hash, f.coverage.text]
}

/// A tileset is written as a row of five fields: `file`, its kind in
/// decimal, its display name, its hash and its coverage text, in that order.
pub proof fn lemma_file_row_fields(f: FileView)
    ensures
        file_row(f).len() == 5,
        file_row(f)[0] == "file"@,
        unsigned_decimal(file_row(f)[1]) == Some(f.kind as nat),
        file_row(f)[2] == f.display_name,
        file_row(f)[3] == f.hash,
        file_row(f)[4] == f.coverage.text,
{
    crate::text::lemma_decimal_roundtrip(f.kind as nat);
}

/// A `file` row of five fields or more, with a kind that fits a byte and a
/// coverage read as a number, lists the tileset whose kind is field 1, whose
/// display name is field 2, whose hash is field 3 and whose coverage is that
/// number; what the fields hold does not change which is which.
pub proof fn lemma_file_row_read(r: Seq<Seq<char>>, c: CoverageView)
    requires
        r.len() >= 5,
        r[0] == "file"@,
        unsigned_decimal(r[1]) matches Some(k) && k <= u8::MAX,
    ensures
        row_meaning(r, CoverageFieldView::Parsed(c)) == RowMeaning::File(FileView {
            kind: unsigned_decimal(r[1]).unwrap() as u8,
            display_name: r[2],
            hash: r[3],
            coverage: c,
        }),
{
    reveal_strlit("meta");
    reveal_strlit("file");
    assert(r[0] != "meta"@) by {
        assert(r[0][0] != "meta"@[0]);
    }
}

/// The rows that a catalog's contents are written as: the metadata rows,
/// then one row per tileset, in order.
pub open spec fn catalog_rows(c: CatalogView) -> Seq<Seq<Seq<char>>> {
    c.metadata.map_values(|m: MetadataValue| meta_row(m)) + c.files.map_values(|f: FileView| file_row(f))
}

/// A row read without a problem.
pub enum RowValue {
    Meta(MetadataValue),
    File(SingleFile),
    Ignored,
}

/// The row value stands for the meaning.
pub open spec fn row_value_is(v: RowValue, m: RowMeaning) -> bool {
    match v {
        RowValue::Meta(x) => m == RowMeaning::Meta(x),
        RowValue::File(f) => m == RowMeaning::File(f@),
        RowValue::Ignored => m == RowMeaning::Ignored,
    }
}

/// The row meanings that are problems.
pub open spec fn is_problem(m: RowMeaning) -> bool {
    m is Missing || m is BadInteger || m is BadFloat
}

/// Reads one row of a catalog file.
pub fn read_row(r: &Vec<String>, cov: CoverageField) -> (res: Result<RowValue, CatalogError>)
    requires
        cov@ is Absent <==> r@.len() <= 4,
    ensures
        match res {
            Ok(v) => row_value_is(v, row_meaning(r.deep_view(), cov@)),
            Err(e) => is_problem(row_meaning(r.deep_view(), cov@)) && error_for(e, row_meaning(r.deep_view(), cov@)),
        },
{
    let ghost rv = r.deep_view();
    proof {
        reveal_strlit("meta");
        reveal_strlit("version");
        reveal_strlit("count");
        reveal_strlit("file");
    }
    let n = r.len();
    assert(rv.len() == n);
    if n > 0 && text_is(&r[0], "meta") {
        assert(rv[0] == "meta"@);
        if n > 1 && text_is(&r[1], "version") {
            if n <= 2 {
                return Err(CatalogError::from_message("No version found"));
            }
            match parse_u8(r[2].as_str()) {
                Ok(v) => Ok(RowValue::Meta(MetadataValue::Version(v))),
                Err(e) => Err(CatalogError::ParseIntError(e)),
            }
        } else if n > 1 && text_is(&r[1], "count") {
            if n <= 2 {
                return Err(CatalogError::from_message("No count found"));
            }
            match parse_u64(r[2].as_str()) {
                Ok(v) => Ok(RowValue::Meta(MetadataValue::Count(v))),
                Err(e) => Err(CatalogError::ParseIntError(e)),
            }
        } else {
            Ok(RowValue::Ignored)
        }
    } else if n > 0 && text_is(&r[0], "file") {
        if n <= 1 {
            return Err(CatalogError::from_message("No kind found"));
        }
        if n <= 2 {
            return Err(CatalogError::from_message("No display name found"));
        }
        if n <= 3 {
            return Err(CatalogError::from_message("No hash found"));
        }
        if n <= 4 {
            return Err(CatalogError::from_message("No coverage found"));
        }
        let kind = match parse_u8(r[1].as_str()) {
            Ok(k) => k,
            Err(e) => {
                return Err(CatalogError::ParseIntError(e));
            },
        };
        match cov {
            CoverageField::Parsed(c) => {
                let f = SingleFile {
                    kind,
                    display_name: r[2].clone(),
                    hash: r[3].clone(),
                    coverage: c,
                };
                Ok(RowValue::File(f))
            },
            CoverageField::Invalid(e) => Err(CatalogError::ParseFloatError(e)),
            CoverageField::Absent => Ok(RowValue::Ignored),
        }
    } else {
        Ok(RowValue::Ignored)
    }
}

/// Reads the rows of a catalog file in order: the metadata and tilesets that
/// they list, or the error of the first row with a problem.
pub fn read_catalog_rows(rows: &Vec<Vec<String>>, covs: Vec<CoverageField>) -> (res: Result<
    (Vec<MetadataValue>, Vec<SingleFile>),
    CatalogError,
>)
    requires
        coverage_fields_match(rows.deep_view(), coverage_fields_view(covs@)),
    ensures
        match read_rows(rows.deep_view(), coverage_fields_view(covs@)) {
            Ok((m, f)) => res matches Ok((rm, rf)) && rm@ == m && files_view(rf@) == f,
            Err(p) => res matches Err(e) && error_for(e, p),
        },
{
    let ghost rv = rows.deep_view();
    let ghost cv = coverage_fields_view(covs@);
    let mut fields = covs;
    let mut metadata: Vec<MetadataValue> = Vec::new();
    let mut files: Vec<SingleFile> = Vec::new();
    let n = rows.len();
    let mut i: usize = 0;
    assert(rv.subrange(0, 0).len() == 0);
    assert(files_view(files@) =~= Seq::<FileView>::empty());
    assert(metadata@ =~= Seq::<MetadataValue>::empty());
    while i < n
        invariant
            n == rv.len(),
            rv == rows.deep_view(),
            cv == coverage_fields_view(covs@),
            fields@.len() == n,
            forall|t: int| i <= t < n ==> (#[trigger] fields@[t])@ == cv[t],
            coverage_fields_match(rv, cv),
            i <= n,
            read_rows(rv.subrange(0, i as int), cv) == Ok::<(Seq<MetadataValue>, Seq<FileView>), RowMeaning>((metadata@, files_view(files@))),
        decreases n - i,
    {
        assert(rv.subrange(0, i + 1).drop_last() =~= rv.subrange(0, i as int));
        assert(rv.subrange(0, i + 1).last() == rv[i as int]);
        assert(rows[i as int].deep_view() == rv[i as int]);
        let mut cov = CoverageField::Absent;
        std::mem::swap(&mut cov, &mut fields[i]);
        assert(cv[i as int] == cov@);
        match read_row(&rows[i], cov) {
            Ok(RowValue::Meta(x)) => {
                metadata.push(x);
            },
            Ok(RowValue::File(f)) => {
                let ghost before = files_view(files@);
                files.push(f);
                assert(files_view(files@) =~= before.push(f@));
            },
            Ok(RowValue::Ignored) => {},
            Err(e) => {
                proof {
                    lemma_problem_persists(rv, cv, (i + 1) as int);
                    assert(rv.subrange(0, n as int) =~= rv);
                }
                return Err(e);
            },
        }
        i = i + 1;
    }
    assert(rv.subrange(0, n as int) =~= rv);
    Ok((metadata, files))
}

/// Once a row has a problem, the rows read from there on keep it.
proof fn lemma_problem_persists(rows: Seq<Seq<Seq<char>>>, covs: Seq<CoverageFieldView>, i: int)
    requires
        0 <= i <= rows.len(),
        read_rows(rows.subrange(0, i), covs) is Err,
    ensures
        read_rows(rows, covs) == read_rows(rows.subrange(0, i), covs),
    decreases rows.len() - i,
{
    if i < rows.len() {
        let r2 = rows.subrange(0, i + 1);
        assert(r2.drop_last() =~= rows.subrange(0, i));
        lemma_problem_persists(rows, covs, i + 1);
    } else {
        assert(rows.subrange(0, i) =~= rows);
    }
}

/// The rows that the contents of a catalog are written as.
pub fn catalog_rows_of(p: &ParsedCatalogFile) -> (res: Vec<Vec<String>>)
    ensures
        res.deep_view() == catalog_rows(p@),
{
    proof {
        reveal_strlit("meta");
        reveal_strlit("version");
        reveal_strlit("count");
        reveal_strlit("file");
    }
    let ghost metas = p@.metadata.map_values(|m: MetadataValue| meta_row(m));
    let ghost fs = p@.files.map_values(|f: FileView| file_row(f));
    let mut rows: Vec<Vec<String>> = Vec::new();
    let nm = p.metadata.len();
    let mut i: usize = 0;
    while i < nm
        invariant
            nm == p@.metadata.len(),
            metas == p@.metadata.map_values(|m: MetadataValue| meta_row(m)),
            i <= nm,
            rows.deep_view() =~= metas.subrange(0, i as int),
        decreases nm - i,
    {
        let row: Vec<String> = match p.metadata[i] {
            MetadataValue::Version(v) => vec![String::from_str("meta"), String::from_str("version"), decimal_text(v as u64)],
            MetadataValue::Count(c) => vec![String::from_str("meta"), String::from_str("count"), decimal_text(c)],
        };
        assert(row.deep_view() =~= meta_row(p@.metadata[i as int]));
        let ghost before = rows.deep_view();
        rows.push(row);
        assert(rows.deep_view() =~= before.push(meta_row(p@.metadata[i as int])));
        i = i + 1;
    }
    let nf = p.files.len();
    let mut j: usize = 0;
    while j < nf
        invariant
            nf == p@.files.len(),
            nm == metas.len(),
            metas == p@.metadata.map_values(|m: MetadataValue| meta_row(m)),
            fs == p@.files.map_values(|f: FileView| file_row(f)),
            j <= nf,
            rows.deep_view() =~= metas + fs.subrange(0, j as int),
        decreases nf - j,
    {
        let f = &p.files[j];
        let row: Vec<String> = vec![
            String::from_str("file"),
            decimal_text(f.kind as u64),
            f.display_name.clone(),
            f.hash.clone(),
            f.coverage.text.clone(),
        ];
        assert(p@.files[j as int] == f@);
        assert(row.deep_view() =~= file_row(f@));
        let ghost before = rows.deep_view();
        rows.push(row);
        assert(rows.deep_view() =~= before.push(file_row(f@)));
        assert(fs.subrange(0, j + 1) =~= fs.subrange(0, j as int).push(fs[j as int]));
        j = j + 1;
    }
    assert(fs.subrange(0, nf as int) =~= fs);
    rows
}

} // verus!
