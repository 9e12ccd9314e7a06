//! What holds of the catalog across its operations.
use vstd::prelude::*;
use crate::catalog_format::{
    catalog_rows, coverage_fields_match, file_row, meta_row, read_rows, row_meaning, CoverageFieldView,
    RowMeaning,
};
use crate::catalog_file::MetadataValue;
use crate::csv_io::{csv_read_rows, csv_written};
use crate::text::{decimal_digits, lemma_decimal_roundtrip, unsigned_decimal};
use crate::catalog_file::{
    can_add_entry, entry_added, has_hash, is_first_hash_index, is_reordering, key_class,
    stable_sorted_by_coverage, CatalogView, FileView,
};

verus! {

/// No two listed tilesets have the same hash.
pub open spec fn distinct_hashes(files: Seq<FileView>) -> bool {
    forall|i: int, j: int| 0 <= i < j < files.len() ==> (#[trigger] files[i]).hash != (#[trigger] files[j]).hash
}

proof fn reordering_of(s: Seq<FileView>, r: Seq<FileView>) -> (perm: Seq<int>)
    requires
        stable_sorted_by_coverage(s, r),
    ensures
        is_reordering(s, r, perm),
{
    choose|perm: Seq<int>| is_reordering(s, r, perm)
}

/// Adding a tileset keeps every hash listed at most once.
pub proof fn lemma_add_keeps_hashes_distinct(p: CatalogView, e: FileView, q: CatalogView)
    requires
        entry_added(p, e, q),
        distinct_hashes(p.files),
    ensures
        distinct_hashes(q.files),
{
    if has_hash(p.files, e.hash) {
        let i = choose|i: int| 0 <= i < p.files.len() && (#[trigger] p.files[i]).hash == e.hash;
        assert(is_first_hash_index(p.files, e.hash, i)) by {
            assert forall|j: int| 0 <= j < i implies (#[trigger] p.files[j]).hash != e.hash by {
                assert(p.files[j].hash != p.files[i].hash);
            }
        }
        assert(q.files == p.files.update(i, e));
        assert forall|a: int, b: int| 0 <= a < b < q.files.len() implies (#[trigger] q.files[a]).hash != (#[trigger] q.files[b]).hash by {
            if a != i && b != i {
                assert(q.files[a] == p.files[a] && q.files[b] == p.files[b]);
            } else if a == i {
                assert(q.files[b] == p.files[b]);
                assert(p.files[i].hash != p.files[b].hash);
            } else {
                assert(q.files[a] == p.files[a]);
                assert(p.files[a].hash != p.files[i].hash);
            }
        }
    } else {
        let s = p.files.push(e);
        let perm = reordering_of(s, q.files);
        assert forall|a: int, b: int| 0 <= a < b < q.files.len() implies (#[trigger] q.files[a]).hash != (#[trigger] q.files[b]).hash by {
            let x = perm[a];
            let y = perm[b];
            assert(q.files[a] == s[x] && q.files[b] == s[y]);
            assert(x != y);
            if x < p.files.len() && y < p.files.len() {
                if x < y {
                    assert(p.files[x].hash != p.files[y].hash);
                } else {
                    assert(p.files[y].hash != p.files[x].hash);
                }
            } else if x < p.files.len() {
                assert(s[y] == e);
                assert(p.files[x].hash != e.hash);
            } else {
                assert(s[x] == e);
                assert(p.files[y].hash != e.hash);
            }
        }
    }
}

/// After a tileset is added, its row is listed, at the first position of
/// its hash.
pub proof fn lemma_added_entry_listed(p: CatalogView, e: FileView, q: CatalogView)
    requires
        entry_added(p, e, q),
    ensures
        exists|i: int| is_first_hash_index(q.files, e.hash, i) && q.files[i] == e,
        can_add_entry(q, e),
{
    if has_hash(p.files, e.hash) {
        let i = lemma_first_hash_index(p.files, e.hash);
        assert(q.files == p.files.update(i, e));
        assert(is_first_hash_index(q.files, e.hash, i)) by {
            assert forall|j: int| 0 <= j < i implies (#[trigger] q.files[j]).hash != e.hash by {
                assert(q.files[j] == p.files[j]);
            }
        }
        assert(q.files[i] == e);
    } else {
        let s = p.files.push(e);
        let perm = reordering_of(s, q.files);
        // the rows of `q` with hash `e.hash` are `e` alone
        assert forall|j: int| 0 <= j < q.files.len() && (#[trigger] q.files[j]).hash == e.hash implies q.files[j] == e by {
            let x = perm[j];
            assert(q.files[j] == s[x]);
            if x < p.files.len() {
                assert(s[x] == p.files[x]);
                assert(has_hash(p.files, e.hash));
            }
        }
        // `e` is in `q`, through its class
        let k = crate::catalog_file::file_key(e);
        assert(key_class(q.files, k) == key_class(s, k));
        assert(s.drop_last() =~= p.files);
        reveal_with_fuel(Seq::filter, 1);
        assert(key_class(s, k) == key_class(p.files, k).push(e));
        assert(key_class(s, k).contains(e)) by {
            assert(key_class(s, k)[key_class(s, k).len() - 1] == e);
        }
        q.files.lemma_filter_contains_rev(|f: FileView| crate::catalog_file::file_key(f) == k, e);
        assert(q.files.contains(e));
        let j = choose|j: int| 0 <= j < q.files.len() && q.files[j] == e;
        let i = lemma_first_hash_index(q.files, e.hash);
        assert(q.files[i] == e);
    }
}

/// Where some row has the hash, there is a first such row.
proof fn lemma_first_hash_index(files: Seq<FileView>, h: Seq<char>) -> (i: int)
    requires
        has_hash(files, h),
    ensures
        is_first_hash_index(files, h, i),
    decreases files.len(),
{
    if files[0].hash == h {
        0
    } else {
        let rest = files.drop_first();
        let j = choose|j: int| 0 <= j < files.len() && (#[trigger] files[j]).hash == h;
        assert(rest[j - 1] == files[j]);
        let k = lemma_first_hash_index(rest, h);
        assert forall|t: int| 0 <= t < k + 1 implies (#[trigger] files[t]).hash != h by {
            if t > 0 {
                assert(files[t] == rest[t - 1]);
            }
        }
        k + 1
    }
}

/// Adding the same tileset twice leaves the catalog as adding it once: the
/// count does not grow again, and the list does not change.
pub proof fn lemma_add_twice_same_as_once(p: CatalogView, e: FileView, q: CatalogView, r: CatalogView)
    requires
        entry_added(p, e, q),
        entry_added(q, e, r),
    ensures
        r == q,
{
    lemma_added_entry_listed(p, e, q);
    let i = choose|i: int| is_first_hash_index(q.files, e.hash, i) && q.files[i] == e;
    assert(r.files == q.files.update(i, e));
    assert(r.files =~= q.files);
    assert(r.metadata == q.metadata);
}

// ----------------------------------------------------------------------------
// Writing and reading back.

/// The coverage fields of the written rows of a catalog, where each coverage
/// text reads back as the coverage that was written.
pub open spec fn written_coverage_fields(c: CatalogView) -> Seq<CoverageFieldView> {
    Seq::new(c.metadata.len(), |i: int| CoverageFieldView::Absent)
        + c.files.map_values(|f: FileView| CoverageFieldView::Parsed(f.coverage))
}

proof fn lemma_meta_row_reads(m: MetadataValue, cov: CoverageFieldView)
    ensures
        row_meaning(meta_row(m), cov) == RowMeaning::Meta(m),
        meta_row(m).len() == 3,
{
    reveal_strlit("meta");
    reveal_strlit("version");
    reveal_strlit("count");
    match m {
        MetadataValue::Version(v) => {
            lemma_decimal_roundtrip(v as nat);
        },
        MetadataValue::Count(c) => {
            lemma_decimal_roundtrip(c as nat);
            assert("count"@ != "version"@) by {
                assert("count"@[0] != "version"@[0]);
            }
        },
    }
}

proof fn lemma_file_row_reads(f: FileView)
    ensures
        row_meaning(file_row(f), CoverageFieldView::Parsed(f.coverage)) == RowMeaning::File(f),
        file_row(f).len() == 5,
{
    reveal_strlit("meta");
    reveal_strlit("file");
    lemma_decimal_roundtrip(f.kind as nat);
    assert("file"@ != "meta"@) by {
        assert("file"@[0] != "meta"@[0]);
    }
}

/// Reading the rows that a catalog is written as, where each coverage text
/// reads back as the coverage that was written, gives back the same
/// metadata and tilesets.
pub proof fn lemma_write_then_read(c: CatalogView)
    ensures
        coverage_fields_match(catalog_rows(c), written_coverage_fields(c)),
        read_rows(catalog_rows(c), written_coverage_fields(c)) == Ok::<(Seq<MetadataValue>, Seq<FileView>), RowMeaning>((c.metadata, c.files)),
{
    let rows = catalog_rows(c);
    let covs = written_coverage_fields(c);
    let nm = c.metadata.len() as int;
    let nf = c.files.len() as int;
    assert(rows.len() == nm + nf);
    assert forall|i: int| 0 <= i < nm implies #[trigger] rows[i] == meta_row(c.metadata[i]) && covs[i] == CoverageFieldView::Absent by {}
    assert forall|i: int| nm <= i < nm + nf implies #[trigger] rows[i] == file_row(c.files[i - nm])
        && covs[i] == CoverageFieldView::Parsed(c.files[i - nm].coverage) by {}
    assert forall|i: int| 0 <= i < rows.len() implies ((#[trigger] covs[i]) is Absent <==> rows[i].len() <= 4) by {
        if i < nm {
            lemma_meta_row_reads(c.metadata[i], covs[i]);
        } else {
            lemma_file_row_reads(c.files[i - nm]);
        }
    }
    lemma_write_then_read_prefix(c, rows.len() as int);
    assert(rows.subrange(0, rows.len() as int) =~= rows);
    assert(c.metadata.subrange(0, nm) =~= c.metadata);
    assert(c.files.subrange(0, nf) =~= c.files);
}

proof fn lemma_write_then_read_prefix(c: CatalogView, n: int)
    requires
        0 <= n <= catalog_rows(c).len(),
    ensures
        ({
            let nm = c.metadata.len() as int;
            read_rows(catalog_rows(c).subrange(0, n), written_coverage_fields(c))
                == Ok::<(Seq<MetadataValue>, Seq<FileView>), RowMeaning>((
                c.metadata.subrange(0, if n < nm { n } else { nm }),
                c.files.subrange(0, if n < nm { 0 } else { n - nm }),
            ))
        }),
    decreases n,
{
    let rows = catalog_rows(c);
    let covs = written_coverage_fields(c);
    let nm = c.metadata.len() as int;
    if n == 0 {
        assert(rows.subrange(0, 0).len() == 0);
        assert(c.metadata.subrange(0, 0) =~= Seq::<MetadataValue>::empty());
        assert(c.files.subrange(0, 0) =~= Seq::<FileView>::empty());
    } else {
        lemma_write_then_read_prefix(c, n - 1);
        let t = rows.subrange(0, n);
        assert(t.drop_last() =~= rows.subrange(0, n - 1));
        assert(t.last() == rows[n - 1]);
        if n - 1 < nm {
            assert(rows[n - 1] == meta_row(c.metadata[n - 1]));
            lemma_meta_row_reads(c.metadata[n - 1], covs[n - 1]);
            assert(c.metadata.subrange(0, n) =~= c.metadata.subrange(0, n - 1).push(c.metadata[n - 1]));
        } else {
            assert(rows[n - 1] == file_row(c.files[n - 1 - nm]));
            assert(covs[n - 1] == CoverageFieldView::Parsed(c.files[n - 1 - nm].coverage));
            lemma_file_row_reads(c.files[n - 1 - nm]);
            assert(c.files.subrange(0, n - nm) =~= c.files.subrange(0, n - 1 - nm).push(c.files[n - 1 - nm]));
        }
    }
}

/// A metadata row as the catalog writes it: `meta`, `version` or `count`,
/// and the value in plain decimal, nothing more.
pub open spec fn is_written_meta_row(r: Seq<Seq<char>>) -> bool {
    &&& r.len() == 3
    &&& r[0] == "meta"@
    &&& r[1] == "version"@ || r[1] == "count"@
    &&& unsigned_decimal(r[2]) matches Some(v) && r[2] == decimal_digits(v)
        && (if r[1] == "version"@ { v <= u8::MAX } else { v <= u64::MAX })
}

/// A tileset row as the catalog writes it: `file`, the kind in plain
/// decimal, name, hash, and a coverage text that is the text of the number
/// it reads as, nothing more.
pub open spec fn is_written_file_row(r: Seq<Seq<char>>, cov: CoverageFieldView) -> bool {
    &&& r.len() == 5
    &&& r[0] == "file"@
    &&& unsigned_decimal(r[1]) matches Some(k) && k <= u8::MAX && r[1] == decimal_digits(k)
    &&& cov matches CoverageFieldView::Parsed(c) && c.text == r[4]
}

proof fn lemma_read_then_write_prefix(rows: Seq<Seq<Seq<char>>>, covs: Seq<CoverageFieldView>, k: int, n: int) -> (res: (Seq<MetadataValue>, Seq<FileView>))
    requires
        0 <= n <= rows.len(),
        0 <= k <= rows.len(),
        covs.len() == rows.len(),
        forall|i: int| 0 <= i < k ==> is_written_meta_row(#[trigger] rows[i]),
        forall|i: int| k <= i < rows.len() ==> is_written_file_row(#[trigger] rows[i], covs[i]),
    ensures
        read_rows(rows.subrange(0, n), covs) == Ok::<(Seq<MetadataValue>, Seq<FileView>), RowMeaning>(res),
        res.0.len() == if n < k { n } else { k },
        res.1.len() == if n < k { 0 } else { n - k },
        forall|i: int| 0 <= i < res.0.len() ==> meta_row(#[trigger] res.0[i]) == rows[i],
        forall|i: int| 0 <= i < res.1.len() ==> file_row(#[trigger] res.1[i]) == rows[k + i],
    decreases n,
{
    reveal_strlit("meta");
    reveal_strlit("version");
    reveal_strlit("count");
    reveal_strlit("file");
    if n == 0 {
        assert(rows.subrange(0, 0).len() == 0);
        (Seq::empty(), Seq::empty())
    } else {
        let (m, f) = lemma_read_then_write_prefix(rows, covs, k, n - 1);
        let t = rows.subrange(0, n);
        assert(t.drop_last() =~= rows.subrange(0, n - 1));
        assert(t.last() == rows[n - 1]);
        let r = rows[n - 1];
        if n - 1 < k {
            assert(is_written_meta_row(r));
            assert("count"@ != "version"@) by {
                assert("count"@[0] != "version"@[0]);
            }
            let v = unsigned_decimal(r[2]).unwrap();
            let mv = if r[1] == "version"@ { MetadataValue::Version(v as u8) } else { MetadataValue::Count(v as u64) };
            assert(row_meaning(r, covs[n - 1]) == RowMeaning::Meta(mv));
            assert(meta_row(mv) =~= r);
            let m2 = m.push(mv);
            assert forall|i: int| 0 <= i < m2.len() implies meta_row(#[trigger] m2[i]) == rows[i] by {
                if i < m.len() {
                    assert(m2[i] == m[i]);
                }
            }
            (m2, f)
        } else {
            assert(is_written_file_row(r, covs[n - 1]));
            assert("file"@ != "meta"@) by {
                assert("file"@[0] != "meta"@[0]);
            }
            let kind = unsigned_decimal(r[1]).unwrap();
            let c = covs[n - 1]->Parsed_0;
            let fv = FileView { kind: kind as u8, display_name: r[2], hash: r[3], coverage: c };
            assert(row_meaning(r, covs[n - 1]) == RowMeaning::File(fv));
            assert(file_row(fv) =~= r);
            let f2 = f.push(fv);
            assert forall|i: int| 0 <= i < f2.len() implies file_row(#[trigger] f2[i]) == rows[k + i] by {
                if i < f.len() {
                    assert(f2[i] == f[i]);
                }
            }
            (m, f2)
        }
    }
}

/// A catalog file whose rows are written as the catalog writes them, the
/// metadata rows first, is read and written back to the same rows.
pub proof fn lemma_read_then_write(rows: Seq<Seq<Seq<char>>>, covs: Seq<CoverageFieldView>, k: int, cell_id: u64)
    requires
        0 <= k <= rows.len(),
        covs.len() == rows.len(),
        forall|i: int| 0 <= i < k ==> is_written_meta_row(#[trigger] rows[i]),
        forall|i: int| k <= i < rows.len() ==> is_written_file_row(#[trigger] rows[i], covs[i]),
    ensures
        read_rows(rows, covs) matches Ok((m, f))
            && catalog_rows(CatalogView { cell_id, metadata: m, files: f }) == rows,
{
    let (m, f) = lemma_read_then_write_prefix(rows, covs, k, rows.len() as int);
    assert(rows.subrange(0, rows.len() as int) =~= rows);
    let written = catalog_rows(CatalogView { cell_id, metadata: m, files: f });
    assert(written =~= rows) by {
        assert forall|i: int| 0 <= i < rows.len() implies written[i] == rows[i] by {
            if i < k {
                assert(written[i] == meta_row(m[i]));
            } else {
                assert(written[i] == file_row(f[i - k]));
            }
        }
    }
}

/// A catalog file that reads without a failing row, that is what the CSV
/// writer writes for its rows, and whose rows are written as the catalog
/// writes them (metadata rows first), is read and written back byte for
/// byte: `CatalogFile::read` gives metadata and tilesets whose
/// `CatalogFile::write_to` output is the file again.
pub proof fn lemma_file_rewritten_unchanged(bytes: Seq<u8>, covs: Seq<CoverageFieldView>, k: int, cell_id: u64)
    requires
        !csv_read_rows(bytes).1,
        csv_written(csv_read_rows(bytes).0) == bytes,
        0 <= k <= csv_read_rows(bytes).0.len(),
        covs.len() == csv_read_rows(bytes).0.len(),
        forall|i: int| 0 <= i < k ==> is_written_meta_row(#[trigger] csv_read_rows(bytes).0[i]),
        forall|i: int| k <= i < csv_read_rows(bytes).0.len() ==> is_written_file_row(#[trigger] csv_read_rows(bytes).0[i], covs[i]),
    ensures
        read_rows(csv_read_rows(bytes).0, covs) matches Ok((m, f))
            && csv_written(catalog_rows(CatalogView { cell_id, metadata: m, files: f })) == bytes,
{
    lemma_read_then_write(csv_read_rows(bytes).0, covs, k, cell_id);
}

/// A read catalog written by `CatalogFile::write_to` (whose bytes the `csv`
/// reader reads back as the written rows) and read again by
/// `CatalogFile::read` for the same cell, with coverage fields that read
/// each written coverage text back as the coverage that was written, holds
/// the same contents: the same metadata and the same tilesets in the same
/// order.
pub proof fn lemma_catalog_read_back(p: CatalogView, cell_id: u64)
    requires
        p.cell_id == cell_id,
        csv_read_rows(csv_written(catalog_rows(p))) == (catalog_rows(p), false),
    ensures
        coverage_fields_match(csv_read_rows(csv_written(catalog_rows(p))).0, written_coverage_fields(p)),
        !csv_read_rows(csv_written(catalog_rows(p))).1,
        read_rows(csv_read_rows(csv_written(catalog_rows(p))).0, written_coverage_fields(p)) matches Ok((m, f))
            && (CatalogView { cell_id, metadata: m, files: f }) == p,
{
    lemma_write_then_read(p);
}

/// A list of tilesets sorted by coverage, none of them NaN, lists the
/// coverages as numbers from the largest down.
pub proof fn lemma_sorted_largest_first(s: Seq<FileView>)
    requires
        crate::catalog_file::sorted_by_coverage(s),
        !crate::catalog_file::has_nan_coverage(s),
    ensures
        forall|i: int, j: int| 0 <= i < j < s.len()
            ==> crate::coverage::double_value(#[trigger] s[i].coverage.bits) >= crate::coverage::double_value(#[trigger] s[j].coverage.bits),
{
    assert forall|i: int, j: int| 0 <= i < j < s.len()
        implies crate::coverage::double_value(#[trigger] s[i].coverage.bits) >= crate::coverage::double_value(#[trigger] s[j].coverage.bits) by {
        assert(!crate::coverage::float_is_nan(s[i].coverage.bits));
        assert(!crate::coverage::float_is_nan(s[j].coverage.bits));
        crate::coverage::lemma_key_orders_numbers(s[i].coverage.bits, s[j].coverage.bits);
        crate::coverage::lemma_key_orders_numbers(s[j].coverage.bits, s[i].coverage.bits);
    }
}

} // verus!
