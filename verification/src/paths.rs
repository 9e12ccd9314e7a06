//! File paths, as `std::path::Path` splits them.
use vstd::prelude::*;

verus! {

/// `Path::file_stem` of the path: its last component without the extension.
pub uninterp spec fn path_file_stem(path: Seq<char>) -> Option<Seq<char>>;

/// `Path::file_name` of the path: its last component.
pub uninterp spec fn path_file_name(path: Seq<char>) -> Option<Seq<char>>;

/// An ASCII letter or digit.
pub open spec fn is_word_char(c: char) -> bool {
    ('0' <= c && c <= '9') || ('a' <= c && c <= 'z') || ('A' <= c && c <= 'Z')
}

/// A non-empty run of ASCII letters and digits.
pub open spec fn is_plain_word(s: Seq<char>) -> bool {
    s.len() > 0 && forall|i: int| 0 <= i < s.len() ==> is_word_char(#[trigger] s[i])
}

/// A directory written with ASCII letters, digits, `/`, `.`, `_` and `-`
/// only (no drive or verbatim prefix).
pub open spec fn is_plain_dir(s: Seq<char>) -> bool {
    forall|i: int| 0 <= i < s.len() ==> (is_word_char(#[trigger] s[i]) || s[i] == '/' || s[i] == '.' || s[i] == '_' || s[i] == '-')
}

/// The path is a plain directory, `/`, a plain name, `.` and a plain
/// extension.
pub open spec fn is_plain_file_path(p: Seq<char>, dir: Seq<char>, name: Seq<char>, ext: Seq<char>) -> bool {
    &&& p == dir + seq!['/'] + name + seq!['.'] + ext
    &&& is_plain_dir(dir)
    &&& is_plain_word(name)
    &&& is_plain_word(ext)
}

/// The name before the extension of a path of that shape.
pub open spec fn plain_path_stem(p: Seq<char>) -> Option<Seq<char>> {
    if exists|dir: Seq<char>, name: Seq<char>, ext: Seq<char>| is_plain_file_path(p, dir, name, ext) {
        let (dir, name, ext) = choose|dir: Seq<char>, name: Seq<char>, ext: Seq<char>| is_plain_file_path(p, dir, name, ext);
        Some(name)
    } else {
        None
    }
}

/// The last component of a path of that shape: its plain name, a dot and
/// its plain extension.
pub open spec fn plain_path_name(p: Seq<char>) -> Option<Seq<char>> {
    if exists|dir: Seq<char>, name: Seq<char>, ext: Seq<char>| is_plain_file_path(p, dir, name, ext) {
        let (dir, name, ext) = choose|dir: Seq<char>, name: Seq<char>, ext: Seq<char>| is_plain_file_path(p, dir, name, ext);
        Some(name + seq!['.'] + ext)
    } else {
        None
    }
}

/// `Path::new(path).file_stem()`, as text.  The contract names the result
/// (`path_file_stem`) and states what the documentation of `file_stem` and
/// `file_name` gives for a path whose last component is a plain name, a dot
/// and a plain extension after a plain directory: the stem is that name.
/// (The stem of a UTF-8 path is UTF-8, so the conversion to text keeps it.)
#[verifier::external_body]
pub(crate) fn file_stem(path: &str) -> (res: Option<String>)
    ensures
        match res {
            Some(s) => path_file_stem(path@) == Some(s@),
            None => path_file_stem(path@) is None,
        },
        plain_path_stem(path@) is Some ==> res is Some && res.unwrap()@ == plain_path_stem(path@).unwrap(),
{
    std::path::Path::new(path).file_stem().and_then(|s| s.to_str()).map(|s| s.to_string())
}

/// `Path::new(path).file_name()`, as text.  The contract names the result
/// (`path_file_name`) and states what the documentation of `file_name`
/// gives for a path whose last component is a plain name, a dot and a plain
/// extension after a plain directory: the file name is that component.
#[verifier::external_body]
pub(crate) fn file_name(path: &str) -> (res: Option<String>)
    ensures
        match res {
            Some(s) => path_file_name(path@) == Some(s@),
            None => path_file_name(path@) is None,
        },
        plain_path_name(path@) is Some ==> res is Some && res.unwrap()@ == plain_path_name(path@).unwrap(),
{
    std::path::Path::new(path).file_name().and_then(|s| s.to_str()).map(|s| s.to_string())
}

/// A path of that shape splits one way only, so its stem is its plain name.
pub proof fn lemma_plain_path_stem(dir: Seq<char>, name: Seq<char>, ext: Seq<char>)
    requires
        is_plain_dir(dir),
        is_plain_word(name),
        is_plain_word(ext),
    ensures
        plain_path_stem(dir + seq!['/'] + name + seq!['.'] + ext) == Some(name),
{
    let p = dir + seq!['/'] + name + seq!['.'] + ext;
    assert(is_plain_file_path(p, dir, name, ext));
    let (d2, n2, e2) = choose|d2: Seq<char>, n2: Seq<char>, e2: Seq<char>| is_plain_file_path(p, d2, n2, e2);
    lemma_split_unique(p, dir, name, ext, d2, n2, e2);
}

proof fn lemma_split_unique(
    p: Seq<char>,
    d1: Seq<char>,
    n1: Seq<char>,
    e1: Seq<char>,
    d2: Seq<char>,
    n2: Seq<char>,
    e2: Seq<char>,
)
    requires
        is_plain_file_path(p, d1, n1, e1),
        is_plain_file_path(p, d2, n2, e2),
    ensures
        d1 == d2,
        n1 == n2,
        e1 == e2,
{
    // Past the slash, a path of this shape holds letters, digits and one dot.
    assert forall|d: Seq<char>, n: Seq<char>, e: Seq<char>, i: int|
        is_plain_file_path(p, d, n, e) && d.len() < i < p.len() implies p[i] != '/' && (p[i] == '.' <==> i == d.len() + 1 + n.len()) by {
        if i <= d.len() + n.len() {
            assert(p[i] == n[i - d.len() - 1]);
            assert(is_word_char(n[i - d.len() - 1]));
        } else if i > d.len() + 1 + n.len() {
            assert(p[i] == e[i - d.len() - 2 - n.len()]);
            assert(is_word_char(e[i - d.len() - 2 - n.len()]));
        } else {
            assert(p[i] == '.');
        }
    }
    assert(p[d1.len() as int] == '/');
    assert(p[d2.len() as int] == '/');
    assert(d1.len() == d2.len());
    assert(p[(d1.len() + 1 + n1.len()) as int] == '.');
    assert(p[(d2.len() + 1 + n2.len()) as int] == '.');
    assert(n1.len() == n2.len());
    assert forall|i: int| 0 <= i < n1.len() implies n1[i] == n2[i] by {
        assert(p[d1.len() + 1 + i] == n1[i]);
        assert(p[d2.len() + 1 + i] == n2[i]);
    }
    assert(n1 =~= n2);
    assert(d1 =~= p.subrange(0, d1.len() as int));
    assert(d2 =~= p.subrange(0, d2.len() as int));
    let k: int = (d1.len() + 2 + n1.len()) as int;
    assert(e1 =~= p.subrange(k, p.len() as int));
    assert(e2 =~= p.subrange(k, p.len() as int));
}

/// A path of that shape splits one way only, so its file name is its plain
/// name, a dot and its plain extension.
pub proof fn lemma_plain_path_name(dir: Seq<char>, name: Seq<char>, ext: Seq<char>)
    requires
        is_plain_dir(dir),
        is_plain_word(name),
        is_plain_word(ext),
    ensures
        plain_path_name(dir + seq!['/'] + name + seq!['.'] + ext) == Some(name + seq!['.'] + ext),
{
    let p = dir + seq!['/'] + name + seq!['.'] + ext;
    assert(is_plain_file_path(p, dir, name, ext));
    let (d2, n2, e2) = choose|d2: Seq<char>, n2: Seq<char>, e2: Seq<char>| is_plain_file_path(p, d2, n2, e2);
    lemma_split_unique(p, dir, name, ext, d2, n2, e2);
}

} // verus!
