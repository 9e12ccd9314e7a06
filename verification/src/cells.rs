//! S2 cells as the catalog uses them: their levels and ancestors, the cells
//! that a covering starts from, and the tokens that name catalog files.
//!
//! A cell is held as its 64-bit id (`s2::cellid::CellID`): three bits of cube
//! face, then two bits per level of the position along the Hilbert curve,
//! then a one bit that marks the level, then zeros.
use vstd::prelude::*;
use vstd::std_specs::bits::{axiom_u64_trailing_zeros, u64_trailing_zeros};

verus! {

/// The deepest level of an S2 cell.
pub const MAX_LEVEL: u64 = 30;

/// The level of the cells that a covering is made of.
pub const BASE_CELL_LEVEL: u64 = 12;

/// The number of trailing zero bits of a cell id.
pub open spec fn cell_tz(id: u64) -> nat {
    u64_trailing_zeros(id) as nat
}

/// A valid cell id: a face below 6 and the level bit at an even position no
/// higher than 60 (`CellID::is_valid`).
pub open spec fn is_valid_cell(id: u64) -> bool {
    &&& (id >> 61u64) < 6
    &&& cell_tz(id) % 2 == 0
    &&& cell_tz(id) <= 60
}

/// The level of a cell: 30 for a leaf, 0 for a face.
pub open spec fn cell_level(id: u64) -> int {
    30 - cell_tz(id) / 2
}

/// The level bit of the cells of a level.
pub open spec fn lsb_for_level(level: u64) -> u64 {
    1u64 << ((2 * (30 - level)) as u64)
}

/// The ancestor of a cell at a level (`CellID::parent`): the id's bits above
/// the level bit of that level, with that bit set.
pub open spec fn cell_parent(id: u64, level: u64) -> u64 {
    (id & !((lsb_for_level(level) - 1) as u64)) | lsb_for_level(level)
}

/// The four children of a cell (`CellID::children`), in Hilbert order.
pub open spec fn cell_children(id: u64) -> Seq<u64> {
    let lsb = 1u64 << (cell_tz(id) as u64);
    let ch0 = (id - lsb + lsb / 4) as u64;
    let step = lsb / 2;
    seq![ch0, (ch0 + step) as u64, (ch0 + 2 * step) as u64, (ch0 + 3 * step) as u64]
}

/// `CellID::level`: 30 minus half the trailing zeros of the id.
#[verifier::external_body]
pub(crate) fn level_of(id: u64) -> (res: u64)
    requires
        cell_tz(id) <= 61,
    ensures
        res as int == cell_level(id),
{
    s2::cellid::CellID(id).level()
}

/// `CellID::parent`: the id with the bits below the level bit of `level`
/// cleared and that bit set.
#[verifier::external_body]
pub(crate) fn parent_of(id: u64, level: u64) -> (res: u64)
    requires
        level <= MAX_LEVEL,
    ensures
        res == cell_parent(id, level),
{
    s2::cellid::CellID(id).parent(level).0
}

/// `CellID::children`: the four ids from the first child on, one child
/// step (half the level bit) apart.
#[verifier::external_body]
pub(crate) fn children_of(id: u64) -> (res: [u64; 4])
    requires
        cell_tz(id) <= 61,
        cell_level(id) < 30,
    ensures
        res@ == cell_children(id),
{
    let ch = s2::cellid::CellID(id).children();
    [ch[0].0, ch[1].0, ch[2].0, ch[3].0]
}

/// `CellUnion::normalize` of the cells: the cells sorted, without cells
/// that another one contains, and with every four siblings replaced by their
/// parent.  The contract names the result (`normalized_cells`); of it, it
/// states that, from valid cells, each cell kept is valid and is one of the
/// given cells or an ancestor of one at a lower level, and that no cells
/// give no cells.  Which cells are kept and in what order is left to the
/// name.
pub uninterp spec fn normalized_cells(cells: Seq<u64>) -> Seq<u64>;

/// All the cells are valid.
pub open spec fn all_valid_cells(cells: Seq<u64>) -> bool {
    forall|i: int| 0 <= i < cells.len() ==> is_valid_cell(#[trigger] cells[i])
}

/// Every id has its lowest set bit at position 61 or below, so that a level
/// from 0 to 30 can be read from it (`CellID::level`).
pub open spec fn all_have_levels(cells: Seq<u64>) -> bool {
    forall|i: int| 0 <= i < cells.len() ==> cell_tz(#[trigger] cells[i]) <= 61
}

/// The id names a cube face below 6 and has a level (`Cell::from` asserts
/// the face).
pub open spec fn has_face_and_level(id: u64) -> bool {
    (id >> 61u64) < 6 && cell_tz(id) <= 61
}

/// `CellUnion::normalize` on the cells (the `s2` crate).  The contract says
/// that the result is `normalized_cells` of the cells; that, as the source
/// shows, each cell it keeps is valid and is either one of the given cells
/// or one reached from one by `immediate_parent`, which it takes only of a
/// cell that is not a face; and that it keeps nothing of no cells.
#[verifier::external_body]
pub(crate) fn normalize_cells(cells: Vec<u64>) -> (res: Vec<u64>)
    requires
        all_valid_cells(cells@),
    ensures
        res@ == normalized_cells(cells@),
        all_valid_cells(res@),
        forall|j: int| 0 <= j < res@.len()
            ==> cells@.contains(#[trigger] res@[j]) || is_proper_ancestor_in(cells@, res@[j]),
        cells@.len() == 0 ==> res@.len() == 0,
{
    let mut union = s2::cellunion::CellUnion(cells.into_iter().map(s2::cellid::CellID).collect());
    union.normalize();
    union.0.into_iter().map(|c| c.0).collect()
}

/// The cells that stand for a cell among the cells a covering starts from:
/// the cell itself at the base level, its four children otherwise.
pub open spec fn cells_at_base(c: u64) -> Set<u64> {
    if cell_level(c) == BASE_CELL_LEVEL {
        set![c]
    } else {
        cell_children(c).to_set()
    }
}

/// `x` stands for one of the cells.
pub open spec fn in_children_at_base(cells: Seq<u64>, x: u64) -> bool {
    exists|i: int| 0 <= i < cells.len() && #[trigger] cells_at_base(cells[i]).contains(x)
}

/// Adds `x` to `v` unless `v` holds it.
fn push_unique(v: &mut Vec<u64>, x: u64)
    requires
        old(v)@.no_duplicates(),
    ensures
        final(v)@.no_duplicates(),
        final(v)@.to_set() == old(v)@.to_set().insert(x),
{
    let mut i: usize = 0;
    while i < v.len()
        invariant
            i <= v@.len(),
            v@ == old(v)@,
            old(v)@.no_duplicates(),
            forall|t: int| 0 <= t < i ==> v@[t] != x,
        decreases v@.len() - i,
    {
        if v[i] == x {
            assert(v@.to_set().contains(x));
            assert(v@.to_set().insert(x) =~= v@.to_set());
            assert(v@.no_duplicates());
            return;
        }
        i = i + 1;
    }
    v.push(x);
    assert forall|a: u64| #[trigger] v@.to_set().contains(a) <==> old(v)@.to_set().insert(x).contains(a) by {
        if a == x {
            assert(v@[v@.len() - 1] == x);
        } else if v@.contains(a) {
            let k = choose|k: int| 0 <= k < v@.len() && v@[k] == a;
            assert(old(v)@[k] == a);
        } else if old(v)@.contains(a) {
            let k = choose|k: int| 0 <= k < old(v)@.len() && old(v)@[k] == a;
            assert(v@[k] == a);
        }
    }
    assert(v@.to_set() =~= old(v)@.to_set().insert(x));
}

/// The cells that a covering starts from: each given cell at the base
/// level, and the four children of every other given cell; each once.
pub fn get_children_at_base(cells: Vec<u64>) -> (res: Vec<u64>)
    requires
        forall|i: int| 0 <= i < cells@.len() ==> has_face_and_level(#[trigger] cells@[i]),
        forall|i: int| 0 <= i < cells@.len() && cell_level(#[trigger] cells@[i]) != BASE_CELL_LEVEL
            ==> cell_level(cells@[i]) < MAX_LEVEL,
    ensures
        res@.no_duplicates(),
        forall|x: u64| #[trigger] res@.contains(x) <==> in_children_at_base(cells@, x),
{
    let mut all_children: Vec<u64> = Vec::new();
    let n = cells.len();
    let mut i: usize = 0;
    while i < n
        invariant
            n == cells@.len(),
            i <= n,
            forall|t: int| 0 <= t < cells@.len() ==> has_face_and_level(#[trigger] cells@[t]),
            forall|t: int| 0 <= t < cells@.len() && cell_level(#[trigger] cells@[t]) != BASE_CELL_LEVEL
                ==> cell_level(cells@[t]) < MAX_LEVEL,
            all_children@.no_duplicates(),
            forall|x: u64| #[trigger] all_children@.to_set().contains(x)
                <==> in_children_at_base(cells@.subrange(0, i as int), x),
        decreases n - i,
    {
        let c = cells[i];
        assert(has_face_and_level(c));
        let ghost before = all_children@.to_set();
        let level = level_of(c);
        if level == BASE_CELL_LEVEL {
            push_unique(&mut all_children, c);
            assert(cells_at_base(c) =~= set![c]);
            assert(all_children@.to_set() =~= before.union(cells_at_base(c)));
        } else {
            let ch = children_of(c);
            push_unique(&mut all_children, ch[0]);
            push_unique(&mut all_children, ch[1]);
            push_unique(&mut all_children, ch[2]);
            push_unique(&mut all_children, ch[3]);
            assert(cell_children(c).to_set() =~= set![ch[0], ch[1], ch[2], ch[3]]) by {
                assert forall|a: u64| cell_children(c).to_set().contains(a) implies set![ch[0], ch[1], ch[2], ch[3]].contains(a) by {
                    let k = choose|k: int| 0 <= k < 4 && cell_children(c)[k] == a;
                    assert(ch@[k] == a);
                }
                assert(cell_children(c)[0] == ch[0]);
                assert(cell_children(c)[1] == ch[1]);
                assert(cell_children(c)[2] == ch[2]);
                assert(cell_children(c)[3] == ch[3]);
            }
            assert(all_children@.to_set() =~= before.union(cells_at_base(c)));
        }
        proof {
            let prev = cells@.subrange(0, i as int);
            let next = cells@.subrange(0, i + 1);
            assert forall|x: u64| #[trigger] all_children@.to_set().contains(x) <==> in_children_at_base(next, x) by {
                if in_children_at_base(next, x) {
                    let k = choose|k: int| 0 <= k < next.len() && #[trigger] cells_at_base(next[k]).contains(x);
                    if k < i {
                        assert(prev[k] == next[k]);
                        assert(in_children_at_base(prev, x));
                    } else {
                        assert(next[k] == c);
                    }
                }
                if before.contains(x) {
                    let k = choose|k: int| 0 <= k < prev.len() && #[trigger] cells_at_base(prev[k]).contains(x);
                    assert(next[k] == prev[k]);
                }
                if cells_at_base(c).contains(x) {
                    assert(next[i as int] == c);
                }
            }
        }
        i = i + 1;
    }
    assert(cells@.subrange(0, n as int) =~= cells@);
    assert forall|x: u64| #[trigger] all_children@.contains(x) <==> in_children_at_base(cells@, x) by {
        assert(all_children@.to_set().contains(x) == all_children@.contains(x));
    }
    all_children
}

/// The ids rise strictly, so each appears once.
pub open spec fn strictly_increasing(s: Seq<u64>) -> bool {
    forall|i: int, j: int| 0 <= i < j < s.len() ==> #[trigger] s[i] < #[trigger] s[j]
}

/// `x` is an ancestor, at a lower level, of one of the cells.
pub open spec fn is_proper_ancestor_in(cells: Seq<u64>, x: u64) -> bool {
    exists|i: int, l: u64| 0 <= i < cells.len() && l < cell_level(cells[i]) && x == #[trigger] cell_parent(cells[i], l)
}

/// Adds `x` to a rising run of ids, where it belongs, unless it is there.
fn insert_sorted(v: &mut Vec<u64>, x: u64)
    requires
        strictly_increasing(old(v)@),
    ensures
        strictly_increasing(final(v)@),
        final(v)@.to_set() == old(v)@.to_set().insert(x),
{
    let mut p: usize = 0;
    while p < v.len() && v[p] < x
        invariant
            p <= v@.len(),
            v@ == old(v)@,
            strictly_increasing(old(v)@),
            forall|t: int| 0 <= t < p ==> v@[t] < x,
        decreases v@.len() - p,
    {
        p = p + 1;
    }
    if p < v.len() && v[p] == x {
        assert(v@.to_set().insert(x) =~= v@.to_set());
        return;
    }
    let ghost old_v = v@;
    v.insert(p, x);
    assert(v@ =~= old_v.subrange(0, p as int).push(x) + old_v.subrange(p as int, old_v.len() as int));
    assert forall|i: int, j: int| 0 <= i < j < v@.len() implies #[trigger] v@[i] < #[trigger] v@[j] by {
        if j < p {
            assert(v@[i] == old_v[i] && v@[j] == old_v[j]);
        } else if j == p {
            assert(v@[i] == old_v[i]);
        } else if i > p {
            assert(v@[i] == old_v[i - 1] && v@[j] == old_v[j - 1]);
        } else if i == p {
            assert(v@[j] == old_v[j - 1]);
            assert(old_v[p as int] >= x);
            if j - 1 > p {
                assert(old_v[p as int] < old_v[j - 1]);
            }
        } else {
            assert(v@[i] == old_v[i] && v@[j] == old_v[j - 1]);
        }
    }
    assert forall|a: u64| #[trigger] v@.to_set().contains(a) <==> old_v.to_set().insert(x).contains(a) by {
        if v@.contains(a) {
            let k = choose|k: int| 0 <= k < v@.len() && v@[k] == a;
            if k < p {
                assert(old_v[k] == a);
            } else if k > p {
                assert(old_v[k - 1] == a);
            }
        }
        if old_v.contains(a) {
            let k = choose|k: int| 0 <= k < old_v.len() && old_v[k] == a;
            if k < p {
                assert(v@[k] == a);
            } else {
                assert(v@[k + 1] == a);
            }
        }
        if a == x {
            assert(v@[p as int] == x);
        }
    }
    assert(v@.to_set() =~= old_v.to_set().insert(x));
}

/// The ancestors, at lower levels, of the given cells, each once, in rising
/// order of id.
pub fn expand_cell_parents(cells: Vec<u64>) -> (res: Vec<u64>)
    requires
        all_have_levels(cells@),
    ensures
        strictly_increasing(res@),
        forall|x: u64| #[trigger] res@.contains(x) <==> is_proper_ancestor_in(cells@, x),
{
    let mut expanded: Vec<u64> = Vec::new();
    let n = cells.len();
    let mut i: usize = 0;
    while i < n
        invariant
            n == cells@.len(),
            i <= n,
            all_have_levels(cells@),
            strictly_increasing(expanded@),
            forall|x: u64| #[trigger] expanded@.to_set().contains(x)
                <==> is_proper_ancestor_in(cells@.subrange(0, i as int), x),
        decreases n - i,
    {
        let cell = cells[i];
        assert(cell_tz(cell) <= 61);
        let current_level = level_of(cell);
        let ghost prev = expanded@.to_set();
        let mut level = current_level;
        while level > 0
            invariant
                level <= current_level,
                current_level as int == cell_level(cell),
                current_level <= 30,
                strictly_increasing(expanded@),
                forall|x: u64| #[trigger] expanded@.to_set().contains(x) <==> (prev.contains(x)
                    || exists|l: u64| level <= l < current_level && x == #[trigger] cell_parent(cell, l)),
            decreases level,
        {
            level = level - 1;
            let parent = parent_of(cell, level);
            let ghost before = expanded@.to_set();
            insert_sorted(&mut expanded, parent);
            assert forall|x: u64| #[trigger] expanded@.to_set().contains(x) <==> (prev.contains(x)
                || exists|l: u64| level <= l < current_level && x == #[trigger] cell_parent(cell, l)) by {
                if exists|l: u64| level <= l < current_level && x == #[trigger] cell_parent(cell, l) {
                    let l = choose|l: u64| level <= l < current_level && x == #[trigger] cell_parent(cell, l);
                    if l > level {
                        assert(before.contains(x));
                    }
                }
                if before.contains(x) && !prev.contains(x) {
                    let l = choose|l: u64| level + 1 <= l < current_level && x == #[trigger] cell_parent(cell, l);
                    assert(level <= l < current_level);
                }
            }
        }
        proof {
            let before = cells@.subrange(0, i as int);
            let after = cells@.subrange(0, i + 1);
            assert(after[i as int] == cell);
            assert forall|x: u64| #[trigger] expanded@.to_set().contains(x) <==> is_proper_ancestor_in(after, x) by {
                if is_proper_ancestor_in(after, x) {
                    let (k, l) = choose|k: int, l: u64| 0 <= k < after.len() && l < cell_level(after[k]) && x == #[trigger] cell_parent(after[k], l);
                    if k < i {
                        assert(before[k] == after[k]);
                        assert(is_proper_ancestor_in(before, x));
                    } else {
                        assert(0 <= l < current_level && x == cell_parent(cell, l));
                    }
                }
                if prev.contains(x) {
                    let (k, l) = choose|k: int, l: u64| 0 <= k < before.len() && l < cell_level(before[k]) && x == #[trigger] cell_parent(before[k], l);
                    assert(after[k] == before[k]);
                    assert(is_proper_ancestor_in(after, x));
                }
                if exists|l: u64| 0 <= l < current_level && x == #[trigger] cell_parent(cell, l) {
                    let l = choose|l: u64| 0 <= l < current_level && x == #[trigger] cell_parent(cell, l);
                    assert(is_proper_ancestor_in(after, x));
                }
            }
        }
        i = i + 1;
    }
    assert(cells@.subrange(0, n as int) =~= cells@);
    assert forall|x: u64| #[trigger] expanded@.contains(x) <==> is_proper_ancestor_in(cells@, x) by {
        assert(expanded@.to_set().contains(x) == expanded@.contains(x));
    }
    expanded
}

/// The cells of a covering, from the cells of the base level that the
/// outline touches: the union of those cells is normalized, and the result
/// is every ancestor, at a lower level, of a cell of the normalized union,
/// each once, in rising order of id.  Each of them is an ancestor, at a
/// lower level, of one of the given cells, and no cells give no covering.
pub fn covering_from_intersecting(cells: Vec<u64>) -> (res: Vec<u64>)
    requires
        all_valid_cells(cells@),
    ensures
        strictly_increasing(res@),
        all_valid_cells(normalized_cells(cells@)),
        forall|x: u64| #[trigger] res@.contains(x) <==> is_proper_ancestor_in(normalized_cells(cells@), x),
        forall|x: u64| #[trigger] res@.contains(x) ==> is_proper_ancestor_in(cells@, x),
        cells@.len() == 0 ==> res@.len() == 0,
{
    let ghost given = cells@;
    let normalized = normalize_cells(cells);
    let res = expand_cell_parents(normalized);
    assert forall|x: u64| #[trigger] res@.contains(x) implies is_proper_ancestor_in(given, x) by {
        lemma_ancestor_of_normalized(given, normalized_cells(given), x);
    }
    proof {
        if given.len() == 0 && res@.len() > 0 {
            assert(res@.contains(res@[0]));
        }
    }
    res
}

/// An ancestor, at a lower level, of a cell that is one of the given valid
/// cells or an ancestor of one, is an ancestor of one of the given cells.
proof fn lemma_ancestor_of_normalized(cells: Seq<u64>, kept: Seq<u64>, x: u64)
    requires
        all_valid_cells(cells),
        forall|j: int| 0 <= j < kept.len() ==> cells.contains(#[trigger] kept[j]) || is_proper_ancestor_in(cells, kept[j]),
        is_proper_ancestor_in(kept, x),
    ensures
        is_proper_ancestor_in(cells, x),
{
    let (j, l) = choose|j: int, l: u64| 0 <= j < kept.len() && l < cell_level(kept[j]) && x == #[trigger] cell_parent(kept[j], l);
    let y = kept[j];
    if cells.contains(y) {
        let k = choose|k: int| 0 <= k < cells.len() && cells[k] == y;
        assert(x == cell_parent(cells[k], l));
    } else {
        let (k, l1) = choose|k: int, l1: u64| 0 <= k < cells.len() && l1 < cell_level(cells[k]) && y == #[trigger] cell_parent(cells[k], l1);
        let c = cells[k];
        assert(is_valid_cell(c));
        lemma_parent_level(c, l1);
        assert(l < l1);
        lemma_parent_of_parent(c, l1, l);
        assert(x == cell_parent(cells[k], l));
    }
}

// ----------------------------------------------------------------------------
// Tokens.

/// The lower-case hexadecimal digit of a value below sixteen.
pub open spec fn hex_digit_char(d: u64) -> char {
    if d < 10 {
        ((d + 48) as u8) as char
    } else {
        ((d + 87) as u8) as char
    }
}

/// The `i`-th of the sixteen hexadecimal digits of an id, most significant first.
pub open spec fn hex_digit_of(id: u64, i: int) -> u64 {
    (id >> ((60 - 4 * i) as u64)) & 15u64
}

/// The sixteen lower-case hexadecimal digits of an id (`{:016x}`).
pub open spec fn hex16(id: u64) -> Seq<char> {
    Seq::new(16, |i: int| hex_digit_char(hex_digit_of(id, i)))
}

/// The text without its trailing `0` characters.
pub open spec fn trim_trailing_zeros(s: Seq<char>) -> Seq<char>
    decreases s.len(),
{
    if s.len() > 0 && s.last() == '0' {
        trim_trailing_zeros(s.drop_last())
    } else {
        s
    }
}

/// The token of a cell (`CellID::to_token`): its sixteen hexadecimal digits
/// without the trailing zeros; `X` for the id 0.
pub open spec fn cell_token(id: u64) -> Seq<char> {
    if id == 0 {
        seq!['X']
    } else {
        trim_trailing_zeros(hex16(id))
    }
}

/// The value of a hexadecimal digit of either case.
pub open spec fn hex_char_value(c: char) -> int {
    if '0' <= c && c <= '9' {
        c as int - 48
    } else if 'a' <= c && c <= 'f' {
        c as int - 87
    } else if 'A' <= c && c <= 'F' {
        c as int - 55
    } else {
        -1
    }
}

/// The number that a (possibly empty) run of hexadecimal digits denotes.
pub open spec fn hex_digits_value(s: Seq<char>) -> nat
    decreases s.len(),
{
    if s.len() == 0 {
        0
    } else {
        hex_digits_value(s.drop_last()) * 16 + hex_char_value(s.last()) as nat
    }
}

/// How `u64::from_str_radix(_, 16)` reads a text, before the bound of the
/// type: an optional `+` and one or more hexadecimal digits.
pub open spec fn unsigned_hex(s: Seq<char>) -> Option<nat> {
    let body = if s.len() > 0 && s[0] == '+' { s.drop_first() } else { s };
    if body.len() > 0 && forall|i: int| 0 <= i < body.len() ==> hex_char_value(#[trigger] body[i]) >= 0 {
        Some(hex_digits_value(body))
    } else {
        None
    }
}

/// The cell that a token names (`CellID::from_token`): the token read as a
/// hexadecimal number and shifted up to sixteen digits; 0 where the token
/// does not read as a 64-bit number.
pub open spec fn token_cell(s: Seq<char>) -> u64 {
    match unsigned_hex(s) {
        Some(v) if v <= u64::MAX => if s.len() < 16 {
            (v as u64) << ((4 * (16 - s.len())) as u64)
        } else {
            v as u64
        },
        _ => 0,
    }
}

/// `CellID::to_token`: the id written with sixteen lower-case hexadecimal
/// digits, trailing zeros removed; `X` for the id 0.
#[verifier::external_body]
pub(crate) fn to_token(id: u64) -> (res: String)
    ensures
        res@ == cell_token(id),
{
    s2::cellid::CellID(id).to_token()
}

/// `CellID::from_token`: the token read by `u64::from_str_radix(_, 16)`,
/// shifted left by four bits per digit short of sixteen; 0 where it does not
/// read.  (A text that reads is ASCII, so its length in bytes, which the
/// source uses, is its length in characters.)
#[verifier::external_body]
pub(crate) fn from_token(token: &str) -> (res: u64)
    ensures
        res == token_cell(token@),
{
    s2::cellid::CellID::from_token(token).0
}

// ----------------------------------------------------------------------------
// A token names its cell.

/// The length of a text without its trailing `0` characters.
pub open spec fn trimmed_len(s: Seq<char>) -> nat
    decreases s.len(),
{
    if s.len() > 0 && s.last() == '0' {
        trimmed_len(s.drop_last())
    } else {
        s.len()
    }
}

proof fn lemma_trim(s: Seq<char>)
    ensures
        trimmed_len(s) <= s.len(),
        trim_trailing_zeros(s) == s.subrange(0, trimmed_len(s) as int),
        forall|i: int| trimmed_len(s) <= i < s.len() ==> s[i] == '0',
        trimmed_len(s) > 0 ==> s[trimmed_len(s) - 1] != '0',
    decreases s.len(),
{
    if s.len() > 0 && s.last() == '0' {
        lemma_trim(s.drop_last());
        let t = trimmed_len(s.drop_last());
        assert(s.drop_last().subrange(0, t as int) =~= s.subrange(0, t as int));
        assert forall|i: int| t <= i < s.len() implies s[i] == '0' by {
            if i < s.len() - 1 {
                assert(s[i] == s.drop_last()[i]);
            }
        }
        if t > 0 {
            assert(s[t - 1] == s.drop_last()[t - 1]);
        }
    } else {
        assert(s.subrange(0, s.len() as int) =~= s);
    }
}

pub(crate) proof fn lemma_hex_char(d: u64)
    requires
        d < 16,
    ensures
        hex_char_value(hex_digit_char(d)) == d,
        is_word_char_hex(hex_digit_char(d)),
        hex_digit_char(d) == '0' <==> d == 0,
        hex_digit_char(d) != '+',
{
    if d < 10 {
        assert((((d + 48) as u8) as char) as int == d + 48);
    } else {
        assert((((d + 87) as u8) as char) as int == d + 87);
    }
}

/// A lower-case hexadecimal digit is an ASCII letter or digit.
pub open spec fn is_word_char_hex(c: char) -> bool {
    ('0' <= c && c <= '9') || ('a' <= c && c <= 'f')
}

proof fn lemma_hex_prefix_value(id: u64, len: int)
    requires
        1 <= len <= 16,
    ensures
        hex_digits_value(hex16(id).subrange(0, len)) == (id >> ((4 * (16 - len)) as u64)) as nat,
    decreases len,
{
    let h = hex16(id);
    let k = (4 * (16 - len)) as u64;
    let d = hex_digit_of(id, len - 1);
    let sh = (60 - 4 * (len - 1)) as u64;
    assert(d == (id >> sh) & 15u64);
    assert(d < 16) by (bit_vector)
        requires d == (id >> sh) & 15u64;
    lemma_hex_char(d);
    let t = h.subrange(0, len);
    assert(t.last() == hex_digit_char(d));
    if len == 1 {
        assert(t.drop_last() =~= Seq::<char>::empty());
        assert(id >> 60u64 < 16) by (bit_vector);
        assert((id >> 60u64) & 15u64 == id >> 60u64) by (bit_vector);
        assert(hex_digits_value(t) == hex_digits_value(t.drop_last()) * 16 + hex_char_value(t.last()) as nat);
    } else {
        lemma_hex_prefix_value(id, len - 1);
        assert(t.drop_last() =~= h.subrange(0, len - 1));
        let k1 = (4 * (16 - (len - 1))) as u64;
        assert(k1 == k + 4);
        assert(k <= 56);
        assert((id >> (k + 4)) * 16 + ((id >> k) & 15u64) == id >> k) by (bit_vector)
            requires k <= 56;
        assert(d == (id >> k) & 15u64);
        assert(hex_digits_value(t) == hex_digits_value(t.drop_last()) * 16 + hex_char_value(t.last()) as nat);
    }
}

proof fn lemma_low_digits_zero(id: u64, z: int)
    requires
        0 <= z <= 15,
        forall|i: int| 16 - z <= i < 16 ==> hex_digit_of(id, i) == 0,
    ensures
        (id >> ((4 * z) as u64)) << ((4 * z) as u64) == id,
    decreases z,
{
    if z == 0 {
        assert((id >> 0u64) << 0u64 == id) by (bit_vector);
    } else {
        lemma_low_digits_zero(id, z - 1);
        let k = (4 * (z - 1)) as u64;
        assert(hex_digit_of(id, 16 - z) == 0);
        assert((60 - 4 * (16 - z)) as u64 == k);
        assert(((id >> k) << k == id && (id >> k) & 15u64 == 0 && k <= 56) ==> (id >> (k + 4)) << (k + 4) == id) by (bit_vector);
        assert((4 * z) as u64 == k + 4);
    }
}

/// A cell's token is a run of lower-case hexadecimal digits, and reading it
/// back gives the cell: the token names the cell (for any id but 0).
pub proof fn lemma_token_names_cell(id: u64)
    requires
        id != 0,
    ensures
        token_cell(cell_token(id)) == id,
        cell_token(id).len() > 0,
        forall|i: int| 0 <= i < cell_token(id).len() ==> is_word_char_hex(#[trigger] cell_token(id)[i]),
        cell_token(id).last() != '0',
{
    let h = hex16(id);
    lemma_trim(h);
    let len = trimmed_len(h) as int;
    let t = cell_token(id);
    assert(t == h.subrange(0, len));
    assert forall|i: int| 0 <= i < 16 implies hex_digit_of(id, i) < 16 by {
        let k = (60 - 4 * i) as u64;
        assert((id >> k) & 15u64 < 16) by (bit_vector);
    }
    assert forall|i: int| 0 <= i < 16 implies is_word_char_hex(#[trigger] h[i]) && hex_char_value(h[i]) >= 0
        && h[i] != '+' && (h[i] == '0' <==> hex_digit_of(id, i) == 0) by {
        lemma_hex_char(hex_digit_of(id, i));
    }
    assert forall|i: int| 16 - (16 - len) <= i < 16 implies hex_digit_of(id, i) == 0 by {
        assert(h[i] == '0');
    }
    if len == 0 {
        lemma_low_digits_zero(id, 15);
        assert(hex_digit_of(id, 0) == 0);
        assert(((id >> 60u64) << 60u64 == id && (id >> 60u64) & 15u64 == 0) ==> id == 0) by (bit_vector);
        assert(false);
    }
    lemma_hex_prefix_value(id, len);
    assert(t.len() == len);
    assert forall|i: int| 0 <= i < t.len() implies hex_char_value(#[trigger] t[i]) >= 0 by {
        assert(t[i] == h[i]);
    }
    assert(t[0] == h[0]);
    assert(unsigned_hex(t) == Some(hex_digits_value(t)));
    let v = id >> ((4 * (16 - len)) as u64);
    assert(hex_digits_value(t) == v as nat);
    if len < 16 {
        lemma_low_digits_zero(id, 16 - len);
    } else {
        assert(id >> 0u64 == id) by (bit_vector);
    }
    assert forall|i: int| 0 <= i < t.len() implies is_word_char_hex(#[trigger] t[i]) by {
        assert(t[i] == h[i]);
    }
}

// ----------------------------------------------------------------------------
// Ancestors.

/// The ancestor of a valid cell at a level no deeper than its own has that
/// level.
pub proof fn lemma_parent_level(id: u64, l: u64)
    requires
        is_valid_cell(id),
        l <= cell_level(id),
    ensures
        cell_tz(cell_parent(id, l)) == 2 * (30 - l),
        cell_level(cell_parent(id, l)) == l,
{
    let k = (2 * (30 - l)) as u64;
    let b = 1u64 << k;
    let x = cell_parent(id, l);
    assert(lsb_for_level(l) == b);
    assert(k <= 60);
    assert(x == (id & !((b - 1) as u64)) | b);
    assert((x >> k) & 1u64 == 1u64) by (bit_vector)
        requires
            k <= 60,
            b == 1u64 << k,
            x == (id & !((b - 1) as u64)) | b;
    axiom_u64_trailing_zeros(x);
    let t = u64_trailing_zeros(x) as u64;
    if t < k {
        assert((x >> t) & 1u64 == 1u64);
        assert((x >> t) & 1u64 == 0u64) by (bit_vector)
            requires
                k <= 60,
                t < k,
                b == 1u64 << k,
                x == (id & !((b - 1) as u64)) | b;
    } else if t > k {
        assert((x >> k) & 1u64 == 0u64);
    }
}

/// An ancestor's ancestor at a higher level is the cell's own ancestor at
/// that level.
pub proof fn lemma_parent_of_parent(id: u64, l1: u64, l2: u64)
    requires
        l2 < l1 <= 30,
    ensures
        cell_parent(cell_parent(id, l1), l2) == cell_parent(id, l2),
{
    let k1 = (2 * (30 - l1)) as u64;
    let k2 = (2 * (30 - l2)) as u64;
    let b1 = 1u64 << k1;
    let b2 = 1u64 << k2;
    assert(lsb_for_level(l1) == b1);
    assert(lsb_for_level(l2) == b2);
    assert(k1 < k2 <= 60);
    assert((((id & !((b1 - 1) as u64)) | b1) & !((b2 - 1) as u64)) | b2 == (id & !((b2 - 1) as u64)) | b2) by (bit_vector)
        requires
            k1 < k2,
            k2 <= 60,
            b1 == 1u64 << k1,
            b2 == 1u64 << k2;
}

/// The ancestors of valid cells at lower levels are closed under taking
/// ancestors: an ancestor of one of them, at a lower level still, is one of
/// them.  So a covering lists, with each cell, every cell above it.
pub proof fn lemma_ancestors_closed(cells: Seq<u64>, x: u64, l: u64)
    requires
        all_valid_cells(cells),
        is_proper_ancestor_in(cells, x),
        l < cell_level(x),
    ensures
        is_proper_ancestor_in(cells, cell_parent(x, l)),
{
    let (i, l1) = choose|i: int, l1: u64| 0 <= i < cells.len() && l1 < cell_level(cells[i]) && x == #[trigger] cell_parent(cells[i], l1);
    let c = cells[i];
    assert(is_valid_cell(c));
    lemma_parent_level(c, l1);
    assert(l < l1);
    lemma_parent_of_parent(c, l1, l);
    assert(cell_parent(x, l) == cell_parent(cells[i], l));
}

/// A covering made from valid cells no deeper than the base level holds
/// only valid cells above the base level: each of its cells is an ancestor,
/// at a lower level, of one of those cells.
pub proof fn lemma_covering_above_base(cells: Seq<u64>, x: u64)
    requires
        all_valid_cells(cells),
        forall|i: int| 0 <= i < cells.len() ==> cell_level(#[trigger] cells[i]) <= BASE_CELL_LEVEL,
        is_proper_ancestor_in(cells, x),
    ensures
        is_valid_cell(x),
        cell_level(x) < BASE_CELL_LEVEL,
{
    let (i, l) = choose|i: int, l: u64| 0 <= i < cells.len() && l < cell_level(cells[i]) && x == #[trigger] cell_parent(cells[i], l);
    let c = cells[i];
    assert(is_valid_cell(c));
    assert(cell_level(c) <= BASE_CELL_LEVEL);
    lemma_parent_level(c, l);
    let k = (2 * (30 - l)) as u64;
    let b = 1u64 << k;
    assert(lsb_for_level(l) == b);
    assert(k <= 60);
    assert(x == (c & !((b - 1) as u64)) | b);
    assert((((c & !((b - 1) as u64)) | b) >> 61u64) == c >> 61u64) by (bit_vector)
        requires
            k <= 60,
            b == 1u64 << k;
}

/// Each of the four children of a cell above the leaves is one level
/// deeper (its level bit two places lower), and, for a valid cell, the
/// cell is its ancestor at the cell's own level.
pub proof fn lemma_child_of(id: u64, k: int)
    requires
        2 <= cell_tz(id) <= 61,
        0 <= k < 4,
    ensures
        cell_tz(cell_children(id)[k]) == cell_tz(id) - 2,
        cell_level(cell_children(id)[k]) == cell_level(id) + 1,
        cell_tz(id) % 2 == 0 ==> cell_parent(cell_children(id)[k], cell_level(id) as u64) == id,
{
    let t = cell_tz(id) as u64;
    let lsb = 1u64 << t;
    axiom_u64_trailing_zeros(id);
    assert(u64_trailing_zeros(id) as u64 == t);
    assert((id >> t) & 1u64 == 1u64);
    assert(id << ((64 - t) as u64) == 0);
    let ch0 = (id - lsb + lsb / 4) as u64;
    let step = lsb / 2;
    let kk = k as u64;
    let c = cell_children(id)[k];
    assert(c == (ch0 + kk * step) as u64) by {
        if k == 0 {
            assert(c == ch0);
        } else if k == 1 {
            assert(c == (ch0 + step) as u64);
        } else if k == 2 {
            assert(c == (ch0 + 2 * step) as u64);
        } else {
            assert(c == (ch0 + 3 * step) as u64);
        }
    }
    // the bit two places below the cell's level bit is set, and none below it
    assert((c >> ((t - 2) as u64)) & 1u64 == 1u64 && c << ((66 - t) as u64) == 0 && c != 0) by (bit_vector)
        requires
            2u64 <= t <= 61u64,
            kk < 4u64,
            lsb == 1u64 << t,
            (id >> t) & 1u64 == 1u64,
            id << ((64 - t) as u64) == 0,
            ch0 == (id - lsb + lsb / 4) as u64,
            c == (ch0 + kk * (lsb / 2)) as u64,
    ;
    axiom_u64_trailing_zeros(c);
    let tc = u64_trailing_zeros(c) as u64;
    if tc < t - 2 {
        assert((c >> tc) & 1u64 == 1u64);
        assert((c >> tc) & 1u64 == 0u64) by (bit_vector)
            requires
                tc < ((t - 2) as u64),
                2u64 <= t <= 61u64,
                c << ((66 - t) as u64) == 0,
        ;
    } else if tc > t - 2 {
        assert((c >> ((t - 2) as u64)) & 1u64 == 0u64);
    }
    if t % 2 == 0 {
        let l = (30 - t / 2) as u64;
        assert(cell_level(id) == l);
        assert(lsb_for_level(l) == lsb);
        assert((c & !((lsb - 1) as u64)) | lsb == id) by (bit_vector)
            requires
                2u64 <= t <= 61u64,
                kk < 4u64,
                lsb == 1u64 << t,
                (id >> t) & 1u64 == 1u64,
                id << ((64 - t) as u64) == 0,
                ch0 == (id - lsb + lsb / 4) as u64,
                c == (ch0 + kk * (lsb / 2)) as u64,
        ;
    }
}

/// The cells that a covering starts from keep every given cell of the base
/// level as it is and replace every other given cell by its four children:
/// each of these is among them, and each of them is a given cell of the base
/// level or a child, one level deeper, of a given cell at another level (for
/// a valid cell, one whose ancestor at that cell's level is that cell).
pub proof fn lemma_children_at_base(cells: Seq<u64>)
    requires
        forall|i: int| 0 <= i < cells.len() ==> has_face_and_level(#[trigger] cells[i]),
        forall|i: int| 0 <= i < cells.len() && cell_level(#[trigger] cells[i]) != BASE_CELL_LEVEL
            ==> cell_level(cells[i]) < MAX_LEVEL,
    ensures
        forall|i: int| 0 <= i < cells.len() && cell_level(#[trigger] cells[i]) == BASE_CELL_LEVEL
            ==> in_children_at_base(cells, cells[i]),
        forall|i: int, k: int| 0 <= i < cells.len() && cell_level(#[trigger] cells[i]) != BASE_CELL_LEVEL && 0 <= k < 4
            ==> in_children_at_base(cells, #[trigger] cell_children(cells[i])[k]),
        forall|x: u64| #[trigger] in_children_at_base(cells, x) ==> exists|i: int| 0 <= i < cells.len() && {
            ||| x == cells[i] && cell_level(cells[i]) == BASE_CELL_LEVEL
            ||| {
                &&& cell_level(cells[i]) != BASE_CELL_LEVEL
                &&& cell_level(x) == cell_level(cells[i]) + 1
                &&& is_valid_cell(cells[i]) ==> cell_parent(x, cell_level(cells[i]) as u64) == cells[i]
            }
        },
{
    assert forall|i: int| 0 <= i < cells.len() && cell_level(#[trigger] cells[i]) == BASE_CELL_LEVEL
        implies in_children_at_base(cells, cells[i]) by {
        assert(cells_at_base(cells[i]).contains(cells[i]));
    }
    assert forall|i: int, k: int| 0 <= i < cells.len() && cell_level(#[trigger] cells[i]) != BASE_CELL_LEVEL && 0 <= k < 4
        implies in_children_at_base(cells, #[trigger] cell_children(cells[i])[k]) by {
        assert(cell_children(cells[i]).contains(cell_children(cells[i])[k]));
        assert(cells_at_base(cells[i]).contains(cell_children(cells[i])[k]));
    }
    assert forall|x: u64| #[trigger] in_children_at_base(cells, x) implies exists|i: int| 0 <= i < cells.len() && {
        ||| x == cells[i] && cell_level(cells[i]) == BASE_CELL_LEVEL
        ||| {
            &&& cell_level(cells[i]) != BASE_CELL_LEVEL
            &&& cell_level(x) == cell_level(cells[i]) + 1
            &&& is_valid_cell(cells[i]) ==> cell_parent(x, cell_level(cells[i]) as u64) == cells[i]
        }
    } by {
        let i = choose|i: int| 0 <= i < cells.len() && #[trigger] cells_at_base(cells[i]).contains(x);
        let c = cells[i];
        assert(has_face_and_level(c));
        if cell_level(c) != BASE_CELL_LEVEL {
            let k = choose|k: int| 0 <= k < 4 && cell_children(c)[k] == x;
            lemma_child_of(c, k);
        }
    }
}

} // verus!
