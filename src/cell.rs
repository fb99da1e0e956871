//! Two views of a 64-bit H3 index: [Index], which allows building any bit
//! pattern, and [Cell], which is always a valid H3 cell.

use crate::error::Error;
use vstd::prelude::*;

verus! {

/// The resolution field, bits 55..52.
pub open spec fn res_of(raw: u64) -> u64 {
    (raw >> 52u64) & 0xfu64
}

/// The base cell field, bits 51..45.
pub open spec fn base_of(raw: u64) -> u64 {
    (raw >> 45u64) & 0x7fu64
}

/// The mode field, bits 62..59.
pub open spec fn mode_of(raw: u64) -> u64 {
    (raw >> 59u64) & 0xfu64
}

/// The mode-dependent field, bits 58..56.
pub open spec fn mode_dep_of(raw: u64) -> u64 {
    (raw >> 56u64) & 0x7u64
}

/// The bit offset of the digit of resolution `r` (1..=15).
pub open spec fn digit_shift(r: u64) -> u64 {
    (45 - 3 * r) as u64
}

/// The 3-bit digit of resolution `r` (1..=15).
pub open spec fn digit_at(raw: u64, r: u64) -> u64 {
    (raw >> digit_shift(r)) & 7u64
}

/// `raw` with its resolution field replaced by the low four bits of `res`.
pub open spec fn with_res(raw: u64, res: u64) -> u64 {
    (raw & !(0xfu64 << 52u64)) | ((res & 0xfu64) << 52u64)
}

/// `raw` with its base cell field replaced by the low seven bits of `base`.
pub open spec fn with_base(raw: u64, base: u64) -> u64 {
    (raw & !(0x7fu64 << 45u64)) | ((base & 0x7fu64) << 45u64)
}

/// `raw` with the digit of resolution `r` replaced by `d`.
pub open spec fn with_digit(raw: u64, r: u64, d: u64) -> u64 {
    (raw & !(7u64 << digit_shift(r))) | (d << digit_shift(r))
}

/// What a cell index is checked for: reserved bit clear, mode 1 (a cell),
/// and one of the 122 base cells.
pub open spec fn valid_cell(raw: u64) -> bool {
    &&& raw >> 63u64 == 0
    &&& mode_of(raw) == 1
    &&& base_of(raw) < 122
}

/// A valid cell in its canonical form, as tree walks build it: also the
/// mode-dependent bits clear, digits 0..=6 up to the resolution and 7
/// beyond it.
pub open spec fn canonical_cell(raw: u64) -> bool {
    &&& raw >> 63u64 == 0
    &&& mode_of(raw) == 1
    &&& mode_dep_of(raw) == 0
    &&& base_of(raw) < 122
    &&& forall|r: u64|
        1 <= r <= 15 ==> if r <= res_of(raw) {
            #[trigger] digit_at(raw, r) < 7
        } else {
            digit_at(raw, r) == 7
        }
}

/// The ancestor of `raw` at resolution `r`, for `r` not above its own
/// resolution: the resolution field set to `r` and every digit past `r` set
/// to 7.
pub open spec fn parent_raw(raw: u64, r: u64) -> u64 {
    if res_of(raw) <= r {
        raw
    } else {
        with_res(raw, r) | (u64::MAX >> ((64 - 3 * (15 - r)) as u64))
    }
}

/// The resolution-0 cell of base cell `b`.
pub open spec fn base_cell_raw(b: u64) -> u64 {
    with_base(0x8001fffffffffffu64, b)
}

/// The child of `raw` one resolution finer, with digit `d`.
pub open spec fn child_raw(raw: u64, d: u64) -> u64 {
    with_digit(with_res(raw, (res_of(raw) + 1) as u64), (res_of(raw) + 1) as u64, d)
}

/// The digits of a cell, coarsest first: one per resolution 1..=res.
pub open spec fn digits_of(raw: u64) -> Seq<u8> {
    Seq::new(res_of(raw) as nat, |i: int| digit_at(raw, (i + 1) as u64) as u8)
}

/// `a` is `c` or one of its ancestors.
pub open spec fn is_ancestor_or_self(a: u64, c: u64) -> bool {
    res_of(a) <= res_of(c) && parent_raw(c, res_of(a)) == a
}

/// One of the two cells is the other or an ancestor of it: they share
/// their ancestor at the coarser of their two resolutions.
pub open spec fn related(a: u64, b: u64) -> bool {
    let m = if res_of(a) < res_of(b) {
        res_of(a)
    } else {
        res_of(b)
    };
    parent_raw(a, m) == parent_raw(b, m)
}

/// The cell reached from a base cell by following a path of digits:
/// `path[0]` is the base cell, the rest are digits.
pub open spec fn cell_of_path(path: Seq<u8>) -> u64
    recommends
        path.len() >= 1,
    decreases path.len(),
{
    if path.len() <= 1 {
        base_cell_raw(path[0] as u64)
    } else {
        child_raw(cell_of_path(path.drop_last()), path.last() as u64)
    }
}

pub proof fn lemma_fields(raw: u64)
    by (bit_vector)
    ensures
        raw >> 63u64 <= 1,
        res_of(raw) < 16,
        base_of(raw) < 128,
        mode_of(raw) < 16,
        mode_dep_of(raw) < 8,
        ((raw >> 52u64) as u8 & 0xfu8) as u64 == res_of(raw),
        ((raw >> 45u64) as u8 & 0x7fu8) as u64 == base_of(raw),
        ((raw >> 59u64) as u8 & 0xfu8) as u64 == mode_of(raw),
        ((raw >> 56u64) as u8 & 0x7u8) as u64 == mode_dep_of(raw),
{
}

proof fn lemma_digit_fits(raw: u64, r: u64)
    by (bit_vector)
    requires
        1 <= r <= 15,
    ensures
        digit_at(raw, r) < 8,
        ((raw >> digit_shift(r)) as u8 & 7u8) as u64 == digit_at(raw, r),
{
}

/// A low-level H3 index: any bit pattern, with getters and setters for
/// each field.
#[derive(Clone, Copy, Debug, PartialEq, Eq, Hash)]
pub struct Index(pub u64);

impl Index {
    /// The reserved bit, which a valid index keeps clear.
    pub fn reserved(self) -> (r: bool)
        ensures
            r == (self.0 >> 63u64 == 1),
    {
        self.0 >> 0x3F == 1
    }

    /// The mode: 1 for a cell.
    pub fn mode(self) -> (r: u8)
        ensures
            r as u64 == mode_of(self.0),
    {
        proof {
            lemma_fields(self.0);
        }
        (self.0 >> 0x3B) as u8 & 0b1111
    }

    /// The mode-dependent bits.
    pub fn mode_dep(self) -> (r: u8)
        ensures
            r as u64 == mode_dep_of(self.0),
    {
        proof {
            lemma_fields(self.0);
        }
        (self.0 >> 0x38) as u8 & 0b111
    }

    /// The resolution, 0 (coarsest) to 15 (finest).
    pub fn res(self) -> (r: u8)
        ensures
            r as u64 == res_of(self.0),
            r < 16,
    {
        proof {
            lemma_fields(self.0);
        }
        (self.0 >> 0x34) as u8 & 0b1111
    }

    /// This index with its resolution field set to the low four bits of
    /// `res`.
    pub fn set_res(self, res: u8) -> (r: Self)
        ensures
            r.0 == with_res(self.0, res as u64),
    {
        let mask: u64 = 0b1111 << 0x34;
        let masked_index = self.0 & !mask;
        let shifted_res = ((res & 0b1111) as u64) << 0x34;
        proof {
            let x = self.0;
            let rr = res;
            assert((x & !(0b1111u64 << 0x34u64)) | (((rr & 0b1111u8) as u64) << 0x34u64)
                == with_res(x, rr as u64)) by (bit_vector);
        }
        Self(masked_index | shifted_res)
    }

    /// The base cell, one of 0..122 in a valid index.
    pub fn base(self) -> (r: u8)
        ensures
            r as u64 == base_of(self.0),
            r < 128,
    {
        proof {
            lemma_fields(self.0);
        }
        (self.0 >> 0x2D) as u8 & 0b111_1111
    }

    /// This index with its base cell field set to the low seven bits of
    /// `base`.
    pub fn set_base(self, base: u8) -> (r: Self)
        ensures
            r.0 == with_base(self.0, base as u64),
    {
        let cleared_of_base = self.0 & !(0b111_1111 << 0x2D);
        let shifted_base = (base as u64 & 0b111_1111) << 0x2D;
        proof {
            let x = self.0;
            let b = base as u64;
            assert((x & !(0b111_1111u64 << 0x2Du64)) | ((b & 0b111_1111u64) << 0x2Du64)
                == with_base(x, b)) by (bit_vector);
        }
        Self(cleared_of_base | shifted_base)
    }

    /// The digit of resolution `res`, or `None` when `res` is not in
    /// 1..=15.
    pub fn digit(self, res: u8) -> (r: Option<u8>)
        ensures
            (res == 0 || res > 15) ==> r is None,
            (1 <= res <= 15) ==> r == Some(digit_at(self.0, res as u64) as u8),
            r matches Some(d) ==> d < 8,
    {
        if res == 0 || res > 15 {
            None
        } else {
            proof {
                lemma_digit_fits(self.0, res as u64);
            }
            Some(((self.0 >> ((15 - res) * 3)) as u8) & 0b111)
        }
    }

    /// This index with the digit of resolution `res` set to `digit`.
    pub fn set_digit(self, res: u8, digit: u8) -> (r: Self)
        requires
            1 <= res <= 15,
            digit < 8,
        ensures
            r.0 == with_digit(self.0, res as u64, digit as u64),
    {
        let shift: u64 = ((15 - res) * 3) as u64;
        let cleared_of_digit = self.0 & !(0b111 << shift);
        let shifted_digit = (digit as u64) << shift;
        Self(cleared_of_digit | shifted_digit)
    }
}

proof fn lemma_with_res_bits(raw: u64, v: u64, k: u64)
    by (bit_vector)
    requires
        v < 16,
        1 <= k <= 15,
    ensures
        res_of(with_res(raw, v)) == v,
        base_of(with_res(raw, v)) == base_of(raw),
        mode_of(with_res(raw, v)) == mode_of(raw),
        mode_dep_of(with_res(raw, v)) == mode_dep_of(raw),
        with_res(raw, v) >> 63u64 == raw >> 63u64,
        digit_at(with_res(raw, v), k) == digit_at(raw, k),
{
}

proof fn lemma_with_base_bits(raw: u64, b: u64, k: u64)
    by (bit_vector)
    requires
        b < 128,
        1 <= k <= 15,
    ensures
        res_of(with_base(raw, b)) == res_of(raw),
        base_of(with_base(raw, b)) == b,
        mode_of(with_base(raw, b)) == mode_of(raw),
        mode_dep_of(with_base(raw, b)) == mode_dep_of(raw),
        with_base(raw, b) >> 63u64 == raw >> 63u64,
        digit_at(with_base(raw, b), k) == digit_at(raw, k),
{
}

proof fn lemma_with_digit_bits(raw: u64, r: u64, d: u64, k: u64)
    by (bit_vector)
    requires
        1 <= r <= 15,
        d < 8,
        1 <= k <= 15,
    ensures
        res_of(with_digit(raw, r, d)) == res_of(raw),
        base_of(with_digit(raw, r, d)) == base_of(raw),
        mode_of(with_digit(raw, r, d)) == mode_of(raw),
        mode_dep_of(with_digit(raw, r, d)) == mode_dep_of(raw),
        with_digit(raw, r, d) >> 63u64 == raw >> 63u64,
        digit_at(with_digit(raw, r, d), k) == if k == r {
            d
        } else {
            digit_at(raw, k)
        },
{
}

proof fn lemma_fill_bits(raw: u64, r: u64, k: u64)
    by (bit_vector)
    requires
        r < 15,
        1 <= k <= 15,
    ensures
        res_of(raw | (u64::MAX >> ((64 - 3 * (15 - r)) as u64))) == res_of(raw),
        base_of(raw | (u64::MAX >> ((64 - 3 * (15 - r)) as u64))) == base_of(raw),
        mode_of(raw | (u64::MAX >> ((64 - 3 * (15 - r)) as u64))) == mode_of(raw),
        mode_dep_of(raw | (u64::MAX >> ((64 - 3 * (15 - r)) as u64))) == mode_dep_of(raw),
        (raw | (u64::MAX >> ((64 - 3 * (15 - r)) as u64))) >> 63u64 == raw >> 63u64,
        digit_at(raw | (u64::MAX >> ((64 - 3 * (15 - r)) as u64)), k) == if k <= r {
            digit_at(raw, k)
        } else {
            7
        },
{
}

/// The ancestor of a valid cell at any resolution up to its own is a valid
/// cell at that resolution, with the same base cell and the same digits up
/// to that resolution.
pub proof fn lemma_parent(raw: u64, r: u64)
    requires
        valid_cell(raw),
        r <= res_of(raw),
    ensures
        valid_cell(parent_raw(raw, r)),
        canonical_cell(raw) ==> canonical_cell(parent_raw(raw, r)),
        r < res_of(raw) ==> forall|k: u64| r < k <= 15 ==> #[trigger] digit_at(parent_raw(raw, r), k) == 7,
        res_of(parent_raw(raw, r)) == r,
        base_of(parent_raw(raw, r)) == base_of(raw),
        mode_dep_of(parent_raw(raw, r)) == mode_dep_of(raw),
        forall|k: u64| 1 <= k <= r ==> #[trigger] digit_at(parent_raw(raw, r), k) == digit_at(raw, k),
        digits_of(parent_raw(raw, r)) == digits_of(raw).subrange(0, r as int),
{
    lemma_fields(raw);
    if r < res_of(raw) {
        let p = parent_raw(raw, r);
        let w = with_res(raw, r);
        assert forall|k: u64| 1 <= k <= 15 implies digit_at(p, k) == if k <= r {
            digit_at(raw, k)
        } else {
            7
        } by {
            lemma_with_res_bits(raw, r, k);
            lemma_fill_bits(w, r, k);
        }
        lemma_with_res_bits(raw, r, 1);
        lemma_fill_bits(w, r, 1);
    }
    assert(digits_of(parent_raw(raw, r)) =~= digits_of(raw).subrange(0, r as int));
}

/// A child of a valid cell below resolution 15, by a digit 0..=6, is a
/// valid cell one resolution finer, with the parent's digits and then `d`.
pub proof fn lemma_child(raw: u64, d: u64)
    requires
        valid_cell(raw),
        res_of(raw) < 15,
        d < 7,
    ensures
        valid_cell(child_raw(raw, d)),
        canonical_cell(raw) ==> canonical_cell(child_raw(raw, d)),
        res_of(child_raw(raw, d)) == res_of(raw) + 1,
        base_of(child_raw(raw, d)) == base_of(raw),
        digits_of(child_raw(raw, d)) == digits_of(raw).push(d as u8),
        canonical_cell(raw) ==> parent_raw(child_raw(raw, d), res_of(raw)) == raw,
{
    let n = (res_of(raw) + 1) as u64;
    let w = with_res(raw, n);
    let c = child_raw(raw, d);
    assert forall|k: u64| 1 <= k <= 15 implies digit_at(c, k) == if k == n {
        d
    } else {
        digit_at(raw, k)
    } by {
        lemma_with_res_bits(raw, n, k);
        lemma_with_digit_bits(w, n, d, k);
    }
    lemma_with_res_bits(raw, n, 1);
    lemma_with_digit_bits(w, n, d, 1);
    assert(digits_of(c) =~= digits_of(raw).push(d as u8));
    lemma_fields(raw);
    lemma_parent(c, res_of(raw));
    if canonical_cell(raw) {
        let p = parent_raw(c, res_of(raw));
        assert forall|k: u64| 1 <= k <= 15 implies digit_at(p, k) == digit_at(raw, k) by {
            if k > res_of(raw) {
                lemma_fill_bits(with_res(c, res_of(raw)), res_of(raw), k);
                lemma_with_res_bits(c, res_of(raw), k);
            }
        }
        lemma_cell_ext(p, raw);
    }
}

/// Two valid cells with the same resolution, base cell, mode-dependent bits
/// and digits are the same index.
proof fn lemma_cell_ext(a: u64, b: u64)
    requires
        valid_cell(a),
        valid_cell(b),
        res_of(a) == res_of(b),
        base_of(a) == base_of(b),
        mode_dep_of(a) == mode_dep_of(b),
        forall|k: u64| 1 <= k <= 15 ==> #[trigger] digit_at(a, k) == digit_at(b, k),
    ensures
        a == b,
{
    assert(digit_at(a, 1) == digit_at(b, 1));
    assert(digit_at(a, 2) == digit_at(b, 2));
    assert(digit_at(a, 3) == digit_at(b, 3));
    assert(digit_at(a, 4) == digit_at(b, 4));
    assert(digit_at(a, 5) == digit_at(b, 5));
    assert(digit_at(a, 6) == digit_at(b, 6));
    assert(digit_at(a, 7) == digit_at(b, 7));
    assert(digit_at(a, 8) == digit_at(b, 8));
    assert(digit_at(a, 9) == digit_at(b, 9));
    assert(digit_at(a, 10) == digit_at(b, 10));
    assert(digit_at(a, 11) == digit_at(b, 11));
    assert(digit_at(a, 12) == digit_at(b, 12));
    assert(digit_at(a, 13) == digit_at(b, 13));
    assert(digit_at(a, 14) == digit_at(b, 14));
    assert(digit_at(a, 15) == digit_at(b, 15));
    lemma_ext_bits(a, b);
}

proof fn lemma_ext_bits(a: u64, b: u64)
    by (bit_vector)
    requires
        a >> 63u64 == 0,
        b >> 63u64 == 0,
        mode_of(a) == mode_of(b),
        mode_dep_of(a) == mode_dep_of(b),
        res_of(a) == res_of(b),
        base_of(a) == base_of(b),
        digit_at(a, 1) == digit_at(b, 1),
        digit_at(a, 2) == digit_at(b, 2),
        digit_at(a, 3) == digit_at(b, 3),
        digit_at(a, 4) == digit_at(b, 4),
        digit_at(a, 5) == digit_at(b, 5),
        digit_at(a, 6) == digit_at(b, 6),
        digit_at(a, 7) == digit_at(b, 7),
        digit_at(a, 8) == digit_at(b, 8),
        digit_at(a, 9) == digit_at(b, 9),
        digit_at(a, 10) == digit_at(b, 10),
        digit_at(a, 11) == digit_at(b, 11),
        digit_at(a, 12) == digit_at(b, 12),
        digit_at(a, 13) == digit_at(b, 13),
        digit_at(a, 14) == digit_at(b, 14),
        digit_at(a, 15) == digit_at(b, 15),
    ensures
        a == b,
{
}

proof fn lemma_base_cell_bits(b: u64, k: u64)
    by (bit_vector)
    requires
        b < 128,
        1 <= k <= 15,
    ensures
        res_of(base_cell_raw(b)) == 0,
        base_of(base_cell_raw(b)) == b,
        mode_of(base_cell_raw(b)) == 1,
        mode_dep_of(base_cell_raw(b)) == 0,
        base_cell_raw(b) >> 63u64 == 0,
        digit_at(base_cell_raw(b), k) == 7,
{
}

/// The resolution-0 cell of any of the 122 base cells is valid.
pub proof fn lemma_base_cell(b: u64)
    requires
        b < 122,
    ensures
        canonical_cell(base_cell_raw(b)),
        res_of(base_cell_raw(b)) == 0,
        base_of(base_cell_raw(b)) == b,
        digits_of(base_cell_raw(b)) == Seq::<u8>::empty(),
{
    assert forall|k: u64| 1 <= k <= 15 implies digit_at(base_cell_raw(b), k) == 7 by {
        lemma_base_cell_bits(b, k);
    }
    lemma_base_cell_bits(b, 1);
    assert(digits_of(base_cell_raw(b)) =~= Seq::<u8>::empty());
}

/// The cell at the end of a path is valid, lies in the path's base cell,
/// and has the rest of the path as its digits.
pub proof fn lemma_cell_of_path(path: Seq<u8>)
    requires
        1 <= path.len() <= 16,
        path[0] < 122,
        forall|i: int| 1 <= i < path.len() ==> #[trigger] path[i] < 7,
    ensures
        canonical_cell(cell_of_path(path)),
        base_of(cell_of_path(path)) == path[0] as u64,
        res_of(cell_of_path(path)) == path.len() - 1,
        digits_of(cell_of_path(path)) == path.drop_first(),
    decreases path.len(),
{
    if path.len() <= 1 {
        lemma_base_cell(path[0] as u64);
        assert(path.drop_first() =~= Seq::<u8>::empty());
    } else {
        let init = path.drop_last();
        assert forall|i: int| 1 <= i < init.len() implies #[trigger] init[i] < 7 by {
            assert(init[i] == path[i]);
        }
        lemma_cell_of_path(init);
        lemma_child(cell_of_path(init), path.last() as u64);
        assert(init.drop_first().push(path.last()) =~= path.drop_first());
    }
}

/// The ancestor of an ancestor is an ancestor.
pub proof fn lemma_parent_of_parent(raw: u64, r1: u64, k: u64)
    requires
        valid_cell(raw),
        k <= r1 <= res_of(raw),
    ensures
        parent_raw(parent_raw(raw, r1), k) == parent_raw(raw, k),
{
    lemma_parent(raw, r1);
    lemma_parent(raw, k);
    let p = parent_raw(raw, r1);
    lemma_parent(p, k);
    if k < r1 {
        let a = parent_raw(p, k);
        let b = parent_raw(raw, k);
        assert forall|j: u64| 1 <= j <= 15 implies #[trigger] digit_at(a, j) == digit_at(b, j) by {
            if j <= k {
                assert(digit_at(a, j) == digit_at(p, j));
            }
        }
        lemma_cell_ext(a, b);
    }
}

/// [HexTreeMap][crate::HexTreeMap]'s key: a valid H3 cell index.
#[derive(Clone, Copy, Debug, PartialEq, Eq, Structural, Hash)]
pub struct Cell {
    raw: u64,
}

impl View for Cell {
    type V = u64;

    closed spec fn view(&self) -> u64 {
        self.raw
    }
}

impl Cell {
    #[verifier::type_invariant]
    pub open spec fn inv(self) -> bool {
        valid_cell(self@)
    }

    /// Some cell value has any given index as its raw index.
    pub proof fn lemma_cell_exists(raw: u64)
        ensures
            exists|c: Cell| c@ == raw,
    {
        assert((Cell { raw })@ == raw);
    }

    /// Cells with the same raw index are the same cell.
    pub proof fn lemma_view_injective(a: Cell, b: Cell)
        ensures
            a@ == b@ ==> a == b,
    {
    }

    /// Builds a cell from a raw H3 index; fails with `Error::Index(raw)`
    /// unless `raw` is a valid cell.
    pub fn from_raw(raw: u64) -> (r: Result<Cell, Error>)
        ensures
            r is Ok <==> valid_cell(raw),
            r matches Ok(c) ==> c@ == raw,
            r is Err ==> r == Err::<Cell, Error>(Error::Index(raw)),
    {
        let idx = Index(raw);
        if idx.reserved() || idx.mode() != 1 || idx.base() >= 122 {
            return Err(Error::Index(raw));
        }
        proof {
            lemma_fields(raw);
        }
        Ok(Cell { raw })
    }

    /// The raw H3 index.
    pub fn into_raw(self) -> (r: u64)
        ensures
            r == self@,
    {
        self.raw
    }

    /// The ancestor at resolution `res`: the cell itself at its own
    /// resolution, `None` above it.
    pub fn to_parent(&self, res: u8) -> (r: Option<Cell>)
        ensures
            res as u64 > res_of(self@) ==> r is None,
            res as u64 <= res_of(self@) ==> (r matches Some(p) && p@ == parent_raw(self@, res as u64)),
    {
        proof {
            use_type_invariant(self);
        }
        let own = self.res();
        if own < res {
            None
        } else if own == res {
            Some(*self)
        } else {
            proof {
                lemma_parent(self@, res as u64);
            }
            let idx = Index(self.raw).set_res(res);
            let lower_bits = u64::MAX >> (64 - (15 - res) * 3);
            Some(Cell { raw: idx.0 | lower_bits })
        }
    }

    /// The base cell, 0..122.
    pub fn base(&self) -> (r: u8)
        ensures
            r as u64 == base_of(self@),
            r < 122,
    {
        proof {
            use_type_invariant(self);
        }
        Index(self.raw).base()
    }

    /// The resolution, 0..=15.
    pub fn res(&self) -> (r: u8)
        ensures
            r as u64 == res_of(self@),
            r < 16,
    {
        Index(self.raw).res()
    }

    /// Whether one of the two cells is the other or one of its ancestors:
    /// they have the same ancestor at the coarser of their resolutions.
    pub fn is_related_to(&self, other: &Self) -> (r: bool)
        ensures
            r == related(self@, other@),
    {
        let a = self.res();
        let b = other.res();
        let common = if a < b { a } else { b };
        let p = self.to_parent(common).unwrap();
        let q = other.to_parent(common).unwrap();
        p.raw == q.raw
    }
}

/// A cell under construction during a tree walk: empty above the base
/// cells, then one resolution finer for each step down.
pub struct CellStack(Option<Cell>);

impl View for CellStack {
    type V = Option<u64>;

    closed spec fn view(&self) -> Option<u64> {
        match self.0 {
            Some(c) => Some(c@),
            None => None,
        }
    }
}

impl CellStack {
    /// Whether the cell under construction, if any, is valid.
    pub closed spec fn wf(&self) -> bool {
        self.0 matches Some(c) ==> valid_cell(c@)
    }

    /// An empty stack.
    pub fn new() -> (r: Self)
        ensures
            r@ is None,
            r.wf(),
    {
        CellStack(None)
    }

    /// A stack positioned at `cell`.
    pub fn from_cell(cell: Cell) -> (r: Self)
        ensures
            r@ == Some(cell@),
            r.wf(),
    {
        proof {
            use_type_invariant(&cell);
        }
        CellStack(Some(cell))
    }

    /// The resolution of the cell at the current position, or 0 when there
    /// is none.
    pub fn depth(&self) -> (r: u8)
        ensures
            self@ matches Some(c) ==> r as u64 == res_of(c),
            self@ is None ==> r == 0,
    {
        match &self.0 {
            Some(c) => c.res(),
            None => 0,
        }
    }

    /// The cell at the current position, if any.
    pub fn cell(&self) -> (r: Option<&Cell>)
        ensures
            self@ is None ==> r is None,
            self@ matches Some(raw) ==> (r matches Some(c) && c@ == raw),
    {
        self.0.as_ref()
    }

    /// Steps down: from an empty stack to the base cell `digit`, or from a
    /// cell to its child `digit`.
    pub fn push(&mut self, digit: u8)
        requires
            old(self).wf(),
            old(self)@ is None ==> digit < 122,
            old(self)@ matches Some(c) ==> res_of(c) < 15 && digit < 7,
        ensures
            final(self).wf(),
            old(self)@ is None ==> final(self)@ == Some(base_cell_raw(digit as u64)),
            old(self)@ matches Some(c) ==> final(self)@ == Some(child_raw(c, digit as u64)),
    {
        match self.0 {
            None => {
                proof {
                    lemma_base_cell(digit as u64);
                }
                let idx = Index(0x8001fffffffffff).set_base(digit);
                self.0 = Some(Cell { raw: idx.0 })
            },
            Some(cell) => {
                proof {
                    lemma_child(cell@, digit as u64);
                }
                let res = cell.res();
                let idx = Index(cell.raw).set_res(res + 1).set_digit(res + 1, digit);
                self.0 = Some(Cell { raw: idx.0 })
            },
        }
    }

    /// Steps up and returns the digit (or, from a base cell, the base
    /// cell number) that was left.
    pub fn pop(&mut self) -> (r: Option<u8>)
        requires
            old(self).wf(),
        ensures
            final(self).wf(),
            old(self)@ is None ==> r is None && final(self)@ is None,
            old(self)@ matches Some(c) ==> {
                if res_of(c) == 0 {
                    r == Some(base_of(c) as u8) && final(self)@ is None
                } else {
                    r == Some(digit_at(c, res_of(c)) as u8) && final(self)@ == Some(
                        parent_raw(c, (res_of(c) - 1) as u64),
                    )
                }
            },
    {
        if let Some(cell) = self.0 {
            let res = cell.res();
            if res == 0 {
                let ret = Some(cell.base());
                self.0 = None;
                ret
            } else {
                proof {
                    lemma_parent(cell@, (res - 1) as u64);
                }
                let ret = Index(cell.raw).digit(res);
                self.0 = cell.to_parent(res - 1);
                ret
            }
        } else {
            None
        }
    }

    /// Replaces the digit at the current resolution (the base cell at
    /// resolution 0) and returns the one that was there; does nothing on an
    /// empty stack.
    pub fn swap(&mut self, digit: u8) -> (r: Option<u8>)
        requires
            old(self).wf(),
            old(self)@ matches Some(c) ==> if res_of(c) == 0 {
                digit < 122
            } else {
                digit < 7
            },
        ensures
            final(self).wf(),
            old(self)@ is None ==> r is None && final(self)@ is None,
            old(self)@ matches Some(c) ==> {
                if res_of(c) == 0 {
                    r == Some(base_of(c) as u8) && final(self)@ == Some(
                        with_base(c, digit as u64),
                    )
                } else {
                    r == Some(digit_at(c, res_of(c)) as u8) && final(self)@ == Some(
                        with_digit(c, res_of(c), digit as u64),
                    )
                }
            },
    {
        let ret;
        let inner;
        if let Some(cell) = self.0 {
            let res = cell.res();
            proof {
                lemma_swap(cell@, digit as u64);
            }
            if res == 0 {
                ret = Some(Index(cell.raw).base());
                inner = Some(Cell { raw: Index(cell.raw).set_base(digit).0 });
            } else {
                ret = Index(cell.raw).digit(res);
                inner = Some(Cell { raw: Index(cell.raw).set_digit(res, digit).0 });
            }
        } else {
            return None;
        }
        self.0 = inner;
        ret
    }
}

/// Replacing the base cell of a resolution-0 cell, or the last digit of a
/// finer one, keeps it valid.
proof fn lemma_swap(raw: u64, d: u64)
    requires
        valid_cell(raw),
        if res_of(raw) == 0 {
            d < 122
        } else {
            d < 7
        },
    ensures
        res_of(raw) == 0 ==> valid_cell(with_base(raw, d)),
        res_of(raw) > 0 ==> valid_cell(with_digit(raw, res_of(raw), d)),
{
    lemma_fields(raw);
    if res_of(raw) == 0 {
        lemma_with_base_bits(raw, d, 1);
    } else {
        lemma_with_digit_bits(raw, res_of(raw), d, 1);
    }
}

} // verus!
