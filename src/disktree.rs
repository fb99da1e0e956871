//! The on-disk image of a tree, and reading it in place.
//!
//! Layout: the magic bytes `hextree\0`, a version byte `0xFE - version`,
//! 122 five-byte pointers (one per base cell, zero for none), then nodes.
//! A leaf is a varint length and that many value bytes (first byte's top
//! bit clear); a parent is a tag byte with the top bit set whose low seven
//! bits mark the present children, followed by one pointer per present
//! child in digit order.

use crate::cell::{
    cell_of_path, child_raw, digits_of, lemma_base_cell, lemma_cell_of_path, lemma_child,
    parent_raw, res_of, valid_cell, Cell, CellStack,
};
use crate::digits::Digits;
use crate::dptr::{dp_at, dp_bytes, lemma_dp_at_prefix, lemma_dp_null, Dp, DP_MAX};
use crate::hex_tree_map::HexTreeMap;
use crate::node::{encodes, has_leaf_value, lemma_has_leaf_value_child, leaves_match, leaf_cells, Node};
use crate::hex_tree_map::root_leaves;
use crate::error::Error;
use crate::node::valid_path;
use crate::varint::{self, varint_decode};
use vstd::prelude::*;
use vstd::slice::slice_subrange;

verus! {

/// The magic bytes an image starts with.
pub open spec fn magic() -> Seq<u8> {
    seq![0x68u8, 0x65u8, 0x78u8, 0x74u8, 0x72u8, 0x65u8, 0x65u8, 0x00u8]
}

/// The size of the magic bytes and the version byte.
pub const HDR_SZ: usize = 9;

/// Where the base cell pointers end and nodes begin.
pub const NODES_START: usize = 619;

/// The position of base cell `b`'s pointer.
pub open spec fn base_ptr_pos(b: int) -> int {
    9 + 5 * b
}

/// Whether child `d` of a parent with tag `tag` is present.
pub open spec fn tag_has(tag: u8, d: int) -> bool {
    (tag >> (d as u8)) & 1u8 == 1u8
}

/// How many of the children `0..d` of a parent with tag `tag` are present.
pub open spec fn rank(tag: u8, d: int) -> nat
    decreases d,
{
    if d <= 0 {
        0
    } else {
        rank(tag, d - 1) + if tag_has(tag, d - 1) {
            1nat
        } else {
            0nat
        }
    }
}

/// Setting bit `d` of a tag marks child `d` present and changes nothing
/// else, the top bit included.
pub proof fn lemma_tag_set(tag: u8, d: u8, e: u8)
    by (bit_vector)
    requires
        d < 7,
        e < 8,
    ensures
        ((tag | (1u8 << d)) >> e) & 1u8 == 1u8 <==> ((tag >> e) & 1u8 == 1u8 || e == d),
        (tag | (1u8 << d)) & 0x80u8 == tag & 0x80u8,
{
}

/// The rank of a child depends only on the bits below it.
pub proof fn lemma_rank_agree(a: u8, b: u8, d: int)
    requires
        0 <= d,
        forall|e: int| 0 <= e < d ==> (tag_has(a, e) <==> tag_has(b, e)),
    ensures
        rank(a, d) == rank(b, d),
    decreases d,
{
    if d > 0 {
        lemma_rank_agree(a, b, d - 1);
    }
}

/// Whether the node at `pos` is a leaf.
pub open spec fn is_leaf(buf: Seq<u8>, pos: int) -> bool {
    buf[pos] & 0x80u8 == 0
}

/// Whether the node at `pos` can be read: it lies in the image, and so do
/// a leaf's value bytes or a parent's pointers.
pub open spec fn read_node_spec(buf: Seq<u8>, pos: int) -> Result<(), Error> {
    if pos < 0 || pos >= buf.len() {
        Err(Error::Io)
    } else if is_leaf(buf, pos) {
        match varint_decode(buf.subrange(pos, buf.len() as int)) {
            Err(e) => Err(e),
            Ok((v, n)) => if pos + n + v > buf.len() {
                Err(Error::Io)
            } else {
                Ok(())
            },
        }
    } else if pos + 1 + 5 * rank(buf[pos], 7) > buf.len() {
        Err(Error::Io)
    } else {
        Ok(())
    }
}

/// The value bytes of the leaf at `pos`: where they start and end.
pub open spec fn leaf_range(buf: Seq<u8>, pos: int) -> (int, int) {
    match varint_decode(buf.subrange(pos, buf.len() as int)) {
        Ok((v, n)) => (pos + n, pos + n + v),
        Err(_) => (0, 0),
    }
}

/// The pointer to child `d` of the parent at `pos`, if that child is
/// present.
pub open spec fn child_at(buf: Seq<u8>, pos: int, d: int) -> Option<u64> {
    if tag_has(buf[pos], d) {
        Some(dp_at(buf, pos + 1 + 5 * rank(buf[pos], d)))
    } else {
        None
    }
}

/// Follows `path` from the node at `pos` to the first leaf or the path's
/// end: the number of digits used and the position of the node there.
pub open spec fn disk_find(buf: Seq<u8>, pos: int, path: Seq<u8>) -> Result<
    Option<(nat, int)>,
    Error,
>
    decreases path.len(),
{
    match read_node_spec(buf, pos) {
        Err(e) => Err(e),
        Ok(_) => {
            if path.len() == 0 || is_leaf(buf, pos) {
                Ok(Some((0nat, pos)))
            } else {
                if path[0] >= 7 {
                    Ok(None)
                } else {
                    match child_at(buf, pos, path[0] as int) {
                        None => Ok(None),
                        Some(p) => match disk_find(buf, p as int, path.drop_first()) {
                            Ok(Some((k, q))) => Ok(Some(((k + 1) as nat, q))),
                            other => other,
                        },
                    }
                }
            }
        },
    }
}

/// What looking up `cell` in the image gives: the leaf covering it, as the
/// leaf's cell and its value bytes.
pub open spec fn disk_get(buf: Seq<u8>, cell: u64) -> Result<Option<(u64, Seq<u8>)>, Error> {
    let at = base_ptr_pos(crate::cell::base_of(cell) as int);
    if at + 5 > buf.len() {
        Err(Error::Io)
    } else if dp_at(buf, at) == 0 {
        Ok(None)
    } else {
        match disk_find(buf, dp_at(buf, at) as int, digits_of(cell)) {
            Err(e) => Err(e),
            Ok(None) => Ok(None),
            Ok(Some((k, q))) => if is_leaf(buf, q) {
                Ok(Some((parent_raw(cell, k as u64), buf.subrange(leaf_range(buf, q).0, leaf_range(buf, q).1))))
            } else {
                Ok(None)
            },
        }
    }
}

/// A node read from an image.
pub enum DiskNode {
    /// A leaf, with where its value bytes start and end.
    Leaf(usize, usize),
    /// A parent, with a pointer for each present child.
    Parent(Vec<Option<u64>>),
}

impl DiskNode {
    /// Whether this is what the image holds at `pos`.
    pub open spec fn read_from(&self, buf: Seq<u8>, pos: int) -> bool {
        match self {
            DiskNode::Leaf(b, e) => is_leaf(buf, pos) && (*b as int, *e as int) == leaf_range(buf, pos)
                && *e <= buf.len(),
            DiskNode::Parent(children) => !is_leaf(buf, pos) && children@.len() == 7 && forall|d: int|
                0 <= d < 7 ==> #[trigger] children@[d] == child_at(buf, pos, d),
        }
    }

    /// Reads the node at `pos`.
    pub fn read(buf: &[u8], pos: u64) -> (r: Result<DiskNode, Error>)
        ensures
            match read_node_spec(buf@, pos as int) {
                Err(e) => r == Err::<DiskNode, Error>(e),
                Ok(_) => r matches Ok(n) && n.read_from(buf@, pos as int),
            },
    {
        if pos >= buf.len() as u64 {
            return Err(Error::Io);
        }
        let p = pos as usize;
        let tag = buf[p];
        if tag & 0x80 == 0 {
            match varint::read(buf, p) {
                Err(e) => Err(e),
                Ok((len, n)) => {
                    if n as usize > buf.len() - p || len as usize > buf.len() - p - n as usize {
                        return Err(Error::Io);
                    }
                    let begin = p + n as usize;
                    Ok(DiskNode::Leaf(begin, begin + len as usize))
                },
            }
        } else {
            let mut children: Vec<Option<u64>> = Vec::new();
            let mut d: u8 = 0;
            let mut next: usize = p + 1;
            proof {
                lemma_rank_bound(tag, 7);
            }
            if buf.len() - p - 1 < 5 * count_children(tag) {
                return Err(Error::Io);
            }
            while d < 7
                invariant
                    0 <= d <= 7,
                    buf@.len() == buf.len(),
                    p < buf@.len(),
                    tag == buf@[p as int],
                    !is_leaf(buf@, p as int),
                    p + 1 + 5 * rank(tag, 7) <= buf@.len(),
                    next == p + 1 + 5 * rank(tag, d as int),
                    children@.len() == d,
                    forall|i: int| 0 <= i < d ==> #[trigger] children@[i] == child_at(buf@, p as int, i),
                decreases 7 - d,
            {
                proof {
                    lemma_rank_mono(tag, d as int + 1, 7);
                }
                if (tag >> d) & 1 == 1 {
                    let dp = Dp::read(buf, next).unwrap();
                    children.push(Some(dp.0));
                    next = next + 5;
                } else {
                    children.push(None);
                }
                d += 1;
            }
            Ok(DiskNode::Parent(children))
        }
    }
}

/// The number of children a tag marks present.
fn count_children(tag: u8) -> (r: usize)
    ensures
        r == rank(tag, 7),
{
    let mut d: u8 = 0;
    let mut n: usize = 0;
    while d < 7
        invariant
            0 <= d <= 7,
            n == rank(tag, d as int),
            n <= d,
        decreases 7 - d,
    {
        if (tag >> d) & 1 == 1 {
            n += 1;
        }
        d += 1;
    }
    n
}

proof fn lemma_rank_bound(tag: u8, d: int)
    requires
        0 <= d,
    ensures
        rank(tag, d) <= d,
    decreases d,
{
    if d > 0 {
        lemma_rank_bound(tag, d - 1);
    }
}

proof fn lemma_rank_mono(tag: u8, a: int, b: int)
    requires
        0 <= a <= b,
    ensures
        rank(tag, a) <= rank(tag, b),
    decreases b - a,
{
    if a < b {
        lemma_rank_mono(tag, a, b - 1);
    }
}

/// What opening an image checks: the magic bytes, then the version byte.
pub open spec fn header_check(buf: Seq<u8>) -> Result<(), Error> {
    if buf.len() < 8 {
        Err(Error::Io)
    } else if buf.subrange(0, 8) != magic() {
        Err(Error::NotDisktree)
    } else if buf.len() < 9 {
        Err(Error::Io)
    } else if buf[8] != 0xFE {
        Err(Error::Version(if buf[8] <= 0xFE { (0xFE - buf[8]) as u8 } else { 255u8 }))
    } else {
        Ok(())
    }
}

/// Follows the path that `digits` has left from the node at `pos`, at
/// resolution `res`, to the first leaf or the path's end.
fn find_node(buf: &[u8], pos: u64, res: u8, cell: Cell, digits: Digits) -> (r: Result<
    Option<(Cell, u64, DiskNode)>,
    Error,
>)
    requires
        digits.wf(),
        res + digits@.len() == res_of(cell@),
    ensures
        match disk_find(buf@, pos as int, digits@) {
            Err(e) => r == Err::<Option<(Cell, u64, DiskNode)>, Error>(e),
            Ok(None) => r == Ok::<Option<(Cell, u64, DiskNode)>, Error>(None),
            Ok(Some((k, q))) => r matches Ok(Some((c, p, n))) && c@ == parent_raw(
                cell@,
                (res + k) as u64,
            ) && p == q && n.read_from(buf@, q),
        },
    decreases digits@.len(),
{
    proof {
        crate::cell::lemma_fields(cell@);
    }
    let node = match DiskNode::read(buf, pos) {
        Err(e) => return Err(e),
        Ok(n) => n,
    };
    let mut digits = digits;
    let ghost path = digits@;
    match digits.next() {
        None => Ok(Some((cell, pos, node))),
        Some(d) => {
            let child = match &node {
                DiskNode::Leaf(_, _) => None,
                DiskNode::Parent(children) => if d < 7 {
                    Some(children[d as usize])
                } else {
                    Some(None)
                },
            };
            match child {
                None => Ok(Some((cell.to_parent(res).unwrap(), pos, node))),
                Some(None) => Ok(None),
                Some(Some(p)) => {
                    assert(path.drop_first() == digits@);
                    find_node(buf, p, res + 1, cell, digits)
                },
            }
        },
    }
}

/// A read-only tree mapping cells to byte strings, read in place from its
/// on-disk image.
pub struct DiskTreeMap<'a> {
    buf: &'a [u8],
}

impl<'a> DiskTreeMap<'a> {
    /// The image.
    pub closed spec fn bytes(&self) -> Seq<u8> {
        self.buf@
    }

    /// Opens an image held in `buf`: fails with `Error::Io` when it is too
    /// short for the header, `Error::NotDisktree` when the magic bytes are
    /// wrong, and `Error::Version` for an unknown version.
    pub fn with_buf(buf: &'a [u8]) -> (r: Result<DiskTreeMap<'a>, Error>)
        ensures
            match header_check(buf@) {
                Ok(_) => r matches Ok(t) && t.bytes() == buf@,
                Err(e) => r matches Err(f) && f == e,
            },
    {
        if buf.len() < 8 {
            return Err(Error::Io);
        }
        let is_magic = buf[0] == 0x68 && buf[1] == 0x65 && buf[2] == 0x78 && buf[3] == 0x74 && buf[4]
            == 0x72 && buf[5] == 0x65 && buf[6] == 0x65 && buf[7] == 0x00;
        if !is_magic {
            assert(buf@.subrange(0, 8) != magic()) by {
                if buf@.subrange(0, 8) == magic() {
                    assert(buf@[0] == buf@.subrange(0, 8)[0]);
                    assert(buf@[1] == buf@.subrange(0, 8)[1]);
                    assert(buf@[2] == buf@.subrange(0, 8)[2]);
                    assert(buf@[3] == buf@.subrange(0, 8)[3]);
                    assert(buf@[4] == buf@.subrange(0, 8)[4]);
                    assert(buf@[5] == buf@.subrange(0, 8)[5]);
                    assert(buf@[6] == buf@.subrange(0, 8)[6]);
                    assert(buf@[7] == buf@.subrange(0, 8)[7]);
                }
            }
            return Err(Error::NotDisktree);
        }
        assert(buf@.subrange(0, 8) =~= magic());
        if buf.len() < 9 {
            return Err(Error::Io);
        }
        let version = 0xFEu8.wrapping_sub(buf[8]);
        if version != 0 {
            return Err(Error::Version(version));
        }
        Ok(DiskTreeMap { buf })
    }

    /// The node reached from `cell`'s base cell by following its path.
    fn get_raw(&self, cell: Cell) -> (r: Result<Option<(Cell, u64, DiskNode)>, Error>)
        ensures
            ({
                let at = base_ptr_pos(crate::cell::base_of(cell@) as int);
                let buf = self.bytes();
                if at + 5 > buf.len() {
                    r == Err::<Option<(Cell, u64, DiskNode)>, Error>(Error::Io)
                } else if dp_at(buf, at) == 0 {
                    r == Ok::<Option<(Cell, u64, DiskNode)>, Error>(None)
                } else {
                    match disk_find(buf, dp_at(buf, at) as int, digits_of(cell@)) {
                        Err(e) => r == Err::<Option<(Cell, u64, DiskNode)>, Error>(e),
                        Ok(None) => r == Ok::<Option<(Cell, u64, DiskNode)>, Error>(None),
                        Ok(Some((k, q))) => r matches Ok(Some((c, p, n))) && c@ == parent_raw(
                            cell@,
                            k as u64,
                        ) && p == q && n.read_from(buf, q),
                    }
                }
            }),
    {
        let base = cell.base();
        let at = HDR_SZ + 5 * (base as usize);
        let ptr = match Dp::read(self.buf, at) {
            Err(e) => return Err(e),
            Ok(p) => p,
        };
        if ptr.is_null() {
            return Ok(None);
        }
        find_node(self.buf, ptr.0, 0, cell, Digits::new(cell))
    }

    /// The value bytes of the leaf covering `cell`, with that leaf's cell.
    pub fn get(&self, cell: Cell) -> (r: Result<Option<(Cell, &'a [u8])>, Error>)
        ensures
            match disk_get(self.bytes(), cell@) {
                Err(e) => r matches Err(f) && f == e,
                Ok(None) => r matches Ok(None),
                Ok(Some((a, v))) => r matches Ok(Some((c, s))) && c@ == a && s@ == v,
            },
    {
        match self.get_raw(cell) {
            Err(e) => Err(e),
            Ok(None) => Ok(None),
            Ok(Some((c, _, DiskNode::Leaf(b, e)))) => Ok(Some((c, slice_subrange(self.buf, b, e)))),
            Ok(Some((_, _, DiskNode::Parent(_)))) => Ok(None),
        }
    }

    /// Whether a leaf covers `cell`.
    pub fn contains(&self, cell: Cell) -> (r: Result<bool, Error>)
        ensures
            match disk_get(self.bytes(), cell@) {
                Err(e) => r matches Err(f) && f == e,
                Ok(v) => r matches Ok(b) && b == v is Some,
            },
    {
        match self.get(cell) {
            Err(e) => Err(e),
            Ok(v) => Ok(v.is_some()),
        }
    }
}

/// The image of a tree with no cells: the header and 122 null pointers.
pub open spec fn empty_image() -> Seq<u8> {
    magic().push(0xFEu8) + Seq::new(610, |i: int| 0u8)
}

/// The image of an empty tree opens, holds no leaves, and answers every
/// lookup with nothing.
pub proof fn law_empty_image(cell: u64)
    requires
        valid_cell(cell),
    ensures
        header_check(empty_image()) is Ok,
        disk_all(empty_image()) == Ok::<Seq<(Seq<u8>, (int, int))>, Error>(Seq::empty()),
        disk_get(empty_image(), cell) == Ok::<Option<(u64, Seq<u8>)>, Error>(None),
        disk_descendants(empty_image(), cell) == Ok::<(Seq<(u64, Seq<u8>)>, Option<Error>), Error>(
            (Seq::empty(), None),
        ),
{
    let img = empty_image();
    assert(img.subrange(0, 8) =~= magic());
    assert(img[8] == 0xFE);
    lemma_empty_image_ptrs(122);
    crate::cell::lemma_fields(cell);
    let b = crate::cell::base_of(cell) as int;
    assert(dp_at(img, base_ptr_pos(b)) == 0);
}

/// Every base pointer of the empty image is null, so walking the base
/// cells `0..b` finds no leaf.
proof fn lemma_empty_image_ptrs(b: nat)
    requires
        b <= 122,
    ensures
        forall|i: int| 0 <= i < 122 ==> #[trigger] dp_at(empty_image(), base_ptr_pos(i)) == 0,
        disk_roots(empty_image(), b) == Ok::<Seq<(Seq<u8>, (int, int))>, Error>(Seq::empty()),
    decreases b,
{
    let img = empty_image();
    assert forall|i: int| 0 <= i < 122 implies #[trigger] dp_at(img, base_ptr_pos(i)) == 0 by {
        let at = base_ptr_pos(i);
        assert(img[at] == 0 && img[at + 1] == 0 && img[at + 2] == 0 && img[at + 3] == 0 && img[at + 4] == 0);
        let z = 0u8;
        assert((z as u64) | ((z as u64) << 8u64) | ((z as u64) << 16u64) | ((z as u64) << 24u64) | ((z as u64) << 32u64) == 0) by (bit_vector)
            requires
                z == 0,
        ;
    }
    if b > 0 {
        lemma_empty_image_ptrs((b - 1) as nat);
    }
}

/// Five zero bytes hold the null pointer.
pub proof fn lemma_dp_zero(buf: Seq<u8>, at: int)
    requires
        0 <= at,
        at + 5 <= buf.len(),
        buf[at] == 0 && buf[at + 1] == 0 && buf[at + 2] == 0 && buf[at + 3] == 0 && buf[at + 4] == 0,
    ensures
        dp_at(buf, at) == 0,
{
    let z = 0u8;
    assert((z as u64) | ((z as u64) << 8u64) | ((z as u64) << 16u64) | ((z as u64) << 24u64) | ((z
        as u64) << 32u64) == 0) by (bit_vector)
        requires
            z == 0,
    ;
}

/// `buf` holds, from `start`, the image of a tree with the given roots:
/// the header, then for each base cell a null pointer where it has no
/// subtree and otherwise a pointer past the header to its subtree's image.
pub open spec fn image_of_map<V, E, F: Fn(&V) -> Result<Vec<u8>, E>>(
    buf: Seq<u8>,
    start: int,
    roots: Seq<Option<Box<Node<V>>>>,
    f: F,
) -> bool {
    &&& 0 <= start
    &&& start + 619 <= buf.len()
    &&& buf.subrange(start, start + 9) == magic().push(0xFEu8)
    &&& forall|c: int|
        0 <= c < 122 ==> match #[trigger] roots[c] {
            None => dp_at(buf, start + base_ptr_pos(c)) == 0,
            Some(n) => dp_at(buf, start + base_ptr_pos(c)) >= start + 619 && (*n).image_in(
                buf,
                dp_at(buf, start + base_ptr_pos(c)) as int,
                buf.len() as int,
                f,
            ),
        }
}

/// Walking the base cells of an image that holds a tree's roots lists the
/// tree's leaves, in the tree's order, with the encodings of their values.
proof fn lemma_disk_roots_image<V, E, F: Fn(&V) -> Result<Vec<u8>, E>>(
    buf: Seq<u8>,
    roots: Seq<Option<Box<Node<V>>>>,
    f: F,
    b: nat,
)
    requires
        image_of_map(buf, 0, roots, f),
        roots.len() == 122,
        forall|c: int|
            0 <= c < 122 ==> match #[trigger] roots[c] {
                Some(n) => (*n).wf(15),
                None => true,
            },
        b <= 122,
    ensures
        disk_roots(buf, b) matches Ok(s) && leaves_match(buf, s, root_leaves(roots, b), f),
    decreases b,
{
    if b == 0 {
        assert(leaves_match(buf, Seq::empty(), root_leaves(roots, 0), f));
    } else {
        lemma_disk_roots_image(buf, roots, f, (b - 1) as nat);
        let s = disk_roots(buf, (b - 1) as nat)->Ok_0;
        let c = b - 1;
        assert(base_ptr_pos(c) == 0 + base_ptr_pos(c));
        match roots[c] {
            None => {},
            Some(n) => {
                let p = dp_at(buf, base_ptr_pos(c));
                (*n).lemma_image_leaves(buf, p as int, buf.len() as int, seq![c as u8], 15, f);
                let t = disk_leaves(buf, p as int, seq![c as u8])->Ok_0;
                crate::node::lemma_leaves_match_concat(buf, s, root_leaves(roots, (b - 1) as nat), t, (*n).leaves(seq![c as u8]), f);
            },
        }
    }
}

/// Round trip: an image that `to_disktree` wrote into an empty buffer
/// opens, and reading all of it yields the tree's entries in the tree's
/// own order: each leaf's cell, with bytes the encoder gives for its value.
pub proof fn law_round_trip<V, C, E, F: Fn(&V) -> Result<Vec<u8>, E>>(
    m: &HexTreeMap<V, C>,
    buf: Seq<u8>,
    f: F,
)
    requires
        m.wf(),
        image_of_map(buf, 0, m.roots(), f),
    ensures
        header_check(buf) is Ok,
        disk_all(buf) matches Ok(s) && disk_cells(buf, s).len() == m.entries().len() && forall|j: int|
            0 <= j < m.entries().len() ==> (#[trigger] disk_cells(buf, s)[j]).0 == m.entries()[j].0
                && encodes(f, m.entries()[j].1, disk_cells(buf, s)[j].1),
{
    m.lemma_wf_roots();
    let head = buf.subrange(0, 9);
    assert(head == magic().push(0xFEu8));
    assert(buf.subrange(0, 8) =~= head.subrange(0, 8));
    assert(head.subrange(0, 8) =~= magic());
    assert(buf[8] == head[8]);
    assert(head[8] == 0xFEu8);
    lemma_disk_roots_image(buf, m.roots(), f, 122);
}

/// `n` as a `u32`, or `u32::MAX` when it does not fit.
pub open spec fn saturate_u32(n: nat) -> u32 {
    if n <= u32::MAX {
        n as u32
    } else {
        u32::MAX
    }
}

/// Appends a leaf record: the varint length of `bytes`, then `bytes`.
/// Fails with `Error::Varint` (the length, saturated to `u32`) and leaves
/// `out` as it is when `bytes` holds 2^27 bytes or more.
pub fn frame_value(out: &mut Vec<u8>, bytes: Vec<u8>) -> (r: Result<(), Error>)
    ensures
        bytes@.len() > varint::MAX_VARINT_VAL ==> r == Err::<(), Error>(
            Error::Varint(saturate_u32(bytes@.len())),
        ) && final(out)@ == old(out)@,
        bytes@.len() <= varint::MAX_VARINT_VAL ==> r is Ok && final(out)@ == old(out)@
            + varint::varint_bytes(bytes@.len() as u32) + bytes@,
{
    let len = bytes.len();
    if len > varint::MAX_VARINT_VAL as usize {
        let reported = if len > u32::MAX as usize {
            u32::MAX
        } else {
            len as u32
        };
        return Err(Error::Varint(reported));
    }
    let mut bytes = bytes;
    let _ = varint::write(out, len as u32);
    out.append(&mut bytes);
    Ok(())
}

/// The encoder `f` may answer for `v` with a failure, or with 2^27 bytes
/// or more, and `e` is the error writing then reports.
pub open spec fn encoder_fails<V, E, F: Fn(&V) -> Result<Vec<u8>, E>>(f: F, v: V, e: Error) -> bool {
    exists|o: Result<Vec<u8>, E>|
        #[trigger] f.ensures((&v,), o) && match o {
            Err(_) => e == Error::Writer,
            Ok(b) => b@.len() > varint::MAX_VARINT_VAL && e == Error::Varint(saturate_u32(b@.len())),
        }
}

/// Why writing `node` may fail with `e`, the image having grown to `len`
/// bytes: it outgrew five-byte pointers, or the encoder failed on a value
/// held below `node`.
pub open spec fn write_error_cause<V, E, F: Fn(&V) -> Result<Vec<u8>, E>>(
    node: Node<V>,
    f: F,
    e: Error,
    len: int,
) -> bool {
    ||| e == Error::Io && len > DP_MAX
    ||| exists|v: V| #[trigger] has_leaf_value(node, v) && encoder_fails(f, v, e)
}

/// Some leaf under base cell `b` holds `v`.
pub open spec fn root_has_value<V>(roots: Seq<Option<Box<Node<V>>>>, b: int, v: V) -> bool {
    match roots[b] {
        Some(n) => has_leaf_value(*n, v),
        None => false,
    }
}

/// Why writing a tree with these roots may fail with `e`, the image having
/// grown to `len` bytes: it outgrew five-byte pointers, or the encoder
/// failed on a value held in the tree.
pub open spec fn map_write_error_cause<V, E, F: Fn(&V) -> Result<Vec<u8>, E>>(
    roots: Seq<Option<Box<Node<V>>>>,
    f: F,
    e: Error,
    len: int,
) -> bool {
    ||| e == Error::Io && len > DP_MAX
    ||| exists|b: int, v: V| 0 <= b < 122 && #[trigger] root_has_value(roots, b, v) && encoder_fails(f, v, e)
}

/// The leaves of an image, handed out one at a time, then the error that
/// reading them ran into, once.
pub struct DiskIter<'a> {
    items: Vec<(Cell, &'a [u8])>,
    next_index: usize,
    error: Option<Error>,
}

impl<'a> DiskIter<'a> {
    /// The leaves still to come, as cells and value bytes.
    pub closed spec fn rest(&self) -> Seq<(u64, Seq<u8>)> {
        disk_entries_view(self.items@).subrange(self.next_index as int, self.items@.len() as int)
    }

    /// The error to hand out after them, if any.
    pub closed spec fn error(&self) -> Option<Error> {
        self.error
    }

    /// Whether the position is within the leaves.
    pub closed spec fn wf(&self) -> bool {
        self.next_index <= self.items@.len()
    }

    /// The next leaf; once they are out, the error, once; then `None`.
    pub fn next(&mut self) -> (r: Option<Result<(Cell, &'a [u8]), Error>>)
        requires
            old(self).wf(),
        ensures
            final(self).wf(),
            old(self).rest().len() > 0 ==> (r matches Some(Ok(e)) && (e.0@, e.1@) == old(self).rest()[0])
                && final(self).rest() == old(self).rest().drop_first() && final(self).error() == old(
                self,
            ).error(),
            old(self).rest().len() == 0 ==> final(self).rest().len() == 0 && final(self).error() is None
                && match old(self).error() {
                Some(e) => r == Some(Err::<(Cell, &'a [u8]), Error>(e)),
                None => r is None,
            },
    {
        if self.next_index < self.items.len() {
            let item = self.items[self.next_index];
            let ghost before = self.rest();
            self.next_index = self.next_index + 1;
            assert(self.rest() =~= before.drop_first());
            Some(Ok(item))
        } else {
            match self.error.take() {
                Some(e) => Some(Err(e)),
                None => None,
            }
        }
    }
}

/// Writes trees as images.
pub struct DiskTreeWriter {
    wtr: Vec<u8>,
}

impl DiskTreeWriter {
    /// A writer appending to `wtr`.
    pub fn new(wtr: Vec<u8>) -> (r: Self)
        ensures
            r.bytes() == wtr@,
    {
        DiskTreeWriter { wtr }
    }

    /// What has been written so far.
    pub closed spec fn bytes(&self) -> Seq<u8> {
        self.wtr@
    }

    /// The written bytes.
    pub fn into_inner(self) -> (r: Vec<u8>)
        ensures
            r@ == self.bytes(),
    {
        self.wtr
    }

    /// Appends the image of `hextree`, encoding each value with `f`:
    /// fails with `Error::Writer` when `f` fails, `Error::Varint` for an
    /// encoded value of 2^27 bytes or more, and `Error::Io` when the image
    /// outgrows five-byte pointers. Pointers are offsets in the whole
    /// buffer.
    pub fn write<V, C, F, E>(&mut self, hextree: &HexTreeMap<V, C>, f: &F) -> (r: Result<(), Error>)
        where
            F: Fn(&V) -> Result<Vec<u8>, E>,
        requires
            hextree.wf(),
            forall|v: &V| #[trigger] f.requires((v,)),
        ensures
            final(self).bytes().len() >= old(self).bytes().len(),
            final(self).bytes().subrange(0, old(self).bytes().len() as int) == old(self).bytes(),
            r is Ok ==> image_of_map(
                final(self).bytes(),
                old(self).bytes().len() as int,
                hextree.roots(),
                *f,
            ),
            r is Ok && hextree.is_empty_spec() ==> final(self).bytes() == old(self).bytes()
                + empty_image(),
            hextree.is_empty_spec() ==> r is Ok,
            r matches Err(e) ==> e == Error::Writer || e == Error::Io || e is Varint,
            r matches Err(e) ==> map_write_error_cause(hextree.roots(), *f, e, final(self).bytes().len() as int),
    {
        let ghost start = self.wtr@;
        let s = self.wtr.len();
        self.wtr.push(0x68);
        self.wtr.push(0x65);
        self.wtr.push(0x78);
        self.wtr.push(0x74);
        self.wtr.push(0x72);
        self.wtr.push(0x65);
        self.wtr.push(0x65);
        self.wtr.push(0x00);
        self.wtr.push(0xFE);
        assert(self.wtr@ =~= start + magic().push(0xFEu8));
        let mut b: usize = 0;
        while b < 122
            invariant
                0 <= b <= 122,
                s == start.len(),
                self.wtr@ == start + magic().push(0xFEu8) + Seq::new((5 * b) as nat, |i: int| 0u8),
            decreases 122 - b,
        {
            let ghost before = self.wtr@;
            Dp::null().write(&mut self.wtr);
            proof {
                lemma_dp_null();
                assert(self.wtr@ =~= start + magic().push(0xFEu8) + Seq::new(
                    (5 * (b + 1)) as nat,
                    |i: int| 0u8,
                ));
            }
            b += 1;
        }
        assert(self.wtr@ =~= start + empty_image());
        proof {
            assert forall|c: int| 0 <= c < 122 implies #[trigger] dp_at(self.wtr@, s + base_ptr_pos(c)) == 0 by {
                let at = s + base_ptr_pos(c);
                assert(self.wtr@[at] == 0 && self.wtr@[at + 1] == 0 && self.wtr@[at + 2] == 0
                    && self.wtr@[at + 3] == 0 && self.wtr@[at + 4] == 0);
                lemma_dp_zero(self.wtr@, at);
            }
        }
        let mut b: usize = 0;
        let mut failed: Option<Error> = None;
        while b < 122 && failed.is_none()
            invariant
                0 <= b <= 122,
                hextree.wf(),
                s == start.len(),
                self.wtr@.len() >= s + 619,
                self.wtr@.subrange(0, s + 9) == start + magic().push(0xFEu8),
                hextree.is_empty_spec() ==> self.wtr@ == start + empty_image(),
                hextree.is_empty_spec() ==> failed is None,
                failed matches Some(e) ==> e == Error::Writer || e == Error::Io || e is Varint,
                failed matches Some(e) ==> map_write_error_cause(hextree.roots(), *f, e, self.wtr@.len() as int),
                failed is None ==> forall|c: int| b <= c < 122 ==> #[trigger] dp_at(self.wtr@, s + base_ptr_pos(c)) == 0,
                failed is None ==> forall|c: int|
                    0 <= c < b ==> match #[trigger] hextree.roots()[c] {
                        None => dp_at(self.wtr@, s + base_ptr_pos(c)) == 0,
                        Some(n) => dp_at(self.wtr@, s + base_ptr_pos(c)) >= s + 619 && (*n).image_in(
                            self.wtr@,
                            dp_at(self.wtr@, s + base_ptr_pos(c)) as int,
                            self.wtr@.len() as int,
                            *f,
                        ),
                    },
                forall|v: &V| #[trigger] f.requires((v,)),
            decreases 122 - b,
        {
            let ghost before = self.wtr@;
            if let Some(node) = hextree.root(b) {
                proof {
                    node.lemma_wf_seven(15);
                }
                match self.write_node(node, f) {
                    Ok(pos) => {
                        let ghost mid = self.wtr@;
                        assert(s + 619 <= self.wtr.len());
                        let slot = HDR_SZ + 5 * b + s;
                        Dp(pos).patch(&mut self.wtr, slot);
                        proof {
                            let buf = self.wtr@;
                            assert forall|k: int| pos <= k < mid.len() implies #[trigger] buf[k] == mid[k] by {}
                            (*node).lemma_image_frame(mid, buf, pos as int, mid.len() as int, buf.len() as int, *f);
                            assert forall|c: int| 0 <= c < 122 && c != b implies #[trigger] dp_at(buf, s + base_ptr_pos(c)) == dp_at(before, s + base_ptr_pos(c)) by {
                                let at = s + base_ptr_pos(c);
                                lemma_dp_at_prefix(mid, before, at);
                                assert(dp_at(buf, at) == dp_at(mid, at));
                            }
                            assert forall|c: int| 0 <= c < b implies match #[trigger] hextree.roots()[c] {
                                None => dp_at(buf, s + base_ptr_pos(c)) == 0,
                                Some(n) => dp_at(buf, s + base_ptr_pos(c)) >= s + 619 && (*n).image_in(
                                    buf,
                                    dp_at(buf, s + base_ptr_pos(c)) as int,
                                    buf.len() as int,
                                    *f,
                                ),
                            } by {
                                if let Some(n) = hextree.roots()[c] {
                                    let p = dp_at(before, s + base_ptr_pos(c));
                                    assert forall|k: int| p <= k < before.len() implies #[trigger] buf[k] == before[k] by {
                                        assert(mid.subrange(0, before.len() as int)[k] == before[k]);
                                    }
                                    (*n).lemma_image_frame(before, buf, p as int, before.len() as int, buf.len() as int, *f);
                                }
                            }
                            assert(buf.subrange(0, s + 9) =~= before.subrange(0, s + 9)) by {
                                assert forall|k: int| 0 <= k < s + 9 implies buf[k] == before[k] by {
                                    assert(mid.subrange(0, before.len() as int)[k] == before[k]);
                                }
                            }
                        }
                    },
                    Err(e) => {
                        failed = Some(e);
                        proof {
                            if !(e == Error::Io && self.wtr@.len() > DP_MAX) {
                                let v = choose|v: V| #[trigger] has_leaf_value(*node, v) && encoder_fails(*f, v, e);
                                assert(root_has_value(hextree.roots(), b as int, v));
                            }
                        }
                        assert(self.wtr@.subrange(0, s + 9) =~= before.subrange(0, before.len() as int).subrange(0, s + 9));
                    },
                }
            }
            b += 1;
        }
        if let Some(e) = failed {
            assert(self.wtr@.subrange(0, start.len() as int) =~= self.wtr@.subrange(0, s + 9).subrange(0, start.len() as int));
            return Err(e);
        }
        assert(self.wtr@.subrange(start.len() as int, s + 9) =~= self.wtr@.subrange(0, s + 9).subrange(start.len() as int, s + 9));
        assert(self.wtr@.subrange(0, start.len() as int) =~= self.wtr@.subrange(0, s + 9).subrange(0, start.len() as int));
        assert(self.wtr@.subrange(start.len() as int, s + 9) =~= magic().push(0xFEu8));
        assert(image_of_map(self.wtr@, s as int, hextree.roots(), *f));
        Ok(())
    }

    /// Appends the records of `node` and everything below it, and returns
    /// the position of its own record.
    pub fn write_node<V, F, E>(&mut self, node: &Node<V>, f: &F) -> (r: Result<u64, Error>)
        where
            F: Fn(&V) -> Result<Vec<u8>, E>,
        requires
            (*node).seven(),
            forall|v: &V| #[trigger] f.requires((v,)),
        ensures
            final(self).bytes().len() >= old(self).bytes().len(),
            final(self).bytes().subrange(0, old(self).bytes().len() as int) == old(self).bytes(),
            r matches Ok(p) ==> p == old(self).bytes().len() && p <= DP_MAX && (*node).image_in(
                final(self).bytes(),
                p as int,
                final(self).bytes().len() as int,
                *f,
            ),
            r matches Err(e) ==> e == Error::Writer || e == Error::Io || e is Varint,
            r matches Err(e) ==> write_error_cause(*node, *f, e, final(self).bytes().len() as int),
            old(self).bytes().len() > DP_MAX ==> r == Err::<u64, Error>(Error::Io) && final(self).bytes()
                == old(self).bytes(),
            match *node {
                Node::Leaf(v) => old(self).bytes().len() <= DP_MAX ==> exists|
                    o: Result<Vec<u8>, E>,
                | #[trigger] f.ensures((&v,), o) && match o {
                    Err(_) => r == Err::<u64, Error>(Error::Writer),
                    Ok(b) => if b@.len() > varint::MAX_VARINT_VAL {
                        r == Err::<u64, Error>(Error::Varint(saturate_u32(b@.len())))
                    } else {
                        r == Ok::<u64, Error>(old(self).bytes().len() as u64) && final(self).bytes()
                            == old(self).bytes() + varint::varint_bytes(b@.len() as u32) + b@
                    },
                },
                Node::Parent(_) => true,
            },
        decreases node,
    {
        let node_pos = self.wtr.len();
        if node_pos as u64 > DP_MAX {
            return Err(Error::Io);
        }
        let ghost start = self.wtr@;
        match node {
            Node::Leaf(value) => {
                let encoded = f(value);
                let ghost o = encoded;
                assert(f.ensures((value,), o));
                assert(has_leaf_value(*node, *value));
                let bytes = match encoded {
                    Ok(b) => b,
                    Err(_) => {
                        assert(encoder_fails(*f, *value, Error::Writer));
                        return Err(Error::Writer);
                    },
                };
                let ghost out = bytes;
                let ghost enc = bytes@;
                let len = bytes.len();
                match frame_value(&mut self.wtr, bytes) {
                    Err(e) => {
                        assert(encoder_fails(*f, *value, e));
                        return Err(e);
                    },
                    Ok(()) => {},
                }
                proof {
                    let buf = self.wtr@;
                    let vb = varint::varint_bytes(len as u32);
                    varint::lemma_varint_round_trip(len as u32, enc);
                    assert(buf =~= start + vb + enc);
                    assert(buf.subrange(start.len() as int, buf.len() as int) =~= vb + enc);
                    assert(buf[start.len() as int] == vb[0]);
                    let b0 = vb[0];
                    assert(b0 & 0x80u8 == 0) by (bit_vector)
                        requires
                            b0 < 0x80u8,
                    ;
                    assert(buf.subrange((start.len() + vb.len()) as int, (start.len() + vb.len() + enc.len()) as int) =~= enc);
                    assert(f.ensures((value,), Ok::<Vec<u8>, E>(out)));
                }
                assert(self.wtr@.subrange(0, start.len() as int) =~= start);
            },
            Node::Parent(children) => {
                let tag_pos = self.wtr.len();
                self.wtr.push(0x80);
                let mut tag: u8 = 0x80;
                let mut fixups: Vec<(usize, usize)> = Vec::new();
                let mut d: usize = 0;
                assert(0x80u8 & 0x80u8 == 0x80u8) by (bit_vector);
                proof {
                    assert forall|e: int| 0 <= e < 7 implies !tag_has(0x80u8, e) by {
                        let ee = e as u8;
                        assert((0x80u8 >> ee) & 1u8 != 1u8) by (bit_vector)
                            requires
                                ee < 7,
                        ;
                    }
                }
                while d < 7 && d < children.len()
                    invariant
                        0 <= d <= 7,
                        *node == Node::Parent(*children),
                        tag_pos == start.len(),
                        tag & 0x80u8 == 0x80u8,
                        forall|e: int| 0 <= e < d ==> (tag_has(tag, e) <==> (#[trigger] children@[e]) is Some),
                        forall|e: int| d <= e < 7 ==> !tag_has(tag, e),
                        fixups@.len() == rank(tag, d as int),
                        self.wtr@.len() == start.len() + 1 + 5 * rank(tag, d as int),
                        self.wtr@.subrange(0, start.len() as int) == start,
                        forall|j: int| 0 <= j < fixups@.len() ==> {
                            &&& (#[trigger] fixups@[j]).0 == start.len() + 1 + 5 * j
                            &&& fixups@[j].1 < d
                            &&& fixups@[j].1 < children.len()
                            &&& rank(tag, fixups@[j].1 as int) == j
                            &&& tag_has(tag, fixups@[j].1 as int)
                        },
                        forall|e: int| 0 <= e < d && tag_has(tag, e) ==> (#[trigger] fixups@[rank(tag, e) as int]).1 == e,
                    decreases 7 - d,
                {
                    let ghost before = self.wtr@;
                    let ghost old_tag = tag;
                    let ghost old_fixups = fixups@;
                    if children[d].is_some() {
                        tag = tag | (1u8 << (d as u8));
                        proof {
                            assert forall|e: int| 0 <= e < 8 implies (tag_has(tag, e) <==> (tag_has(old_tag, e) || e == d)) by {
                                lemma_tag_set(old_tag, d as u8, e as u8);
                            }
                            lemma_tag_set(old_tag, d as u8, 0);
                            lemma_rank_agree(tag, old_tag, d as int);
                            assert forall|j: int| 0 <= j < old_fixups.len() implies rank(tag, (#[trigger] old_fixups[j]).1 as int) == j by {
                                lemma_rank_agree(tag, old_tag, old_fixups[j].1 as int);
                            }
                            assert forall|e: int| 0 <= e < d && tag_has(tag, e) implies rank(tag, e) == rank(old_tag, e) by {
                                lemma_rank_agree(tag, old_tag, e);
                            }
                        }
                        fixups.push((self.wtr.len(), d));
                        Dp::null().write(&mut self.wtr);
                        assert(self.wtr@.subrange(0, start.len() as int) =~= before.subrange(0, start.len() as int));
                        proof {
                            assert(rank(tag, d as int) == rank(old_tag, d as int));
                            assert forall|e: int| 0 <= e < d + 1 && tag_has(tag, e) implies (#[trigger] fixups@[rank(tag, e) as int]).1 == e by {
                                if e < d {
                                    assert(tag_has(old_tag, e));
                                    lemma_rank_mono(old_tag, e + 1, d as int);
                                    assert(rank(old_tag, e) < old_fixups.len());
                                    assert(fixups@[rank(tag, e) as int] == old_fixups[rank(old_tag, e) as int]);
                                }
                            }
                        }
                    }
                    d += 1;
                }
                self.wtr.set(tag_pos, tag);
                assert(self.wtr@.subrange(0, start.len() as int) =~= start);
                let ghost base_len = self.wtr@.len();
                proof {
                    assert forall|e: int| 0 <= e < 7 && tag_has(tag, e) implies rank(tag, e) < fixups@.len() by {
                        crate::node::lemma_child_ptr_inside(tag, e);
                    }
                }
                let mut i: usize = 0;
                let mut failed: Option<Error> = None;
                let ghost mut ps: Seq<u64> = Seq::empty();
                while i < fixups.len() && failed.is_none()
                    invariant
                        0 <= i <= fixups@.len(),
                        *node == Node::Parent(*children),
                        (*node).seven(),
                        children@.len() == 7,
                        fixups@.len() == rank(tag, 7),
                        tag & 0x80u8 == 0x80u8,
                        forall|e: int| 0 <= e < 7 ==> (tag_has(tag, e) <==> (#[trigger] children@[e]) is Some),
                        forall|e: int| 0 <= e < 7 && tag_has(tag, e) ==> (#[trigger] fixups@[rank(tag, e) as int]).1 == e,
                        forall|e: int| 0 <= e < 7 && tag_has(tag, e) ==> rank(tag, e) < fixups@.len(),
                        base_len == start.len() + 1 + 5 * fixups@.len(),
                        self.wtr@.len() >= base_len,
                        self.wtr@.subrange(0, start.len() as int) == start,
                        self.wtr@[start.len() as int] == tag,
                        failed is None ==> ps.len() == i,
                        failed matches Some(e) ==> e == Error::Writer || e == Error::Io || e is Varint,
                        failed matches Some(e) ==> write_error_cause(*node, *f, e, self.wtr@.len() as int),
                        forall|j: int| 0 <= j < fixups@.len() ==> {
                            &&& (#[trigger] fixups@[j]).0 == start.len() + 1 + 5 * j
                            &&& fixups@[j].1 < children.len()
                            &&& children@[fixups@[j].1 as int] is Some
                        },
                        failed is None ==> forall|j: int| 0 <= j < i ==> {
                            &&& base_len <= (#[trigger] ps[j])
                            &&& dp_at(self.wtr@, fixups@[j].0 as int) == ps[j]
                            &&& children@[fixups@[j].1 as int] matches Some(b) && (*b).image_in(
                                self.wtr@,
                                ps[j] as int,
                                self.wtr@.len() as int,
                                *f,
                            )
                        },
                        forall|v: &V| #[trigger] f.requires((v,)),
                    decreases fixups@.len() - i,
                {
                    let (slot, d) = fixups[i];
                    let ghost before = self.wtr@;
                    if let Some(child) = &children[d] {
                        proof {
                            node.lemma_child_decreases(d as int);
                        }
                        match self.write_node(child, f) {
                            Ok(pos) => {
                                let ghost mid = self.wtr@;
                                assert(self.wtr@.subrange(0, start.len() as int) =~= before.subrange(0, before.len() as int).subrange(0, start.len() as int));
                                Dp(pos).patch(&mut self.wtr, slot);
                                proof {
                                    let buf = self.wtr@;
                                    assert forall|k: int| pos <= k < mid.len() implies #[trigger] buf[k] == mid[k] by {}
                                    (**child).lemma_image_frame(mid, buf, pos as int, mid.len() as int, buf.len() as int, *f);
                                    assert forall|j: int| 0 <= j < i implies {
                                        &&& base_len <= (#[trigger] ps[j])
                                        &&& dp_at(buf, fixups@[j].0 as int) == ps[j]
                                        &&& children@[fixups@[j].1 as int] matches Some(b) && (*b).image_in(
                                            buf,
                                            ps[j] as int,
                                            buf.len() as int,
                                            *f,
                                        )
                                    } by {
                                        let b = children@[fixups@[j].1 as int]->0;
                                        assert forall|k: int| ps[j] <= k < before.len() implies #[trigger] buf[k] == before[k] by {
                                            assert(mid.subrange(0, before.len() as int)[k] == before[k]);
                                        }
                                        (*b).lemma_image_frame(before, buf, ps[j] as int, before.len() as int, buf.len() as int, *f);
                                        let at = fixups@[j].0 as int;
                                        lemma_dp_at_prefix(mid, before, at);
                                        assert(dp_at(buf, at) == dp_at(mid, at));
                                    }
                                    assert(buf[start.len() as int] == mid.subrange(0, before.len() as int)[start.len() as int]);
                                    ps = ps.push(pos);
                                }
                                assert(self.wtr@.subrange(0, start.len() as int) =~= start);
                            },
                            Err(e) => {
                                failed = Some(e);
                                proof {
                                    if !(e == Error::Io && self.wtr@.len() > DP_MAX) {
                                        let v = choose|v: V| #[trigger] has_leaf_value(**child, v) && encoder_fails(*f, v, e);
                                        lemma_has_leaf_value_child(*node, d as int, v);
                                    }
                                }
                                assert(self.wtr@.subrange(0, start.len() as int) =~= before.subrange(0, before.len() as int).subrange(0, start.len() as int));
                                assert(self.wtr@[start.len() as int] == before.subrange(0, before.len() as int)[start.len() as int]);
                            },
                        }
                    }
                    i += 1;
                }
                if let Some(e) = failed {
                    return Err(e);
                }
                proof {
                    let buf = self.wtr@;
                    assert(buf[start.len() as int] == tag);
                    assert forall|e: int| 0 <= e < 7 implies (tag_has(buf[start.len() as int], e) <==> (#[trigger] children@[e]) is Some)
                        && match children@[e] {
                        Some(b) => child_at(buf, start.len() as int, e) matches Some(p) && start.len() < p && (*b).image_in(
                            buf,
                            p as int,
                            buf.len() as int,
                            *f,
                        ),
                        None => true,
                    } by {
                        if tag_has(tag, e) {
                            let j = rank(tag, e) as int;
                            assert(fixups@[j].1 == e);
                            assert(j < i);
                            assert(fixups@[j].0 == start.len() + 1 + 5 * j);
                            assert(dp_at(buf, fixups@[j].0 as int) == ps[j]);
                            assert(child_at(buf, start.len() as int, e) == Some(ps[j]));
                        }
                    }
                }
            },
        }
        Ok(node_pos as u64)
    }
}

impl<V, C> HexTreeMap<V, C> {
    /// Appends this tree's on-disk image to `wtr`, encoding each value with
    /// `f`.
    pub fn to_disktree<F, E>(&self, wtr: &mut Vec<u8>, f: F) -> (r: Result<(), Error>)
        where
            F: Fn(&V) -> Result<Vec<u8>, E>,
        requires
            self.wf(),
            forall|v: &V| #[trigger] f.requires((v,)),
        ensures
            final(wtr)@.subrange(0, old(wtr)@.len() as int) == old(wtr)@,
            r is Ok ==> final(wtr)@.len() >= old(wtr)@.len() + 619 && final(wtr)@.subrange(
                old(wtr)@.len() as int,
                (old(wtr)@.len() + 9) as int,
            ) == magic().push(0xFEu8),
            r is Ok && self.is_empty_spec() ==> final(wtr)@ == old(wtr)@ + empty_image(),
            r is Ok ==> image_of_map(final(wtr)@, old(wtr)@.len() as int, self.roots(), f),
            self.is_empty_spec() ==> r is Ok,
            r matches Err(e) ==> e == Error::Writer || e == Error::Io || e is Varint,
            r matches Err(e) ==> map_write_error_cause(self.roots(), f, e, final(wtr)@.len() as int),
    {
        let mut inner: Vec<u8> = Vec::new();
        std::mem::swap(&mut inner, wtr);
        let mut writer = DiskTreeWriter::new(inner);
        let r = writer.write(self, &f);
        let mut written = writer.into_inner();
        std::mem::swap(&mut written, wtr);
        r
    }
}

/// The leaves below the node at `pos`, which sits at `path`, in depth-first
/// order with digits ascending: each leaf's path and the bounds of its
/// value bytes; or the first error met on the way.
pub open spec fn disk_leaves(buf: Seq<u8>, pos: int, path: Seq<u8>) -> Result<
    Seq<(Seq<u8>, (int, int))>,
    Error,
>
    decreases (17 - path.len()) as nat, 8nat,
{
    match read_node_spec(buf, pos) {
        Err(e) => Err(e),
        Ok(_) => {
            if is_leaf(buf, pos) {
                Ok(seq![(path, leaf_range(buf, pos))])
            } else if path.len() >= 16 {
                Err(Error::InvalidTag(buf[pos], pos as u64))
            } else {
                disk_leaves_from(buf, pos, path, 0)
            }
        },
    }
}

/// The leaves below the children `d..7` of the parent at `pos`.
pub open spec fn disk_leaves_from(buf: Seq<u8>, pos: int, path: Seq<u8>, d: nat) -> Result<
    Seq<(Seq<u8>, (int, int))>,
    Error,
>
    decreases (17 - path.len()) as nat, (7 - d) as nat,
{
    if d >= 7 || path.len() >= 16 {
        Ok(Seq::empty())
    } else {
        match child_at(buf, pos, d as int) {
            None => disk_leaves_from(buf, pos, path, d + 1),
            Some(p) => match disk_leaves(buf, p as int, path.push(d as u8)) {
                Err(e) => Err(e),
                Ok(s) => match disk_leaves_from(buf, pos, path, d + 1) {
                    Err(e) => Err(e),
                    Ok(t) => Ok(s + t),
                },
            },
        }
    }
}

/// The leaves below the base cells `0..b`, or the first error.
pub open spec fn disk_roots(buf: Seq<u8>, b: nat) -> Result<Seq<(Seq<u8>, (int, int))>, Error>
    decreases b,
{
    if b == 0 {
        Ok(Seq::empty())
    } else {
        match disk_roots(buf, (b - 1) as nat) {
            Err(e) => Err(e),
            Ok(s) => {
                let ptr = dp_at(buf, base_ptr_pos(b - 1));
                if ptr == 0 {
                    Ok(s)
                } else {
                    match disk_leaves(buf, ptr as int, seq![(b - 1) as u8]) {
                        Err(e) => Err(e),
                        Ok(t) => Ok(s + t),
                    }
                }
            },
        }
    }
}

/// Once the walk over the base cells has failed, it stays failed with the
/// same error.
proof fn lemma_disk_roots_err(buf: Seq<u8>, b: nat, c: nat)
    requires
        disk_roots(buf, b) is Err,
        b <= c,
    ensures
        disk_roots(buf, c) == disk_roots(buf, b),
    decreases c - b,
{
    if b < c {
        lemma_disk_roots_err(buf, b, (c - 1) as nat);
    }
}

/// When walking the node at `pos` fails, the leaves met before the error.
pub open spec fn disk_partial(buf: Seq<u8>, pos: int, path: Seq<u8>) -> Seq<(Seq<u8>, (int, int))>
    decreases (17 - path.len()) as nat, 8nat,
{
    match read_node_spec(buf, pos) {
        Err(_) => Seq::empty(),
        Ok(_) => {
            if is_leaf(buf, pos) || path.len() >= 16 {
                Seq::empty()
            } else {
                disk_partial_from(buf, pos, path, 0)
            }
        },
    }
}

/// When walking children `d..7` of the parent at `pos` fails, the leaves
/// met before the error.
pub open spec fn disk_partial_from(buf: Seq<u8>, pos: int, path: Seq<u8>, d: nat) -> Seq<
    (Seq<u8>, (int, int)),
>
    decreases (17 - path.len()) as nat, (7 - d) as nat,
{
    if d >= 7 || path.len() >= 16 {
        Seq::empty()
    } else {
        match child_at(buf, pos, d as int) {
            None => disk_partial_from(buf, pos, path, d + 1),
            Some(p) => match disk_leaves(buf, p as int, path.push(d as u8)) {
                Err(_) => disk_partial(buf, p as int, path.push(d as u8)),
                Ok(s) => s + disk_partial_from(buf, pos, path, d + 1),
            },
        }
    }
}

/// When walking the base cells `0..b` fails, the leaves met before the
/// error.
pub open spec fn disk_roots_partial(buf: Seq<u8>, b: nat) -> Seq<(Seq<u8>, (int, int))>
    decreases b,
{
    if b == 0 {
        Seq::empty()
    } else {
        match disk_roots(buf, (b - 1) as nat) {
            Err(_) => disk_roots_partial(buf, (b - 1) as nat),
            Ok(s) => {
                let ptr = dp_at(buf, base_ptr_pos(b - 1));
                s + disk_partial(buf, ptr as int, seq![(b - 1) as u8])
            },
        }
    }
}

/// When reading a whole image fails, the leaves met before the error.
pub open spec fn disk_all_partial(buf: Seq<u8>) -> Seq<(Seq<u8>, (int, int))> {
    if buf.len() < 619 {
        Seq::empty()
    } else {
        disk_roots_partial(buf, 122)
    }
}

/// Once the walk over the base cells has failed, what it met before the
/// error stays the same.
proof fn lemma_disk_roots_partial_err(buf: Seq<u8>, b: nat, c: nat)
    requires
        disk_roots(buf, b) is Err,
        b <= c,
    ensures
        disk_roots_partial(buf, c) == disk_roots_partial(buf, b),
    decreases c - b,
{
    if b < c {
        lemma_disk_roots_err(buf, b, (c - 1) as nat);
        lemma_disk_roots_partial_err(buf, b, (c - 1) as nat);
    }
}

/// Every leaf of the image, or the first error.
pub open spec fn disk_all(buf: Seq<u8>) -> Result<Seq<(Seq<u8>, (int, int))>, Error> {
    if buf.len() < 619 {
        Err(Error::Io)
    } else {
        disk_roots(buf, 122)
    }
}

/// Leaves with their paths replaced by their cells and their bounds by
/// their value bytes.
pub open spec fn disk_cells(buf: Seq<u8>, s: Seq<(Seq<u8>, (int, int))>) -> Seq<(u64, Seq<u8>)> {
    s.map_values(|e: (Seq<u8>, (int, int))| (cell_of_path(e.0), buf.subrange(e.1.0, e.1.1)))
}

/// Entries read from an image, as cell indices and value bytes.
pub open spec fn disk_entries_view(s: Seq<(Cell, &[u8])>) -> Seq<(u64, Seq<u8>)> {
    s.map_values(|e: (Cell, &[u8])| (e.0@, e.1@))
}

/// Appends the leaves below the node at `pos`, which sits at `path` with
/// `stack` holding its cell, to `out`.
fn collect_node<'a>(
    buf: &'a [u8],
    pos: u64,
    stack: &mut CellStack,
    out: &mut Vec<(Cell, &'a [u8])>,
    Ghost(path): Ghost<Seq<u8>>,
) -> (r: Result<(), Error>)
    requires
        valid_path(path),
        old(stack).wf(),
        old(stack)@ == Some(cell_of_path(path)),
    ensures
        final(stack).wf(),
        match disk_leaves(buf@, pos as int, path) {
            Err(e) => r == Err::<(), Error>(e) && disk_entries_view(final(out)@) == disk_entries_view(
                old(out)@,
            ) + disk_cells(buf@, disk_partial(buf@, pos as int, path)),
            Ok(s) => r is Ok && final(stack)@ == old(stack)@ && disk_entries_view(final(out)@)
                == disk_entries_view(old(out)@) + disk_cells(buf@, s),
        },
    decreases (17 - path.len()) as nat, 8nat,
{
    proof {
        lemma_cell_of_path(path);
    }
    let node = match DiskNode::read(buf, pos) {
        Err(e) => return Err(e),
        Ok(n) => n,
    };
    match node {
        DiskNode::Leaf(b, e) => {
            let cell = *stack.cell().unwrap();
            let ghost before = out@;
            out.push((cell, slice_subrange(buf, b, e)));
            assert(disk_entries_view(out@) =~= disk_entries_view(before) + disk_cells(
                buf@,
                seq![(path, leaf_range(buf@, pos as int))],
            ));
            Ok(())
        },
        DiskNode::Parent(children) => {
            if stack.depth() >= 15 {
                return Err(Error::InvalidTag(buf[pos as usize], pos));
            }
            collect_children(buf, pos, &children, 0, stack, out, Ghost(path))
        },
    }
}

/// Appends the leaves below the children `d..7` of the parent at `pos`.
fn collect_children<'a>(
    buf: &'a [u8],
    pos: u64,
    children: &Vec<Option<u64>>,
    d: usize,
    stack: &mut CellStack,
    out: &mut Vec<(Cell, &'a [u8])>,
    Ghost(path): Ghost<Seq<u8>>,
) -> (r: Result<(), Error>)
    requires
        valid_path(path),
        path.len() < 16,
        d <= 7,
        children@.len() == 7,
        forall|i: int| 0 <= i < 7 ==> #[trigger] children@[i] == child_at(buf@, pos as int, i),
        old(stack).wf(),
        old(stack)@ == Some(cell_of_path(path)),
    ensures
        final(stack).wf(),
        match disk_leaves_from(buf@, pos as int, path, d as nat) {
            Err(e) => r == Err::<(), Error>(e) && disk_entries_view(final(out)@) == disk_entries_view(
                old(out)@,
            ) + disk_cells(buf@, disk_partial_from(buf@, pos as int, path, d as nat)),
            Ok(s) => r is Ok && final(stack)@ == old(stack)@ && disk_entries_view(final(out)@)
                == disk_entries_view(old(out)@) + disk_cells(buf@, s),
        },
    decreases (17 - path.len()) as nat, (7 - d) as nat,
{
    if d >= 7 {
        assert(disk_entries_view(out@) =~= disk_entries_view(out@) + disk_cells(
            buf@,
            Seq::empty(),
        ));
        return Ok(());
    }
    match children[d] {
        None => collect_children(buf, pos, children, d + 1, stack, out, Ghost(path)),
        Some(p) => {
            let ghost child_path = path.push(d as u8);
            assert(child_path.drop_last() == path);
            assert forall|i: int| 1 <= i < child_path.len() implies #[trigger] child_path[i] < 7 by {
                if i < path.len() {
                    assert(child_path[i] == path[i]);
                }
            }
            proof {
                lemma_cell_of_path(path);
                lemma_child(cell_of_path(path), d as u64);
            }
            let ghost out0 = out@;
            stack.push(d as u8);
            match collect_node(buf, p, stack, out, Ghost(child_path)) {
                Err(e) => return Err(e),
                Ok(()) => {},
            }
            stack.pop();
            let ghost out1 = out@;
            match collect_children(buf, pos, children, d + 1, stack, out, Ghost(path)) {
                Err(e) => Err(e),
                Ok(()) => {
                    proof {
                        let s = disk_leaves(buf@, p as int, child_path)->Ok_0;
                        let t = disk_leaves_from(buf@, pos as int, path, (d + 1) as nat)->Ok_0;
                        assert(disk_cells(buf@, s + t) =~= disk_cells(buf@, s) + disk_cells(buf@, t));
                        assert(disk_entries_view(out@) =~= disk_entries_view(out0) + disk_cells(buf@, s + t));
                    }
                    Ok(())
                },
            }
        },
    }
}

impl<'a> DiskTreeMap<'a> {
    /// Every leaf of the image, base cells ascending and then digits
    /// ascending, with its cell and value bytes, read in place; or, when
    /// reading fails, the leaves met before the error and then the error.
    fn read_all(&self) -> (r: (Vec<(Cell, &'a [u8])>, Option<Error>))
        ensures
            match disk_all(self.bytes()) {
                Err(e) => r.1 == Some(e) && disk_entries_view(r.0@) == disk_cells(
                    self.bytes(),
                    disk_all_partial(self.bytes()),
                ),
                Ok(s) => r.1 is None && disk_entries_view(r.0@) == disk_cells(self.bytes(), s),
            },
    {
        let buf = self.buf;
        let mut out: Vec<(Cell, &'a [u8])> = Vec::new();
        if buf.len() < NODES_START {
            assert(disk_entries_view(out@) =~= disk_cells(buf@, Seq::empty()));
            return (out, Some(Error::Io));
        }
        let mut b: usize = 0;
        while b < 122
            invariant
                0 <= b <= 122,
                buf@ == self.bytes(),
                buf@.len() >= 619,
                disk_roots(buf@, b as nat) is Ok,
                disk_entries_view(out@) == disk_cells(buf@, disk_roots(buf@, b as nat)->Ok_0),
            decreases 122 - b,
        {
            let ptr = Dp::read(buf, HDR_SZ + 5 * b).unwrap();
            if !ptr.is_null() {
                let ghost path = seq![b as u8];
                proof {
                    lemma_base_cell(b as u64);
                }
                assert(valid_path(path));
                assert(cell_of_path(path) == crate::cell::base_cell_raw(b as u64));
                let mut stack = CellStack::new();
                stack.push(b as u8);
                let ghost out0 = out@;
                match collect_node(buf, ptr.0, &mut stack, &mut out, Ghost(path)) {
                    Err(e) => {
                        proof {
                            lemma_disk_roots_err(buf@, (b + 1) as nat, 122);
                            lemma_disk_roots_partial_err(buf@, (b + 1) as nat, 122);
                            let s = disk_roots(buf@, b as nat)->Ok_0;
                            let t = disk_partial(buf@, ptr.0 as int, path);
                            assert(disk_cells(buf@, s + t) =~= disk_cells(buf@, s) + disk_cells(buf@, t));
                        }
                        return (out, Some(e));
                    },
                    Ok(()) => {},
                }
                proof {
                    let s = disk_roots(buf@, b as nat)->Ok_0;
                    let t = disk_leaves(buf@, ptr.0 as int, path)->Ok_0;
                    assert(disk_cells(buf@, s + t) =~= disk_cells(buf@, s) + disk_cells(buf@, t));
                }
            }
            b += 1;
        }
        (out, None)
    }

    /// An iterator over every leaf of the image, base cells ascending and
    /// then digits ascending, with its cell and value bytes read in place:
    /// it hands out the leaves, then the error reading ran into, if any,
    /// once. Fails with `Error::Io` when the image is too short for its
    /// base cell pointers.
    pub fn iter(&self) -> (r: Result<DiskIter<'a>, Error>)
        ensures
            self.bytes().len() < 619 ==> r == Err::<DiskIter<'a>, Error>(Error::Io),
            self.bytes().len() >= 619 ==> (r matches Ok(it) && it.wf() && match disk_all(self.bytes()) {
                Err(e) => it.rest() == disk_cells(self.bytes(), disk_all_partial(self.bytes()))
                    && it.error() == Some(e),
                Ok(s) => it.rest() == disk_cells(self.bytes(), s) && it.error() is None,
            }),
    {
        if self.buf.len() < NODES_START {
            return Err(Error::Io);
        }
        let (items, error) = self.read_all();
        let it = DiskIter { items, next_index: 0, error };
        assert(it.rest() =~= disk_entries_view(items@));
        Ok(it)
    }

    /// The leaf covering `cell` if there is one; otherwise every leaf below
    /// `cell`; or the first error met.
    pub fn descendants(&self, cell: Cell) -> (r: Result<DiskIter<'a>, Error>)
        ensures
            match disk_descendants(self.bytes(), cell@) {
                Err(e) => r matches Err(f) && f == e,
                Ok((s, err)) => r matches Ok(it) && it.wf() && it.rest() == s && it.error() == err,
            },
    {
        proof {
            use_type_invariant(&cell);
            let path = seq![crate::cell::base_of(cell@) as u8] + digits_of(cell@);
            crate::cell::lemma_fields(cell@);
            crate::cell::lemma_parent(cell@, res_of(cell@));
            let at = base_ptr_pos(crate::cell::base_of(cell@) as int);
            if at + 5 <= self.bytes().len() && dp_at(self.bytes(), at) != 0 {
                lemma_disk_find_end(self.bytes(), dp_at(self.bytes(), at) as int, digits_of(cell@));
                if let Ok(Some((k, q))) = disk_find(self.bytes(), dp_at(self.bytes(), at) as int, digits_of(cell@)) {
                    if !is_leaf(self.bytes(), q) {
                        assert forall|i: int| 1 <= i < path.len() implies #[trigger] path[i] < 7 by {
                            assert(path[i] == digits_of(cell@)[i - 1]);
                        }
                    }
                }
            }
        }
        let buf = self.buf;
        let mut out: Vec<(Cell, &'a [u8])> = Vec::new();
        let mut error: Option<Error> = None;
        match self.get_raw(cell) {
            Err(e) => return Err(e),
            Ok(None) => {},
            Ok(Some((c, pos, node))) => {
                match node {
                    DiskNode::Leaf(b, e) => {
                        out.push((c, slice_subrange(buf, b, e)));
                    },
                    DiskNode::Parent(_) => {
                        let ghost path = seq![crate::cell::base_of(cell@) as u8] + digits_of(cell@);
                        let mut stack = crate::digits::stack_of(cell);
                        match collect_node(buf, pos, &mut stack, &mut out, Ghost(path)) {
                            Err(e) => {
                                error = Some(e);
                            },
                            Ok(()) => {},
                        }
                    },
                }
            },
        }
        let it = DiskIter { items: out, next_index: 0, error };
        assert(it.rest() =~= disk_entries_view(out@));
        assert(disk_entries_view(out@) =~= disk_descendants(self.bytes(), cell@)->Ok_0.0);
        Ok(it)
    }
}

/// A lookup stops at a parent only where the path ends, and follows only
/// digits 0..=6.
proof fn lemma_disk_find_end(buf: Seq<u8>, pos: int, path: Seq<u8>)
    ensures
        disk_find(buf, pos, path) matches Ok(Some((k, q))) ==> k <= path.len() && (!is_leaf(buf, q)
            ==> k == path.len()) && forall|i: int| 0 <= i < k ==> #[trigger] path[i] < 7,
    decreases path.len(),
{
    if read_node_spec(buf, pos) is Ok && path.len() > 0 && !is_leaf(buf, pos) && path[0] < 7 {
        if let Some(p) = child_at(buf, pos, path[0] as int) {
            lemma_disk_find_end(buf, p as int, path.drop_first());
            if let Ok(Some((k, q))) = disk_find(buf, pos, path) {
                assert forall|i: int| 0 <= i < k implies #[trigger] path[i] < 7 by {
                    if i > 0 {
                        assert(path[i] == path.drop_first()[i - 1]);
                    }
                }
            }
        }
    }
}

/// What asking the image for the leaves at or below `cell` gives: an
/// error if looking `cell` up fails; otherwise the leaf covering `cell`
/// alone, or the leaves below it, with the error walking them ran into,
/// if any, after the leaves met before it.
pub open spec fn disk_descendants(buf: Seq<u8>, cell: u64) -> Result<
    (Seq<(u64, Seq<u8>)>, Option<Error>),
    Error,
> {
    let at = base_ptr_pos(crate::cell::base_of(cell) as int);
    if at + 5 > buf.len() {
        Err(Error::Io)
    } else if dp_at(buf, at) == 0 {
        Ok((Seq::empty(), None))
    } else {
        match disk_find(buf, dp_at(buf, at) as int, digits_of(cell)) {
            Err(e) => Err(e),
            Ok(None) => Ok((Seq::empty(), None)),
            Ok(Some((k, q))) => if is_leaf(buf, q) {
                Ok(
                    (
                        seq![(parent_raw(cell, k as u64), buf.subrange(leaf_range(buf, q).0, leaf_range(buf, q).1))],
                        None,
                    ),
                )
            } else {
                let path = seq![crate::cell::base_of(cell) as u8] + digits_of(cell);
                match disk_leaves(buf, q, path) {
                    Err(e) => Ok((disk_cells(buf, disk_partial(buf, q, path)), Some(e))),
                    Ok(s) => Ok((disk_cells(buf, s), None)),
                }
            },
        }
    }
}

} // verus!
