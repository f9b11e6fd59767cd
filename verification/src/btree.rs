//! B-tree pages: node headers, leaf entries and the row encoding.
//!
//! A node page starts with an 8-byte header: the node type (0 internal,
//! 1 leaf), the number of keys (`u16`), the parent page (`u32`) and a spare
//! byte. A leaf then holds its entries back to back: an `i64` key, a `u32`
//! payload size and the payload, an encoded row. All integers are
//! little-endian.

use vstd::prelude::*;
use vstd::bytes::*;
use crate::bytes::{moved, copy_within, splice, u16_at, u32_at, u64_at, i64_at, i64_bytes, read_u16, read_u32, read_u64, read_i64, write_at, write_slice_at, push_u32, push_u64, push_all, copy_range};
use crate::storage::{Page, Pager, PAGE_SIZE, zero_page};
use crate::types::{PageId, Result, Row, Value, ValueView, VelociError};

verus! {

/// Maximum number of keys of an internal node.
pub const BTREE_ORDER: usize = 64;

/// Size of the node header in bytes.
pub const HEADER_SIZE: usize = 8;

/// The kind of a node.
#[derive(Debug, Clone, Copy, PartialEq, Eq, Structural)]
pub enum NodeType {
    Internal,
    Leaf,
}

/// The byte that stands for a node type.
pub open spec fn node_type_byte(t: NodeType) -> u8 {
    match t {
        NodeType::Internal => 0,
        NodeType::Leaf => 1,
    }
}

/// The header of a B-tree node.
#[derive(Clone)]
pub struct NodeHeader {
    pub node_type: u8,
    pub num_keys: u16,
    pub parent: u32,
    pub padding: u8,
}

/// The seven header bytes that `serialize` writes: type, key count, parent.
pub open spec fn header_bytes(node_type: u8, num_keys: u16, parent: u32) -> Seq<u8> {
    seq![node_type] + spec_u16_to_le_bytes(num_keys) + spec_u32_to_le_bytes(parent)
}

/// The node type byte of a page.
pub open spec fn page_type(d: Seq<u8>) -> u8 {
    d[0]
}

/// The key count of a page.
pub open spec fn page_num_keys(d: Seq<u8>) -> u16 {
    u16_at(d, 1)
}

/// The parent page of a page.
pub open spec fn page_parent(d: Seq<u8>) -> u32 {
    u32_at(d, 3)
}

/// `d` with its first seven bytes replaced by the given header fields.
pub open spec fn with_header(d: Seq<u8>, node_type: u8, num_keys: u16, parent: u32) -> Seq<u8> {
    splice(d, 0, header_bytes(node_type, num_keys, parent))
}

impl NodeHeader {
    /// Size of the header in bytes.
    pub const SIZE: usize = 8;

    /// An empty header of the given node type with no parent.
    pub fn new(node_type: NodeType) -> (h: NodeHeader)
        ensures
            h.node_type == node_type_byte(node_type),
            h.num_keys == 0,
            h.parent == 0,
            h.padding == 0,
    {
        let t: u8 = match node_type {
            NodeType::Internal => 0,
            NodeType::Leaf => 1,
        };
        NodeHeader { node_type: t, num_keys: 0, parent: 0, padding: 0 }
    }

    /// An empty leaf header.
    pub fn new_leaf() -> (h: NodeHeader)
        ensures
            h.node_type == 1,
            h.num_keys == 0,
            h.parent == 0,
            h.padding == 0,
    {
        Self::new(NodeType::Leaf)
    }

    /// Writes the type, key count and parent into the first seven bytes.
    pub fn serialize(&self, buffer: &mut [u8])
        requires
            old(buffer)@.len() >= 7,
        ensures
            final(buffer)@ == with_header(old(buffer)@, self.node_type, self.num_keys, self.parent),
    {
        proof {
            lemma_auto_spec_u32_to_from_le_bytes();
        }
        let mut h: Vec<u8> = Vec::new();
        h.push(self.node_type);
        push_all(&mut h, u16_to_le_bytes(self.num_keys).as_slice());
        push_u32(&mut h, self.parent);
        assert(h@ =~= header_bytes(self.node_type, self.num_keys, self.parent));
        write_slice_at(buffer, 0, h.as_slice());
    }

    /// Reads a header; `Corruption` when the buffer is shorter than a header.
    pub fn deserialize(buffer: &[u8]) -> (r: Result<NodeHeader>)
        ensures
            buffer@.len() < 8 ==> r matches Err(VelociError::Corruption(_)),
            buffer@.len() >= 8 ==> (r matches Ok(h) && h.node_type == page_type(buffer@)
                && h.num_keys == page_num_keys(buffer@) && h.parent == page_parent(buffer@)
                && h.padding == 0),
    {
        if buffer.len() < Self::SIZE {
            return Err(VelociError::Corruption(String::from_str("Buffer too small for NodeHeader")));
        }
        Ok(NodeHeader {
            node_type: buffer[0],
            num_keys: read_u16(buffer, 1),
            parent: read_u32(buffer, 3),
            padding: 0,
        })
    }
}

// ---------------------------------------------------------------------------
// Row encoding

/// The encoding of one value: a type tag, then 8 little-endian bytes for
/// numbers, or a `u32` byte length and the bytes for text and blobs.
/// `Real` values share the tag of `Float`.
pub open spec fn encode_value(v: ValueView) -> Seq<u8> {
    match v {
        ValueView::Null => seq![0u8],
        ValueView::Integer(i) => seq![1u8] + i64_bytes(i),
        ValueView::Float(f) => seq![2u8] + spec_u64_to_le_bytes(f),
        ValueView::Real(f) => seq![2u8] + spec_u64_to_le_bytes(f),
        ValueView::Text(s) => seq![3u8] + spec_u32_to_le_bytes(
            vstd::utf8::encode_utf8(s).len() as u32,
        ) + vstd::utf8::encode_utf8(s),
        ValueView::Blob(b) => seq![4u8] + spec_u32_to_le_bytes(b.len() as u32) + b,
    }
}

/// The encodings of `vs`, one after the other.
pub open spec fn encode_values(vs: Seq<ValueView>) -> Seq<u8>
    decreases vs.len(),
{
    if vs.len() == 0 {
        Seq::empty()
    } else {
        encode_values(vs.drop_last()) + encode_value(vs.last())
    }
}

/// The encoding of a row: the `u32` value count, then the values.
pub open spec fn encode_row(vs: Seq<ValueView>) -> Seq<u8> {
    spec_u32_to_le_bytes(vs.len() as u32) + encode_values(vs)
}

/// Decodes one value at `off`: the value and the offset after it, or `None`
/// when the bytes run out, the tag is unknown or text is not UTF-8.
pub open spec fn decode_value(d: Seq<u8>, off: int) -> Option<(ValueView, int)> {
    if off + 1 > d.len() {
        None
    } else {
        let tag = d[off];
        if tag == 0 {
            Some((ValueView::Null, off + 1))
        } else if tag == 1 {
            if off + 9 > d.len() { None } else { Some((ValueView::Integer(i64_at(d, off + 1)), off + 9)) }
        } else if tag == 2 {
            if off + 9 > d.len() { None } else { Some((ValueView::Float(u64_at(d, off + 1)), off + 9)) }
        } else if tag == 3 || tag == 4 {
            if off + 5 > d.len() {
                None
            } else {
                let len = u32_at(d, off + 1) as int;
                if off + 5 + len > d.len() {
                    None
                } else {
                    let bytes = d.subrange(off + 5, off + 5 + len);
                    if tag == 4 {
                        Some((ValueView::Blob(bytes), off + 5 + len))
                    } else if vstd::utf8::valid_utf8(bytes) {
                        Some((ValueView::Text(vstd::utf8::decode_utf8(bytes)), off + 5 + len))
                    } else {
                        None
                    }
                }
            }
        } else {
            None
        }
    }
}

/// Decodes `n` values from `off`: the values and the offset after them.
pub open spec fn decode_values(d: Seq<u8>, off: int, n: nat) -> Option<(Seq<ValueView>, int)>
    decreases n,
{
    if n == 0 {
        Some((Seq::empty(), off))
    } else {
        match decode_values(d, off, (n - 1) as nat) {
            None => None,
            Some((vs, o)) => match decode_value(d, o) {
                None => None,
                Some((v, o2)) => Some((vs.push(v), o2)),
            },
        }
    }
}

/// Decodes a row: its value count, then that many values.
pub open spec fn decode_row(d: Seq<u8>) -> Option<Seq<ValueView>> {
    if d.len() < 4 {
        None
    } else {
        match decode_values(d, 4, u32_at(d, 0) as nat) {
            None => None,
            Some((vs, _)) => Some(vs),
        }
    }
}

// ---------------------------------------------------------------------------
// Page-level model of the tree operations

/// Why a tree operation failed: a page past the end of the store, a page
/// whose bytes do not describe a node, or a store that cannot grow.
pub enum Fault {
    Missing,
    Corrupt,
    Full,
}

/// The error that stands for a fault.
pub open spec fn error_is(e: VelociError, f: Fault) -> bool {
    match f {
        Fault::Missing => e is NotFound,
        Fault::Corrupt => e is Corruption,
        Fault::Full => e is StorageError,
    }
}

/// `r` is the outcome `s`: the same value, or an error standing for the fault.
pub open spec fn outcome<T>(r: Result<T>, s: std::result::Result<T, Fault>) -> bool {
    match s {
        Ok(x) => r == Ok::<T, VelociError>(x),
        Err(f) => r matches Err(e) && error_is(e, f),
    }
}

/// The store of a pager as a model: the pages and the recorded writes.
pub type PState = (Seq<Seq<u8>>, Seq<(PageId, Seq<u8>)>);

/// The model of a pager.
pub open spec fn pstate(p: &Pager) -> PState {
    (p.pages(), p.pending())
}

/// `st` after writing `page` as page `id`.
pub open spec fn ps_write(st: PState, id: int, page: Seq<u8>) -> PState {
    (crate::storage::spec_write(st.0, id, page), st.1.push((id as PageId, page)))
}

/// `st` after allocating a zero page at its end.
pub open spec fn ps_alloc(st: PState) -> PState {
    (st.0.push(zero_page()), st.1.push((st.0.len() as PageId, zero_page())))
}

/// `st` after replacing page `id` in memory, without recording a write.
pub open spec fn ps_set(st: PState, id: int, page: Seq<u8>) -> PState {
    (st.0.update(id, page), st.1)
}

/// The bytes of a leaf entry.
pub open spec fn entry_bytes(key: i64, data: Seq<u8>) -> Seq<u8> {
    i64_bytes(key) + spec_u32_to_le_bytes(data.len() as u32) + data
}

/// The payload size of the entry at `off`.
pub open spec fn size_at(d: Seq<u8>, off: int) -> int {
    u32_at(d, off + 8) as int
}

/// The first of the entries `i..n` (from offset `off`) whose key is `key`,
/// as its offset and payload size; `Err` when an entry header runs past the
/// page before one is found.
pub open spec fn find_entry(d: Seq<u8>, key: i64, i: int, n: int, off: int) -> std::result::Result<
    Option<(int, int)>,
    (),
>
    decreases n - i,
{
    if i >= n {
        Ok(None)
    } else if off + 12 > PAGE_SIZE {
        Err(())
    } else if i64_at(d, off) == key {
        Ok(Some((off, size_at(d, off))))
    } else {
        find_entry(d, key, i + 1, n, off + 12 + size_at(d, off))
    }
}

/// The offset just past the entries `i..n` (from offset `off`); `None` when
/// one of them runs past the page.
pub open spec fn data_end(d: Seq<u8>, i: int, n: int, off: int) -> Option<int>
    decreases n - i,
{
    if i >= n {
        Some(off)
    } else if off + 12 > PAGE_SIZE {
        None
    } else if off + 12 + size_at(d, off) > PAGE_SIZE {
        None
    } else {
        data_end(d, i + 1, n, off + 12 + size_at(d, off))
    }
}

/// Where a new entry with `key` goes among the entries `i..n`: before the
/// first larger key, else after them all.
pub open spec fn insert_pos(d: Seq<u8>, key: i64, i: int, n: int, off: int) -> Option<int>
    decreases n - i,
{
    if i >= n {
        Some(off)
    } else if off + 12 > PAGE_SIZE {
        None
    } else if key < i64_at(d, off) {
        Some(off)
    } else if off + 12 + size_at(d, off) > PAGE_SIZE {
        None
    } else {
        insert_pos(d, key, i + 1, n, off + 12 + size_at(d, off))
    }
}

/// The entries `i..n` from offset `off`, as keys and payloads.
pub open spec fn leaf_entries(d: Seq<u8>, i: int, n: int, off: int) -> Option<Seq<(i64, Seq<u8>)>>
    decreases n - i,
{
    if i >= n {
        Some(Seq::empty())
    } else if off + 12 > PAGE_SIZE || off + 12 + size_at(d, off) > PAGE_SIZE {
        None
    } else {
        match leaf_entries(d, i + 1, n, off + 12 + size_at(d, off)) {
            None => None,
            Some(rest) => Some(
                seq![(i64_at(d, off), d.subrange(off + 12, off + 12 + size_at(d, off)))] + rest,
            ),
        }
    }
}

/// The entries of a leaf page.
pub open spec fn page_entries(d: Seq<u8>) -> Option<Seq<(i64, Seq<u8>)>> {
    leaf_entries(d, 0, page_num_keys(d) as int, HEADER_SIZE as int)
}

/// The child an internal page leads `key` to: the child after the last
/// separator not above `key`. An internal page holds its first child at
/// `HEADER_SIZE`, then each separator and the child after it in 16-byte
/// steps (an 8-byte key, then an 8-byte page number), as new roots and
/// separator insertions write them.
pub open spec fn descend(d: Seq<u8>, key: i64, i: int, n: int, child: PageId) -> Option<PageId>
    decreases n - i,
{
    if i >= n {
        Some(child)
    } else if HEADER_SIZE + 16 * i + 24 > PAGE_SIZE {
        None
    } else if key < i64_at(d, HEADER_SIZE + 16 * i + 8) {
        Some(child)
    } else {
        descend(d, key, i + 1, n, u64_at(d, HEADER_SIZE + 16 * i + 16))
    }
}

/// The first child of an internal page.
pub open spec fn first_child(d: Seq<u8>) -> PageId {
    u64_at(d, HEADER_SIZE as int)
}

/// The leaf that `key` leads to from page `id`, within `fuel` pages; a walk
/// longer than the store has pages goes round a cycle.
pub open spec fn find_leaf_from(pages: Seq<Seq<u8>>, id: PageId, key: i64, fuel: nat) -> std::result::Result<
    PageId,
    Fault,
>
    decreases fuel,
{
    if fuel == 0 {
        Err(Fault::Corrupt)
    } else if id >= pages.len() {
        Err(Fault::Missing)
    } else {
        let d = pages[id as int];
        if page_type(d) == 1 {
            Ok(id)
        } else {
            match descend(d, key, 0, page_num_keys(d) as int, first_child(d)) {
                None => Err(Fault::Corrupt),
                Some(c) => find_leaf_from(pages, c, key, (fuel - 1) as nat),
            }
        }
    }
}

/// The leaf that `key` leads to from the root.
pub open spec fn spec_find_leaf(pages: Seq<Seq<u8>>, root: PageId, key: i64) -> std::result::Result<
    PageId,
    Fault,
> {
    find_leaf_from(pages, root, key, (pages.len() + 1) as nat)
}

/// The leftmost leaf under page `id`, within `fuel` pages.
pub open spec fn leftmost_from(pages: Seq<Seq<u8>>, id: PageId, fuel: nat) -> std::result::Result<
    PageId,
    Fault,
>
    decreases fuel,
{
    if fuel == 0 {
        Err(Fault::Corrupt)
    } else if id >= pages.len() {
        Err(Fault::Missing)
    } else if page_type(pages[id as int]) == 1 {
        Ok(id)
    } else {
        leftmost_from(pages, first_child(pages[id as int]), (fuel - 1) as nat)
    }
}

/// What a leaf page gives for `key`: the row of its first entry with that
/// key, `None` when it has none.
pub open spec fn page_lookup(d: Seq<u8>, key: i64) -> std::result::Result<Option<Seq<ValueView>>, Fault> {
    match find_entry(d, key, 0, page_num_keys(d) as int, HEADER_SIZE as int) {
        Err(_) => Err(Fault::Corrupt),
        Ok(None) => Ok(None),
        Ok(Some((o, sz))) => if o + 12 + sz > PAGE_SIZE {
            Err(Fault::Corrupt)
        } else {
            match decode_row(d.subrange(o + 12, o + 12 + sz)) {
                None => Err(Fault::Corrupt),
                Some(vs) => Ok(Some(vs)),
            }
        },
    }
}

/// What `search` finds for `key`: the row of the first entry with that key in
/// the leaf it leads to.
pub open spec fn spec_search(pages: Seq<Seq<u8>>, root: PageId, key: i64) -> std::result::Result<
    Option<Seq<ValueView>>,
    Fault,
> {
    match spec_find_leaf(pages, root, key) {
        Err(f) => Err(f),
        Ok(leaf) => page_lookup(pages[leaf as int], key),
    }
}

/// The rows of a sequence of entries, or `None` when one does not decode.
pub open spec fn decode_entries(es: Seq<(i64, Seq<u8>)>) -> Option<Seq<(i64, Seq<ValueView>)>>
    decreases es.len(),
{
    if es.len() == 0 {
        Some(Seq::empty())
    } else {
        match (decode_entries(es.drop_last()), decode_row(es.last().1)) {
            (Some(rs), Some(vs)) => Some(rs.push((es.last().0, vs))),
            _ => None,
        }
    }
}

/// What `scan` lists: the keys and rows of the leftmost leaf, in page order.
pub open spec fn spec_scan(pages: Seq<Seq<u8>>, root: PageId) -> std::result::Result<
    Seq<(i64, Seq<ValueView>)>,
    Fault,
> {
    match leftmost_from(pages, root, (pages.len() + 1) as nat) {
        Err(f) => Err(f),
        Ok(leaf) => match page_entries(pages[leaf as int]) {
            None => Err(Fault::Corrupt),
            Some(es) => match decode_entries(es) {
                None => Err(Fault::Corrupt),
                Some(rs) => Ok(rs),
            },
        },
    }
}

/// What `delete` does with `key`: removes the first entry with that key from
/// its leaf, moving the later entries down, and writes the leaf.
pub open spec fn spec_delete(st: PState, root: PageId, key: i64) -> (PState, std::result::Result<
    bool,
    Fault,
>) {
    match spec_find_leaf(st.0, root, key) {
        Err(f) => (st, Err(f)),
        Ok(leaf) => {
            let d = st.0[leaf as int];
            let n = page_num_keys(d) as int;
            match find_entry(d, key, 0, n, HEADER_SIZE as int) {
                Err(_) => (st, Err(Fault::Corrupt)),
                Ok(None) => (st, Ok(false)),
                Ok(Some((o, sz))) => match data_end(d, 0, n, HEADER_SIZE as int) {
                    None => (st, Err(Fault::Corrupt)),
                    Some(end) => {
                        let ds = 12 + sz;
                        let moved = d.subrange(0, o) + d.subrange(o + ds, end) + d.subrange(
                            end - ds,
                            PAGE_SIZE as int,
                        );
                        let d2 = with_header(moved, page_type(d), (n - 1) as u16, page_parent(d));
                        (ps_write(st, leaf as int, d2), Ok(true))
                    },
                },
            }
        },
    }
}

/// The offset after the first `k` of the entries `i..` from `off`.
pub open spec fn entries_offset(d: Seq<u8>, i: int, k: int, off: int) -> int
    decreases k - i,
{
    if i >= k {
        off
    } else {
        entries_offset(d, i + 1, k, off + 12 + size_at(d, off))
    }
}

/// `n` zero bytes.
pub open spec fn zeros(n: int) -> Seq<u8> {
    Seq::new(n as nat, |i: int| 0u8)
}

/// `count` copies of the write `w`.
pub open spec fn repeated(w: (PageId, Seq<u8>), count: nat) -> Seq<(PageId, Seq<u8>)>
    decreases count,
{
    if count == 0 {
        Seq::empty()
    } else {
        repeated(w, (count - 1) as nat).push(w)
    }
}

/// What splitting leaf `id` does: a new sibling page takes the upper half of
/// the entries, the leaf keeps the lower half (its key count is changed in
/// memory only), and the first key of the upper half is the split key.
pub open spec fn spec_split(st: PState, id: PageId) -> (PState, std::result::Result<(PageId, i64), Fault>) {
    if id >= st.0.len() {
        (st, Err(Fault::Missing))
    } else {
        let d = st.0[id as int];
        let n = page_num_keys(d) as int;
        match data_end(d, 0, n, HEADER_SIZE as int) {
            None => (st, Err(Fault::Corrupt)),
            Some(end) => if st.0.len() >= usize::MAX {
                (st, Err(Fault::Full))
            } else {
                let sib = st.0.len() as PageId;
                let st1 = ps_alloc(st);
                let k = n / 2;
                let split_off = entries_offset(d, 0, k, HEADER_SIZE as int);
                let split_key = if k < n { i64_at(d, split_off) } else { 0 };
                let st2 = (st1.0, st1.1 + repeated((id, d), k as nat));
                let st3 = ps_set(st2, id as int, with_header(d, page_type(d), k as u16, page_parent(d)));
                let sib_page = header_bytes(1, (n - k) as u16, 0) + seq![0u8] + d.subrange(split_off, end)
                    + zeros(PAGE_SIZE - HEADER_SIZE - (end - split_off));
                (ps_write(st3, sib as int, sib_page), Ok((sib, split_key)))
            },
        }
    }
}

/// What making a new root over `left` and `right` does: a new internal page
/// holding the two children around `key`, and both children's parent set to
/// it in memory.
pub open spec fn spec_new_root(st: PState, left: PageId, right: PageId, key: i64) -> (PState, std::result::Result<
    PageId,
    Fault,
>) {
    if st.0.len() >= usize::MAX {
        (st, Err(Fault::Full))
    } else {
        let root = st.0.len() as PageId;
        let st1 = ps_alloc(st);
        let rp = header_bytes(0, 1, 0) + seq![0u8] + spec_u64_to_le_bytes(left) + i64_bytes(key)
            + spec_u64_to_le_bytes(right) + zeros(PAGE_SIZE - 32);
        let st2 = ps_write(st1, root as int, rp);
        if left >= st2.0.len() {
            (st2, Err(Fault::Missing))
        } else {
            let l = st2.0[left as int];
            let st3 = ps_set(st2, left as int, with_header(l, page_type(l), page_num_keys(l), root as u32));
            if right >= st3.0.len() {
                (st3, Err(Fault::Missing))
            } else {
                let r = st3.0[right as int];
                let st4 = ps_set(st3, right as int, with_header(r, page_type(r), page_num_keys(r), root as u32));
                (st4, Ok(root))
            }
        }
    }
}

/// Where a separator `key` goes in an internal page laid out in 16-byte
/// steps: after the separators not above it.
pub open spec fn internal_pos(d: Seq<u8>, key: i64, i: int, n: int) -> Option<int>
    decreases n - i,
{
    if i >= n {
        Some(i)
    } else if HEADER_SIZE + 16 * i + 16 > PAGE_SIZE {
        None
    } else if key < i64_at(d, HEADER_SIZE + 16 * i + 8) {
        Some(i)
    } else {
        internal_pos(d, key, i + 1, n)
    }
}

/// What inserting separator `key` between `left` and `right` into internal
/// page `id` does; a page with `BTREE_ORDER` keys is not split but refused.
pub open spec fn spec_insert_internal(st: PState, id: PageId, left: PageId, right: PageId, key: i64) -> (PState, std::result::Result<
    (),
    Fault,
>) {
    if id >= st.0.len() {
        (st, Err(Fault::Missing))
    } else {
        let d = st.0[id as int];
        let n = page_num_keys(d) as int;
        match internal_pos(d, key, 0, n) {
            None => (st, Err(Fault::Corrupt)),
            Some(idx) => if n >= BTREE_ORDER {
                (st, Err(Fault::Corrupt))
            } else {
                let ins = HEADER_SIZE + idx * 16;
                let end = HEADER_SIZE + n * 16 + 8;
                let d1 = d.subrange(0, ins + 16) + d.subrange(ins, end) + d.subrange(end + 16, PAGE_SIZE as int);
                let d2 = splice(d1, ins, spec_u64_to_le_bytes(left) + i64_bytes(key) + spec_u64_to_le_bytes(right));
                let d3 = with_header(d2, page_type(d), (n + 1) as u16, page_parent(d));
                (ps_write(st, id as int, d3), Ok(()))
            },
        }
    }
}

/// What linking a split into the parent of `left` does: a new root when
/// `left` has no parent, else the separator goes into the parent and
/// `right` takes the same parent (in memory).
pub open spec fn spec_insert_parent(st: PState, left: PageId, right: PageId, key: i64) -> (PState, std::result::Result<
    Option<PageId>,
    Fault,
>) {
    if left >= st.0.len() {
        (st, Err(Fault::Missing))
    } else {
        let p = page_parent(st.0[left as int]);
        if p == 0 {
            let (st1, r) = spec_new_root(st, left, right, key);
            match r {
                Err(f) => (st1, Err(f)),
                Ok(root) => (st1, Ok(Some(root))),
            }
        } else {
            let (st1, r) = spec_insert_internal(st, p as PageId, left, right, key);
            match r {
                Err(f) => (st1, Err(f)),
                Ok(()) => if right >= st1.0.len() {
                    (st1, Err(Fault::Missing))
                } else {
                    let rp = st1.0[right as int];
                    (ps_set(st1, right as int, with_header(rp, page_type(rp), page_num_keys(rp), p)), Ok(None))
                },
            }
        }
    }
}

/// How many times an insertion may split a leaf before it gives up.
pub const INSERT_SPLIT_LIMIT: u64 = 66;

/// What inserting an entry into leaf `id` does: the entry goes before the
/// first larger key when it fits; otherwise the leaf is split and linked into
/// its parent, and the insertion is retried in the half the key belongs to.
/// A new root made by the split, or by the retry, is returned.
pub open spec fn spec_insert_leaf(st: PState, id: PageId, key: i64, data: Seq<u8>, fuel: nat) -> (PState, std::result::Result<
    Option<PageId>,
    Fault,
>)
    decreases fuel,
{
    if fuel == 0 {
        (st, Err(Fault::Corrupt))
    } else if id >= st.0.len() {
        (st, Err(Fault::Missing))
    } else {
        let d = st.0[id as int];
        let n = page_num_keys(d) as int;
        match (insert_pos(d, key, 0, n, HEADER_SIZE as int), data_end(d, 0, n, HEADER_SIZE as int)) {
            (Some(pos), Some(end)) => {
                let req = 12 + data.len();
                if end + req > PAGE_SIZE {
                    let (st1, r1) = spec_split(st, id);
                    match r1 {
                        Err(f) => (st1, Err(f)),
                        Ok((sib, sk)) => {
                            let (st2, r2) = spec_insert_parent(st1, id, sib, sk);
                            match r2 {
                                Err(f) => (st2, Err(f)),
                                Ok(new_root) => {
                                    let (st3, r3) = spec_insert_leaf(
                                        st2,
                                        if key < sk { id } else { sib },
                                        key,
                                        data,
                                        (fuel - 1) as nat,
                                    );
                                    match r3 {
                                        Ok(None) => (st3, Ok(new_root)),
                                        _ => (st3, r3),
                                    }
                                },
                            }
                        },
                    }
                } else {
                    let d1 = d.subrange(0, pos) + entry_bytes(key, data) + d.subrange(pos, end)
                        + d.subrange(end + req, PAGE_SIZE as int);
                    let d2 = with_header(d1, page_type(d), (n + 1) as u16, page_parent(d));
                    (ps_write(st, id as int, d2), Ok(None))
                }
            },
            _ => (st, Err(Fault::Corrupt)),
        }
    }
}

/// What `insert` does: finds the leaf for `key` and inserts the encoded row
/// there; a new root, when the insertion made one, is returned.
pub open spec fn spec_insert(st: PState, root: PageId, key: i64, row: Seq<ValueView>) -> (PState, std::result::Result<
    Option<PageId>,
    Fault,
>) {
    match spec_find_leaf(st.0, root, key) {
        Err(f) => (st, Err(f)),
        Ok(leaf) => spec_insert_leaf(st, leaf, key, encode_row(row), INSERT_SPLIT_LIMIT as nat),
    }
}

// ---------------------------------------------------------------------------
// Walking the entries of a page

/// The first entry with `key` among the first `n` entries of a leaf page.
fn page_find_entry(d: &[u8], key: i64, n: u16) -> (r: std::result::Result<Option<(usize, usize)>, ()>)
    requires
        d@.len() == PAGE_SIZE,
    ensures
        match find_entry(d@, key, 0, n as int, HEADER_SIZE as int) {
            Err(()) => r is Err,
            Ok(None) => r == Ok::<Option<(usize, usize)>, ()>(None),
            Ok(Some((o, sz))) => r matches Ok(Some((a, b))) && a == o && b == sz,
        },
        r matches Ok(Some((a, b))) ==> a + 12 <= PAGE_SIZE,
{
    let mut off: usize = HEADER_SIZE;
    let mut i: u16 = 0;
    while i < n
        invariant
            d@.len() == PAGE_SIZE,
            i <= n,
            off <= PAGE_SIZE,
            find_entry(d@, key, 0, n as int, HEADER_SIZE as int) == find_entry(d@, key, i as int, n as int, off as int),
        decreases n - i,
    {
        if off + 12 > PAGE_SIZE {
            return Err(());
        }
        let stored = read_i64(d, off);
        let size = read_u32(d, off + 8) as usize;
        if stored == key {
            return Ok(Some((off, size)));
        }
        if size > PAGE_SIZE - 12 - off {
            // the next entry header cannot fit: the walk fails there, or ends
            proof {
                lemma_find_entry_past_page(d@, key, i as int + 1, n as int, off + 12 + size);
            }
            if i + 1 < n {
                return Err(());
            }
            return Ok(None);
        }
        off = off + 12 + size;
        i = i + 1;
    }
    Ok(None)
}

proof fn lemma_find_entry_past_page(d: Seq<u8>, key: i64, i: int, n: int, off: int)
    requires
        off > PAGE_SIZE,
    ensures
        i < n ==> find_entry(d, key, i, n, off) is Err,
        i >= n ==> find_entry(d, key, i, n, off) == Ok::<Option<(int, int)>, ()>(None),
{
}

/// The offset just past the first `n` entries of a leaf page.
fn page_data_end(d: &[u8], n: u16) -> (r: Option<usize>)
    requires
        d@.len() == PAGE_SIZE,
    ensures
        match data_end(d@, 0, n as int, HEADER_SIZE as int) {
            None => r is None,
            Some(e) => r == Some(e as usize) && HEADER_SIZE + 12 * n <= e <= PAGE_SIZE,
        },
{
    let mut off: usize = HEADER_SIZE;
    let mut i: u16 = 0;
    while i < n
        invariant
            d@.len() == PAGE_SIZE,
            i <= n,
            HEADER_SIZE + 12 * i <= off <= PAGE_SIZE,
            data_end(d@, 0, n as int, HEADER_SIZE as int) == data_end(d@, i as int, n as int, off as int),
        decreases n - i,
    {
        if off + 12 > PAGE_SIZE {
            return None;
        }
        let size = read_u32(d, off + 8) as usize;
        if size > PAGE_SIZE - 12 - off {
            return None;
        }
        off = off + 12 + size;
        i = i + 1;
    }
    proof {
        lemma_data_end_bounds(d@, 0, n as int, HEADER_SIZE as int);
    }
    Some(off)
}

/// The data end lies past 12 bytes per entry and within the page.
pub proof fn lemma_data_end_bounds(d: Seq<u8>, i: int, n: int, off: int)
    requires
        off <= PAGE_SIZE,
    ensures
        data_end(d, i, n, off) matches Some(e) ==> off + 12 * (if n > i { n - i } else { 0 }) <= e <= PAGE_SIZE,
    decreases n - i,
{
    if i < n && off + 12 <= PAGE_SIZE && off + 12 + size_at(d, off) <= PAGE_SIZE {
        lemma_data_end_bounds(d, i + 1, n, off + 12 + size_at(d, off));
    }
}

/// Where an entry with `key` goes among the first `n` entries of a leaf page.
fn page_insert_pos(d: &[u8], key: i64, n: u16) -> (r: Option<usize>)
    requires
        d@.len() == PAGE_SIZE,
    ensures
        match insert_pos(d@, key, 0, n as int, HEADER_SIZE as int) {
            None => r is None,
            Some(p) => r == Some(p as usize),
        },
{
    let mut off: usize = HEADER_SIZE;
    let mut i: u16 = 0;
    while i < n
        invariant
            d@.len() == PAGE_SIZE,
            i <= n,
            off <= PAGE_SIZE,
            insert_pos(d@, key, 0, n as int, HEADER_SIZE as int) == insert_pos(d@, key, i as int, n as int, off as int),
        decreases n - i,
    {
        if off + 12 > PAGE_SIZE {
            return None;
        }
        let stored = read_i64(d, off);
        if key < stored {
            return Some(off);
        }
        let size = read_u32(d, off + 8) as usize;
        if size > PAGE_SIZE - 12 - off {
            return None;
        }
        off = off + 12 + size;
        i = i + 1;
    }
    Some(off)
}

// ---------------------------------------------------------------------------
// The tree

/// A B-tree of rows keyed by `i64`, stored in the pages of a [`Pager`].
pub struct BTree {
    root_page: PageId,
}

/// A leaf found by descent lies within the store.
proof fn lemma_find_leaf_in_range(pages: Seq<Seq<u8>>, id: PageId, key: i64, fuel: nat)
    ensures
        find_leaf_from(pages, id, key, fuel) matches Ok(l) ==> l < pages.len(),
    decreases fuel,
{
    if fuel > 0 && id < pages.len() && page_type(pages[id as int]) != 1 {
        let d = pages[id as int];
        if let Some(c) = descend(d, key, 0, page_num_keys(d) as int, first_child(d)) {
            lemma_find_leaf_in_range(pages, c, key, (fuel - 1) as nat);
        }
    }
}

// ---------------------------------------------------------------------------
// Internal pages

/// The `i`th child of an internal page.
pub open spec fn child_at(d: Seq<u8>, i: int) -> PageId {
    u64_at(d, HEADER_SIZE + 16 * i)
}

/// The `i`th separator of an internal page.
pub open spec fn sep_at(d: Seq<u8>, i: int) -> i64 {
    i64_at(d, HEADER_SIZE + 16 * i + 8)
}

/// The index of the child that `key` goes to among separators `i..n`: the
/// first separator above `key`, else `n`.
pub open spec fn route(d: Seq<u8>, key: i64, i: int, n: int) -> int
    decreases n - i,
{
    if i >= n {
        n
    } else if key < sep_at(d, i) {
        i
    } else {
        route(d, key, i + 1, n)
    }
}

/// Descending through an internal page that fits goes to the child at the
/// route's index.
proof fn lemma_descend_route(d: Seq<u8>, key: i64, i: int, n: int)
    requires
        0 <= i <= n,
        HEADER_SIZE + 16 * n + 16 <= PAGE_SIZE,
    ensures
        descend(d, key, i, n, child_at(d, i)) == Some(child_at(d, route(d, key, i, n))),
        internal_pos(d, key, i, n) == Some(route(d, key, i, n)),
    decreases n - i,
{
    if i < n {
        assert(HEADER_SIZE + 16 * i + 24 <= PAGE_SIZE);
        assert(u64_at(d, HEADER_SIZE + 16 * i + 16) == child_at(d, i + 1)) by {
            assert(HEADER_SIZE + 16 * i + 16 == HEADER_SIZE + 16 * (i + 1));
        }
        lemma_descend_route(d, key, i + 1, n);
    }
}

/// The route's index is the first separator above `key`.
proof fn lemma_route_is(d: Seq<u8>, key: i64, i: int, n: int, j: int)
    requires
        i <= j <= n,
        forall|t: int| i <= t < j ==> sep_at(d, t) <= key,
        j < n ==> key < sep_at(d, j),
    ensures
        route(d, key, i, n) == j,
    decreases n - i,
{
    if i < j {
        assert(sep_at(d, i) <= key);
        lemma_route_is(d, key, i + 1, n, j);
    }
}

/// What the route's index satisfies.
proof fn lemma_route_props(d: Seq<u8>, key: i64, i: int, n: int)
    requires
        i <= n,
    ensures
        i <= route(d, key, i, n) <= n,
        forall|t: int| i <= t < route(d, key, i, n) ==> sep_at(d, t) <= key,
        route(d, key, i, n) < n ==> key < sep_at(d, route(d, key, i, n)),
    decreases n - i,
{
    if i < n && !(key < sep_at(d, i)) {
        lemma_route_props(d, key, i + 1, n);
    }
}

/// The 8 bytes at `o` of `a + b + c`, when they lie within `b`.
proof fn lemma_sub8(a: Seq<u8>, b: Seq<u8>, c: Seq<u8>, o: int)
    requires
        a.len() <= o,
        o + 8 <= a.len() + b.len(),
    ensures
        (a + b + c).subrange(o, o + 8) == b.subrange(o - a.len(), o - a.len() + 8),
{
    assert((a + b + c).subrange(o, o + 8) =~= b.subrange(o - a.len(), o - a.len() + 8));
}

/// The separators and children of an internal page after a separator
/// insertion at index `idx`: the ones before it kept, `left`, `key` and
/// `right` at it, the later ones one place on.
proof fn lemma_internal_insert(d: Seq<u8>, idx: int, n: int, left: PageId, key: i64, right: PageId)
    requires
        d.len() == PAGE_SIZE,
        0 <= idx <= n,
        HEADER_SIZE + 16 * n + 48 <= PAGE_SIZE,
    ensures
        ({
            let ins = HEADER_SIZE + idx * 16;
            let end = HEADER_SIZE + n * 16 + 8;
            let d1 = d.subrange(0, ins + 16) + d.subrange(ins, end) + d.subrange(end + 16, PAGE_SIZE as int);
            let d2 = splice(d1, ins, spec_u64_to_le_bytes(left) + i64_bytes(key) + spec_u64_to_le_bytes(right));
            let d3 = with_header(d2, page_type(d), (n + 1) as u16, page_parent(d));
            &&& d3.len() == PAGE_SIZE
            &&& page_type(d3) == page_type(d)
            &&& page_num_keys(d3) == n + 1
            &&& forall|t: int| 0 <= t < idx ==> sep_at(d3, t) == sep_at(d, t) && child_at(d3, t) == child_at(d, t)
            &&& child_at(d3, idx) == left
            &&& sep_at(d3, idx) == key
            &&& child_at(d3, idx + 1) == right
            &&& forall|t: int| idx < t <= n ==> sep_at(d3, t) == sep_at(d, t - 1)
            &&& forall|t: int| idx + 1 < t <= n + 1 ==> child_at(d3, t) == child_at(d, t - 1)
        }),
{
    lemma_auto_spec_u16_to_from_le_bytes();
    lemma_auto_spec_u32_to_from_le_bytes();
    lemma_auto_spec_u64_to_from_le_bytes();
    let ins = HEADER_SIZE + idx * 16;
    let end = HEADER_SIZE + n * 16 + 8;
    let d1 = d.subrange(0, ins + 16) + d.subrange(ins, end) + d.subrange(end + 16, PAGE_SIZE as int);
    let src = spec_u64_to_le_bytes(left) + i64_bytes(key) + spec_u64_to_le_bytes(right);
    assert(src.len() == 24);
    let d2 = splice(d1, ins, src);
    let hb = header_bytes(page_type(d), (n + 1) as u16, page_parent(d));
    assert(hb.len() == 7);
    let d3 = with_header(d2, page_type(d), (n + 1) as u16, page_parent(d));
    assert(d1.len() == PAGE_SIZE);
    assert(d2.len() == PAGE_SIZE);
    assert(d3.len() == PAGE_SIZE);
    assert(d3[0] == page_type(d));
    assert(d3.subrange(1, 3) =~= spec_u16_to_le_bytes((n + 1) as u16));
    // every byte of d3 from the header on
    assert forall|x: int| 7 <= x < PAGE_SIZE implies #[trigger] d3[x] == if x < ins {
        d[x]
    } else if x < ins + 24 {
        src[x - ins]
    } else if x < end + 16 {
        d[x - 16]
    } else {
        d[x]
    } by {
        assert(d3[x] == d2[x]);
        if x < ins || x >= ins + 24 {
            assert(d2[x] == d1[x]);
        }
    }
    assert forall|t: int| 0 <= t < idx implies sep_at(d3, t) == sep_at(d, t) && child_at(d3, t) == child_at(d, t) by {
        let o = HEADER_SIZE + 16 * t;
        assert(d3.subrange(o, o + 8) =~= d.subrange(o, o + 8));
        assert(d3.subrange(o + 8, o + 16) =~= d.subrange(o + 8, o + 16));
    }
    assert(d3.subrange(ins, ins + 8) =~= spec_u64_to_le_bytes(left));
    assert(d3.subrange(ins + 8, ins + 16) =~= i64_bytes(key));
    assert(d3.subrange(ins + 16, ins + 24) =~= spec_u64_to_le_bytes(right));
    assert(child_at(d3, idx + 1) == right) by {
        assert(HEADER_SIZE + 16 * (idx + 1) == ins + 16);
    }
    assert(sep_at(d3, idx) == key) by {
        assert((key as u64) as i64 == key) by (bit_vector);
    }
    assert forall|t: int| idx < t <= n implies sep_at(d3, t) == sep_at(d, t - 1) by {
        let o = HEADER_SIZE + 16 * t + 8;
        assert(d3.subrange(o, o + 8) =~= d.subrange(o - 16, o - 8));
        assert(o - 16 == HEADER_SIZE + 16 * (t - 1) + 8);
    }
    assert forall|t: int| idx + 1 < t <= n + 1 implies child_at(d3, t) == child_at(d, t - 1) by {
        let o = HEADER_SIZE + 16 * t;
        assert(d3.subrange(o, o + 8) =~= d.subrange(o - 16, o - 8));
        assert(o - 16 == HEADER_SIZE + 16 * (t - 1));
    }
}

/// Where a key goes after a separator insertion at the index `sk` routes
/// to: the same child, except that keys of the split child go to `left`
/// below `sk` and to `right` from `sk` on.
proof fn lemma_route_after_insert(d: Seq<u8>, d3: Seq<u8>, n: int, idx: int, sk: i64, left: PageId, right: PageId, k2: i64)
    requires
        0 <= idx <= n,
        idx == route(d, sk, 0, n),
        forall|t: int| 0 <= t < idx ==> sep_at(d3, t) == sep_at(d, t) && child_at(d3, t) == child_at(d, t),
        child_at(d3, idx) == left,
        sep_at(d3, idx) == sk,
        child_at(d3, idx + 1) == right,
        forall|t: int| idx < t <= n ==> sep_at(d3, t) == sep_at(d, t - 1),
        forall|t: int| idx + 1 < t <= n + 1 ==> child_at(d3, t) == child_at(d, t - 1),
    ensures
        route(d, k2, 0, n) < idx ==> route(d3, k2, 0, n + 1) == route(d, k2, 0, n),
        route(d, k2, 0, n) > idx ==> route(d3, k2, 0, n + 1) == route(d, k2, 0, n) + 1,
        route(d, k2, 0, n) == idx && k2 < sk ==> route(d3, k2, 0, n + 1) == idx,
        route(d, k2, 0, n) == idx && !(k2 < sk) ==> route(d3, k2, 0, n + 1) == idx + 1,
        route(d, k2, 0, n) != idx ==> child_at(d3, route(d3, k2, 0, n + 1)) == child_at(d, route(d, k2, 0, n)),
        route(d, k2, 0, n) == idx && k2 < sk ==> child_at(d3, route(d3, k2, 0, n + 1)) == left,
        route(d, k2, 0, n) == idx && !(k2 < sk) ==> child_at(d3, route(d3, k2, 0, n + 1)) == right,
{
    lemma_route_props(d, sk, 0, n);
    lemma_route_props(d, k2, 0, n);
    let j = route(d, k2, 0, n);
    if j < idx {
        assert(sep_at(d3, j) == sep_at(d, j));
        lemma_route_is(d3, k2, 0, n + 1, j);
    } else if j == idx {
        if k2 < sk {
            lemma_route_is(d3, k2, 0, n + 1, idx);
        } else {
            if idx < n {
                assert(sep_at(d3, idx + 1) == sep_at(d, idx));
            }
            assert forall|t: int| 0 <= t < idx + 1 implies sep_at(d3, t) <= k2 by {
                if t < idx {
                    assert(sep_at(d3, t) == sep_at(d, t));
                }
            }
            lemma_route_is(d3, k2, 0, n + 1, idx + 1);
        }
    } else {
        assert(sep_at(d, idx) <= k2);
        assert forall|t: int| 0 <= t < j + 1 implies sep_at(d3, t) <= k2 by {
            if t < idx {
                assert(sep_at(d3, t) == sep_at(d, t));
            } else if t > idx {
                assert(sep_at(d3, t) == sep_at(d, t - 1));
                assert(sep_at(d, t - 1) <= k2);
            }
        }
        if j < n {
            assert(sep_at(d3, j + 1) == sep_at(d, j));
        }
        lemma_route_is(d3, k2, 0, n + 1, j + 1);
        assert(child_at(d3, j + 1) == child_at(d, j));
    }
}

/// A leftmost leaf lies within the store.
proof fn lemma_leftmost_in_range(pages: Seq<Seq<u8>>, id: PageId, fuel: nat)
    ensures
        leftmost_from(pages, id, fuel) matches Ok(l) ==> l < pages.len(),
    decreases fuel,
{
    if fuel > 0 && id < pages.len() && page_type(pages[id as int]) != 1 {
        lemma_leftmost_in_range(pages, first_child(pages[id as int]), (fuel - 1) as nat);
    }
}

/// The child an internal page leads `key` to.
fn page_descend(d: &[u8], key: i64, n: u16) -> (r: Option<PageId>)
    requires
        d@.len() == PAGE_SIZE,
    ensures
        r == descend(d@, key, 0, n as int, first_child(d@)),
{
    let mut child: PageId = read_u64(d, HEADER_SIZE);
    let mut i: u16 = 0;
    while i < n
        invariant
            d@.len() == PAGE_SIZE,
            i <= n,
            descend(d@, key, 0, n as int, first_child(d@)) == descend(d@, key, i as int, n as int, child),
        decreases n - i,
    {
        let cell = HEADER_SIZE + 16 * (i as usize);
        if cell + 24 > PAGE_SIZE {
            return None;
        }
        let stored = read_i64(d, cell + 8);
        let next = read_u64(d, cell + 16);
        if key < stored {
            return Some(child);
        }
        child = next;
        i = i + 1;
    }
    Some(child)
}

/// Keys and rows as models.
pub open spec fn rows_view(v: Seq<(i64, Row)>) -> Seq<(i64, Seq<ValueView>)> {
    v.map_values(|x: (i64, Row)| (x.0, x.1.values.deep_view()))
}

/// If one entry's row does not decode, the entries do not decode.
proof fn lemma_decode_entries_fails(s: Seq<(i64, Seq<u8>)>, j: int)
    requires
        0 <= j < s.len(),
        decode_row(s[j].1) is None,
    ensures
        decode_entries(s) is None,
    decreases s.len(),
{
    if j < s.len() - 1 {
        lemma_decode_entries_fails(s.drop_last(), j);
    }
}

impl BTree {
    /// The tree whose root is page `root_page`.
    pub fn from_root(root_page: PageId) -> (t: BTree)
        ensures
            t.root() == root_page,
    {
        BTree { root_page }
    }

    /// A new tree: allocates a page and writes an empty leaf header into it.
    pub fn new(pager: &mut Pager) -> (r: Result<BTree>)
        requires
            old(pager).wf(),
        ensures
            final(pager).wf(),
            old(pager).pages().len() < usize::MAX ==> (r matches Ok(t) && t.root()
                == old(pager).pages().len() && pstate(final(pager)) == ps_write(
                ps_alloc(pstate(old(pager))),
                old(pager).pages().len() as int,
                with_header(zero_page(), 1, 0, 0),
            )),
            old(pager).pages().len() >= usize::MAX ==> (r matches Err(VelociError::StorageError(_))
                && pstate(final(pager)) == pstate(old(pager))),
    {
        let root_page = match pager.allocate_page() {
            Ok(p) => p,
            Err(e) => return Err(e),
        };
        let mut page = Page::new();
        let header = NodeHeader::new(NodeType::Leaf);
        header.serialize(page.data_mut());
        let ghost mid = pstate(pager);
        match pager.write_page(root_page, &page) {
            Ok(()) => {},
            Err(e) => return Err(e),
        }
        Ok(BTree { root_page })
    }

    /// The root page.
    pub closed spec fn root(&self) -> PageId {
        self.root_page
    }

    /// The root page.
    pub fn root_page(&self) -> (p: PageId)
        ensures
            p == self.root(),
    {
        self.root_page
    }

    /// The leaf that `key` leads to from `root`.
    fn find_leaf(&self, pager: &Pager, root: PageId, key: i64) -> (r: Result<PageId>)
        requires
            pager.wf(),
        ensures
            outcome(r, spec_find_leaf(pager.pages(), root, key)),
            r matches Ok(l) ==> l < pager.pages().len(),
    {
        let ghost pages = pager.pages();
        let mut page_id = root;
        let mut fuel: u128 = pager.num_pages() as u128 + 1;
        proof {
            lemma_find_leaf_in_range(pages, root, key, fuel as nat);
        }
        loop
            invariant
                pager.wf(),
                pages == pager.pages(),
                spec_find_leaf(pages, root, key) == find_leaf_from(pages, page_id, key, fuel as nat),
            decreases fuel,
        {
            if fuel == 0 {
                return Err(VelociError::Corruption(String::from_str("Cycle among the tree pages")));
            }
            let page = match pager.read_page(page_id) {
                Ok(p) => p,
                Err(e) => return Err(e),
            };
            let d = page.data();
            let header = match NodeHeader::deserialize(d) {
                Ok(h) => h,
                Err(e) => return Err(e),
            };
            if header.node_type == 1 {
                return Ok(page_id);
            }
            match page_descend(d, key, header.num_keys) {
                None => return Err(VelociError::Corruption(String::from_str("Invalid child pointer"))),
                Some(c) => {
                    page_id = c;
                },
            }
            fuel = fuel - 1;
        }
    }

    /// The leftmost leaf under `root`.
    fn leftmost_leaf(&self, pager: &Pager, root: PageId) -> (r: Result<PageId>)
        requires
            pager.wf(),
        ensures
            outcome(r, leftmost_from(pager.pages(), root, (pager.pages().len() + 1) as nat)),
            r matches Ok(l) ==> l < pager.pages().len(),
    {
        let ghost pages = pager.pages();
        let mut page_id = root;
        let mut fuel: u128 = pager.num_pages() as u128 + 1;
        proof {
            lemma_leftmost_in_range(pages, root, fuel as nat);
        }
        loop
            invariant
                pager.wf(),
                pages == pager.pages(),
                leftmost_from(pages, root, (pages.len() + 1) as nat) == leftmost_from(pages, page_id, fuel as nat),
            decreases fuel,
        {
            if fuel == 0 {
                return Err(VelociError::Corruption(String::from_str("Cycle among the tree pages")));
            }
            let page = match pager.read_page(page_id) {
                Ok(p) => p,
                Err(e) => return Err(e),
            };
            let d = page.data();
            if d[0] == 1 {
                return Ok(page_id);
            }
            page_id = read_u64(d, HEADER_SIZE);
            fuel = fuel - 1;
        }
    }

    /// The row stored under `key`, if any: the first entry with that key in
    /// the leaf `key` leads to.
    pub fn search(&self, pager: &Pager, key: i64) -> (r: Result<Option<Row>>)
        requires
            pager.wf(),
        ensures
            match spec_search(pager.pages(), self.root(), key) {
                Ok(Some(vs)) => r matches Ok(Some(row)) && row.values.deep_view() == vs,
                Ok(None) => r matches Ok(None),
                Err(f) => r matches Err(e) && error_is(e, f),
            },
    {
        let leaf = match self.find_leaf(pager, self.root_page, key) {
            Ok(l) => l,
            Err(e) => return Err(e),
        };
        let page = match pager.read_page(leaf) {
            Ok(p) => p,
            Err(e) => return Err(e),
        };
        let d = page.data();
        let header = match NodeHeader::deserialize(d) {
            Ok(h) => h,
            Err(e) => return Err(e),
        };
        match page_find_entry(d, key, header.num_keys) {
            Err(()) => Err(VelociError::Corruption(String::from_str("Invalid key"))),
            Ok(None) => Ok(None),
            Ok(Some((o, sz))) => {
                if sz > PAGE_SIZE - 12 - o {
                    return Err(VelociError::Corruption(String::from_str("Invalid size")));
                }
                let data = copy_range(d, o + 12, o + 12 + sz);
                match deserialize_row(data.as_slice()) {
                    Ok(row) => Ok(Some(row)),
                    Err(e) => Err(e),
                }
            },
        }
    }
}

impl BTree {
    /// The keys and rows of the leftmost leaf, in page order.
    pub fn scan(&self, pager: &Pager) -> (r: Result<Vec<(i64, Row)>>)
        requires
            pager.wf(),
        ensures
            match spec_scan(pager.pages(), self.root()) {
                Ok(rs) => r matches Ok(v) && rows_view(v@) == rs,
                Err(f) => r matches Err(e) && error_is(e, f),
            },
    {
        let leaf = match self.leftmost_leaf(pager, self.root_page) {
            Ok(l) => l,
            Err(e) => return Err(e),
        };
        let page = match pager.read_page(leaf) {
            Ok(p) => p,
            Err(e) => return Err(e),
        };
        let d = page.data();
        let n = read_u16(d, 1);
        let mut results: Vec<(i64, Row)> = Vec::new();
        let ghost mut done: Seq<(i64, Seq<u8>)> = Seq::empty();
        let mut off: usize = HEADER_SIZE;
        let mut i: u16 = 0;
        assert(done + seq![] =~= done);
        while i < n
            invariant
                d@.len() == PAGE_SIZE,
                pager.wf(),
                leaf < pager.pages().len(),
                leftmost_from(pager.pages(), self.root(), (pager.pages().len() + 1) as nat) == Ok::<PageId, Fault>(leaf),
                d@ == pager.pages()[leaf as int],
                n == page_num_keys(d@),
                i <= n,
                off <= PAGE_SIZE,
                page_entries(d@) == match leaf_entries(d@, i as int, n as int, off as int) {
                    None => None,
                    Some(rest) => Some(done + rest),
                },
                decode_entries(done) == Some(rows_view(results@)),
            decreases n - i,
        {
            if off + 12 > PAGE_SIZE {
                return Err(VelociError::Corruption(String::from_str("Invalid key")));
            }
            let key = read_i64(d, off);
            let size = read_u32(d, off + 8) as usize;
            if size > PAGE_SIZE - 12 - off {
                return Err(VelociError::Corruption(String::from_str("Invalid size")));
            }
            let data = copy_range(d, off + 12, off + 12 + size);
            let ghost e = (key, data@);
            proof {
                let rest = leaf_entries(d@, i as int + 1, n as int, (off + 12 + size) as int);
                if let Some(r) = rest {
                    assert(done + (seq![e] + r) =~= done.push(e) + r);
                }
            }
            match deserialize_row(data.as_slice()) {
                Ok(row) => {
                    let ghost prev = results@;
                    results.push((key, row));
                    proof {
                        assert(done.push(e).drop_last() =~= done);
                        assert(rows_view(results@) =~= rows_view(prev).push((key, row.values.deep_view())));
                    }
                },
                Err(err) => {
                    proof {
                        let rest = leaf_entries(d@, i as int + 1, n as int, (off + 12 + size) as int);
                        if let Some(r) = rest {
                            let all = done.push(e) + r;
                            assert(all[done.len() as int] == e);
                            lemma_decode_entries_fails(all, done.len() as int);
                        }
                    }
                    return Err(err);
                },
            }
            proof {
                done = done.push(e);
            }
            off = off + 12 + size;
            i = i + 1;
        }
        proof {
            assert(done + Seq::<(i64, Seq<u8>)>::empty() =~= done);
        }
        Ok(results)
    }
}

/// A found entry lies within the data of the leaf, after the walk's start.
proof fn lemma_found_within_end(d: Seq<u8>, key: i64, i: int, n: int, off: int)
    ensures
        find_entry(d, key, i, n, off) matches Ok(Some((o, sz))) ==> (i < n && off <= o && (data_end(
            d,
            i,
            n,
            off,
        ) matches Some(e) ==> o + 12 + sz <= e)),
    decreases n - i,
{
    if i < n && off + 12 <= PAGE_SIZE && i64_at(d, off) != key {
        lemma_found_within_end(d, key, i + 1, n, off + 12 + size_at(d, off));
        lemma_data_end_bounds_any(d, i + 1, n, off + 12 + size_at(d, off));
    }
    if i < n && off + 12 <= PAGE_SIZE && i64_at(d, off) == key {
        lemma_data_end_bounds_any(d, i + 1, n, off + 12 + size_at(d, off));
    }
}

/// The data end is never before where the walk starts.
proof fn lemma_data_end_bounds_any(d: Seq<u8>, i: int, n: int, off: int)
    ensures
        data_end(d, i, n, off) matches Some(e) ==> off <= e,
    decreases n - i,
{
    if i < n && off + 12 <= PAGE_SIZE && off + 12 + size_at(d, off) <= PAGE_SIZE {
        lemma_data_end_bounds_any(d, i + 1, n, off + 12 + size_at(d, off));
    }
}

impl BTree {
    /// Removes the first entry with `key` from the leaf `key` leads to;
    /// `Ok(false)` when there is none.
    pub fn delete(&mut self, pager: &mut Pager, key: i64) -> (r: Result<bool>)
        requires
            old(pager).wf(),
        ensures
            final(pager).wf(),
            final(self).root() == old(self).root(),
            pstate(final(pager)) == spec_delete(pstate(old(pager)), old(self).root(), key).0,
            outcome(r, spec_delete(pstate(old(pager)), old(self).root(), key).1),
    {
        let leaf = match self.find_leaf(pager, self.root_page, key) {
            Ok(l) => l,
            Err(e) => return Err(e),
        };
        let page = match pager.read_page(leaf) {
            Ok(p) => p,
            Err(e) => return Err(e),
        };
        let d = page.to_bytes();
        let header = match NodeHeader::deserialize(d.as_slice()) {
            Ok(h) => h,
            Err(e) => return Err(e),
        };
        let n = header.num_keys;
        let (o, sz) = match page_find_entry(d.as_slice(), key, n) {
            Err(()) => return Err(VelociError::Corruption(String::from_str("Invalid key"))),
            Ok(None) => return Ok(false),
            Ok(Some(found)) => found,
        };
        let end = match page_data_end(d.as_slice(), n) {
            None => return Err(VelociError::Corruption(String::from_str("Invalid entry size"))),
            Some(e) => e,
        };
        proof {
            lemma_found_within_end(d@, key, 0, n as int, HEADER_SIZE as int);
        }
        let ds = 12 + sz;
        let mut buf = copy_within(&d, o + ds, end, o);
        proof {
            assert(buf@ =~= d@.subrange(0, o as int) + d@.subrange((o + ds) as int, end as int)
                + d@.subrange(end - ds, PAGE_SIZE as int));
            lemma_auto_spec_u16_to_from_le_bytes();
            lemma_auto_spec_u32_to_from_le_bytes();
        }
        let new_header = NodeHeader {
            node_type: header.node_type,
            num_keys: n - 1,
            parent: header.parent,
            padding: 0,
        };
        new_header.serialize(buf.as_mut_slice());
        let new_page = Page::from_bytes(&buf);
        match pager.write_page(leaf, &new_page) {
            Ok(()) => {},
            Err(e) => return Err(e),
        }
        Ok(true)
    }
}

/// Walking entries one at a time keeps the data end.
proof fn lemma_data_end_step(d: Seq<u8>, i: int, n: int, off: int)
    requires
        i < n,
        data_end(d, i, n, off) is Some,
    ensures
        off + 12 <= PAGE_SIZE,
        off + 12 + size_at(d, off) <= PAGE_SIZE,
        data_end(d, i + 1, n, off + 12 + size_at(d, off)) == data_end(d, i, n, off),
{
}

/// Writing a page with its own content leaves the pages as they are.
proof fn lemma_write_same(pages: Seq<Seq<u8>>, id: int)
    requires
        0 <= id < pages.len(),
    ensures
        crate::storage::spec_write(pages, id, pages[id]) == pages,
{
    assert(pages.update(id, pages[id]) =~= pages);
}

/// The header of a page built from `d`, as a value.
fn header_of(d: &[u8]) -> (h: NodeHeader)
    requires
        d@.len() == PAGE_SIZE,
    ensures
        h.node_type == page_type(d@),
        h.num_keys == page_num_keys(d@),
        h.parent == page_parent(d@),
{
    NodeHeader { node_type: d[0], num_keys: read_u16(d, 1), parent: read_u32(d, 3), padding: 0 }
}

/// `d` with the given header fields written over its first seven bytes.
fn rewrite_header(d: &Vec<u8>, node_type: u8, num_keys: u16, parent: u32) -> (r: Vec<u8>)
    requires
        d@.len() == PAGE_SIZE,
    ensures
        r@ == with_header(d@, node_type, num_keys, parent),
        r@.len() == PAGE_SIZE,
{
    proof {
        lemma_auto_spec_u16_to_from_le_bytes();
        lemma_auto_spec_u32_to_from_le_bytes();
    }
    let mut buf = copy_range(d.as_slice(), 0, d.len());
    assert(buf@ =~= d@);
    let h = NodeHeader { node_type, num_keys, parent, padding: 0 };
    h.serialize(buf.as_mut_slice());
    buf
}

impl BTree {
    /// Splits leaf `page_id`: a new sibling page takes the upper half of the
    /// entries; the leaf's key count is lowered in memory.
    fn split_leaf_node(&self, pager: &mut Pager, page_id: PageId) -> (r: Result<(PageId, i64)>)
        requires
            old(pager).wf(),
        ensures
            final(pager).wf(),
            pstate(final(pager)) == spec_split(pstate(old(pager)), page_id).0,
            outcome(r, spec_split(pstate(old(pager)), page_id).1),
    {
        let ghost st = pstate(pager);
        let page = match pager.read_page(page_id) {
            Ok(p) => p,
            Err(e) => return Err(e),
        };
        let d = page.to_bytes();
        let header = header_of(d.as_slice());
        let n = header.num_keys;
        let end = match page_data_end(d.as_slice(), n) {
            None => return Err(VelociError::Corruption(String::from_str("Invalid entry size"))),
            Some(e) => e,
        };
        let sibling = match pager.allocate_page() {
            Ok(s) => s,
            Err(e) => return Err(e),
        };
        let ghost st1 = pstate(pager);
        let k = n / 2;
        // the offset of the first entry that moves
        let mut off: usize = HEADER_SIZE;
        let mut i: u16 = 0;
        while i < k
            invariant
                d@.len() == PAGE_SIZE,
                k == n / 2,
                i <= k,
                HEADER_SIZE <= off <= PAGE_SIZE,
                end <= PAGE_SIZE,
                data_end(d@, i as int, n as int, off as int) == Some(end as int),
                entries_offset(d@, 0, k as int, HEADER_SIZE as int) == entries_offset(d@, i as int, k as int, off as int),
            decreases k - i,
        {
            proof {
                lemma_data_end_step(d@, i as int, n as int, off as int);
            }
            let size = read_u32(d.as_slice(), off + 8) as usize;
            off = off + 12 + size;
            i = i + 1;
        }
        let split_off = off;
        proof {
            lemma_data_end_bounds(d@, k as int, n as int, split_off as int);
        }
        let split_key: i64 = if k < n {
            proof {
                lemma_data_end_step(d@, k as int, n as int, split_off as int);
            }
            read_i64(d.as_slice(), split_off)
        } else {
            0
        };
        // the leaf is written back once for each entry it keeps
        let mut j: u16 = 0;
        while j < k
            invariant
                pager.wf(),
                j <= k,
                page_id < pager.pages().len(),
                pager.pages() == st1.0,
                st1.0[page_id as int] == d@,
                pager.pending() == st1.1 + repeated((page_id, d@), j as nat),
            decreases k - j,
        {
            let current = match pager.read_page(page_id) {
                Ok(p) => p,
                Err(e) => return Err(e),
            };
            proof {
                lemma_write_same(pager.pages(), page_id as int);
            }
            match pager.write_page(page_id, &current) {
                Ok(()) => {},
                Err(e) => return Err(e),
            }
            proof {
                assert(st1.1 + repeated((page_id, d@), (j + 1) as nat) =~= (st1.1 + repeated(
                    (page_id, d@),
                    j as nat,
                )).push((page_id, d@)));
            }
            j = j + 1;
        }
        let left = rewrite_header(&d, header.node_type, k, header.parent);
        pager.set_cached_page(page_id, &Page::from_bytes(&left));
        let zero = Page::new().to_bytes();
        assert(zero@.len() == PAGE_SIZE);
        let moving = copy_range(d.as_slice(), split_off, end);
        let mut right = zero;
        write_at(&mut right, HEADER_SIZE, moving.as_slice());
        let right = rewrite_header(&right, 1, n - k, 0);
        proof {
            lemma_auto_spec_u16_to_from_le_bytes();
            lemma_auto_spec_u32_to_from_le_bytes();
            assert(right@ =~= header_bytes(1, (n - k) as u16, 0) + seq![0u8] + d@.subrange(split_off as int, end as int)
                + zeros(PAGE_SIZE - HEADER_SIZE - (end - split_off)));
        }
        match pager.write_page(sibling, &Page::from_bytes(&right)) {
            Ok(()) => {},
            Err(e) => return Err(e),
        }
        Ok((sibling, split_key))
    }
}

impl BTree {
    /// Makes a new internal root over `left` and `right` around `split_key`.
    fn create_new_root(&self, pager: &mut Pager, left: PageId, right: PageId, split_key: i64) -> (r: Result<PageId>)
        requires
            old(pager).wf(),
        ensures
            final(pager).wf(),
            pstate(final(pager)) == spec_new_root(pstate(old(pager)), left, right, split_key).0,
            outcome(r, spec_new_root(pstate(old(pager)), left, right, split_key).1),
    {
        let root = match pager.allocate_page() {
            Ok(p) => p,
            Err(e) => return Err(e),
        };
        let zero = Page::new().to_bytes();
        assert(zero@.len() == PAGE_SIZE);
        let mut body: Vec<u8> = Vec::new();
        push_u64(&mut body, left);
        push_u64(&mut body, split_key as u64);
        push_u64(&mut body, right);
        proof {
            lemma_auto_spec_u64_to_from_le_bytes();
        }
        let mut rp = zero;
        write_at(&mut rp, HEADER_SIZE, body.as_slice());
        let rp = rewrite_header(&rp, 0, 1, 0);
        proof {
            lemma_auto_spec_u16_to_from_le_bytes();
            lemma_auto_spec_u32_to_from_le_bytes();
            assert(rp@ =~= header_bytes(0, 1, 0) + seq![0u8] + spec_u64_to_le_bytes(left) + i64_bytes(split_key)
                + spec_u64_to_le_bytes(right) + zeros(PAGE_SIZE - 32));
        }
        match pager.write_page(root, &Page::from_bytes(&rp)) {
            Ok(()) => {},
            Err(e) => return Err(e),
        }
        let lp = match pager.read_page(left) {
            Ok(p) => p.to_bytes(),
            Err(e) => return Err(e),
        };
        let lh = header_of(lp.as_slice());
        let lp2 = rewrite_header(&lp, lh.node_type, lh.num_keys, root as u32);
        pager.set_cached_page(left, &Page::from_bytes(&lp2));
        let rpg = match pager.read_page(right) {
            Ok(p) => p.to_bytes(),
            Err(e) => return Err(e),
        };
        let rh = header_of(rpg.as_slice());
        let rp2 = rewrite_header(&rpg, rh.node_type, rh.num_keys, root as u32);
        pager.set_cached_page(right, &Page::from_bytes(&rp2));
        Ok(root)
    }

    /// Inserts separator `key` between `left` and `right` into internal page
    /// `page_id`; a full node is refused.
    fn insert_into_internal(&self, pager: &mut Pager, page_id: PageId, left: PageId, right: PageId, key: i64) -> (r: Result<()>)
        requires
            old(pager).wf(),
        ensures
            final(pager).wf(),
            pstate(final(pager)) == spec_insert_internal(pstate(old(pager)), page_id, left, right, key).0,
            outcome(r, spec_insert_internal(pstate(old(pager)), page_id, left, right, key).1),
    {
        let page = match pager.read_page(page_id) {
            Ok(p) => p,
            Err(e) => return Err(e),
        };
        let d = page.to_bytes();
        let header = header_of(d.as_slice());
        let n = header.num_keys;
        let mut idx: u16 = 0;
        let mut i: u16 = 0;
        let mut found = false;
        while i < n && !found
            invariant
                d@.len() == PAGE_SIZE,
                pager.wf(),
                pstate(pager) == pstate(old(pager)),
                page_id < pager.pages().len(),
                d@ == pager.pages()[page_id as int],
                n == page_num_keys(d@),
                i <= n,
                found ==> i < n || idx <= n,
                internal_pos(d@, key, 0, n as int) == if found { Some(idx as int) } else { internal_pos(d@, key, i as int, n as int) },
                !found ==> idx == i,
                idx <= n,
            decreases n - i + (if found { 0int } else { 1int }),
        {
            if HEADER_SIZE + 16 * (i as usize) + 16 > PAGE_SIZE {
                return Err(VelociError::Corruption(String::from_str("Invalid key")));
            }
            let stored = read_i64(d.as_slice(), HEADER_SIZE + 16 * (i as usize) + 8);
            if key < stored {
                found = true;
            } else {
                idx = i + 1;
                i = i + 1;
            }
        }
        if n as usize >= BTREE_ORDER {
            return Err(VelociError::Corruption(String::from_str("Internal node splitting not fully implemented")));
        }
        let ins = HEADER_SIZE + (idx as usize) * 16;
        let end = HEADER_SIZE + (n as usize) * 16 + 8;
        let mut buf = copy_within(&d, ins, end, ins + 16);
        let mut body: Vec<u8> = Vec::new();
        push_u64(&mut body, left);
        push_u64(&mut body, key as u64);
        push_u64(&mut body, right);
        proof {
            lemma_auto_spec_u64_to_from_le_bytes();
            assert(body@ =~= spec_u64_to_le_bytes(left) + i64_bytes(key) + spec_u64_to_le_bytes(right));
            assert(buf@ =~= d@.subrange(0, ins + 16) + d@.subrange(ins as int, end as int) + d@.subrange(end + 16, PAGE_SIZE as int));
        }
        write_at(&mut buf, ins, body.as_slice());
        let buf = rewrite_header(&buf, header.node_type, n + 1, header.parent);
        match pager.write_page(page_id, &Page::from_bytes(&buf)) {
            Ok(()) => {},
            Err(e) => return Err(e),
        }
        Ok(())
    }

    /// Links a split of `left` into `right` at `split_key` into the tree; a
    /// new root is returned when one was made.
    fn insert_into_parent(&self, pager: &mut Pager, left: PageId, right: PageId, split_key: i64) -> (r: Result<Option<PageId>>)
        requires
            old(pager).wf(),
        ensures
            final(pager).wf(),
            pstate(final(pager)) == spec_insert_parent(pstate(old(pager)), left, right, split_key).0,
            outcome(r, spec_insert_parent(pstate(old(pager)), left, right, split_key).1),
    {
        let lp = match pager.read_page(left) {
            Ok(p) => p.to_bytes(),
            Err(e) => return Err(e),
        };
        let lh = header_of(lp.as_slice());
        if lh.parent == 0 {
            match self.create_new_root(pager, left, right, split_key) {
                Ok(root) => Ok(Some(root)),
                Err(e) => Err(e),
            }
        } else {
            match self.insert_into_internal(pager, lh.parent as PageId, left, right, split_key) {
                Ok(()) => {},
                Err(e) => return Err(e),
            }
            let rpg = match pager.read_page(right) {
                Ok(p) => p.to_bytes(),
                Err(e) => return Err(e),
            };
            let rh = header_of(rpg.as_slice());
            let rp2 = rewrite_header(&rpg, rh.node_type, rh.num_keys, lh.parent);
            pager.set_cached_page(right, &Page::from_bytes(&rp2));
            Ok(None)
        }
    }
}

impl BTree {
    /// Inserts an entry with `key` and payload `data` into leaf `page_id`,
    /// splitting it when full; a new root is returned when one was made.
    #[verifier::spinoff_prover]
    #[verifier::rlimit(40)]
    fn insert_into_leaf(&self, pager: &mut Pager, page_id: PageId, key: i64, data: &Vec<u8>, fuel: u64) -> (r: Result<Option<PageId>>)
        requires
            old(pager).wf(),
        ensures
            final(pager).wf(),
            pstate(final(pager)) == spec_insert_leaf(pstate(old(pager)), page_id, key, data@, fuel as nat).0,
            outcome(r, spec_insert_leaf(pstate(old(pager)), page_id, key, data@, fuel as nat).1),
        decreases fuel,
    {
        if fuel == 0 {
            return Err(VelociError::Corruption(String::from_str("Leaf splitting does not make room")));
        }
        let page = match pager.read_page(page_id) {
            Ok(p) => p,
            Err(e) => return Err(e),
        };
        let d = page.to_bytes();
        let header = header_of(d.as_slice());
        let n = header.num_keys;
        let pos = page_insert_pos(d.as_slice(), key, n);
        let end = page_data_end(d.as_slice(), n);
        let (pos, end) = match (pos, end) {
            (Some(p), Some(e)) => (p, e),
            _ => return Err(VelociError::Corruption(String::from_str("Invalid entry size"))),
        };
        if data.len() > PAGE_SIZE - 12 || end + 12 + data.len() > PAGE_SIZE {
            let (sibling, split_key) = match self.split_leaf_node(pager, page_id) {
                Ok(x) => x,
                Err(e) => return Err(e),
            };
            let new_root = match self.insert_into_parent(pager, page_id, sibling, split_key) {
                Err(e) => return Err(e),
                Ok(r) => r,
            };
            let target = if key < split_key { page_id } else { sibling };
            return match self.insert_into_leaf(pager, target, key, data, fuel - 1) {
                Ok(None) => Ok(new_root),
                other => other,
            };
        }
        proof {
            lemma_insert_pos_within(d@, key, 0, n as int, HEADER_SIZE as int);
        }
        let req = 12 + data.len();
        let mut buf = copy_within(&d, pos, end, pos + req);
        let mut entry: Vec<u8> = Vec::new();
        push_u64(&mut entry, key as u64);
        push_u32(&mut entry, data.len() as u32);
        push_all(&mut entry, data.as_slice());
        proof {
            lemma_auto_spec_u64_to_from_le_bytes();
            lemma_auto_spec_u32_to_from_le_bytes();
            assert(entry@ =~= entry_bytes(key, data@));
        }
        write_at(&mut buf, pos, entry.as_slice());
        proof {
            assert(buf@ =~= d@.subrange(0, pos as int) + entry_bytes(key, data@) + d@.subrange(pos as int, end as int)
                + d@.subrange(end + req, PAGE_SIZE as int));
            lemma_data_end_bounds(d@, 0, n as int, HEADER_SIZE as int);
        }
        let buf = rewrite_header(&buf, header.node_type, n + 1, header.parent);
        match pager.write_page(page_id, &Page::from_bytes(&buf)) {
            Ok(()) => {},
            Err(e) => return Err(e),
        }
        Ok(None)
    }

    /// Inserts `row` under `key` into the leaf `key` leads to; when the
    /// insertion makes a new root, the tree takes it as its root.
    pub fn insert(&mut self, pager: &mut Pager, key: i64, row: &Row) -> (r: Result<()>)
        requires
            old(pager).wf(),
        ensures
            final(pager).wf(),
            pstate(final(pager)) == spec_insert(pstate(old(pager)), old(self).root(), key, row.values.deep_view()).0,
            match spec_insert(pstate(old(pager)), old(self).root(), key, row.values.deep_view()).1 {
                Ok(Some(new_root)) => r is Ok && final(self).root() == new_root,
                Ok(None) => r is Ok && final(self).root() == old(self).root(),
                Err(f) => r matches Err(e) && error_is(e, f) && final(self).root() == old(self).root(),
            },
    {
        let serialized = match serialize_row(row) {
            Ok(s) => s,
            Err(e) => return Err(e),
        };
        let leaf = match self.find_leaf(pager, self.root_page, key) {
            Ok(l) => l,
            Err(e) => return Err(e),
        };
        match self.insert_into_leaf(pager, leaf, key, &serialized, INSERT_SPLIT_LIMIT) {
            Ok(Some(new_root)) => {
                self.root_page = new_root;
                Ok(())
            },
            Ok(None) => Ok(()),
            Err(e) => Err(e),
        }
    }
}

/// The insertion point lies within the data of the leaf.
proof fn lemma_insert_pos_within(d: Seq<u8>, key: i64, i: int, n: int, off: int)
    ensures
        forall|p: int, e: int|
            insert_pos(d, key, i, n, off) == Some(p) && data_end(d, i, n, off) == Some(e) ==> off <= p <= e,
    decreases n - i,
{
    lemma_data_end_bounds_any(d, i, n, off);
    if i < n && off + 12 <= PAGE_SIZE && !(key < i64_at(d, off)) && off + 12 + size_at(d, off) <= PAGE_SIZE {
        lemma_insert_pos_within(d, key, i + 1, n, off + 12 + size_at(d, off));
    }
}

// ---------------------------------------------------------------------------
// Laws of the tree

/// The key read back from the bytes of an `i64`.
proof fn lemma_i64_bytes_roundtrip(d: Seq<u8>, off: int, key: i64)
    requires
        0 <= off,
        off + 8 <= d.len(),
        d.subrange(off, off + 8) == i64_bytes(key),
    ensures
        i64_at(d, off) == key,
{
    lemma_auto_spec_u64_to_from_le_bytes();
    lemma_i64_roundtrip(key);
}

/// Two pages that agree on a range read the same entry header there.
proof fn lemma_same_range_reads(d: Seq<u8>, d2: Seq<u8>, lo: int, off: int, upto: int)
    requires
        0 <= lo <= off,
        off + 12 <= upto,
        upto <= d.len(),
        upto <= d2.len(),
        d.subrange(lo, upto) == d2.subrange(lo, upto),
    ensures
        i64_at(d2, off) == i64_at(d, off),
        size_at(d2, off) == size_at(d, off),
{
    assert(d.subrange(off, off + 8) =~= d.subrange(lo, upto).subrange(off - lo, off - lo + 8));
    assert(d2.subrange(off, off + 8) =~= d2.subrange(lo, upto).subrange(off - lo, off - lo + 8));
    assert(d.subrange(off + 8, off + 12) =~= d.subrange(lo, upto).subrange(off - lo + 8, off - lo + 12));
    assert(d2.subrange(off + 8, off + 12) =~= d2.subrange(lo, upto).subrange(off - lo + 8, off - lo + 12));
}

/// The insertion point is not before where the walk is.
proof fn lemma_insert_pos_ge(d: Seq<u8>, key: i64, i: int, n: int, off: int)
    ensures
        insert_pos(d, key, i, n, off) matches Some(p) ==> off <= p,
    decreases n - i,
{
    if i < n && off + 12 <= PAGE_SIZE && !(key < i64_at(d, off)) && off + 12 + size_at(d, off) <= PAGE_SIZE {
        lemma_insert_pos_ge(d, key, i + 1, n, off + 12 + size_at(d, off));
    }
}

/// When all entries fit, there is an insertion point.
proof fn lemma_insert_pos_exists(d: Seq<u8>, key: i64, i: int, n: int, off: int)
    requires
        data_end(d, i, n, off) is Some,
    ensures
        insert_pos(d, key, i, n, off) is Some,
    decreases n - i,
{
    if i < n && !(key < i64_at(d, off)) {
        lemma_insert_pos_exists(d, key, i + 1, n, off + 12 + size_at(d, off));
    }
}

/// After inserting at the insertion point, the walk for `key` stops at the
/// new entry.
proof fn lemma_find_inserted(d: Seq<u8>, d2: Seq<u8>, key: i64, data: Seq<u8>, i: int, n: int, off: int, pos: int)
    requires
        d.len() == PAGE_SIZE,
        d2.len() == PAGE_SIZE,
        0 <= i <= n,
        HEADER_SIZE <= off <= pos,
        data.len() + 12 + pos <= PAGE_SIZE,
        insert_pos(d, key, i, n, off) == Some(pos),
        find_entry(d, key, i, n, off) == Ok::<Option<(int, int)>, ()>(None),
        d2.subrange(HEADER_SIZE as int, pos) == d.subrange(HEADER_SIZE as int, pos),
        d2.subrange(pos, pos + 12 + data.len()) == entry_bytes(key, data),
    ensures
        find_entry(d2, key, i, n + 1, off) == Ok::<Option<(int, int)>, ()>(Some((pos, data.len() as int))),
    decreases n - i,
{
    lemma_auto_spec_u32_to_from_le_bytes();
    lemma_auto_spec_u64_to_from_le_bytes();
    if i >= n || key < i64_at(d, off) {
        assert(off == pos);
        assert(d2.subrange(pos, pos + 8) =~= d2.subrange(pos, pos + 12 + data.len()).subrange(0, 8));
        assert(entry_bytes(key, data).subrange(0, 8) =~= i64_bytes(key));
        lemma_i64_bytes_roundtrip(d2, pos, key);
        assert(d2.subrange(pos + 8, pos + 12) =~= d2.subrange(pos, pos + 12 + data.len()).subrange(8, 12));
        assert(entry_bytes(key, data).subrange(8, 12) =~= spec_u32_to_le_bytes(data.len() as u32));
    } else {
        let next = off + 12 + size_at(d, off);
        lemma_insert_pos_ge(d, key, i + 1, n, next);
        lemma_same_range_reads(d, d2, HEADER_SIZE as int, off, pos);
        lemma_find_inserted(d, d2, key, data, i + 1, n, next, pos);
    }
}

/// Two pages that agree on a range, one shifted by `shift`, read the same
/// entry header there.
proof fn lemma_shifted_reads(d: Seq<u8>, d2: Seq<u8>, lo: int, hi: int, shift: int, off: int)
    requires
        0 <= lo <= off,
        off + 12 <= hi,
        hi <= d.len(),
        0 <= shift,
        hi + shift <= d2.len(),
        d2.subrange(lo + shift, hi + shift) == d.subrange(lo, hi),
    ensures
        i64_at(d2, off + shift) == i64_at(d, off),
        size_at(d2, off + shift) == size_at(d, off),
{
    assert(d.subrange(off, off + 8) =~= d.subrange(lo, hi).subrange(off - lo, off - lo + 8));
    assert(d2.subrange(off + shift, off + shift + 8) =~= d2.subrange(lo + shift, hi + shift).subrange(off - lo, off - lo + 8));
    assert(d.subrange(off + 8, off + 12) =~= d.subrange(lo, hi).subrange(off - lo + 8, off - lo + 12));
    assert(d2.subrange(off + shift + 8, off + shift + 12) =~= d2.subrange(lo + shift, hi + shift).subrange(off - lo + 8, off - lo + 12));
}

/// Entries copied to a later offset are read back the same.
proof fn lemma_entries_shifted(d: Seq<u8>, d2: Seq<u8>, i: int, n: int, off: int, shift: int, end: int)
    requires
        d.len() == PAGE_SIZE,
        d2.len() == PAGE_SIZE,
        0 <= off,
        0 <= shift,
        data_end(d, i, n, off) == Some(end),
        end + shift <= PAGE_SIZE,
        d2.subrange(off + shift, end + shift) == d.subrange(off, end),
    ensures
        leaf_entries(d2, i + 1, n + 1, off + shift) == leaf_entries(d, i, n, off),
        leaf_entries(d, i, n, off) is Some,
    decreases n - i,
{
    if i < n {
        let sz = size_at(d, off);
        let next = off + 12 + sz;
        lemma_data_end_bounds_any(d, i + 1, n, next);
        lemma_shifted_reads(d, d2, off, end, shift, off);
        assert(d2.subrange(next + shift, end + shift) =~= d2.subrange(off + shift, end + shift).subrange(12 + sz, end - off));
        assert(d.subrange(next, end) =~= d.subrange(off, end).subrange(12 + sz, end - off));
        assert(d2.subrange(off + shift + 12, off + shift + 12 + sz) =~= d2.subrange(off + shift, end + shift).subrange(12, 12 + sz));
        assert(d.subrange(off + 12, off + 12 + sz) =~= d.subrange(off, end).subrange(12, 12 + sz));
        lemma_entries_shifted(d, d2, i + 1, n, next, shift, end);
    }
}

/// The entries with `(key, data)` put before the first larger key.
pub open spec fn insert_entry(es: Seq<(i64, Seq<u8>)>, key: i64, data: Seq<u8>) -> Seq<(i64, Seq<u8>)>
    decreases es.len(),
{
    if es.len() == 0 || key < es[0].0 {
        seq![(key, data)] + es
    } else {
        seq![es[0]] + insert_entry(es.drop_first(), key, data)
    }
}

/// After inserting at the insertion point, the entries are the old ones with
/// the new one before the first larger key.
proof fn lemma_entries_inserted(d: Seq<u8>, d2: Seq<u8>, key: i64, data: Seq<u8>, i: int, n: int, off: int, pos: int, end: int)
    requires
        d.len() == PAGE_SIZE,
        d2.len() == PAGE_SIZE,
        0 <= i <= n,
        HEADER_SIZE <= off <= pos,
        insert_pos(d, key, i, n, off) == Some(pos),
        data_end(d, i, n, off) == Some(end),
        end + 12 + data.len() <= PAGE_SIZE,
        d2.subrange(HEADER_SIZE as int, pos) == d.subrange(HEADER_SIZE as int, pos),
        d2.subrange(pos, pos + 12 + data.len()) == entry_bytes(key, data),
        d2.subrange(pos + 12 + data.len(), end + 12 + data.len()) == d.subrange(pos, end),
    ensures
        leaf_entries(d, i, n, off) is Some,
        leaf_entries(d2, i, n + 1, off) == Some(insert_entry(leaf_entries(d, i, n, off)->Some_0, key, data)),
    decreases n - i,
{
    lemma_auto_spec_u32_to_from_le_bytes();
    lemma_auto_spec_u64_to_from_le_bytes();
    let req: int = 12 + data.len() as int;
    lemma_insert_pos_within(d, key, i, n, off);
    if i >= n || key < i64_at(d, off) {
        assert(off == pos);
        assert(d2.subrange(pos, pos + 8) =~= d2.subrange(pos, pos + req).subrange(0, 8));
        assert(entry_bytes(key, data).subrange(0, 8) =~= i64_bytes(key));
        lemma_i64_bytes_roundtrip(d2, pos, key);
        assert(d2.subrange(pos + 8, pos + 12) =~= d2.subrange(pos, pos + req).subrange(8, 12));
        assert(entry_bytes(key, data).subrange(8, 12) =~= spec_u32_to_le_bytes(data.len() as u32));
        assert(d2.subrange(pos + 12, pos + req) =~= d2.subrange(pos, pos + req).subrange(12, req));
        assert(entry_bytes(key, data).subrange(12, req) =~= data);
        lemma_entries_shifted(d, d2, i, n, pos, req, end);
        let old = leaf_entries(d, i, n, off)->Some_0;
        if i < n {
            assert(old[0].0 == i64_at(d, off));
        }
        assert(leaf_entries(d2, i, n + 1, off) == Some(seq![(key, data)] + old));
    } else {
        let sz = size_at(d, off);
        let next = off + 12 + sz;
        lemma_insert_pos_ge(d, key, i + 1, n, next);
        lemma_same_range_reads(d, d2, HEADER_SIZE as int, off, pos);
        assert(d2.subrange(off + 12, next) =~= d2.subrange(HEADER_SIZE as int, pos).subrange(off + 12 - HEADER_SIZE, next - HEADER_SIZE));
        assert(d.subrange(off + 12, next) =~= d.subrange(HEADER_SIZE as int, pos).subrange(off + 12 - HEADER_SIZE, next - HEADER_SIZE));
        lemma_entries_inserted(d, d2, key, data, i + 1, n, next, pos, end);
        let rest = leaf_entries(d, i + 1, n, next)->Some_0;
        let old = seq![(i64_at(d, off), d.subrange(off + 12, next))] + rest;
        assert(old.drop_first() =~= rest);
        assert(old[0].0 == i64_at(d, off));
    }
}

/// The leaf that `key` leads to from `root` (meaningful when there is one).
pub open spec fn leaf_for(pages: Seq<Seq<u8>>, root: PageId, key: i64) -> PageId {
    spec_find_leaf(pages, root, key)->Ok_0
}

/// Rewriting a leaf page as another leaf page changes no walk to a leaf.
proof fn lemma_find_leaf_after_leaf_write(pages: Seq<Seq<u8>>, leaf: int, d2: Seq<u8>, id: PageId, key: i64, fuel: nat)
    requires
        0 <= leaf < pages.len(),
        page_type(pages[leaf]) == 1,
        page_type(d2) == 1,
    ensures
        find_leaf_from(pages.update(leaf, d2), id, key, fuel) == find_leaf_from(pages, id, key, fuel),
    decreases fuel,
{
    let p2 = pages.update(leaf, d2);
    if fuel > 0 && id < pages.len() && id != leaf {
        assert(p2[id as int] == pages[id as int]);
        let d = pages[id as int];
        if page_type(d) != 1 {
            if let Some(c) = descend(d, key, 0, page_num_keys(d) as int, first_child(d)) {
                lemma_find_leaf_after_leaf_write(pages, leaf, d2, c, key, (fuel - 1) as nat);
            }
        }
    }
}

/// A read after a write: when the leaf that `key` leads to has room for the
/// row and no entry under `key`, inserting the row under `key` adds it to
/// that leaf without splitting, and searching for `key` then finds that row
/// (with `Real` values read back as `Float`).
pub proof fn law_insert_then_search(st: PState, root: PageId, key: i64, vs: Seq<ValueView>)
    requires
        spec_find_leaf(st.0, root, key) is Ok,
        st.0.len() <= usize::MAX,
        st.0[leaf_for(st.0, root, key) as int].len() == PAGE_SIZE,
        page_num_keys(st.0[leaf_for(st.0, root, key) as int]) < u16::MAX,
        encodable_row(vs),
        find_entry(
            st.0[leaf_for(st.0, root, key) as int],
            key,
            0,
            page_num_keys(st.0[leaf_for(st.0, root, key) as int]) as int,
            HEADER_SIZE as int,
        ) == Ok::<Option<(int, int)>, ()>(None),
        data_end(
            st.0[leaf_for(st.0, root, key) as int],
            0,
            page_num_keys(st.0[leaf_for(st.0, root, key) as int]) as int,
            HEADER_SIZE as int,
        ) matches Some(end) && end + 12 + encode_row(vs).len() <= PAGE_SIZE,
    ensures
        spec_insert(st, root, key, vs).1 == Ok::<Option<PageId>, Fault>(None),
        spec_search(spec_insert(st, root, key, vs).0.0, root, key) == Ok::<Option<Seq<ValueView>>, Fault>(
            Some(vs.map_values(|v: ValueView| stored_value(v))),
        ),
{
    lemma_auto_spec_u16_to_from_le_bytes();
    lemma_auto_spec_u32_to_from_le_bytes();
    lemma_auto_spec_u64_to_from_le_bytes();
    let pages = st.0;
    let leaf = leaf_for(pages, root, key);
    lemma_find_leaf_in_range(pages, root, key, (pages.len() + 1) as nat);
    lemma_find_leaf_is_leaf(pages, root, key, (pages.len() + 1) as nat);
    let d = pages[leaf as int];
    let n = page_num_keys(d) as int;
    let data = encode_row(vs);
    let end = data_end(d, 0, n, HEADER_SIZE as int)->0;
    lemma_insert_pos_exists(d, key, 0, n, HEADER_SIZE as int);
    let pos = insert_pos(d, key, 0, n, HEADER_SIZE as int)->0;
    lemma_insert_pos_within(d, key, 0, n, HEADER_SIZE as int);
    lemma_data_end_bounds(d, 0, n, HEADER_SIZE as int);
    let req = 12 + data.len();
    let d1 = d.subrange(0, pos) + entry_bytes(key, data) + d.subrange(pos, end) + d.subrange(
        end + req,
        PAGE_SIZE as int,
    );
    let d2 = with_header(d1, page_type(d), (n + 1) as u16, page_parent(d));
    assert(spec_insert(st, root, key, vs) == (ps_write(st, leaf as int, d2), Ok::<Option<PageId>, Fault>(None)));
    let pages2 = ps_write(st, leaf as int, d2).0;
    assert(entry_bytes(key, data).len() == req);
    assert(d1.len() == PAGE_SIZE);
    assert(d2.len() == PAGE_SIZE);
    assert(pages2 == pages.update(leaf as int, d2));
    assert(pages2[leaf as int] == d2);
    assert(d2[0] == page_type(d));
    assert(d2.subrange(1, 3) =~= spec_u16_to_le_bytes((n + 1) as u16));
    assert(page_num_keys(d2) == n + 1);
    lemma_find_leaf_after_leaf_write(pages, leaf as int, d2, root, key, (pages.len() + 1) as nat);
    assert(find_leaf_from(pages2, root, key, (pages2.len() + 1) as nat) == Ok::<PageId, Fault>(leaf));
    assert(d2.subrange(HEADER_SIZE as int, pos) =~= d.subrange(HEADER_SIZE as int, pos));
    assert(d2.subrange(pos, pos + req) =~= entry_bytes(key, data));
    lemma_find_inserted(d, d2, key, data, 0, n, HEADER_SIZE as int, pos);
    assert(d2.subrange(pos + 12, pos + 12 + data.len()) =~= data);
    lemma_row_roundtrip(vs);
}

/// What a list of entries gives for `key`: the row of the first entry with
/// that key, `None` when there is none.
pub open spec fn entry_lookup(es: Seq<(i64, Seq<u8>)>, key: i64) -> std::result::Result<Option<Seq<ValueView>>, Fault>
    decreases es.len(),
{
    if es.len() == 0 {
        Ok(None)
    } else if es[0].0 == key {
        match decode_row(es[0].1) {
            None => Err(Fault::Corrupt),
            Some(vs) => Ok(Some(vs)),
        }
    } else {
        entry_lookup(es.drop_first(), key)
    }
}

/// A page's lookup, from entry `i` on, is the lookup in its listed entries.
proof fn lemma_lookup_entries(d: Seq<u8>, key: i64, i: int, n: int, off: int)
    requires
        leaf_entries(d, i, n, off) is Some,
    ensures
        (match find_entry(d, key, i, n, off) {
            Err(_) => Err(Fault::Corrupt),
            Ok(None) => Ok(None),
            Ok(Some((o, sz))) => if o + 12 + sz > PAGE_SIZE {
                Err(Fault::Corrupt)
            } else {
                match decode_row(d.subrange(o + 12, o + 12 + sz)) {
                    None => Err(Fault::Corrupt),
                    Some(vs) => Ok(Some(vs)),
                }
            },
        }) == entry_lookup(leaf_entries(d, i, n, off)->Some_0, key),
    decreases n - i,
{
    if i < n {
        let next = off + 12 + size_at(d, off);
        let es = leaf_entries(d, i, n, off)->Some_0;
        let rest = leaf_entries(d, i + 1, n, next)->Some_0;
        assert(es.drop_first() =~= rest);
        if i64_at(d, off) != key {
            lemma_lookup_entries(d, key, i + 1, n, next);
        }
    }
}

/// Inserting an entry under `key` changes no other key's lookup.
proof fn lemma_lookup_insert_other(es: Seq<(i64, Seq<u8>)>, key: i64, data: Seq<u8>, other: i64)
    requires
        other != key,
    ensures
        entry_lookup(insert_entry(es, key, data), other) == entry_lookup(es, other),
    decreases es.len(),
{
    if es.len() == 0 || key < es[0].0 {
        let e = seq![(key, data)] + es;
        assert(e.drop_first() =~= es);
    } else {
        let e = seq![es[0]] + insert_entry(es.drop_first(), key, data);
        assert(e.drop_first() =~= insert_entry(es.drop_first(), key, data));
        lemma_lookup_insert_other(es.drop_first(), key, data, other);
    }
}

/// A write leaves the other keys alone: when the leaf that `key` leads to
/// has room for the row and no entry under `key`, inserting the row under
/// `key` (at any height of the tree) leaves what searching any other key
/// gives unchanged.
pub proof fn law_insert_keeps_other_keys(st: PState, root: PageId, key: i64, vs: Seq<ValueView>, other: i64)
    requires
        spec_find_leaf(st.0, root, key) is Ok,
        st.0.len() <= usize::MAX,
        st.0[leaf_for(st.0, root, key) as int].len() == PAGE_SIZE,
        page_num_keys(st.0[leaf_for(st.0, root, key) as int]) < u16::MAX,
        encodable_row(vs),
        find_entry(
            st.0[leaf_for(st.0, root, key) as int],
            key,
            0,
            page_num_keys(st.0[leaf_for(st.0, root, key) as int]) as int,
            HEADER_SIZE as int,
        ) == Ok::<Option<(int, int)>, ()>(None),
        data_end(
            st.0[leaf_for(st.0, root, key) as int],
            0,
            page_num_keys(st.0[leaf_for(st.0, root, key) as int]) as int,
            HEADER_SIZE as int,
        ) matches Some(end) && end + 12 + encode_row(vs).len() <= PAGE_SIZE,
        other != key,
    ensures
        spec_insert(st, root, key, vs).1 == Ok::<Option<PageId>, Fault>(None),
        spec_search(spec_insert(st, root, key, vs).0.0, root, other) == spec_search(st.0, root, other),
{
    law_insert_then_search(st, root, key, vs);
    lemma_auto_spec_u16_to_from_le_bytes();
    lemma_auto_spec_u32_to_from_le_bytes();
    lemma_auto_spec_u64_to_from_le_bytes();
    let pages = st.0;
    let leaf = leaf_for(pages, root, key);
    lemma_find_leaf_in_range(pages, root, key, (pages.len() + 1) as nat);
    lemma_find_leaf_is_leaf(pages, root, key, (pages.len() + 1) as nat);
    let d = pages[leaf as int];
    let n = page_num_keys(d) as int;
    let data = encode_row(vs);
    let end = data_end(d, 0, n, HEADER_SIZE as int)->0;
    lemma_insert_pos_exists(d, key, 0, n, HEADER_SIZE as int);
    let pos = insert_pos(d, key, 0, n, HEADER_SIZE as int)->0;
    lemma_insert_pos_within(d, key, 0, n, HEADER_SIZE as int);
    lemma_insert_pos_ge(d, key, 0, n, HEADER_SIZE as int);
    lemma_data_end_bounds(d, 0, n, HEADER_SIZE as int);
    let req = 12 + data.len();
    let d1 = d.subrange(0, pos) + entry_bytes(key, data) + d.subrange(pos, end) + d.subrange(
        end + req,
        PAGE_SIZE as int,
    );
    let d2 = with_header(d1, page_type(d), (n + 1) as u16, page_parent(d));
    assert(spec_insert(st, root, key, vs) == (ps_write(st, leaf as int, d2), Ok::<Option<PageId>, Fault>(None)));
    let pages2 = ps_write(st, leaf as int, d2).0;
    assert(entry_bytes(key, data).len() == req);
    assert(d1.len() == PAGE_SIZE);
    assert(d2.len() == PAGE_SIZE);
    assert(pages2 == pages.update(leaf as int, d2));
    assert(d2[0] == page_type(d));
    assert(d2.subrange(1, 3) =~= spec_u16_to_le_bytes((n + 1) as u16));
    assert(page_num_keys(d2) == n + 1);
    lemma_find_leaf_after_leaf_write(pages, leaf as int, d2, root, other, (pages.len() + 1) as nat);
    if let Ok(l2) = spec_find_leaf(pages, root, other) {
        if l2 == leaf {
            assert(d2.subrange(HEADER_SIZE as int, pos) =~= d.subrange(HEADER_SIZE as int, pos));
            assert(d2.subrange(pos, pos + req) =~= entry_bytes(key, data));
            assert(d2.subrange(pos + req, end + req) =~= d.subrange(pos, end));
            lemma_entries_inserted(d, d2, key, data, 0, n, HEADER_SIZE as int, pos, end);
            lemma_lookup_entries(d, other, 0, n, HEADER_SIZE as int);
            lemma_lookup_entries(d2, other, 0, n + 1, HEADER_SIZE as int);
            lemma_lookup_insert_other(leaf_entries(d, 0, n, HEADER_SIZE as int)->Some_0, key, data, other);
        } else {
            lemma_find_leaf_in_range(pages, root, other, (pages.len() + 1) as nat);
            assert(pages2[l2 as int] == pages[l2 as int]);
        }
    }
}

/// Inserting into a leaf with room writes the leaf with the entry placed
/// among the others; the page keeps its type and parent.
proof fn lemma_leaf_insert_room(st: PState, id: PageId, key: i64, data: Seq<u8>, fuel: nat) -> (d2: Seq<u8>)
    requires
        fuel > 0,
        id < st.0.len(),
        st.0[id as int].len() == PAGE_SIZE,
        page_num_keys(st.0[id as int]) < u16::MAX,
        data_end(st.0[id as int], 0, page_num_keys(st.0[id as int]) as int, HEADER_SIZE as int) matches Some(end)
            && end + 12 + data.len() <= PAGE_SIZE,
    ensures
        spec_insert_leaf(st, id, key, data, fuel) == (ps_write(st, id as int, d2), Ok::<Option<PageId>, Fault>(None)),
        d2.len() == PAGE_SIZE,
        page_type(d2) == page_type(st.0[id as int]),
        page_parent(d2) == page_parent(st.0[id as int]),
        page_num_keys(d2) == page_num_keys(st.0[id as int]) + 1,
        leaf_entries(st.0[id as int], 0, page_num_keys(st.0[id as int]) as int, HEADER_SIZE as int) is Some,
        leaf_entries(d2, 0, page_num_keys(d2) as int, HEADER_SIZE as int) == Some(
            insert_entry(
                leaf_entries(st.0[id as int], 0, page_num_keys(st.0[id as int]) as int, HEADER_SIZE as int)->Some_0,
                key,
                data,
            ),
        ),
{
    lemma_auto_spec_u16_to_from_le_bytes();
    lemma_auto_spec_u32_to_from_le_bytes();
    lemma_auto_spec_u64_to_from_le_bytes();
    let d = st.0[id as int];
    let n = page_num_keys(d) as int;
    let end = data_end(d, 0, n, HEADER_SIZE as int)->0;
    lemma_insert_pos_exists(d, key, 0, n, HEADER_SIZE as int);
    let pos = insert_pos(d, key, 0, n, HEADER_SIZE as int)->0;
    lemma_insert_pos_within(d, key, 0, n, HEADER_SIZE as int);
    lemma_insert_pos_ge(d, key, 0, n, HEADER_SIZE as int);
    lemma_data_end_bounds(d, 0, n, HEADER_SIZE as int);
    let req = 12 + data.len();
    let d1 = d.subrange(0, pos) + entry_bytes(key, data) + d.subrange(pos, end) + d.subrange(
        end + req,
        PAGE_SIZE as int,
    );
    let d2 = with_header(d1, page_type(d), (n + 1) as u16, page_parent(d));
    assert(entry_bytes(key, data).len() == req);
    assert(d1.len() == PAGE_SIZE);
    assert(d2.len() == PAGE_SIZE);
    assert(d2[0] == page_type(d));
    assert(d2.subrange(1, 3) =~= spec_u16_to_le_bytes((n + 1) as u16));
    assert(d2.subrange(3, 7) =~= spec_u32_to_le_bytes(page_parent(d)));
    assert(page_num_keys(d2) == n + 1);
    assert(d2.subrange(HEADER_SIZE as int, pos) =~= d.subrange(HEADER_SIZE as int, pos));
    assert(d2.subrange(pos, pos + req) =~= entry_bytes(key, data));
    assert(d2.subrange(pos + req, end + req) =~= d.subrange(pos, end));
    lemma_entries_inserted(d, d2, key, data, 0, n, HEADER_SIZE as int, pos, end);
    d2
}

/// Looking up the key of an inserted entry finds it when no entry had that
/// key before.
proof fn lemma_lookup_insert_same(es: Seq<(i64, Seq<u8>)>, key: i64, data: Seq<u8>)
    requires
        forall|t: int| 0 <= t < es.len() ==> (#[trigger] es[t]).0 != key,
    ensures
        entry_lookup(insert_entry(es, key, data), key) == match decode_row(data) {
            None => Err::<Option<Seq<ValueView>>, Fault>(Fault::Corrupt),
            Some(vs) => Ok(Some(vs)),
        },
    decreases es.len(),
{
    if es.len() == 0 || key < es[0].0 {
    } else {
        let r = es.drop_first();
        assert forall|t: int| 0 <= t < r.len() implies (#[trigger] r[t]).0 != key by {
            assert(r[t] == es[t + 1]);
        }
        let e = seq![es[0]] + insert_entry(r, key, data);
        assert(e.drop_first() =~= insert_entry(r, key, data));
        assert(es[0].0 != key);
        lemma_lookup_insert_same(r, key, data);
    }
}

/// A lookup in `a + b` is the lookup in `b` when `a` has no entry with the
/// key, and the lookup in `a` when `b` has none.
proof fn lemma_lookup_concat(a: Seq<(i64, Seq<u8>)>, b: Seq<(i64, Seq<u8>)>, key: i64)
    ensures
        (forall|t: int| 0 <= t < a.len() ==> (#[trigger] a[t]).0 != key) ==> entry_lookup(a + b, key) == entry_lookup(b, key),
        (forall|t: int| 0 <= t < b.len() ==> (#[trigger] b[t]).0 != key) ==> entry_lookup(a + b, key) == entry_lookup(a, key),
    decreases a.len(),
{
    if a.len() == 0 {
        assert(a + b =~= b);
        lemma_lookup_absent(b, key);
    } else {
        assert((a + b).drop_first() =~= a.drop_first() + b);
        assert((a + b)[0] == a[0]);
        lemma_lookup_concat(a.drop_first(), b, key);
        if forall|t: int| 0 <= t < a.len() ==> (#[trigger] a[t]).0 != key {
            assert(a[0].0 != key);
            assert forall|t: int| 0 <= t < a.drop_first().len() implies (#[trigger] a.drop_first()[t]).0 != key by {
                assert(a.drop_first()[t] == a[t + 1]);
            }
        }
    }
}

/// A lookup finds nothing where no entry has the key.
proof fn lemma_lookup_absent(es: Seq<(i64, Seq<u8>)>, key: i64)
    ensures
        (forall|t: int| 0 <= t < es.len() ==> (#[trigger] es[t]).0 != key) ==> entry_lookup(es, key) == Ok::<Option<Seq<ValueView>>, Fault>(None),
    decreases es.len(),
{
    if es.len() > 0 {
        lemma_lookup_absent(es.drop_first(), key);
        if forall|t: int| 0 <= t < es.len() ==> (#[trigger] es[t]).0 != key {
            assert(es[0].0 != key);
            assert forall|t: int| 0 <= t < es.drop_first().len() implies (#[trigger] es.drop_first()[t]).0 != key by {
                assert(es.drop_first()[t] == es[t + 1]);
            }
        }
    }
}

/// Entries copied to another page, at the same or an earlier offset, are
/// read back the same there.
proof fn lemma_entries_moved(d: Seq<u8>, d2: Seq<u8>, j: int, cnt: int, off: int, i: int, off2: int, end: int)
    requires
        d.len() == PAGE_SIZE,
        d2.len() == PAGE_SIZE,
        0 <= cnt,
        0 <= off2 <= off,
        data_end(d, j, j + cnt, off) == Some(end),
        d2.subrange(off2, off2 + (end - off)) == d.subrange(off, end),
    ensures
        leaf_entries(d, j, j + cnt, off) is Some,
        leaf_entries(d2, i, i + cnt, off2) == leaf_entries(d, j, j + cnt, off),
        data_end(d2, i, i + cnt, off2) == Some(off2 + (end - off)),
    decreases cnt,
{
    lemma_data_end_bounds_any(d, j, j + cnt, off);
    if cnt > 0 {
        let sz = size_at(d, off);
        let next = off + 12 + sz;
        assert(off + 12 + sz <= PAGE_SIZE);
        assert(data_end(d, j + 1, (j + 1) + (cnt - 1), next) == Some(end));
        lemma_data_end_bounds_any(d, j + 1, j + cnt, next);
        lemma_data_end_bounds(d, j + 1, j + cnt, next);
        assert(next <= end <= PAGE_SIZE);
        let sh = off - off2;
        assert(d2.subrange(off2, off2 + 8) =~= d.subrange(off, off + 8)) by {
            assert(d2.subrange(off2, off2 + 8) =~= d2.subrange(off2, off2 + (end - off)).subrange(0, 8));
            assert(d.subrange(off, off + 8) =~= d.subrange(off, end).subrange(0, 8));
        }
        assert(d2.subrange(off2 + 8, off2 + 12) =~= d.subrange(off + 8, off + 12)) by {
            assert(d2.subrange(off2 + 8, off2 + 12) =~= d2.subrange(off2, off2 + (end - off)).subrange(8, 12));
            assert(d.subrange(off + 8, off + 12) =~= d.subrange(off, end).subrange(8, 12));
        }
        assert(i64_at(d2, off2) == i64_at(d, off));
        assert(size_at(d2, off2) == sz);
        assert(d2.subrange(off2 + 12, off2 + 12 + sz) =~= d.subrange(off + 12, off + 12 + sz)) by {
            assert(d2.subrange(off2 + 12, off2 + 12 + sz) =~= d2.subrange(off2, off2 + (end - off)).subrange(12, 12 + sz));
            assert(d.subrange(off + 12, off + 12 + sz) =~= d.subrange(off, end).subrange(12, 12 + sz));
        }
        assert(d2.subrange(off2 + 12 + sz, off2 + 12 + sz + (end - next)) =~= d.subrange(next, end)) by {
            assert(d2.subrange(off2 + 12 + sz, off2 + 12 + sz + (end - next)) =~= d2.subrange(off2, off2 + (end - off)).subrange(12 + sz, end - off));
            assert(d.subrange(next, end) =~= d.subrange(off, end).subrange(12 + sz, end - off));
        }
        lemma_entries_moved(d, d2, j + 1, cnt - 1, next, i + 1, off2 + 12 + sz, end);
    }
}

/// A page lists one entry per key it counts.
proof fn lemma_entries_len(d: Seq<u8>, i: int, n: int, off: int)
    requires
        leaf_entries(d, i, n, off) is Some,
    ensures
        (leaf_entries(d, i, n, off)->Some_0).len() == if n > i { n - i } else { 0 },
    decreases n - i,
{
    if i < n {
        lemma_entries_len(d, i + 1, n, off + 12 + size_at(d, off));
    }
}

/// The entries of a page split at entry `k`: those before it, then those
/// from its offset on.
proof fn lemma_entries_split(d: Seq<u8>, i: int, k: int, n: int, off: int)
    requires
        i <= k <= n,
        leaf_entries(d, i, n, off) is Some,
    ensures
        leaf_entries(d, i, k, off) == Some((leaf_entries(d, i, n, off)->Some_0).take(k - i)),
        leaf_entries(d, k, n, entries_offset(d, i, k, off)) == Some((leaf_entries(d, i, n, off)->Some_0).skip(k - i)),
        data_end(d, i, k, off) == Some(entries_offset(d, i, k, off)),
    decreases k - i,
{
    let es = leaf_entries(d, i, n, off)->Some_0;
    lemma_entries_len(d, i, n, off);
    if i == k {
        assert(es.take(0) =~= Seq::<(i64, Seq<u8>)>::empty());
        assert(es.skip(0) =~= es);
    } else {
        let next = off + 12 + size_at(d, off);
        let rest = leaf_entries(d, i + 1, n, next)->Some_0;
        lemma_entries_len(d, i + 1, n, next);
        lemma_entries_split(d, i + 1, k, n, next);
        assert(es =~= seq![es[0]] + rest);
        assert(es.take(k - i) =~= seq![es[0]] + rest.take(k - i - 1));
        assert(es.skip(k - i) =~= rest.skip(k - i - 1));
    }
}

/// A lookup that finds nothing means no entry has the key.
proof fn lemma_lookup_none(es: Seq<(i64, Seq<u8>)>, key: i64)
    requires
        entry_lookup(es, key) == Ok::<Option<Seq<ValueView>>, Fault>(None),
    ensures
        forall|t: int| 0 <= t < es.len() ==> (#[trigger] es[t]).0 != key,
    decreases es.len(),
{
    if es.len() > 0 {
        lemma_lookup_none(es.drop_first(), key);
        assert forall|t: int| 0 <= t < es.len() implies (#[trigger] es[t]).0 != key by {
            if t > 0 {
                assert(es[t] == es.drop_first()[t - 1]);
            }
        }
    }
}

/// The keys of listed entries strictly ascend.
pub open spec fn entries_ascending(es: Seq<(i64, Seq<u8>)>) -> bool {
    forall|i: int, j: int| 0 <= i < j < es.len() ==> (#[trigger] es[i]).0 < (#[trigger] es[j]).0
}

/// The entries of a leaf page.
pub open spec fn leaf_list(d: Seq<u8>) -> Seq<(i64, Seq<u8>)> {
    leaf_entries(d, 0, page_num_keys(d) as int, HEADER_SIZE as int)->Some_0
}

/// A tree of height two: an internal root, not page 0, with fewer than
/// `BTREE_ORDER` separators, over distinct leaf pages that name it as their
/// parent; each leaf lists its entries with strictly ascending keys, each of
/// which the root routes to that leaf.
pub open spec fn height_two(pages: Seq<Seq<u8>>, root: PageId) -> bool {
    let r = pages[root as int];
    let n = page_num_keys(r) as int;
    &&& 0 < root < pages.len()
    &&& r.len() == PAGE_SIZE
    &&& page_type(r) != 1
    &&& n < BTREE_ORDER
    &&& forall|i: int| 0 <= i <= n ==> #[trigger] child_at(r, i) < pages.len() && child_at(r, i) != root
        && pages[child_at(r, i) as int].len() == PAGE_SIZE && page_type(pages[child_at(r, i) as int]) == 1
        && page_parent(pages[child_at(r, i) as int]) == root
        && leaf_entries(pages[child_at(r, i) as int], 0, page_num_keys(pages[child_at(r, i) as int]) as int, HEADER_SIZE as int) is Some
        && entries_ascending(leaf_list(pages[child_at(r, i) as int]))
        && (forall|t: int| 0 <= t < leaf_list(pages[child_at(r, i) as int]).len()
            ==> route(r, (#[trigger] leaf_list(pages[child_at(r, i) as int])[t]).0, 0, n) == i)
    &&& forall|i: int, j: int| 0 <= i < j <= n ==> #[trigger] child_at(r, i) != #[trigger] child_at(r, j)
}

/// Below an internal root that fits, a key leads to the child its route
/// picks, when that child is a leaf.
proof fn lemma_two_level_find(pages: Seq<Seq<u8>>, root: PageId, key: i64)
    requires
        root < pages.len(),
        page_type(pages[root as int]) != 1,
        HEADER_SIZE + 16 * page_num_keys(pages[root as int]) + 16 <= PAGE_SIZE,
        child_at(pages[root as int], route(pages[root as int], key, 0, page_num_keys(pages[root as int]) as int))
            < pages.len(),
        page_type(pages[child_at(pages[root as int], route(pages[root as int], key, 0, page_num_keys(pages[root as int]) as int)) as int]) == 1,
    ensures
        spec_find_leaf(pages, root, key) == Ok::<PageId, Fault>(
            child_at(pages[root as int], route(pages[root as int], key, 0, page_num_keys(pages[root as int]) as int)),
        ),
{
    let r = pages[root as int];
    let n = page_num_keys(r) as int;
    lemma_descend_route(r, key, 0, n);
    assert(first_child(r) == child_at(r, 0));
    let c = child_at(r, route(r, key, 0, n));
    assert(find_leaf_from(pages, c, key, pages.len() as nat) == Ok::<PageId, Fault>(c));
}

/// A read after a write on a tree of height two: inserting a row under a
/// key the tree does not hold, when its leaf has room for it or, failing
/// that, the half of the split leaf the key belongs to has room for it,
/// keeps the root, makes searching the key give the row (as it is read
/// back), and leaves what searching any other key gives unchanged.
#[verifier::spinoff_prover]
#[verifier::rlimit(100)]
pub proof fn law_height_two_insert_then_search(st: PState, root: PageId, key: i64, vs: Seq<ValueView>, other: i64)
    requires
        height_two(st.0, root),
        st.0.len() < usize::MAX,
        encodable_row(vs),
        spec_search(st.0, root, key) == Ok::<Option<Seq<ValueView>>, Fault>(None),
        ({
            let d = st.0[leaf_for(st.0, root, key) as int];
            let n = page_num_keys(d) as int;
            let m = n / 2;
            let so = entries_offset(d, 0, m, HEADER_SIZE as int);
            let end = data_end(d, 0, n, HEADER_SIZE as int)->Some_0;
            let req = 12 + encode_row(vs).len();
            ||| end + req <= PAGE_SIZE
            ||| (key < i64_at(d, so) && so + req <= PAGE_SIZE)
            ||| (!(key < i64_at(d, so)) && HEADER_SIZE + (end - so) + req <= PAGE_SIZE)
        }),
        other != key,
    ensures
        spec_insert(st, root, key, vs).1 == Ok::<Option<PageId>, Fault>(None),
        spec_search(spec_insert(st, root, key, vs).0.0, root, key) == Ok::<Option<Seq<ValueView>>, Fault>(
            Some(stored_row(vs)),
        ),
        spec_search(spec_insert(st, root, key, vs).0.0, root, other) == spec_search(st.0, root, other),
{
    lemma_auto_spec_u16_to_from_le_bytes();
    lemma_auto_spec_u32_to_from_le_bytes();
    lemma_auto_spec_u64_to_from_le_bytes();
    let pages = st.0;
    let r = pages[root as int];
    let nr = page_num_keys(r) as int;
    let data = encode_row(vs);
    let req = 12 + data.len();
    let jk = route(r, key, 0, nr);
    let jo = route(r, other, 0, nr);
    lemma_route_props(r, key, 0, nr);
    lemma_route_props(r, other, 0, nr);
    assert(child_at(r, jk) < pages.len());
    assert(child_at(r, jo) < pages.len());
    lemma_two_level_find(pages, root, key);
    lemma_two_level_find(pages, root, other);
    let leaf = child_at(r, jk);
    assert(leaf_for(pages, root, key) == leaf);
    let d = pages[leaf as int];
    let n = page_num_keys(d) as int;
    let es = leaf_list(d);
    lemma_entries_len(d, 0, n, HEADER_SIZE as int);
    lemma_leaf_entries_fit(d, 0, n, HEADER_SIZE as int);
    lemma_lookup_entries(d, key, 0, n, HEADER_SIZE as int);
    lemma_lookup_none(es, key);
    lemma_find_entry_index(d, key, 0, n, HEADER_SIZE as int);
    let end = data_end(d, 0, n, HEADER_SIZE as int)->Some_0;
    lemma_data_end_bounds(d, 0, n, HEADER_SIZE as int);
    lemma_row_roundtrip(vs);
    assert(decode_row(data) == Some(stored_row(vs)));
    if end + req <= PAGE_SIZE {
        law_insert_then_search(st, root, key, vs);
        law_insert_keeps_other_keys(st, root, key, vs, other);
        return;
    }
    // The leaf is split: the lower half stays, the upper half goes to a new page.
    let m = n / 2;
    assert(m < n);
    let so = entries_offset(d, 0, m, HEADER_SIZE as int);
    lemma_entries_split(d, 0, m, n, HEADER_SIZE as int);
    lemma_data_end_bounds_any(d, m, n, so);
    lemma_data_end_bounds(d, 0, m, HEADER_SIZE as int);
    assert(leaf_entries(d, m, n, so) == Some(es.skip(m)));
    assert(es.skip(m)[0] == es[m]);
    assert(data_end(d, m, n, so) == Some(end)) by {
        lemma_data_end_split(d, 0, m, n, HEADER_SIZE as int);
    }
    let sk = i64_at(d, so);
    assert(es[m].0 == sk);
    assert(route(r, sk, 0, nr) == jk);
    let sib = pages.len() as PageId;
    let st1 = ps_alloc(st);
    let st2 = (st1.0, st1.1 + repeated((leaf, d), m as nat));
    let hl = with_header(d, page_type(d), m as u16, page_parent(d));
    let st3 = ps_set(st2, leaf as int, hl);
    let sib_page = header_bytes(1, (n - m) as u16, 0) + seq![0u8] + d.subrange(so, end) + zeros(
        PAGE_SIZE - HEADER_SIZE - (end - so),
    );
    let sts = ps_write(st3, sib as int, sib_page);
    assert(spec_split(st, leaf) == (sts, Ok::<(PageId, i64), Fault>((sib, sk))));
    assert(hl.len() == PAGE_SIZE);
    assert(sib_page.len() == PAGE_SIZE);
    assert(sts.0 == pages.push(zero_page()).update(leaf as int, hl).update(sib as int, sib_page));
    assert(hl.subrange(3, 7) =~= spec_u32_to_le_bytes(page_parent(d)));
    assert(page_parent(hl) == root);
    assert(sts.0[root as int] == r);
    // The separator goes into the root.
    lemma_descend_route(r, sk, 0, nr);
    let idx = jk;
    lemma_internal_insert(r, idx, nr, leaf, sk, sib);
    let ins = HEADER_SIZE + idx * 16;
    let iend = HEADER_SIZE + nr * 16 + 8;
    let r1 = r.subrange(0, ins + 16) + r.subrange(ins, iend) + r.subrange(iend + 16, PAGE_SIZE as int);
    let r2 = splice(r1, ins, spec_u64_to_le_bytes(leaf) + i64_bytes(sk) + spec_u64_to_le_bytes(sib));
    let r3 = with_header(r2, page_type(r), (nr + 1) as u16, page_parent(r));
    assert(spec_insert_internal(sts, root, leaf, sib, sk) == (ps_write(sts, root as int, r3), Ok::<(), Fault>(())));
    let sti = ps_write(sts, root as int, r3);
    let sp2 = with_header(sib_page, 1, (n - m) as u16, root as u32);
    assert(sti.0[sib as int] == sib_page);
    assert(sib_page[0] == 1);
    assert(sib_page.subrange(1, 3) =~= spec_u16_to_le_bytes((n - m) as u16));
    let stp = ps_set(sti, sib as int, sp2);
    assert(spec_insert_parent(sts, leaf, sib, sk) == (stp, Ok::<Option<PageId>, Fault>(None)));
    assert(sp2.len() == PAGE_SIZE);
    assert(sp2[0] == 1);
    assert(sp2.subrange(1, 3) =~= spec_u16_to_le_bytes((n - m) as u16));
    assert(page_num_keys(sp2) == n - m);
    assert(hl[0] == page_type(d));
    assert(hl.subrange(1, 3) =~= spec_u16_to_le_bytes(m as u16));
    assert(page_num_keys(hl) == m);
    let pp = stp.0;
    assert(pp == pages.push(zero_page()).update(leaf as int, hl).update(sib as int, sp2).update(root as int, r3));
    // The halves list the lower and upper entries.
    assert(hl.subrange(HEADER_SIZE as int, HEADER_SIZE + (so - HEADER_SIZE)) =~= d.subrange(HEADER_SIZE as int, so));
    lemma_entries_moved(d, hl, 0, m, HEADER_SIZE as int, 0, HEADER_SIZE as int, so);
    assert(sp2.subrange(HEADER_SIZE as int, HEADER_SIZE + (end - so)) =~= d.subrange(so, end));
    lemma_entries_moved(d, sp2, m, n - m, so, 0, HEADER_SIZE as int, end);
    let lo = es.take(m);
    let hi = es.skip(m);
    assert(leaf_entries(hl, 0, m, HEADER_SIZE as int) == Some(lo));
    assert(leaf_entries(sp2, 0, n - m, HEADER_SIZE as int) == Some(hi));
    assert forall|t: int| 0 <= t < lo.len() implies (#[trigger] lo[t]).0 < sk by {
        assert(lo[t] == es[t]);
    }
    assert forall|t: int| 0 <= t < hi.len() implies sk <= (#[trigger] hi[t]).0 by {
        assert(hi[t] == es[m + t]);
    }
    assert(es =~= lo + hi);
    // The retry goes to the half the key belongs to.
    let target = if key < sk { leaf } else { sib };
    let tpage = if key < sk { hl } else { sp2 };
    let tn = if key < sk { m } else { n - m };
    assert(pp[target as int] == tpage);
    assert(page_num_keys(tpage) == tn);
    let d2t = lemma_leaf_insert_room(stp, target, key, data, (INSERT_SPLIT_LIMIT - 1) as nat);
    lemma_insert_pos_exists(d, key, 0, n, HEADER_SIZE as int);
    let stf = ps_write(stp, target as int, d2t);
    assert(spec_insert_leaf(st, leaf, key, data, INSERT_SPLIT_LIMIT as nat) == (stf, Ok::<Option<PageId>, Fault>(None)));
    assert(spec_insert(st, root, key, vs) == (stf, Ok::<Option<PageId>, Fault>(None)));
    let pf = stf.0;
    assert(pf == pp.update(target as int, d2t));
    assert(pf[root as int] == r3);
    let half = if key < sk { lo } else { hi };
    assert(leaf_entries(d2t, 0, tn + 1, HEADER_SIZE as int) == Some(insert_entry(half, key, data)));
    // Searching the key.
    lemma_route_after_insert(r, r3, nr, idx, sk, leaf, sib, key);
    lemma_route_props(r3, key, 0, nr + 1);
    assert(child_at(r3, route(r3, key, 0, nr + 1)) == target);
    assert(page_type(d2t) == 1);
    lemma_two_level_find(pf, root, key);
    lemma_lookup_entries(d2t, key, 0, tn + 1, HEADER_SIZE as int);
    assert forall|t: int| 0 <= t < half.len() implies (#[trigger] half[t]).0 != key by {
        if key < sk {
            assert(half[t] == es[t]);
        } else {
            assert(half[t] == es[m + t]);
        }
    }
    lemma_lookup_insert_same(half, key, data);
    // Searching another key.
    lemma_route_after_insert(r, r3, nr, idx, sk, leaf, sib, other);
    lemma_route_props(r3, other, 0, nr + 1);
    let co = child_at(r, jo);
    let c2 = child_at(r3, route(r3, other, 0, nr + 1));
    lemma_lookup_entries(pages[co as int], other, 0, page_num_keys(pages[co as int]) as int, HEADER_SIZE as int);
    if jo != idx {
        assert(c2 == co);
        assert(co != leaf);
        assert(pf[co as int] == pages[co as int]);
        lemma_two_level_find(pf, root, other);
    } else {
        assert(co == leaf);
        lemma_lookup_concat(lo, hi, other);
        if other < sk {
            assert(c2 == leaf);
            assert forall|t: int| 0 <= t < hi.len() implies (#[trigger] hi[t]).0 != other by {}
            if key < sk {
                lemma_lookup_insert_other(lo, key, data, other);
                lemma_lookup_entries(d2t, other, 0, tn + 1, HEADER_SIZE as int);
            } else {
                assert(pf[leaf as int] == hl);
                lemma_lookup_entries(hl, other, 0, m, HEADER_SIZE as int);
            }
        } else {
            assert(c2 == sib);
            assert forall|t: int| 0 <= t < lo.len() implies (#[trigger] lo[t]).0 != other by {}
            if key < sk {
                assert(pf[sib as int] == sp2);
                lemma_lookup_entries(sp2, other, 0, n - m, HEADER_SIZE as int);
            } else {
                lemma_lookup_insert_other(hi, key, data, other);
                lemma_lookup_entries(d2t, other, 0, tn + 1, HEADER_SIZE as int);
            }
        }
        lemma_two_level_find(pf, root, other);
    }
}

/// Inserting an entry under a key no entry has keeps the keys strictly
/// ascending, and lists only the old keys and the new one.
proof fn lemma_insert_entry_ascending(es: Seq<(i64, Seq<u8>)>, key: i64, data: Seq<u8>)
    requires
        entries_ascending(es),
        forall|t: int| 0 <= t < es.len() ==> (#[trigger] es[t]).0 != key,
    ensures
        entries_ascending(insert_entry(es, key, data)),
        insert_entry(es, key, data).len() == es.len() + 1,
        forall|t: int| 0 <= t < insert_entry(es, key, data).len() ==> (#[trigger] insert_entry(es, key, data)[t]).0 == key
            || exists|u: int| 0 <= u < es.len() && es[u].0 == insert_entry(es, key, data)[t].0,
{
    let k = lemma_insert_entry_split(es, key, data);
    let e = insert_entry(es, key, data);
    assert(e.len() == es.len() + 1);
    assert forall|t: int| 0 <= t < e.len() implies (#[trigger] e[t]) == if t < k {
        es[t]
    } else if t == k {
        (key, data)
    } else {
        es[t - 1]
    } by {}
    assert forall|a: int, b: int| 0 <= a < b < e.len() implies (#[trigger] e[a]).0 < (#[trigger] e[b]).0 by {
        if b < k {
            assert(es[a].0 < es[b].0);
        } else if b == k {
            assert(es[a].0 <= key && es[a].0 != key);
        } else if a < k {
            assert(es[a].0 <= key && es[a].0 != key);
            assert(key < es[k].0);
            if b - 1 > k {
                assert(es[k].0 < es[b - 1].0);
            }
        } else if a == k {
            assert(key < es[k].0);
            if b - 1 > k {
                assert(es[k].0 < es[b - 1].0);
            }
        } else {
            assert(es[a - 1].0 < es[b - 1].0);
        }
    }
    assert forall|t: int| 0 <= t < e.len() implies (#[trigger] e[t]).0 == key
        || exists|u: int| 0 <= u < es.len() && es[u].0 == e[t].0 by {
        if t < k {
            assert(es[t].0 == e[t].0);
        } else if t > k {
            assert(es[t - 1].0 == e[t].0);
        }
    }
}

/// Inserting into a tree of height two keeps it of height two: under the
/// conditions of `law_height_two_insert_then_search`, and when a split
/// leaves the root fewer than `BTREE_ORDER` separators, the tree after the
/// insert is again an internal root over distinct leaves with strictly
/// ascending keys that the root routes to them.
#[verifier::spinoff_prover]
#[verifier::rlimit(100)]
pub proof fn law_height_two_insert_keeps_shape(st: PState, root: PageId, key: i64, vs: Seq<ValueView>)
    requires
        height_two(st.0, root),
        st.0.len() < usize::MAX,
        encodable_row(vs),
        spec_search(st.0, root, key) == Ok::<Option<Seq<ValueView>>, Fault>(None),
        ({
            let d = st.0[leaf_for(st.0, root, key) as int];
            let n = page_num_keys(d) as int;
            let m = n / 2;
            let so = entries_offset(d, 0, m, HEADER_SIZE as int);
            let end = data_end(d, 0, n, HEADER_SIZE as int)->Some_0;
            let req = 12 + encode_row(vs).len();
            ||| end + req <= PAGE_SIZE
            ||| (page_num_keys(st.0[root as int]) + 1 < BTREE_ORDER && key < i64_at(d, so) && so + req <= PAGE_SIZE)
            ||| (page_num_keys(st.0[root as int]) + 1 < BTREE_ORDER && !(key < i64_at(d, so)) && HEADER_SIZE + (end
                - so) + req <= PAGE_SIZE)
        }),
    ensures
        spec_insert(st, root, key, vs).1 == Ok::<Option<PageId>, Fault>(None),
        height_two(spec_insert(st, root, key, vs).0.0, root),
{
    lemma_auto_spec_u16_to_from_le_bytes();
    lemma_auto_spec_u32_to_from_le_bytes();
    lemma_auto_spec_u64_to_from_le_bytes();
    let pages = st.0;
    let r = pages[root as int];
    let nr = page_num_keys(r) as int;
    let data = encode_row(vs);
    let req = 12 + data.len();
    let jk = route(r, key, 0, nr);
    lemma_route_props(r, key, 0, nr);
    assert(child_at(r, jk) < pages.len());
    lemma_two_level_find(pages, root, key);
    let leaf = child_at(r, jk);
    assert(leaf_for(pages, root, key) == leaf);
    let d = pages[leaf as int];
    let n = page_num_keys(d) as int;
    let es = leaf_list(d);
    lemma_entries_len(d, 0, n, HEADER_SIZE as int);
    lemma_leaf_entries_fit(d, 0, n, HEADER_SIZE as int);
    lemma_lookup_entries(d, key, 0, n, HEADER_SIZE as int);
    lemma_lookup_none(es, key);
    let end = data_end(d, 0, n, HEADER_SIZE as int)->Some_0;
    lemma_data_end_bounds(d, 0, n, HEADER_SIZE as int);
    lemma_insert_pos_exists(d, key, 0, n, HEADER_SIZE as int);
    if end + req <= PAGE_SIZE {
        let d2 = lemma_leaf_insert_room(st, leaf, key, data, INSERT_SPLIT_LIMIT as nat);
        assert(spec_insert(st, root, key, vs) == (ps_write(st, leaf as int, d2), Ok::<Option<PageId>, Fault>(None)));
        let pf = ps_write(st, leaf as int, d2).0;
        assert(pf == pages.update(leaf as int, d2));
        assert(pf[root as int] == r);
        lemma_insert_entry_ascending(es, key, data);
        let e2 = insert_entry(es, key, data);
        assert(leaf_list(d2) == e2);
        assert forall|i: int| 0 <= i <= nr implies #[trigger] child_at(r, i) < pf.len() && child_at(r, i) != root
            && pf[child_at(r, i) as int].len() == PAGE_SIZE && page_type(pf[child_at(r, i) as int]) == 1
            && page_parent(pf[child_at(r, i) as int]) == root
            && leaf_entries(pf[child_at(r, i) as int], 0, page_num_keys(pf[child_at(r, i) as int]) as int, HEADER_SIZE as int) is Some
            && entries_ascending(leaf_list(pf[child_at(r, i) as int]))
            && (forall|t: int| 0 <= t < leaf_list(pf[child_at(r, i) as int]).len()
                ==> route(r, (#[trigger] leaf_list(pf[child_at(r, i) as int])[t]).0, 0, nr) == i) by {
            if i == jk {
                assert forall|t: int| 0 <= t < e2.len() implies route(r, (#[trigger] e2[t]).0, 0, nr) == i by {
                    if e2[t].0 != key {
                        let u = choose|u: int| 0 <= u < es.len() && es[u].0 == e2[t].0;
                        assert(route(r, es[u].0, 0, nr) == jk);
                    }
                }
            } else {
                assert(child_at(r, i) != leaf);
            }
        }
        return;
    }
    // The leaf is split.
    let m = n / 2;
    let so = entries_offset(d, 0, m, HEADER_SIZE as int);
    lemma_entries_split(d, 0, m, n, HEADER_SIZE as int);
    lemma_data_end_bounds_any(d, m, n, so);
    lemma_data_end_bounds(d, 0, m, HEADER_SIZE as int);
    assert(es.skip(m)[0] == es[m]);
    assert(data_end(d, m, n, so) == Some(end)) by {
        lemma_data_end_split(d, 0, m, n, HEADER_SIZE as int);
    }
    let sk = i64_at(d, so);
    assert(es[m].0 == sk);
    assert(route(r, sk, 0, nr) == jk);
    let sib = pages.len() as PageId;
    let st1 = ps_alloc(st);
    let st2 = (st1.0, st1.1 + repeated((leaf, d), m as nat));
    let hl = with_header(d, page_type(d), m as u16, page_parent(d));
    let st3 = ps_set(st2, leaf as int, hl);
    let sib_page = header_bytes(1, (n - m) as u16, 0) + seq![0u8] + d.subrange(so, end) + zeros(
        PAGE_SIZE - HEADER_SIZE - (end - so),
    );
    let sts = ps_write(st3, sib as int, sib_page);
    assert(spec_split(st, leaf) == (sts, Ok::<(PageId, i64), Fault>((sib, sk))));
    assert(hl.len() == PAGE_SIZE);
    assert(sib_page.len() == PAGE_SIZE);
    assert(sts.0 == pages.push(zero_page()).update(leaf as int, hl).update(sib as int, sib_page));
    assert(hl.subrange(3, 7) =~= spec_u32_to_le_bytes(page_parent(d)));
    assert(page_parent(hl) == root);
    assert(sts.0[root as int] == r);
    lemma_descend_route(r, sk, 0, nr);
    let idx = jk;
    lemma_internal_insert(r, idx, nr, leaf, sk, sib);
    let ins = HEADER_SIZE + idx * 16;
    let iend = HEADER_SIZE + nr * 16 + 8;
    let r1 = r.subrange(0, ins + 16) + r.subrange(ins, iend) + r.subrange(iend + 16, PAGE_SIZE as int);
    let r2 = splice(r1, ins, spec_u64_to_le_bytes(leaf) + i64_bytes(sk) + spec_u64_to_le_bytes(sib));
    let r3 = with_header(r2, page_type(r), (nr + 1) as u16, page_parent(r));
    assert(spec_insert_internal(sts, root, leaf, sib, sk) == (ps_write(sts, root as int, r3), Ok::<(), Fault>(())));
    let sti = ps_write(sts, root as int, r3);
    let sp2 = with_header(sib_page, 1, (n - m) as u16, root as u32);
    assert(sti.0[sib as int] == sib_page);
    assert(sib_page[0] == 1);
    assert(sib_page.subrange(1, 3) =~= spec_u16_to_le_bytes((n - m) as u16));
    let stp = ps_set(sti, sib as int, sp2);
    assert(spec_insert_parent(sts, leaf, sib, sk) == (stp, Ok::<Option<PageId>, Fault>(None)));
    assert(sp2.len() == PAGE_SIZE);
    assert(sp2[0] == 1);
    assert(sp2.subrange(1, 3) =~= spec_u16_to_le_bytes((n - m) as u16));
    assert(sp2.subrange(3, 7) =~= spec_u32_to_le_bytes(root as u32));
    assert(page_num_keys(sp2) == n - m);
    assert(page_parent(sp2) == root);
    assert(hl[0] == page_type(d));
    assert(hl.subrange(1, 3) =~= spec_u16_to_le_bytes(m as u16));
    assert(page_num_keys(hl) == m);
    let pp = stp.0;
    assert(pp == pages.push(zero_page()).update(leaf as int, hl).update(sib as int, sp2).update(root as int, r3));
    assert(hl.subrange(HEADER_SIZE as int, HEADER_SIZE + (so - HEADER_SIZE)) =~= d.subrange(HEADER_SIZE as int, so));
    lemma_entries_moved(d, hl, 0, m, HEADER_SIZE as int, 0, HEADER_SIZE as int, so);
    assert(sp2.subrange(HEADER_SIZE as int, HEADER_SIZE + (end - so)) =~= d.subrange(so, end));
    lemma_entries_moved(d, sp2, m, n - m, so, 0, HEADER_SIZE as int, end);
    let lo = es.take(m);
    let hi = es.skip(m);
    assert(leaf_list(hl) == lo);
    assert(leaf_list(sp2) == hi);
    assert forall|t: int| 0 <= t < lo.len() implies (#[trigger] lo[t]).0 < sk && route(r, lo[t].0, 0, nr) == idx by {
        assert(lo[t] == es[t]);
    }
    assert forall|t: int| 0 <= t < hi.len() implies sk <= (#[trigger] hi[t]).0 && route(r, hi[t].0, 0, nr) == idx by {
        assert(hi[t] == es[m + t]);
    }
    assert(entries_ascending(lo)) by {
        assert forall|a: int, b: int| 0 <= a < b < lo.len() implies (#[trigger] lo[a]).0 < (#[trigger] lo[b]).0 by {
            assert(lo[a] == es[a] && lo[b] == es[b]);
        }
    }
    assert(entries_ascending(hi)) by {
        assert forall|a: int, b: int| 0 <= a < b < hi.len() implies (#[trigger] hi[a]).0 < (#[trigger] hi[b]).0 by {
            assert(hi[a] == es[m + a] && hi[b] == es[m + b]);
        }
    }
    let target = if key < sk { leaf } else { sib };
    let tpage = if key < sk { hl } else { sp2 };
    let tn = if key < sk { m } else { n - m };
    let half = if key < sk { lo } else { hi };
    assert(pp[target as int] == tpage);
    let d2t = lemma_leaf_insert_room(stp, target, key, data, (INSERT_SPLIT_LIMIT - 1) as nat);
    let stf = ps_write(stp, target as int, d2t);
    assert(spec_insert_leaf(st, leaf, key, data, INSERT_SPLIT_LIMIT as nat) == (stf, Ok::<Option<PageId>, Fault>(None)));
    assert(spec_insert(st, root, key, vs) == (stf, Ok::<Option<PageId>, Fault>(None)));
    let pf = stf.0;
    assert(pf == pp.update(target as int, d2t));
    assert(pf[root as int] == r3);
    assert forall|t: int| 0 <= t < half.len() implies (#[trigger] half[t]).0 != key by {
        if key < sk {
            assert(half[t] == es[t]);
        } else {
            assert(half[t] == es[m + t]);
        }
    }
    lemma_insert_entry_ascending(half, key, data);
    let e2 = insert_entry(half, key, data);
    assert(leaf_list(d2t) == e2);
    lemma_route_after_insert(r, r3, nr, idx, sk, leaf, sib, key);
    // The new root's children.
    assert forall|i: int| 0 <= i <= nr + 1 implies #[trigger] child_at(r3, i) < pf.len() && child_at(r3, i) != root
        && pf[child_at(r3, i) as int].len() == PAGE_SIZE && page_type(pf[child_at(r3, i) as int]) == 1
        && page_parent(pf[child_at(r3, i) as int]) == root
        && leaf_entries(pf[child_at(r3, i) as int], 0, page_num_keys(pf[child_at(r3, i) as int]) as int, HEADER_SIZE as int) is Some
        && entries_ascending(leaf_list(pf[child_at(r3, i) as int]))
        && (forall|t: int| 0 <= t < leaf_list(pf[child_at(r3, i) as int]).len()
            ==> route(r3, (#[trigger] leaf_list(pf[child_at(r3, i) as int])[t]).0, 0, nr + 1) == i) by {
        if i < idx || i > idx + 1 {
            let j = if i < idx { i } else { i - 1 };
            let c = child_at(r, j);
            assert(child_at(r3, i) == c);
            assert(c != leaf);
            assert(pf[c as int] == pages[c as int]);
            let l = leaf_list(pages[c as int]);
            assert forall|t: int| 0 <= t < l.len() implies route(r3, (#[trigger] l[t]).0, 0, nr + 1) == i by {
                assert(route(r, l[t].0, 0, nr) == j);
                lemma_route_after_insert(r, r3, nr, idx, sk, leaf, sib, l[t].0);
            }
        } else {
            let l = leaf_list(pf[child_at(r3, i) as int]);
            assert(i == idx ==> child_at(r3, i) == leaf);
            assert(i == idx + 1 ==> child_at(r3, i) == sib);
            assert(i == idx ==> l == (if key < sk { e2 } else { lo }));
            assert(i == idx + 1 ==> l == (if key < sk { hi } else { e2 }));
            assert forall|t: int| 0 <= t < l.len() implies route(r3, (#[trigger] l[t]).0, 0, nr + 1) == i by {
                let k2 = l[t].0;
                lemma_route_after_insert(r, r3, nr, idx, sk, leaf, sib, k2);
                if k2 != key {
                    if (i == idx && key < sk) || (i == idx + 1 && !(key < sk)) {
                        let u = choose|u: int| 0 <= u < half.len() && half[u].0 == k2;
                        assert(route(r, half[u].0, 0, nr) == idx);
                        assert(half[u].0 < sk <==> key < sk);
                    }
                }
            }
        }
    }
    assert forall|i: int, j: int| 0 <= i < j <= nr + 1 implies #[trigger] child_at(r3, i) != #[trigger] child_at(r3, j) by {
        let oi = if i <= idx { i } else { i - 1 };
        let oj = if j <= idx { j } else { j - 1 };
        assert(child_at(r, oi) < pages.len());
        assert(child_at(r, oj) < pages.len());
        if i != idx + 1 && j != idx + 1 {
            assert(child_at(r3, i) == child_at(r, oi));
            assert(child_at(r3, j) == child_at(r, oj));
            assert(child_at(r, oi) != child_at(r, oj));
        }
    }
    assert(pf.len() == pages.len() + 1);
    assert(page_num_keys(r3) == nr + 1);
}

/// A read after a write when the root leaf splits: when the root is a leaf
/// with no parent whose keys strictly ascend, the row under an absent key
/// does not fit but fits in the half the key belongs to, the insert makes a
/// new root over the two halves. The tree is then of height two, searching
/// the key gives the row (as it is read back), and searching any other key
/// gives what it gave before.
#[verifier::spinoff_prover]
#[verifier::rlimit(100)]
pub proof fn law_root_split_then_search(st: PState, root: PageId, key: i64, vs: Seq<ValueView>, other: i64)
    requires
        root < st.0.len(),
        st.0.len() + 2 < u32::MAX,
        st.0[root as int].len() == PAGE_SIZE,
        page_type(st.0[root as int]) == 1,
        page_parent(st.0[root as int]) == 0,
        leaf_entries(st.0[root as int], 0, page_num_keys(st.0[root as int]) as int, HEADER_SIZE as int) is Some,
        entries_ascending(leaf_list(st.0[root as int])),
        encodable_row(vs),
        spec_search(st.0, root, key) == Ok::<Option<Seq<ValueView>>, Fault>(None),
        ({
            let d = st.0[root as int];
            let n = page_num_keys(d) as int;
            let m = n / 2;
            let so = entries_offset(d, 0, m, HEADER_SIZE as int);
            let end = data_end(d, 0, n, HEADER_SIZE as int)->Some_0;
            let req = 12 + encode_row(vs).len();
            &&& end + req > PAGE_SIZE
            &&& (key < i64_at(d, so) ==> so + req <= PAGE_SIZE)
            &&& (!(key < i64_at(d, so)) ==> HEADER_SIZE + (end - so) + req <= PAGE_SIZE)
        }),
        other != key,
    ensures
        spec_insert(st, root, key, vs).1 == Ok::<Option<PageId>, Fault>(Some((st.0.len() + 1) as PageId)),
        height_two(spec_insert(st, root, key, vs).0.0, (st.0.len() + 1) as PageId),
        spec_search(spec_insert(st, root, key, vs).0.0, (st.0.len() + 1) as PageId, key)
            == Ok::<Option<Seq<ValueView>>, Fault>(Some(stored_row(vs))),
        spec_search(spec_insert(st, root, key, vs).0.0, (st.0.len() + 1) as PageId, other) == spec_search(
            st.0,
            root,
            other,
        ),
{
    lemma_auto_spec_u16_to_from_le_bytes();
    lemma_auto_spec_u32_to_from_le_bytes();
    lemma_auto_spec_u64_to_from_le_bytes();
    let pages = st.0;
    let leaf = root;
    let d = pages[leaf as int];
    let n = page_num_keys(d) as int;
    let es = leaf_list(d);
    let data = encode_row(vs);
    let req = 12 + data.len();
    assert(find_leaf_from(pages, root, key, (pages.len() + 1) as nat) == Ok::<PageId, Fault>(root));
    assert(find_leaf_from(pages, root, other, (pages.len() + 1) as nat) == Ok::<PageId, Fault>(root));
    lemma_entries_len(d, 0, n, HEADER_SIZE as int);
    lemma_leaf_entries_fit(d, 0, n, HEADER_SIZE as int);
    lemma_lookup_entries(d, key, 0, n, HEADER_SIZE as int);
    lemma_lookup_entries(d, other, 0, n, HEADER_SIZE as int);
    lemma_lookup_none(es, key);
    let end = data_end(d, 0, n, HEADER_SIZE as int)->Some_0;
    lemma_data_end_bounds(d, 0, n, HEADER_SIZE as int);
    lemma_insert_pos_exists(d, key, 0, n, HEADER_SIZE as int);
    lemma_row_roundtrip(vs);
    let m = n / 2;
    assert(m < n);
    let so = entries_offset(d, 0, m, HEADER_SIZE as int);
    lemma_entries_split(d, 0, m, n, HEADER_SIZE as int);
    lemma_data_end_bounds_any(d, m, n, so);
    lemma_data_end_bounds(d, 0, m, HEADER_SIZE as int);
    assert(es.skip(m)[0] == es[m]);
    assert(data_end(d, m, n, so) == Some(end)) by {
        lemma_data_end_split(d, 0, m, n, HEADER_SIZE as int);
    }
    let sk = i64_at(d, so);
    assert(es[m].0 == sk);
    let sib = pages.len() as PageId;
    let st1 = ps_alloc(st);
    let st2 = (st1.0, st1.1 + repeated((leaf, d), m as nat));
    let hl = with_header(d, page_type(d), m as u16, page_parent(d));
    let st3 = ps_set(st2, leaf as int, hl);
    let sib_page = header_bytes(1, (n - m) as u16, 0) + seq![0u8] + d.subrange(so, end) + zeros(
        PAGE_SIZE - HEADER_SIZE - (end - so),
    );
    let sts = ps_write(st3, sib as int, sib_page);
    assert(spec_split(st, leaf) == (sts, Ok::<(PageId, i64), Fault>((sib, sk))));
    assert(hl.len() == PAGE_SIZE);
    assert(sib_page.len() == PAGE_SIZE);
    assert(hl.subrange(3, 7) =~= spec_u32_to_le_bytes(page_parent(d)));
    assert(page_parent(hl) == 0);
    let nroot = (pages.len() + 1) as PageId;
    let rp = header_bytes(0, 1, 0) + seq![0u8] + spec_u64_to_le_bytes(leaf) + i64_bytes(sk) + spec_u64_to_le_bytes(sib)
        + zeros(PAGE_SIZE - 32);
    let sa = ps_write(ps_alloc(sts), nroot as int, rp);
    let l2 = with_header(hl, page_type(hl), page_num_keys(hl), nroot as u32);
    let sb = ps_set(sa, leaf as int, l2);
    assert(sa.0[sib as int] == sib_page);
    let s2 = with_header(sib_page, page_type(sib_page), page_num_keys(sib_page), nroot as u32);
    let sc = ps_set(sb, sib as int, s2);
    assert(spec_new_root(sts, leaf, sib, sk) == (sc, Ok::<PageId, Fault>(nroot)));
    assert(spec_insert_parent(sts, leaf, sib, sk) == (sc, Ok::<Option<PageId>, Fault>(Some(nroot))));
    assert(rp.len() == PAGE_SIZE);
    assert(hl[0] == page_type(d));
    assert(hl.subrange(1, 3) =~= spec_u16_to_le_bytes(m as u16));
    assert(page_num_keys(hl) == m);
    assert(sib_page[0] == 1);
    assert(sib_page.subrange(1, 3) =~= spec_u16_to_le_bytes((n - m) as u16));
    assert(page_num_keys(sib_page) == n - m);
    assert(l2.len() == PAGE_SIZE && s2.len() == PAGE_SIZE);
    assert(l2[0] == 1 && s2[0] == 1);
    assert(l2.subrange(1, 3) =~= spec_u16_to_le_bytes(m as u16));
    assert(s2.subrange(1, 3) =~= spec_u16_to_le_bytes((n - m) as u16));
    assert(l2.subrange(3, 7) =~= spec_u32_to_le_bytes(nroot as u32));
    assert(s2.subrange(3, 7) =~= spec_u32_to_le_bytes(nroot as u32));
    assert(page_num_keys(l2) == m && page_num_keys(s2) == n - m);
    assert(page_parent(l2) == nroot && page_parent(s2) == nroot);
    let pp = sc.0;
    assert(pp == pages.push(zero_page()).update(leaf as int, hl).update(sib as int, sib_page).push(zero_page()).update(
        nroot as int,
        rp,
    ).update(leaf as int, l2).update(sib as int, s2));
    assert(pp.len() == pages.len() + 2);
    assert(pp[nroot as int] == rp);
    assert(pp[leaf as int] == l2);
    assert(pp[sib as int] == s2);
    // The new root's layout.
    assert(rp[0] == 0);
    assert(rp.subrange(1, 3) =~= spec_u16_to_le_bytes(1u16));
    assert(page_num_keys(rp) == 1);
    assert(rp.subrange(8, 16) =~= spec_u64_to_le_bytes(leaf));
    assert(rp.subrange(16, 24) =~= i64_bytes(sk));
    assert(rp.subrange(24, 32) =~= spec_u64_to_le_bytes(sib));
    assert(child_at(rp, 0) == leaf);
    assert(sep_at(rp, 0) == sk) by {
        assert((sk as u64) as i64 == sk) by (bit_vector);
    }
    assert(child_at(rp, 1) == sib) by {
        assert(HEADER_SIZE + 16 * 1 == 24);
    }
    // The halves.
    assert(l2.subrange(HEADER_SIZE as int, HEADER_SIZE + (so - HEADER_SIZE)) =~= d.subrange(HEADER_SIZE as int, so));
    lemma_entries_moved(d, l2, 0, m, HEADER_SIZE as int, 0, HEADER_SIZE as int, so);
    assert(s2.subrange(HEADER_SIZE as int, HEADER_SIZE + (end - so)) =~= d.subrange(so, end));
    lemma_entries_moved(d, s2, m, n - m, so, 0, HEADER_SIZE as int, end);
    let lo = es.take(m);
    let hi = es.skip(m);
    assert(leaf_list(l2) == lo);
    assert(leaf_list(s2) == hi);
    assert forall|t: int| 0 <= t < lo.len() implies (#[trigger] lo[t]).0 < sk by {
        assert(lo[t] == es[t]);
    }
    assert forall|t: int| 0 <= t < hi.len() implies sk <= (#[trigger] hi[t]).0 by {
        assert(hi[t] == es[m + t]);
    }
    assert(es =~= lo + hi);
    assert(entries_ascending(lo)) by {
        assert forall|a: int, b: int| 0 <= a < b < lo.len() implies (#[trigger] lo[a]).0 < (#[trigger] lo[b]).0 by {
            assert(lo[a] == es[a] && lo[b] == es[b]);
        }
    }
    assert(entries_ascending(hi)) by {
        assert forall|a: int, b: int| 0 <= a < b < hi.len() implies (#[trigger] hi[a]).0 < (#[trigger] hi[b]).0 by {
            assert(hi[a] == es[m + a] && hi[b] == es[m + b]);
        }
    }
    // The retry.
    let target = if key < sk { leaf } else { sib };
    let tpage = if key < sk { l2 } else { s2 };
    let half = if key < sk { lo } else { hi };
    assert(pp[target as int] == tpage);
    let d2t = lemma_leaf_insert_room(sc, target, key, data, (INSERT_SPLIT_LIMIT - 1) as nat);
    let stf = ps_write(sc, target as int, d2t);
    assert(spec_insert_leaf(st, leaf, key, data, INSERT_SPLIT_LIMIT as nat) == (stf, Ok::<Option<PageId>, Fault>(Some(nroot))));
    assert(spec_insert(st, root, key, vs) == (stf, Ok::<Option<PageId>, Fault>(Some(nroot))));
    let pf = stf.0;
    assert(pf == pp.update(target as int, d2t));
    assert(pf[nroot as int] == rp);
    assert forall|t: int| 0 <= t < half.len() implies (#[trigger] half[t]).0 != key by {
        if key < sk {
            assert(half[t] == es[t]);
        } else {
            assert(half[t] == es[m + t]);
        }
    }
    lemma_insert_entry_ascending(half, key, data);
    let e2 = insert_entry(half, key, data);
    assert(leaf_list(d2t) == e2);
    // Routing under the new root.
    assert forall|k2: i64| route(rp, k2, 0, 1) == if k2 < sk { 0int } else { 1int } by {
        lemma_route_props(rp, k2, 0, 1);
    }
    assert(height_two(pf, nroot)) by {
        let r = pf[nroot as int];
        assert(r == rp);
        assert forall|i: int| 0 <= i <= 1 implies #[trigger] child_at(r, i) < pf.len() && child_at(r, i) != nroot
            && pf[child_at(r, i) as int].len() == PAGE_SIZE && page_type(pf[child_at(r, i) as int]) == 1
            && page_parent(pf[child_at(r, i) as int]) == nroot
            && leaf_entries(pf[child_at(r, i) as int], 0, page_num_keys(pf[child_at(r, i) as int]) as int, HEADER_SIZE as int) is Some
            && entries_ascending(leaf_list(pf[child_at(r, i) as int]))
            && (forall|t: int| 0 <= t < leaf_list(pf[child_at(r, i) as int]).len()
                ==> route(r, (#[trigger] leaf_list(pf[child_at(r, i) as int])[t]).0, 0, 1) == i) by {
            let l = leaf_list(pf[child_at(r, i) as int]);
            assert(i == 0 ==> l == (if key < sk { e2 } else { lo }));
            assert(i == 1 ==> l == (if key < sk { hi } else { e2 }));
            assert forall|t: int| 0 <= t < l.len() implies route(r, (#[trigger] l[t]).0, 0, 1) == i by {
                let k2 = l[t].0;
                if k2 != key && ((i == 0 && key < sk) || (i == 1 && !(key < sk))) {
                    let u = choose|u: int| 0 <= u < half.len() && half[u].0 == k2;
                    assert(half[u].0 < sk <==> key < sk);
                }
            }
        }
    }
    // Searching the key and another key.
    lemma_route_props(rp, key, 0, 1);
    lemma_route_props(rp, other, 0, 1);
    lemma_two_level_find(pf, nroot, key);
    lemma_two_level_find(pf, nroot, other);
    lemma_lookup_entries(d2t, key, 0, page_num_keys(d2t) as int, HEADER_SIZE as int);
    lemma_lookup_insert_same(half, key, data);
    lemma_lookup_concat(lo, hi, other);
    lemma_lookup_entries(d2t, other, 0, page_num_keys(d2t) as int, HEADER_SIZE as int);
    lemma_lookup_entries(l2, other, 0, m, HEADER_SIZE as int);
    lemma_lookup_entries(s2, other, 0, n - m, HEADER_SIZE as int);
    if other < sk {
        assert forall|t: int| 0 <= t < hi.len() implies (#[trigger] hi[t]).0 != other by {}
        if key < sk {
            lemma_lookup_insert_other(lo, key, data, other);
        } else {
            assert(pf[leaf as int] == l2);
        }
    } else {
        assert forall|t: int| 0 <= t < lo.len() implies (#[trigger] lo[t]).0 != other by {}
        if key < sk {
            assert(pf[sib as int] == s2);
        } else {
            lemma_lookup_insert_other(hi, key, data, other);
        }
    }
}

/// The entries after the first `k` end where all of them end.
proof fn lemma_data_end_split(d: Seq<u8>, i: int, k: int, n: int, off: int)
    requires
        i <= k <= n,
        data_end(d, i, n, off) is Some,
    ensures
        data_end(d, k, n, entries_offset(d, i, k, off)) == data_end(d, i, n, off),
    decreases k - i,
{
    if i < k {
        lemma_data_end_split(d, i + 1, k, n, off + 12 + size_at(d, off));
    }
}

/// Inserting an entry puts it between the smaller-or-equal keys and the
/// larger ones.
proof fn lemma_insert_entry_split(es: Seq<(i64, Seq<u8>)>, key: i64, data: Seq<u8>) -> (k: int)
    ensures
        0 <= k <= es.len(),
        insert_entry(es, key, data) == es.take(k) + seq![(key, data)] + es.skip(k),
        forall|j: int| 0 <= j < k ==> es[j].0 <= key,
        k < es.len() ==> key < es[k].0,
    decreases es.len(),
{
    if es.len() == 0 || key < es[0].0 {
        assert(es.take(0) + seq![(key, data)] + es.skip(0) =~= seq![(key, data)] + es);
        0
    } else {
        let r = es.drop_first();
        let k0 = lemma_insert_entry_split(r, key, data);
        assert(seq![es[0]] + (r.take(k0) + seq![(key, data)] + r.skip(k0)) =~= es.take(k0 + 1) + seq![(key, data)] + es.skip(k0 + 1));
        assert forall|j: int| 0 <= j < k0 + 1 implies es[j].0 <= key by {
            if j > 0 {
                assert(es[j] == r[j - 1]);
            }
        }
        if k0 + 1 < es.len() {
            assert(es[k0 + 1] == r[k0]);
        }
        k0 + 1
    }
}

/// Decoding two runs of entries decodes their concatenation.
proof fn lemma_decode_concat(a: Seq<(i64, Seq<u8>)>, b: Seq<(i64, Seq<u8>)>)
    requires
        decode_entries(a) is Some,
        decode_entries(b) is Some,
    ensures
        decode_entries(a + b) == Some(decode_entries(a)->Some_0 + decode_entries(b)->Some_0),
    decreases b.len(),
{
    if b.len() == 0 {
        assert(a + b =~= a);
        assert(decode_entries(a)->Some_0 + decode_entries(b)->Some_0 =~= decode_entries(a)->Some_0);
    } else {
        lemma_decode_concat(a, b.drop_last());
        assert((a + b).drop_last() =~= a + b.drop_last());
        assert((a + b).last() == b.last());
        let da = decode_entries(a)->Some_0;
        let db = decode_entries(b.drop_last())->Some_0;
        assert((da + db).push((b.last().0, decode_row(b.last().1)->Some_0)) =~= da + db.push((b.last().0, decode_row(b.last().1)->Some_0)));
    }
}

/// Decoding a part of a decodable run of entries.
proof fn lemma_decode_parts(es: Seq<(i64, Seq<u8>)>, k: int)
    requires
        0 <= k <= es.len(),
        decode_entries(es) is Some,
    ensures
        decode_entries(es.take(k)) == Some((decode_entries(es)->Some_0).take(k)),
        decode_entries(es.skip(k)) == Some((decode_entries(es)->Some_0).skip(k)),
        (decode_entries(es)->Some_0).len() == es.len(),
        forall|j: int| 0 <= j < es.len() ==> (#[trigger] (decode_entries(es)->Some_0)[j]).0 == es[j].0,
    decreases es.len(),
{
    if es.len() > 0 {
        let p = es.drop_last();
        let rows = decode_entries(es)->Some_0;
        if k == es.len() {
            lemma_decode_parts(p, k - 1);
            assert(es.take(k) =~= es);
            assert(rows.take(k) =~= rows);
            assert(es.skip(k) =~= Seq::<(i64, Seq<u8>)>::empty());
            assert(rows.skip(k) =~= Seq::<(i64, Seq<ValueView>)>::empty());
        } else {
            lemma_decode_parts(p, k);
            assert(p.take(k) =~= es.take(k));
            assert(rows.take(k) =~= (decode_entries(p)->Some_0).take(k));
            assert(es.skip(k) =~= p.skip(k).push(es.last()));
            assert(rows.skip(k) =~= (decode_entries(p)->Some_0).skip(k).push(rows.last()));
            assert(es.skip(k).drop_last() =~= p.skip(k));
        }
        assert forall|j: int| 0 <= j < es.len() implies (#[trigger] rows[j]).0 == es[j].0 by {
            if j < es.len() - 1 {
                assert(rows[j] == (decode_entries(p)->Some_0)[j]);
            }
        }
    }
}

/// A read after a write, of a whole table: when the root is a leaf with
/// room for the row and no entry under `key`, the scan after inserting the
/// row under `key` lists the rows it listed before with the new row placed
/// after the keys not above `key` and before the larger ones.
pub proof fn law_insert_then_scan(st: PState, root: PageId, key: i64, vs: Seq<ValueView>)
    requires
        root < st.0.len(),
        st.0.len() <= usize::MAX,
        st.0[root as int].len() == PAGE_SIZE,
        page_type(st.0[root as int]) == 1,
        page_num_keys(st.0[root as int]) < u16::MAX,
        encodable_row(vs),
        find_entry(st.0[root as int], key, 0, page_num_keys(st.0[root as int]) as int, HEADER_SIZE as int)
            == Ok::<Option<(int, int)>, ()>(None),
        data_end(st.0[root as int], 0, page_num_keys(st.0[root as int]) as int, HEADER_SIZE as int) matches Some(
            end,
        ) && end + 12 + encode_row(vs).len() <= PAGE_SIZE,
        spec_scan(st.0, root) is Ok,
    ensures
        spec_insert(st, root, key, vs).1 == Ok::<Option<PageId>, Fault>(None),
        spec_insert(st, root, key, vs).0.0.len() == st.0.len(),
        spec_insert(st, root, key, vs).0.0[root as int].len() == PAGE_SIZE,
        page_type(spec_insert(st, root, key, vs).0.0[root as int]) == 1,
        spec_scan(spec_insert(st, root, key, vs).0.0, root) is Ok,
        exists|k: int| #[trigger] placed_at(
            spec_scan(st.0, root)->Ok_0,
            spec_scan(spec_insert(st, root, key, vs).0.0, root)->Ok_0,
            k,
            key,
            stored_row(vs),
        ),
{
    lemma_auto_spec_u16_to_from_le_bytes();
    lemma_auto_spec_u32_to_from_le_bytes();
    lemma_auto_spec_u64_to_from_le_bytes();
    let pages = st.0;
    let d = pages[root as int];
    let n = page_num_keys(d) as int;
    let data = encode_row(vs);
    let end = data_end(d, 0, n, HEADER_SIZE as int)->0;
    lemma_insert_pos_exists(d, key, 0, n, HEADER_SIZE as int);
    let pos = insert_pos(d, key, 0, n, HEADER_SIZE as int)->0;
    lemma_insert_pos_within(d, key, 0, n, HEADER_SIZE as int);
    lemma_insert_pos_ge(d, key, 0, n, HEADER_SIZE as int);
    lemma_data_end_bounds(d, 0, n, HEADER_SIZE as int);
    let req = 12 + data.len();
    let d1 = d.subrange(0, pos) + entry_bytes(key, data) + d.subrange(pos, end) + d.subrange(
        end + req,
        PAGE_SIZE as int,
    );
    let d2 = with_header(d1, page_type(d), (n + 1) as u16, page_parent(d));
    assert(find_leaf_from(pages, root, key, (pages.len() + 1) as nat) == Ok::<PageId, Fault>(root));
    assert(spec_insert(st, root, key, vs) == (ps_write(st, root as int, d2), Ok::<Option<PageId>, Fault>(None)));
    let pages2 = ps_write(st, root as int, d2).0;
    assert(entry_bytes(key, data).len() == req);
    assert(d1.len() == PAGE_SIZE);
    assert(d2.len() == PAGE_SIZE);
    assert(pages2[root as int] == d2);
    assert(d2[0] == page_type(d));
    assert(d2.subrange(1, 3) =~= spec_u16_to_le_bytes((n + 1) as u16));
    assert(page_num_keys(d2) == n + 1);
    assert(d2.subrange(HEADER_SIZE as int, pos) =~= d.subrange(HEADER_SIZE as int, pos));
    assert(d2.subrange(pos, pos + req) =~= entry_bytes(key, data));
    assert(d2.subrange(pos + req, end + req) =~= d.subrange(pos, end));
    lemma_entries_inserted(d, d2, key, data, 0, n, HEADER_SIZE as int, pos, end);
    let es = page_entries(d)->Some_0;
    assert(leftmost_from(pages, root, (pages.len() + 1) as nat) == Ok::<PageId, Fault>(root));
    assert(leftmost_from(pages2, root, (pages2.len() + 1) as nat) == Ok::<PageId, Fault>(root));
    let rows = spec_scan(pages, root)->Ok_0;
    assert(decode_entries(es) == Some(rows));
    let k = lemma_insert_entry_split(es, key, data);
    lemma_decode_parts(es, k);
    lemma_row_roundtrip(vs);
    let stored = stored_row(vs);
    assert(decode_entries(seq![(key, data)]) == Some(seq![(key, stored)])) by {
        let one = seq![(key, data)];
        assert(one.drop_last() =~= Seq::<(i64, Seq<u8>)>::empty());
        assert(decode_entries(Seq::<(i64, Seq<u8>)>::empty()) == Some(Seq::<(i64, Seq<ValueView>)>::empty()));
        assert(one.last() == (key, data));
        assert(decode_row(data) == Some(stored));
        assert(Seq::<(i64, Seq<ValueView>)>::empty().push((key, stored)) =~= seq![(key, stored)]);
    }
    lemma_decode_concat(es.take(k), seq![(key, data)]);
    lemma_decode_concat(es.take(k) + seq![(key, data)], es.skip(k));
    assert forall|j: int| 0 <= j < k implies rows[j].0 <= key by {
        assert(rows[j].0 == es[j].0);
    }
    if k < rows.len() {
        assert(rows[k].0 == es[k].0);
    }
    assert(spec_scan(pages2, root) == Ok::<Seq<(i64, Seq<ValueView>)>, Fault>(
        rows.take(k) + seq![(key, stored)] + rows.skip(k),
    ));
    let after = rows.take(k) + seq![(key, stored)] + rows.skip(k);
    assert(spec_insert(st, root, key, vs).0.0 == pages2);
    assert(spec_scan(spec_insert(st, root, key, vs).0.0, root) == Ok::<Seq<(i64, Seq<ValueView>)>, Fault>(after));
    assert(placed_at(spec_scan(st.0, root)->Ok_0, spec_scan(spec_insert(st, root, key, vs).0.0, root)->Ok_0, k, key, stored_row(vs)));
}

/// The model a row has after encoding and decoding.
pub open spec fn stored_row(vs: Seq<ValueView>) -> Seq<ValueView> {
    vs.map_values(|v: ValueView| stored_value(v))
}

/// `after` is `rows` with `(key, row)` placed at `k`: after the keys not
/// above `key` and before the larger ones.
pub open spec fn placed_at(rows: Seq<(i64, Seq<ValueView>)>, after: Seq<(i64, Seq<ValueView>)>, k: int, key: i64, row: Seq<ValueView>) -> bool {
    &&& 0 <= k <= rows.len()
    &&& after == rows.take(k) + seq![(key, row)] + rows.skip(k)
    &&& forall|j: int| 0 <= j < k ==> rows[j].0 <= key
    &&& k < rows.len() ==> key < rows[k].0
}

/// Entries copied to an earlier offset are read back the same.
proof fn lemma_entries_shifted_down(d: Seq<u8>, d2: Seq<u8>, i: int, n: int, off: int, shift: int, end: int)
    requires
        d.len() == PAGE_SIZE,
        d2.len() == PAGE_SIZE,
        0 <= off,
        0 <= shift,
        data_end(d, i + 1, n + 1, off + shift) == Some(end),
        d2.subrange(off, end - shift) == d.subrange(off + shift, end),
    ensures
        leaf_entries(d2, i, n, off) == leaf_entries(d, i + 1, n + 1, off + shift),
        leaf_entries(d, i + 1, n + 1, off + shift) is Some,
    decreases n - i,
{
    lemma_data_end_bounds_any(d, i + 1, n + 1, off + shift);
    if i < n {
        let sz = size_at(d, off + shift);
        let next = off + 12 + sz;
        assert(off + shift + 12 + sz <= PAGE_SIZE);
        assert(data_end(d, i + 2, n + 1, next + shift) == Some(end));
        lemma_data_end_bounds_any(d, i + 2, n + 1, next + shift);
        lemma_data_end_bounds(d, i + 1, n + 1, off + shift);
        assert(d2.subrange(off, end - shift) == d.subrange(off + shift, end));
        assert(d2.subrange(off, off + 12) =~= d2.subrange(off, end - shift).subrange(0, 12));
        assert(d.subrange(off + shift, off + shift + 12) =~= d.subrange(off + shift, end).subrange(0, 12));
        assert(d2.subrange(off, off + 8) =~= d.subrange(off + shift, off + shift + 8)) by {
            assert(d2.subrange(off, off + 8) =~= d2.subrange(off, off + 12).subrange(0, 8));
            assert(d.subrange(off + shift, off + shift + 8) =~= d.subrange(off + shift, off + shift + 12).subrange(0, 8));
        }
        assert(d2.subrange(off + 8, off + 12) =~= d.subrange(off + shift + 8, off + shift + 12)) by {
            assert(d2.subrange(off + 8, off + 12) =~= d2.subrange(off, off + 12).subrange(8, 12));
            assert(d.subrange(off + shift + 8, off + shift + 12) =~= d.subrange(off + shift, off + shift + 12).subrange(8, 12));
        }
        assert(i64_at(d2, off) == i64_at(d, off + shift));
        assert(size_at(d2, off) == size_at(d, off + shift));
        assert(d2.subrange(next, end - shift) =~= d2.subrange(off, end - shift).subrange(12 + sz, end - shift - off));
        assert(d.subrange(next + shift, end) =~= d.subrange(off + shift, end).subrange(12 + sz, end - shift - off));
        assert(d2.subrange(off + 12, next) =~= d2.subrange(off, end - shift).subrange(12, 12 + sz));
        assert(d.subrange(off + shift + 12, next + shift) =~= d.subrange(off + shift, end).subrange(12, 12 + sz));
        lemma_entries_shifted_down(d, d2, i + 1, n, next, shift, end);
    }
}

/// The entries without the first one whose key is `key`.
pub open spec fn remove_entry(es: Seq<(i64, Seq<u8>)>, key: i64) -> Seq<(i64, Seq<u8>)>
    decreases es.len(),
{
    if es.len() == 0 {
        es
    } else if es[0].0 == key {
        es.drop_first()
    } else {
        seq![es[0]] + remove_entry(es.drop_first(), key)
    }
}

/// After removing the entry that the walk for `key` finds and moving the
/// later ones down, the entries are the old ones without it.
proof fn lemma_entries_deleted(d: Seq<u8>, d2: Seq<u8>, key: i64, i: int, n: int, off: int, o: int, sz: int, end: int)
    requires
        d.len() == PAGE_SIZE,
        d2.len() == PAGE_SIZE,
        0 <= i <= n,
        HEADER_SIZE <= off <= o,
        find_entry(d, key, i, n, off) == Ok::<Option<(int, int)>, ()>(Some((o, sz))),
        data_end(d, i, n, off) == Some(end),
        d2.subrange(HEADER_SIZE as int, o) == d.subrange(HEADER_SIZE as int, o),
        d2.subrange(o, end - 12 - sz) == d.subrange(o + 12 + sz, end),
    ensures
        leaf_entries(d, i, n, off) is Some,
        leaf_entries(d2, i, n - 1, off) == Some(remove_entry(leaf_entries(d, i, n, off)->Some_0, key)),
    decreases n - i,
{
    lemma_data_end_bounds_any(d, i, n, off);
    lemma_found_entry_within(d, key, i, n, off);
    assert(i < n);
    assert(off + 12 <= PAGE_SIZE);
    lemma_data_end_bounds(d, i, n, off);
    let s0 = size_at(d, off);
    let next = off + 12 + s0;
    assert(data_end(d, i + 1, n, next) == Some(end));
    lemma_data_end_bounds_any(d, i + 1, n, next);
    if i64_at(d, off) == key {
        assert(off == o && s0 == sz);
        lemma_entries_shifted_down(d, d2, i, n - 1, o, 12 + sz, end);
        let rest = leaf_entries(d, i + 1, n, next)->Some_0;
        let old = seq![(key, d.subrange(off + 12, next))] + rest;
        assert(old.drop_first() =~= rest);
    } else {
        lemma_find_entry_ge(d, key, i + 1, n, next);
        lemma_same_range_reads(d, d2, HEADER_SIZE as int, off, o);
        assert(d2.subrange(off + 12, next) =~= d2.subrange(HEADER_SIZE as int, o).subrange(off + 12 - HEADER_SIZE, next - HEADER_SIZE));
        assert(d.subrange(off + 12, next) =~= d.subrange(HEADER_SIZE as int, o).subrange(off + 12 - HEADER_SIZE, next - HEADER_SIZE));
        lemma_entries_deleted(d, d2, key, i + 1, n, next, o, sz, end);
        let rest = leaf_entries(d, i + 1, n, next)->Some_0;
        let old = seq![(i64_at(d, off), d.subrange(off + 12, next))] + rest;
        assert(old.drop_first() =~= rest);
    }
}

/// A found entry lies at or after where the walk starts.
proof fn lemma_find_entry_ge(d: Seq<u8>, key: i64, i: int, n: int, off: int)
    ensures
        find_entry(d, key, i, n, off) matches Ok(Some((o, _))) ==> off <= o,
    decreases n - i,
{
    if i < n && off + 12 <= PAGE_SIZE && i64_at(d, off) != key {
        lemma_find_entry_ge(d, key, i + 1, n, off + 12 + size_at(d, off));
    }
}

/// Removing the first entry with `key` removes index `j`, the first with it.
proof fn lemma_remove_entry_split(es: Seq<(i64, Seq<u8>)>, key: i64) -> (j: int)
    requires
        exists|t: int| 0 <= t < es.len() && es[t].0 == key,
    ensures
        0 <= j < es.len(),
        es[j].0 == key,
        forall|t: int| 0 <= t < j ==> es[t].0 != key,
        remove_entry(es, key) == es.take(j) + es.skip(j + 1),
    decreases es.len(),
{
    if es[0].0 == key {
        assert(es.take(0) + es.skip(1) =~= es.drop_first());
        0
    } else {
        let r = es.drop_first();
        let t = choose|t: int| 0 <= t < es.len() && es[t].0 == key;
        assert(r[t - 1] == es[t]);
        let j0 = lemma_remove_entry_split(r, key);
        assert(seq![es[0]] + (r.take(j0) + r.skip(j0 + 1)) =~= es.take(j0 + 1) + es.skip(j0 + 2));
        assert forall|u: int| 0 <= u < j0 + 1 implies es[u].0 != key by {
            if u > 0 {
                assert(es[u] == r[u - 1]);
            }
        }
        assert(es[j0 + 1] == r[j0]);
        j0 + 1
    }
}

/// The walk for `key` finds the first entry with it.
proof fn lemma_find_entry_index(d: Seq<u8>, key: i64, i: int, n: int, off: int)
    requires
        leaf_entries(d, i, n, off) is Some,
    ensures
        find_entry(d, key, i, n, off) is Ok,
        find_entry(d, key, i, n, off) matches Ok(Some(_)) <==> exists|t: int|
            0 <= t < (leaf_entries(d, i, n, off)->Some_0).len() && (leaf_entries(d, i, n, off)->Some_0)[t].0 == key,
    decreases n - i,
{
    if i < n {
        let next = off + 12 + size_at(d, off);
        lemma_find_entry_index(d, key, i + 1, n, next);
        let es = leaf_entries(d, i, n, off)->Some_0;
        let rest = leaf_entries(d, i + 1, n, next)->Some_0;
        assert(es[0].0 == i64_at(d, off));
        if i64_at(d, off) != key {
            if exists|t: int| 0 <= t < es.len() && es[t].0 == key {
                let t = choose|t: int| 0 <= t < es.len() && es[t].0 == key;
                assert(t > 0);
                assert(rest[t - 1] == es[t]);
            }
            if exists|t: int| 0 <= t < rest.len() && rest[t].0 == key {
                let t = choose|t: int| 0 <= t < rest.len() && rest[t].0 == key;
                assert(es[t + 1] == rest[t]);
            }
        }
    }
}

/// A delete after writes, of a whole table: when the root is a leaf holding
/// an entry under `key`, the scan after deleting `key` lists the rows it
/// listed before without the first row under `key`.
pub proof fn law_delete_then_scan(st: PState, root: PageId, key: i64)
    requires
        root < st.0.len(),
        st.0[root as int].len() == PAGE_SIZE,
        page_type(st.0[root as int]) == 1,
        spec_scan(st.0, root) is Ok,
        exists|t: int|
            0 <= t < (spec_scan(st.0, root)->Ok_0).len() && (#[trigger] (spec_scan(st.0, root)->Ok_0)[t]).0 == key,
    ensures
        spec_delete(st, root, key).1 == Ok::<bool, Fault>(true),
        spec_delete(st, root, key).0.0.len() == st.0.len(),
        spec_delete(st, root, key).0.0[root as int].len() == PAGE_SIZE,
        page_type(spec_delete(st, root, key).0.0[root as int]) == 1,
        spec_scan(spec_delete(st, root, key).0.0, root) is Ok,
        exists|j: int| #[trigger] removed_at(
            spec_scan(st.0, root)->Ok_0,
            spec_scan(spec_delete(st, root, key).0.0, root)->Ok_0,
            j,
            key,
        ),
{
    lemma_auto_spec_u16_to_from_le_bytes();
    lemma_auto_spec_u32_to_from_le_bytes();
    lemma_auto_spec_u64_to_from_le_bytes();
    let pages = st.0;
    let d = pages[root as int];
    let n = page_num_keys(d) as int;
    assert(leftmost_from(pages, root, (pages.len() + 1) as nat) == Ok::<PageId, Fault>(root));
    assert(find_leaf_from(pages, root, key, (pages.len() + 1) as nat) == Ok::<PageId, Fault>(root));
    let es = page_entries(d)->Some_0;
    let rows = spec_scan(pages, root)->Ok_0;
    lemma_decode_parts(es, 0);
    let t = choose|t: int| 0 <= t < rows.len() && (#[trigger] rows[t]).0 == key;
    assert(es[t].0 == key);
    lemma_find_entry_index(d, key, 0, n, HEADER_SIZE as int);
    lemma_leaf_entries_fit(d, 0, n, HEADER_SIZE as int);
    let (o, sz) = find_entry(d, key, 0, n, HEADER_SIZE as int)->Ok_0->Some_0;
    let end = data_end(d, 0, n, HEADER_SIZE as int)->Some_0;
    lemma_find_entry_ge(d, key, 0, n, HEADER_SIZE as int);
    lemma_found_entry_within(d, key, 0, n, HEADER_SIZE as int);
    lemma_data_end_bounds(d, 0, n, HEADER_SIZE as int);
    let ds = 12 + sz;
    let moved = d.subrange(0, o) + d.subrange(o + ds, end) + d.subrange(end - ds, PAGE_SIZE as int);
    let d2 = with_header(moved, page_type(d), (n - 1) as u16, page_parent(d));
    assert(spec_delete(st, root, key) == (ps_write(st, root as int, d2), Ok::<bool, Fault>(true)));
    let pages2 = ps_write(st, root as int, d2).0;
    assert(moved.len() == PAGE_SIZE);
    assert(d2.len() == PAGE_SIZE);
    assert(pages2[root as int] == d2);
    assert(d2[0] == page_type(d));
    assert(d2.subrange(1, 3) =~= spec_u16_to_le_bytes((n - 1) as u16));
    assert(page_num_keys(d2) == n - 1);
    assert(d2.subrange(HEADER_SIZE as int, o) =~= d.subrange(HEADER_SIZE as int, o));
    assert(d2.subrange(o, end - ds) =~= d.subrange(o + ds, end));
    lemma_entries_deleted(d, d2, key, 0, n, HEADER_SIZE as int, o, sz, end);
    assert(leftmost_from(pages2, root, (pages2.len() + 1) as nat) == Ok::<PageId, Fault>(root));
    let j = lemma_remove_entry_split(es, key);
    lemma_decode_parts(es, j);
    lemma_decode_parts(es, j + 1);
    lemma_decode_concat(es.take(j), es.skip(j + 1));
    assert((rows.take(j + 1)).take(j) =~= rows.take(j));
    assert(es.take(j + 1).take(j) =~= es.take(j));
    let after = rows.take(j) + rows.skip(j + 1);
    assert(spec_delete(st, root, key).0.0 == pages2);
    assert(spec_scan(pages2, root) == Ok::<Seq<(i64, Seq<ValueView>)>, Fault>(after));
    assert forall|u: int| 0 <= u < j implies rows[u].0 != key by {
        assert(rows[u].0 == es[u].0);
    }
    assert(rows[j].0 == es[j].0);
    assert(removed_at(rows, spec_scan(spec_delete(st, root, key).0.0, root)->Ok_0, j, key));
}

/// `after` is `rows` without the row at `j`, the first with key `key`.
pub open spec fn removed_at(rows: Seq<(i64, Seq<ValueView>)>, after: Seq<(i64, Seq<ValueView>)>, j: int, key: i64) -> bool {
    &&& 0 <= j < rows.len()
    &&& rows[j].0 == key
    &&& forall|u: int| 0 <= u < j ==> rows[u].0 != key
    &&& after == rows.take(j) + rows.skip(j + 1)
}

/// The keys of listed rows strictly ascend.
pub open spec fn keys_ascending(rows: Seq<(i64, Seq<ValueView>)>) -> bool {
    forall|i: int, j: int| 0 <= i < j < rows.len() ==> (#[trigger] rows[i]).0 < (#[trigger] rows[j]).0
}

/// Listed rows as a map from key to row (a later row under a key wins).
pub open spec fn rows_map(rows: Seq<(i64, Seq<ValueView>)>) -> Map<i64, Seq<ValueView>>
    decreases rows.len(),
{
    if rows.len() == 0 {
        Map::empty()
    } else {
        rows_map(rows.drop_last()).insert(rows.last().0, rows.last().1)
    }
}

proof fn lemma_rows_map_dom(rows: Seq<(i64, Seq<ValueView>)>, k: i64)
    ensures
        rows_map(rows).contains_key(k) <==> exists|i: int| 0 <= i < rows.len() && (#[trigger] rows[i]).0 == k,
    decreases rows.len(),
{
    if rows.len() > 0 {
        let p = rows.drop_last();
        lemma_rows_map_dom(p, k);
        if exists|i: int| 0 <= i < p.len() && (#[trigger] p[i]).0 == k {
            let i = choose|i: int| 0 <= i < p.len() && (#[trigger] p[i]).0 == k;
            assert(rows[i] == p[i]);
        }
        if exists|i: int| 0 <= i < rows.len() && (#[trigger] rows[i]).0 == k {
            let i = choose|i: int| 0 <= i < rows.len() && (#[trigger] rows[i]).0 == k;
            if i < rows.len() - 1 {
                assert(p[i] == rows[i]);
            }
        }
    }
}

proof fn lemma_rows_map_concat(a: Seq<(i64, Seq<ValueView>)>, b: Seq<(i64, Seq<ValueView>)>)
    ensures
        rows_map(a + b) == rows_map(a).union_prefer_right(rows_map(b)),
    decreases b.len(),
{
    if b.len() == 0 {
        assert(a + b =~= a);
        assert(rows_map(a).union_prefer_right(rows_map(b)) =~= rows_map(a));
    } else {
        lemma_rows_map_concat(a, b.drop_last());
        assert((a + b).drop_last() =~= a + b.drop_last());
        assert((a + b).last() == b.last());
        assert(rows_map(a + b) =~= rows_map(a).union_prefer_right(rows_map(b)));
    }
}

/// A read after writes, of a whole table, as a map: when the root is a leaf
/// with room for the row, its keys strictly ascend and none is `key`,
/// inserting the row under `key` keeps the keys strictly ascending and adds
/// the row under `key` to what the scan maps keys to, the rest unchanged.
pub proof fn law_insert_then_scan_map(st: PState, root: PageId, key: i64, vs: Seq<ValueView>)
    requires
        root < st.0.len(),
        st.0.len() <= usize::MAX,
        st.0[root as int].len() == PAGE_SIZE,
        page_type(st.0[root as int]) == 1,
        page_num_keys(st.0[root as int]) < u16::MAX,
        encodable_row(vs),
        find_entry(st.0[root as int], key, 0, page_num_keys(st.0[root as int]) as int, HEADER_SIZE as int)
            == Ok::<Option<(int, int)>, ()>(None),
        data_end(st.0[root as int], 0, page_num_keys(st.0[root as int]) as int, HEADER_SIZE as int) matches Some(
            end,
        ) && end + 12 + encode_row(vs).len() <= PAGE_SIZE,
        spec_scan(st.0, root) is Ok,
        keys_ascending(spec_scan(st.0, root)->Ok_0),
    ensures
        spec_insert(st, root, key, vs).1 == Ok::<Option<PageId>, Fault>(None),
        spec_scan(spec_insert(st, root, key, vs).0.0, root) is Ok,
        keys_ascending(spec_scan(spec_insert(st, root, key, vs).0.0, root)->Ok_0),
        rows_map(spec_scan(spec_insert(st, root, key, vs).0.0, root)->Ok_0) == rows_map(
            spec_scan(st.0, root)->Ok_0,
        ).insert(key, stored_row(vs)),
{
    law_insert_then_scan(st, root, key, vs);
    let pages = st.0;
    let d = pages[root as int];
    let n = page_num_keys(d) as int;
    let rows = spec_scan(pages, root)->Ok_0;
    let after = spec_scan(spec_insert(st, root, key, vs).0.0, root)->Ok_0;
    let row = stored_row(vs);
    assert(leftmost_from(pages, root, (pages.len() + 1) as nat) == Ok::<PageId, Fault>(root));
    let es = page_entries(d)->Some_0;
    lemma_decode_parts(es, 0);
    lemma_find_entry_index(d, key, 0, n, HEADER_SIZE as int);
    assert forall|j: int| 0 <= j < rows.len() implies (#[trigger] rows[j]).0 != key by {
        assert(rows[j].0 == es[j].0);
    }
    let k = choose|k: int| #[trigger] placed_at(rows, after, k, key, row);
    assert(placed_at(rows, after, k, key, row));
    assert(after.len() == rows.len() + 1);
    assert forall|j: int| 0 <= j < after.len() implies (#[trigger] after[j]) == if j < k {
        rows[j]
    } else if j == k {
        (key, row)
    } else {
        rows[j - 1]
    } by {}
    assert forall|i: int, j: int| 0 <= i < j < after.len() implies (#[trigger] after[i]).0 < (#[trigger] after[j]).0 by {
        if j < k {
            assert(rows[i].0 < rows[j].0);
        } else if j == k {
            assert(rows[i].0 <= key && rows[i].0 != key);
        } else if i < k {
            assert(rows[i].0 <= key && rows[i].0 != key);
            assert(key < rows[k].0);
            if j - 1 > k {
                assert(rows[k].0 < rows[j - 1].0);
            }
        } else if i == k {
            assert(key < rows[k].0);
            if j - 1 > k {
                assert(rows[k].0 < rows[j - 1].0);
            }
        } else {
            assert(rows[i - 1].0 < rows[j - 1].0);
        }
    }
    let front = rows.take(k);
    let back = rows.skip(k);
    assert(rows =~= front + back);
    lemma_rows_map_concat(front, back);
    lemma_rows_map_concat(front + seq![(key, row)], back);
    lemma_rows_map_concat(front, seq![(key, row)]);
    assert(rows_map(seq![(key, row)]) =~= Map::<i64, Seq<ValueView>>::empty().insert(key, row)) by {
        assert(seq![(key, row)].drop_last() =~= Seq::<(i64, Seq<ValueView>)>::empty());
        reveal_with_fuel(rows_map, 2);
    }
    lemma_rows_map_dom(back, key);
    assert forall|j: int| 0 <= j < back.len() implies (#[trigger] back[j]).0 != key by {
        assert(back[j] == rows[k + j]);
    }
    assert(rows_map(after) =~= rows_map(rows).insert(key, row));
}

/// A delete after writes, of a whole table, as a map: when the root is a
/// leaf whose keys strictly ascend and one of them is `key`, deleting `key`
/// keeps the keys strictly ascending and removes `key` from what the scan
/// maps keys to, the rest unchanged.
pub proof fn law_delete_then_scan_map(st: PState, root: PageId, key: i64)
    requires
        root < st.0.len(),
        st.0[root as int].len() == PAGE_SIZE,
        page_type(st.0[root as int]) == 1,
        spec_scan(st.0, root) is Ok,
        keys_ascending(spec_scan(st.0, root)->Ok_0),
        exists|t: int|
            0 <= t < (spec_scan(st.0, root)->Ok_0).len() && (#[trigger] (spec_scan(st.0, root)->Ok_0)[t]).0 == key,
    ensures
        spec_delete(st, root, key).1 == Ok::<bool, Fault>(true),
        spec_scan(spec_delete(st, root, key).0.0, root) is Ok,
        keys_ascending(spec_scan(spec_delete(st, root, key).0.0, root)->Ok_0),
        rows_map(spec_scan(spec_delete(st, root, key).0.0, root)->Ok_0) == rows_map(spec_scan(st.0, root)->Ok_0).remove(
            key,
        ),
{
    law_delete_then_scan(st, root, key);
    let rows = spec_scan(st.0, root)->Ok_0;
    let after = spec_scan(spec_delete(st, root, key).0.0, root)->Ok_0;
    let j = choose|j: int| #[trigger] removed_at(rows, after, j, key);
    assert(removed_at(rows, after, j, key));
    assert(after.len() == rows.len() - 1);
    assert forall|u: int| 0 <= u < after.len() implies (#[trigger] after[u]) == if u < j {
        rows[u]
    } else {
        rows[u + 1]
    } by {}
    assert forall|a: int, b: int| 0 <= a < b < after.len() implies (#[trigger] after[a]).0 < (#[trigger] after[b]).0 by {
        if b < j {
            assert(rows[a].0 < rows[b].0);
        } else if a < j {
            assert(rows[a].0 < rows[b + 1].0);
        } else {
            assert(rows[a + 1].0 < rows[b + 1].0);
        }
    }
    let front = rows.take(j);
    let back = rows.skip(j + 1);
    let one = seq![rows[j]];
    assert(rows =~= front + (one + back));
    assert(after =~= front + back);
    lemma_rows_map_concat(front, one + back);
    lemma_rows_map_concat(one, back);
    lemma_rows_map_concat(front, back);
    assert(rows_map(one) =~= Map::<i64, Seq<ValueView>>::empty().insert(key, rows[j].1)) by {
        assert(one.drop_last() =~= Seq::<(i64, Seq<ValueView>)>::empty());
        reveal_with_fuel(rows_map, 2);
    }
    lemma_rows_map_dom(front, key);
    lemma_rows_map_dom(back, key);
    assert forall|u: int| 0 <= u < front.len() implies (#[trigger] front[u]).0 != key by {
        assert(rows[u].0 < rows[j].0);
    }
    assert forall|u: int| 0 <= u < back.len() implies (#[trigger] back[u]).0 != key by {
        assert(back[u] == rows[j + 1 + u]);
        assert(rows[j].0 < rows[j + 1 + u].0);
    }
    assert(rows_map(after) =~= rows_map(rows).remove(key));
}

/// The row listed at `t` is the decoding of the entry at `t`.
proof fn lemma_decode_at(es: Seq<(i64, Seq<u8>)>, t: int)
    requires
        decode_entries(es) is Some,
        0 <= t < es.len(),
    ensures
        (decode_entries(es)->Some_0).len() == es.len(),
        (decode_entries(es)->Some_0)[t].0 == es[t].0,
        decode_row(es[t].1) == Some((decode_entries(es)->Some_0)[t].1),
    decreases es.len(),
{
    let p = es.drop_last();
    if t < es.len() - 1 {
        lemma_decode_at(p, t);
    } else {
        lemma_decode_parts(p, 0);
    }
}

/// The entry `find_entry` finds is the first listed entry with `key`.
proof fn lemma_find_entry_first(d: Seq<u8>, key: i64, i: int, n: int, off: int) -> (t: int)
    requires
        leaf_entries(d, i, n, off) is Some,
        find_entry(d, key, i, n, off) matches Ok(Some(_)),
    ensures
        0 <= t < (leaf_entries(d, i, n, off)->Some_0).len(),
        (leaf_entries(d, i, n, off)->Some_0)[t].0 == key,
        forall|u: int| 0 <= u < t ==> (#[trigger] (leaf_entries(d, i, n, off)->Some_0)[u]).0 != key,
        find_entry(d, key, i, n, off) matches Ok(Some((o, sz))) && o + 12 + sz <= PAGE_SIZE
            && (leaf_entries(d, i, n, off)->Some_0)[t].1 == d.subrange(o + 12, o + 12 + sz),
    decreases n - i,
{
    let es = leaf_entries(d, i, n, off)->Some_0;
    let next = off + 12 + size_at(d, off);
    if i64_at(d, off) == key {
        0
    } else {
        let rest = leaf_entries(d, i + 1, n, next)->Some_0;
        let t = lemma_find_entry_first(d, key, i + 1, n, next);
        assert forall|u: int| 0 <= u < t + 1 implies (#[trigger] es[u]).0 != key by {
            if u > 0 {
                assert(es[u] == rest[u - 1]);
            }
        }
        assert(es[t + 1] == rest[t]);
        t + 1
    }
}

/// The row listed under a key, when the keys strictly ascend.
proof fn lemma_rows_map_at(rows: Seq<(i64, Seq<ValueView>)>, t: int)
    requires
        keys_ascending(rows),
        0 <= t < rows.len(),
    ensures
        rows_map(rows).contains_key(rows[t].0),
        rows_map(rows)[rows[t].0] == rows[t].1,
    decreases rows.len(),
{
    if t < rows.len() - 1 {
        let p = rows.drop_last();
        assert forall|i: int, j: int| 0 <= i < j < p.len() implies (#[trigger] p[i]).0 < (#[trigger] p[j]).0 by {
            assert(rows[i].0 < rows[j].0);
        }
        lemma_rows_map_at(p, t);
        assert(rows[t].0 < rows[rows.len() - 1].0);
    }
}

/// A read of one key agrees with the scan: when the root is a leaf whose
/// keys strictly ascend, searching for `key` gives the row the scan lists
/// under `key`, or `None` when it lists none. So a key that no insert wrote,
/// or that a delete removed, is not found.
pub proof fn law_search_reads_scan(pages: Seq<Seq<u8>>, root: PageId, key: i64)
    requires
        root < pages.len(),
        page_type(pages[root as int]) == 1,
        spec_scan(pages, root) is Ok,
        keys_ascending(spec_scan(pages, root)->Ok_0),
    ensures
        spec_search(pages, root, key) == Ok::<Option<Seq<ValueView>>, Fault>(
            if rows_map(spec_scan(pages, root)->Ok_0).contains_key(key) {
                Some(rows_map(spec_scan(pages, root)->Ok_0)[key])
            } else {
                None
            },
        ),
{
    let d = pages[root as int];
    let n = page_num_keys(d) as int;
    let rows = spec_scan(pages, root)->Ok_0;
    assert(leftmost_from(pages, root, (pages.len() + 1) as nat) == Ok::<PageId, Fault>(root));
    assert(find_leaf_from(pages, root, key, (pages.len() + 1) as nat) == Ok::<PageId, Fault>(root));
    let es = page_entries(d)->Some_0;
    lemma_decode_parts(es, 0);
    lemma_find_entry_index(d, key, 0, n, HEADER_SIZE as int);
    lemma_rows_map_dom(rows, key);
    if find_entry(d, key, 0, n, HEADER_SIZE as int) matches Ok(Some(_)) {
        let t = lemma_find_entry_first(d, key, 0, n, HEADER_SIZE as int);
        lemma_decode_at(es, t);
        lemma_rows_map_at(rows, t);
    } else {
        assert forall|i: int| 0 <= i < rows.len() implies (#[trigger] rows[i]).0 != key by {
            assert(rows[i].0 == es[i].0);
        }
    }
}

/// An operation of a table's history: a row inserted under a key, or a key
/// deleted.
pub enum TableOp {
    Insert { key: i64, row: Seq<ValueView> },
    Delete { key: i64 },
}

/// The store after one operation on the tree rooted at `root`.
pub open spec fn table_step(st: PState, root: PageId, op: TableOp) -> PState {
    match op {
        TableOp::Insert { key, row } => spec_insert(st, root, key, row).0,
        TableOp::Delete { key } => spec_delete(st, root, key).0,
    }
}

/// The store after the operations `ops`, in order.
pub open spec fn run_table(st: PState, root: PageId, ops: Seq<TableOp>) -> PState
    decreases ops.len(),
{
    if ops.len() == 0 {
        st
    } else {
        table_step(run_table(st, root, ops.drop_last()), root, ops.last())
    }
}

/// What a table holding `m` holds after the operations `ops`: an insert
/// maps its key to the row as it is read back, a delete unmaps its key.
pub open spec fn table_map(m: Map<i64, Seq<ValueView>>, ops: Seq<TableOp>) -> Map<i64, Seq<ValueView>>
    decreases ops.len(),
{
    if ops.len() == 0 {
        m
    } else {
        match ops.last() {
            TableOp::Insert { key, row } => table_map(m, ops.drop_last()).insert(key, stored_row(row)),
            TableOp::Delete { key } => table_map(m, ops.drop_last()).remove(key),
        }
    }
}

/// Each insert of `ops`, run on `st` whose table holds `m`, finds a key the
/// table does not hold, a row that can be encoded, and room in the root.
pub open spec fn fits_in_root(st: PState, root: PageId, m: Map<i64, Seq<ValueView>>, ops: Seq<TableOp>) -> bool
    decreases ops.len(),
{
    if ops.len() == 0 {
        true
    } else {
        &&& fits_in_root(st, root, m, ops.drop_last())
        &&& match ops.last() {
            TableOp::Insert { key, row } => {
                let d = run_table(st, root, ops.drop_last()).0[root as int];
                &&& !table_map(m, ops.drop_last()).contains_key(key)
                &&& encodable_row(row)
                &&& page_num_keys(d) < u16::MAX
                &&& (data_end(d, 0, page_num_keys(d) as int, HEADER_SIZE as int) matches Some(end)
                    && end + 12 + encode_row(row).len() <= PAGE_SIZE)
            },
            TableOp::Delete { .. } => true,
        }
    }
}

/// The root leaf holds no entry under a key its scan does not map.
proof fn lemma_absent_key(pages: Seq<Seq<u8>>, root: PageId, key: i64)
    requires
        root < pages.len(),
        page_type(pages[root as int]) == 1,
        spec_scan(pages, root) is Ok,
        !rows_map(spec_scan(pages, root)->Ok_0).contains_key(key),
    ensures
        find_entry(pages[root as int], key, 0, page_num_keys(pages[root as int]) as int, HEADER_SIZE as int)
            == Ok::<Option<(int, int)>, ()>(None),
        forall|t: int| 0 <= t < (spec_scan(pages, root)->Ok_0).len() ==> (#[trigger] (spec_scan(pages, root)->Ok_0)[t]).0 != key,
{
    let d = pages[root as int];
    let rows = spec_scan(pages, root)->Ok_0;
    assert(leftmost_from(pages, root, (pages.len() + 1) as nat) == Ok::<PageId, Fault>(root));
    let es = page_entries(d)->Some_0;
    lemma_decode_parts(es, 0);
    lemma_rows_map_dom(rows, key);
    lemma_find_entry_index(d, key, 0, page_num_keys(d) as int, HEADER_SIZE as int);
    if exists|t: int| 0 <= t < es.len() && es[t].0 == key {
        let t = choose|t: int| 0 <= t < es.len() && es[t].0 == key;
        assert(rows[t].0 == key);
    }
}

proof fn lemma_history(st: PState, root: PageId, ops: Seq<TableOp>)
    requires
        root < st.0.len(),
        st.0.len() <= usize::MAX,
        st.0[root as int].len() == PAGE_SIZE,
        page_type(st.0[root as int]) == 1,
        spec_scan(st.0, root) is Ok,
        keys_ascending(spec_scan(st.0, root)->Ok_0),
        fits_in_root(st, root, rows_map(spec_scan(st.0, root)->Ok_0), ops),
    ensures
        run_table(st, root, ops).0.len() == st.0.len(),
        run_table(st, root, ops).0[root as int].len() == PAGE_SIZE,
        page_type(run_table(st, root, ops).0[root as int]) == 1,
        spec_scan(run_table(st, root, ops).0, root) is Ok,
        keys_ascending(spec_scan(run_table(st, root, ops).0, root)->Ok_0),
        rows_map(spec_scan(run_table(st, root, ops).0, root)->Ok_0) == table_map(
            rows_map(spec_scan(st.0, root)->Ok_0),
            ops,
        ),
    decreases ops.len(),
{
    if ops.len() > 0 {
        let m0 = rows_map(spec_scan(st.0, root)->Ok_0);
        let prev = ops.drop_last();
        lemma_history(st, root, prev);
        let s = run_table(st, root, prev);
        let rows = spec_scan(s.0, root)->Ok_0;
        match ops.last() {
            TableOp::Insert { key, row } => {
                lemma_absent_key(s.0, root, key);
                law_insert_then_scan(s, root, key, row);
                law_insert_then_scan_map(s, root, key, row);
            },
            TableOp::Delete { key } => {
                lemma_rows_map_dom(rows, key);
                if rows_map(rows).contains_key(key) {
                    law_delete_then_scan(s, root, key);
                    law_delete_then_scan_map(s, root, key);
                } else {
                    lemma_absent_key(s.0, root, key);
                    assert(leftmost_from(s.0, root, (s.0.len() + 1) as nat) == Ok::<PageId, Fault>(root));
                    assert(find_leaf_from(s.0, root, key, (s.0.len() + 1) as nat) == Ok::<PageId, Fault>(root));
                    assert(spec_delete(s, root, key).0 == s);
                    assert(rows_map(rows).remove(key) =~= rows_map(rows));
                }
            },
        }
    }
}

/// Reads after a whole history of writes on a tree whose root is a leaf:
/// when the root's keys strictly ascend to begin with and each insert finds
/// room and a key the table does not hold, then after the history the scan
/// lists keys in strictly ascending order, mapping each key to the row last
/// inserted under it (as read back) unless it was deleted since, and the
/// other keys as they were; searching any key gives the row mapped to it,
/// or `None` for a key never inserted or deleted since.
pub proof fn law_history_then_read(st: PState, root: PageId, ops: Seq<TableOp>)
    requires
        root < st.0.len(),
        st.0.len() <= usize::MAX,
        st.0[root as int].len() == PAGE_SIZE,
        page_type(st.0[root as int]) == 1,
        spec_scan(st.0, root) is Ok,
        keys_ascending(spec_scan(st.0, root)->Ok_0),
        fits_in_root(st, root, rows_map(spec_scan(st.0, root)->Ok_0), ops),
    ensures
        spec_scan(run_table(st, root, ops).0, root) is Ok,
        keys_ascending(spec_scan(run_table(st, root, ops).0, root)->Ok_0),
        rows_map(spec_scan(run_table(st, root, ops).0, root)->Ok_0) == table_map(
            rows_map(spec_scan(st.0, root)->Ok_0),
            ops,
        ),
        forall|k: i64|
            #![trigger spec_search(run_table(st, root, ops).0, root, k)]
            spec_search(run_table(st, root, ops).0, root, k) == Ok::<Option<Seq<ValueView>>, Fault>(
                if table_map(rows_map(spec_scan(st.0, root)->Ok_0), ops).contains_key(k) {
                    Some(table_map(rows_map(spec_scan(st.0, root)->Ok_0), ops)[k])
                } else {
                    None
                },
            ),
{
    lemma_history(st, root, ops);
    let fin = run_table(st, root, ops).0;
    assert forall|k: i64| #![trigger spec_search(fin, root, k)]
        spec_search(fin, root, k) == Ok::<Option<Seq<ValueView>>, Fault>(
            if table_map(rows_map(spec_scan(st.0, root)->Ok_0), ops).contains_key(k) {
                Some(table_map(rows_map(spec_scan(st.0, root)->Ok_0), ops)[k])
            } else {
                None
            },
        ) by {
        law_search_reads_scan(fin, root, k);
    }
}

/// A new tree is an empty table: the store `BTree::new` leaves (a fresh leaf
/// root added at the end) scans to no rows.
pub proof fn law_new_tree_is_empty(st: PState)
    requires
        st.0.len() < usize::MAX,
    ensures
        ({
            let s = ps_write(ps_alloc(st), st.0.len() as int, with_header(zero_page(), 1, 0, 0));
            &&& s.0.len() == st.0.len() + 1
            &&& s.0[st.0.len() as int].len() == PAGE_SIZE
            &&& page_type(s.0[st.0.len() as int]) == 1
            &&& spec_scan(s.0, st.0.len() as PageId) == Ok::<Seq<(i64, Seq<ValueView>)>, Fault>(Seq::empty())
        }),
{
    lemma_auto_spec_u16_to_from_le_bytes();
    lemma_auto_spec_u32_to_from_le_bytes();
    let root = st.0.len() as PageId;
    assert(header_bytes(1, 0, 0).len() == 7);
    let s = ps_write(ps_alloc(st), st.0.len() as int, with_header(zero_page(), 1, 0, 0));
    let d = with_header(zero_page(), 1, 0, 0);
    assert(d.len() == PAGE_SIZE);
    assert(d.subrange(1, 3) =~= spec_u16_to_le_bytes(0u16));
    assert(page_num_keys(d) == 0);
    assert(d[0] == 1);
    assert(s.0.len() == st.0.len() + 1);
    assert(s.0[root as int] == d);
    assert(leftmost_from(s.0, root, (s.0.len() + 1) as nat) == Ok::<PageId, Fault>(root));
    assert(page_entries(d) == Some(Seq::<(i64, Seq<u8>)>::empty()));
    assert(decode_entries(Seq::<(i64, Seq<u8>)>::empty()) == Some(Seq::<(i64, Seq<ValueView>)>::empty()));
}

/// Entries that can be listed all fit before their end.
proof fn lemma_leaf_entries_fit(d: Seq<u8>, i: int, n: int, off: int)
    requires
        leaf_entries(d, i, n, off) is Some,
    ensures
        data_end(d, i, n, off) is Some,
    decreases n - i,
{
    if i < n {
        lemma_leaf_entries_fit(d, i + 1, n, off + 12 + size_at(d, off));
    }
}

/// A found entry fits before the end of the entries.
proof fn lemma_found_entry_within(d: Seq<u8>, key: i64, i: int, n: int, off: int)
    ensures
        find_entry(d, key, i, n, off) matches Ok(Some((o, sz))) ==> (data_end(d, i, n, off) matches Some(e)
            ==> o + 12 + sz <= e && 0 <= sz),
    decreases n - i,
{
    lemma_data_end_bounds_any(d, i, n, off);
    if i < n && off + 12 <= PAGE_SIZE {
        lemma_data_end_bounds_any(d, i + 1, n, off + 12 + size_at(d, off));
        if i64_at(d, off) != key {
            lemma_found_entry_within(d, key, i + 1, n, off + 12 + size_at(d, off));
        }
    }
}

/// A walk ends at a leaf page.
proof fn lemma_find_leaf_is_leaf(pages: Seq<Seq<u8>>, id: PageId, key: i64, fuel: nat)
    ensures
        find_leaf_from(pages, id, key, fuel) matches Ok(l) ==> page_type(pages[l as int]) == 1,
    decreases fuel,
{
    if fuel > 0 && id < pages.len() && page_type(pages[id as int]) != 1 {
        let d = pages[id as int];
        if let Some(c) = descend(d, key, 0, page_num_keys(d) as int, first_child(d)) {
            lemma_find_leaf_is_leaf(pages, c, key, (fuel - 1) as nat);
        }
    }
}

/// The model a value has after encoding and decoding: `Real` reads back
/// as `Float`.
pub open spec fn stored_value(v: ValueView) -> ValueView {
    match v {
        ValueView::Real(f) => ValueView::Float(f),
        _ => v,
    }
}

/// A value whose encoding fits its length field.
pub open spec fn encodable_value(v: ValueView) -> bool {
    match v {
        ValueView::Text(s) => vstd::utf8::encode_utf8(s).len() <= u32::MAX,
        ValueView::Blob(b) => b.len() <= u32::MAX,
        _ => true,
    }
}

/// A row whose encoding fits its length fields.
pub open spec fn encodable_row(vs: Seq<ValueView>) -> bool {
    &&& vs.len() <= u32::MAX
    &&& forall|i: int| 0 <= i < vs.len() ==> encodable_value(#[trigger] vs[i])
}

proof fn lemma_i64_roundtrip(i: i64)
    ensures
        (i as u64) as i64 == i,
{
    assert((i as u64) as i64 == i) by (bit_vector);
}

/// Decoding a value right after a prefix gives back the stored value.
proof fn lemma_decode_encoded_value(p: Seq<u8>, v: ValueView, rest: Seq<u8>)
    requires
        encodable_value(v),
    ensures
        decode_value(p + encode_value(v) + rest, p.len() as int) == Some(
            (stored_value(v), (p.len() + encode_value(v).len()) as int),
        ),
{
    lemma_auto_spec_u64_to_from_le_bytes();
    lemma_auto_spec_u32_to_from_le_bytes();
    broadcast use vstd::utf8::group_utf8_lib;
    let d = p + encode_value(v) + rest;
    let off = p.len() as int;
    assert(d[off] == encode_value(v)[0]);
    match v {
        ValueView::Null => {},
        ValueView::Integer(i) => {
            assert(d.subrange(off + 1, off + 9) =~= spec_u64_to_le_bytes(i as u64));
            lemma_i64_roundtrip(i);
        },
        ValueView::Float(f) => {
            assert(d.subrange(off + 1, off + 9) =~= spec_u64_to_le_bytes(f));
        },
        ValueView::Real(f) => {
            assert(d.subrange(off + 1, off + 9) =~= spec_u64_to_le_bytes(f));
        },
        ValueView::Text(t) => {
            let b = vstd::utf8::encode_utf8(t);
            assert(d.subrange(off + 1, off + 5) =~= spec_u32_to_le_bytes(b.len() as u32));
            assert(d.subrange(off + 5, off + 5 + b.len()) =~= b);
            vstd::utf8::encode_utf8_valid_utf8(t);
            vstd::utf8::encode_utf8_decode_utf8(t);
        },
        ValueView::Blob(b) => {
            assert(d.subrange(off + 1, off + 5) =~= spec_u32_to_le_bytes(b.len() as u32));
            assert(d.subrange(off + 5, off + 5 + b.len()) =~= b);
        },
    }
}

proof fn lemma_encode_values_concat(a: Seq<ValueView>, b: Seq<ValueView>)
    ensures
        encode_values(a + b) == encode_values(a) + encode_values(b),
    decreases b.len(),
{
    if b.len() == 0 {
        assert(a + b =~= a);
        assert(encode_values(a) + encode_values(b) =~= encode_values(a));
    } else {
        lemma_encode_values_concat(a, b.drop_last());
        assert((a + b).drop_last() =~= a + b.drop_last());
        assert((a + b).last() == b.last());
    }
}

proof fn lemma_decode_prefix(vs: Seq<ValueView>, k: nat)
    requires
        encodable_row(vs),
        k <= vs.len(),
    ensures
        decode_values(encode_row(vs), 4, k) == Some(
            (
                vs.subrange(0, k as int).map_values(|v: ValueView| stored_value(v)),
                (4 + encode_values(vs.subrange(0, k as int)).len()) as int,
            ),
        ),
    decreases k,
{
    lemma_auto_spec_u32_to_from_le_bytes();
    if k == 0 {
        assert(vs.subrange(0, 0).map_values(|v: ValueView| stored_value(v)) =~= Seq::<ValueView>::empty());
    } else {
        lemma_decode_prefix(vs, (k - 1) as nat);
        let a = vs.subrange(0, k - 1);
        let x = vs[k - 1];
        let b = vs.subrange(k as int, vs.len() as int);
        assert(vs =~= a.push(x) + b);
        assert(a.push(x) =~= a + seq![x]);
        lemma_encode_values_concat(a.push(x), b);
        assert(a.push(x).drop_last() =~= a);
        assert(encode_values(a.push(x)) == encode_values(a) + encode_value(x));
        let p = spec_u32_to_le_bytes(vs.len() as u32) + encode_values(a);
        assert(encode_row(vs) =~= p + encode_value(x) + encode_values(b));
        lemma_decode_encoded_value(p, x, encode_values(b));
        assert(vs.subrange(0, k as int) =~= a.push(x));
        assert(vs.subrange(0, k as int).map_values(|v: ValueView| stored_value(v)) =~= a.map_values(
            |v: ValueView| stored_value(v),
        ).push(stored_value(x)));
    }
}

/// Decoding the encoding of a row gives the row back, with `Real` values
/// read back as `Float`.
pub proof fn lemma_row_roundtrip(vs: Seq<ValueView>)
    requires
        encodable_row(vs),
    ensures
        decode_row(encode_row(vs)) == Some(vs.map_values(|v: ValueView| stored_value(v))),
{
    lemma_auto_spec_u32_to_from_le_bytes();
    let d = encode_row(vs);
    assert(d.subrange(0, 4) =~= spec_u32_to_le_bytes(vs.len() as u32));
    lemma_decode_prefix(vs, vs.len());
    assert(vs.subrange(0, vs.len() as int) =~= vs);
}

/// Encodes one value onto the end of `buf`.
fn encode_value_into(buf: &mut Vec<u8>, v: &Value)
    ensures
        final(buf)@ == old(buf)@ + encode_value(v@),
{
    match v {
        Value::Null => {
            buf.push(0);
            assert(buf@ =~= old(buf)@ + encode_value(v@));
        },
        Value::Integer(i) => {
            buf.push(1);
            push_u64(buf, *i as u64);
            assert(buf@ =~= old(buf)@ + encode_value(v@));
        },
        Value::Float(f) => {
            buf.push(2);
            push_u64(buf, *f);
            assert(buf@ =~= old(buf)@ + encode_value(v@));
        },
        Value::Real(f) => {
            buf.push(2);
            push_u64(buf, *f);
            assert(buf@ =~= old(buf)@ + encode_value(v@));
        },
        Value::Text(s) => {
            let b = s.as_str().as_bytes();
            buf.push(3);
            push_u32(buf, b.len() as u32);
            push_all(buf, b);
            assert(buf@ =~= old(buf)@ + encode_value(v@));
        },
        Value::Blob(b) => {
            buf.push(4);
            push_u32(buf, b.len() as u32);
            push_all(buf, b.as_slice());
            assert(buf@ =~= old(buf)@ + encode_value(v@));
        },
    }
}

/// Encodes a row: the value count, then each value.
pub fn serialize_row(row: &Row) -> (r: Result<Vec<u8>>)
    ensures
        r matches Ok(b) && b@ == encode_row(row.values.deep_view()),
{
    let mut buffer: Vec<u8> = Vec::new();
    push_u32(&mut buffer, row.values.len() as u32);
    let ghost vs = row.values.deep_view();
    let mut i: usize = 0;
    while i < row.values.len()
        invariant
            i <= row.values@.len(),
            vs == row.values.deep_view(),
            vs.len() == row.values@.len(),
            buffer@ == spec_u32_to_le_bytes(vs.len() as u32) + encode_values(vs.subrange(0, i as int)),
        decreases row.values.len() - i,
    {
        encode_value_into(&mut buffer, &row.values[i]);
        proof {
            assert(vs[i as int] == row.values@[i as int]@);
            assert(vs.subrange(0, i + 1).drop_last() =~= vs.subrange(0, i as int));
        }
        i = i + 1;
    }
    assert(vs.subrange(0, i as int) =~= vs);
    Ok(buffer)
}

/// Decodes the value at `off`.
fn decode_value_at(data: &[u8], off: usize) -> (r: Option<(Value, usize)>)
    ensures
        match decode_value(data@, off as int) {
            None => r is None,
            Some((v, o)) => r matches Some((x, p)) && x@ == v && p == o,
        },
{
    let n = data.len();
    if off >= n {
        return None;
    }
    let tag = data[off];
    if tag == 0 {
        Some((Value::Null, off + 1))
    } else if tag == 1 {
        if n < 9 || off > n - 9 {
            return None;
        }
        Some((Value::Integer(read_i64(data, off + 1)), off + 9))
    } else if tag == 2 {
        if n < 9 || off > n - 9 {
            return None;
        }
        Some((Value::Float(read_u64(data, off + 1)), off + 9))
    } else if tag == 3 || tag == 4 {
        if n < 5 || off > n - 5 {
            return None;
        }
        let len = read_u32(data, off + 1) as usize;
        if len > n - 5 - off {
            return None;
        }
        let bytes = copy_range(data, off + 5, off + 5 + len);
        if tag == 4 {
            Some((Value::Blob(bytes), off + 5 + len))
        } else {
            match crate::text::string_from_utf8(bytes) {
                Some(s) => Some((Value::Text(s), off + 5 + len)),
                None => None,
            }
        }
    } else {
        None
    }
}

/// Decodes a row; `Corruption` when the bytes are not a row encoding.
pub fn deserialize_row(data: &[u8]) -> (r: Result<Row>)
    ensures
        match decode_row(data@) {
            Some(vs) => r matches Ok(row) && row.values.deep_view() == vs,
            None => r matches Err(VelociError::Corruption(_)),
        },
{
    if data.len() < 4 {
        return Err(VelociError::Corruption(String::from_str("Invalid value count")));
    }
    let num_values = read_u32(data, 0);
    let mut values: Vec<Value> = Vec::new();
    let mut offset: usize = 4;
    let mut i: u32 = 0;
    while i < num_values
        invariant
            i <= num_values,
            num_values == u32_at(data@, 0),
            data@.len() >= 4,
            decode_values(data@, 4, i as nat) == Some((values.deep_view(), offset as int)),
        decreases num_values - i,
    {
        match decode_value_at(data, offset) {
            None => {
                proof {
                    lemma_decode_values_stuck(data@, i as nat, num_values as nat);
                }
                return Err(VelociError::Corruption(String::from_str("Invalid value")));
            },
            Some((v, o)) => {
                let ghost prev = values.deep_view();
                values.push(v);
                proof {
                    assert(values.deep_view() =~= prev.push(v@));
                }
                offset = o;
            },
        }
        i = i + 1;
    }
    Ok(Row { values })
}

/// Once decoding stops, decoding more values fails too.
proof fn lemma_decode_values_stuck(d: Seq<u8>, i: nat, n: nat)
    requires
        i < n,
        decode_values(d, 4, i) matches Some((_, o)) && decode_value(d, o) is None,
    ensures
        decode_values(d, 4, n) is None,
    decreases n - i,
{
    if n == i + 1 {
    } else {
        lemma_decode_values_stuck(d, i, (n - 1) as nat);
    }
}

} // verus!
