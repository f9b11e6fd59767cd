//! Cache-conscious B-tree nodes: a 64-byte header, then the keys, then the
//! child pointers, laid out in one page.

use vstd::prelude::*;
use vstd::bytes::*;
use crate::bytes::{splice, u16_at, u32_at, i64_at, i64_bytes, read_u16, read_u32, read_i64, write_slice_at};
use crate::storage::{Page, PAGE_SIZE};
use crate::types::{PageId, Result, VelociError};

verus! {

/// Cache line size on most modern CPUs.
pub const CACHE_LINE_SIZE: usize = 64;

/// The number of keys a node holds.
pub const OPTIMIZED_BTREE_ORDER: usize = 32;

/// The size of a node's data area: what the page leaves after the header,
/// the keys and the children.
pub const DATA_AREA_SIZE: usize = 3644;

/// Where the children start in a node's page.
pub const CHILDREN_OFFSET: usize = 320;

/// A node header that fills one cache line.
#[derive(Clone, Copy)]
pub struct CacheAlignedNodeHeader {
    node_type: u8,
    num_keys: u16,
    parent: u32,
    level: u8,
    flags: u16,
    padding: [u8; 52],
}

/// The model of a node header.
pub struct HeaderView {
    pub node_type: u8,
    pub num_keys: u16,
    pub parent: u32,
    pub level: u8,
    pub flags: u16,
}

impl View for CacheAlignedNodeHeader {
    type V = HeaderView;

    closed spec fn view(&self) -> HeaderView {
        HeaderView {
            node_type: self.node_type,
            num_keys: self.num_keys,
            parent: self.parent,
            level: self.level,
            flags: self.flags,
        }
    }
}

/// The ten bytes a header is written as: type, key count, parent, level
/// and flags, little-endian.
pub open spec fn header_bytes(h: HeaderView) -> Seq<u8> {
    seq![h.node_type] + spec_u16_to_le_bytes(h.num_keys) + spec_u32_to_le_bytes(h.parent) + seq![h.level]
        + spec_u16_to_le_bytes(h.flags)
}

/// The header that the bytes `d` hold.
pub open spec fn read_header(d: Seq<u8>) -> HeaderView {
    HeaderView {
        node_type: d[0],
        num_keys: u16_at(d, 1),
        parent: u32_at(d, 3),
        level: d[7],
        flags: u16_at(d, 8),
    }
}

impl CacheAlignedNodeHeader {
    /// Size of the header in bytes.
    pub const SIZE: usize = 64;

    /// An empty leaf header.
    pub fn new_leaf() -> (h: CacheAlignedNodeHeader)
        ensures
            h@ == (HeaderView { node_type: 1, num_keys: 0, parent: 0, level: 0, flags: 0 }),
    {
        CacheAlignedNodeHeader { node_type: 1, num_keys: 0, parent: 0, level: 0, flags: 0, padding: [0u8; 52] }
    }

    /// An empty internal header at `level`.
    pub fn new_internal(level: u8) -> (h: CacheAlignedNodeHeader)
        ensures
            h@ == (HeaderView { node_type: 0, num_keys: 0, parent: 0, level, flags: 0 }),
    {
        CacheAlignedNodeHeader { node_type: 0, num_keys: 0, parent: 0, level, flags: 0, padding: [0u8; 52] }
    }

    /// Whether the node is a leaf.
    pub fn is_leaf(&self) -> (b: bool)
        ensures
            b == (self@.node_type == 1),
    {
        self.node_type == 1
    }

    /// The number of keys.
    pub fn num_keys(&self) -> (n: u16)
        ensures
            n == self@.num_keys,
    {
        self.num_keys
    }

    /// Sets the number of keys.
    pub fn set_num_keys(&mut self, count: u16)
        ensures
            final(self)@ == (HeaderView { num_keys: count, ..old(self)@ }),
    {
        self.num_keys = count;
    }

    /// Writes the header into the first ten bytes of `buffer`; a buffer
    /// shorter than a header is left as it is.
    pub fn serialize(&self, buffer: &mut [u8])
        ensures
            old(buffer)@.len() < 64 ==> final(buffer)@ == old(buffer)@,
            old(buffer)@.len() >= 64 ==> final(buffer)@ == splice(old(buffer)@, 0, header_bytes(self@)),
    {
        if buffer.len() < Self::SIZE {
            return;
        }
        proof {
            lemma_auto_spec_u16_to_from_le_bytes();
            lemma_auto_spec_u32_to_from_le_bytes();
        }
        let mut h: Vec<u8> = Vec::new();
        h.push(self.node_type);
        let nk = u16_to_le_bytes(self.num_keys);
        h.push(nk[0]);
        h.push(nk[1]);
        let p = u32_to_le_bytes(self.parent);
        h.push(p[0]);
        h.push(p[1]);
        h.push(p[2]);
        h.push(p[3]);
        h.push(self.level);
        let f = u16_to_le_bytes(self.flags);
        h.push(f[0]);
        h.push(f[1]);
        assert(h@ =~= header_bytes(self@));
        write_slice_at(buffer, 0, h.as_slice());
    }

    /// Reads a header; `Corruption` when the buffer is shorter than a header.
    pub fn deserialize(buffer: &[u8]) -> (r: Result<CacheAlignedNodeHeader>)
        ensures
            buffer@.len() < 64 ==> r matches Err(VelociError::Corruption(_)),
            buffer@.len() >= 64 ==> (r matches Ok(h) && h@ == read_header(buffer@)),
    {
        if buffer.len() < Self::SIZE {
            return Err(VelociError::Corruption(String::from_str("Buffer too small")));
        }
        Ok(CacheAlignedNodeHeader {
            node_type: buffer[0],
            num_keys: read_u16(buffer, 1),
            parent: read_u32(buffer, 3),
            level: buffer[7],
            flags: read_u16(buffer, 8),
            padding: [0u8; 52],
        })
    }
}

/// A B-tree node laid out for the cache: header, keys, children and data.
pub struct CacheOptimizedNode {
    pub header: CacheAlignedNodeHeader,
    pub keys: [i64; OPTIMIZED_BTREE_ORDER],
    pub children: [u32; 33],
    pub data_area: [u8; DATA_AREA_SIZE],
}

/// The page bytes `d` with the first `k` keys written from offset 64.
pub open spec fn keys_written(d: Seq<u8>, keys: Seq<i64>, k: int) -> Seq<u8>
    decreases k,
{
    if k <= 0 {
        d
    } else {
        splice(keys_written(d, keys, k - 1), 64 + 8 * (k - 1), i64_bytes(keys[k - 1]))
    }
}

/// The page bytes `d` with the first `k` children written from offset 320.
pub open spec fn children_written(d: Seq<u8>, children: Seq<u32>, k: int) -> Seq<u8>
    decreases k,
{
    if k <= 0 {
        d
    } else {
        splice(children_written(d, children, k - 1), 320 + 4 * (k - 1), spec_u32_to_le_bytes(children[k - 1]))
    }
}

/// A page after writing a node over `d`: the header, its keys and one child
/// more than keys.
pub open spec fn node_bytes(d: Seq<u8>, h: HeaderView, keys: Seq<i64>, children: Seq<u32>) -> Seq<u8> {
    let n = h.num_keys as int;
    children_written(keys_written(splice(d, 0, header_bytes(h)), keys, n), children, n + 1)
}

/// The key a node's page holds at `i`.
pub open spec fn page_key(d: Seq<u8>, i: int) -> i64 {
    i64_at(d, 64 + 8 * i)
}

/// The child a node's page holds at `i`.
pub open spec fn page_child(d: Seq<u8>, i: int) -> u32 {
    u32_at(d, 320 + 4 * i)
}

impl CacheOptimizedNode {
    /// An empty leaf node.
    pub fn new_leaf() -> (n: CacheOptimizedNode)
        ensures
            n.header@ == (HeaderView { node_type: 1, num_keys: 0, parent: 0, level: 0, flags: 0 }),
            n.keys@ == Seq::new(32, |i: int| 0i64),
            n.children@ == Seq::new(33, |i: int| 0u32),
    {
        let n = CacheOptimizedNode {
            header: CacheAlignedNodeHeader::new_leaf(),
            keys: [0i64; 32],
            children: [0u32; 33],
            data_area: [0u8; 3644],
        };
        assert(n.keys@ =~= Seq::new(32, |i: int| 0i64));
        assert(n.children@ =~= Seq::new(33, |i: int| 0u32));
        n
    }

    /// An empty internal node at `level`.
    pub fn new_internal(level: u8) -> (n: CacheOptimizedNode)
        ensures
            n.header@ == (HeaderView { node_type: 0, num_keys: 0, parent: 0, level, flags: 0 }),
            n.keys@ == Seq::new(32, |i: int| 0i64),
            n.children@ == Seq::new(33, |i: int| 0u32),
    {
        let n = CacheOptimizedNode {
            header: CacheAlignedNodeHeader::new_internal(level),
            keys: [0i64; 32],
            children: [0u32; 33],
            data_area: [0u8; 3644],
        };
        assert(n.keys@ =~= Seq::new(32, |i: int| 0i64));
        assert(n.children@ =~= Seq::new(33, |i: int| 0u32));
        n
    }

    /// Searches the first `num_keys` keys, which are taken to be in
    /// ascending order: `Ok` with the index of an equal key, or `Err` with
    /// the index where the key would go.
    pub fn search_key(&self, key: i64) -> (r: std::result::Result<usize, usize>)
        requires
            self.header@.num_keys <= 32,
        ensures
            match r {
                Ok(i) => i < self.header@.num_keys && self.keys@[i as int] == key,
                Err(i) => i <= self.header@.num_keys,
            },
            (forall|a: int, b: int| 0 <= a < b < self.header@.num_keys ==> self.keys@[a] <= self.keys@[b])
                ==> match r {
                Ok(_) => true,
                Err(i) => (forall|j: int| 0 <= j < i ==> self.keys@[j] < key) && (forall|j: int|
                    i <= j < self.header@.num_keys ==> key < self.keys@[j]),
            },
    {
        let n = self.header.num_keys() as usize;
        let mut lo: usize = 0;
        let mut hi: usize = n;
        while lo < hi
            invariant
                lo <= hi <= n,
                n == self.header@.num_keys,
                n <= 32,
                (forall|a: int, b: int| 0 <= a < b < n ==> self.keys@[a] <= self.keys@[b]) ==> (forall|j: int|
                    0 <= j < lo ==> self.keys@[j] < key) && (forall|j: int| hi <= j < n ==> key < self.keys@[j]),
            decreases hi - lo,
        {
            let mid = lo + (hi - lo) / 2;
            let k = self.keys[mid];
            if k == key {
                return Ok(mid);
            } else if k < key {
                lo = mid + 1;
            } else {
                hi = mid;
            }
        }
        Err(lo)
    }

    /// The key at `index`, when `index` is below the key count.
    pub fn get_key(&self, index: usize) -> (r: Option<i64>)
        requires
            index < self.header@.num_keys ==> index < 32,
        ensures
            index < self.header@.num_keys ==> r == Some(self.keys@[index as int]),
            index >= self.header@.num_keys ==> r is None,
    {
        if index < self.header.num_keys() as usize {
            Some(self.keys[index])
        } else {
            None
        }
    }

    /// The child at `index`, when `index` is at most the key count.
    pub fn get_child(&self, index: usize) -> (r: Option<PageId>)
        requires
            index <= self.header@.num_keys ==> index < 33,
        ensures
            index <= self.header@.num_keys ==> r == Some(self.children@[index as int] as PageId),
            index > self.header@.num_keys ==> r is None,
    {
        if index <= self.header.num_keys() as usize {
            Some(self.children[index] as PageId)
        } else {
            None
        }
    }

    /// Inserts `key` at `index` with its left and right children, moving
    /// the later keys and children up one place; `StorageError` when the
    /// node is full.
    pub fn insert_internal(&mut self, key: i64, left_child: PageId, right_child: PageId, index: usize) -> (r: Result<()>)
        requires
            old(self).header@.num_keys < 32 ==> index < 32,
        ensures
            old(self).header@.num_keys >= 32 ==> (r matches Err(VelociError::StorageError(_)) && final(self).header@
                == old(self).header@ && final(self).keys@ == old(self).keys@ && final(self).children@ == old(
                self,
            ).children@),
            old(self).header@.num_keys < 32 ==> ({
                let n = old(self).header@.num_keys as int;
                &&& r is Ok
                &&& final(self).header@ == (HeaderView { num_keys: (n + 1) as u16, ..old(self).header@ })
                &&& final(self).keys@ == Seq::new(
                    32,
                    |j: int|
                        if j == index {
                            key
                        } else if index < j <= n {
                            old(self).keys@[j - 1]
                        } else {
                            old(self).keys@[j]
                        },
                )
                &&& final(self).children@ == Seq::new(
                    33,
                    |j: int|
                        if j == index {
                            left_child as u32
                        } else if j == index + 1 {
                            right_child as u32
                        } else if index + 1 < j <= n + 1 {
                            old(self).children@[j - 1]
                        } else {
                            old(self).children@[j]
                        },
                )
            }),
            final(self).data_area@ == old(self).data_area@,
    {
        let num_keys = self.header.num_keys() as usize;
        if num_keys >= OPTIMIZED_BTREE_ORDER {
            return Err(VelociError::StorageError(String::from_str("Node full")));
        }
        let ghost k0 = self.keys@;
        let ghost c0 = self.children@;
        let mut i = num_keys;
        while i > index
            invariant
                i <= num_keys,
                index <= i || i == num_keys,
                num_keys < 32,
                index < 32,
                self.header == old(self).header,
                self.data_area@ == old(self).data_area@,
                num_keys == old(self).header@.num_keys,
                k0 == old(self).keys@,
                c0 == old(self).children@,
                self.keys@.len() == 32,
                self.children@.len() == 33,
                forall|j: int| 0 <= j < 32 ==> #[trigger] self.keys@[j] == (if i < j <= num_keys { k0[j - 1] } else { k0[j] }),
                forall|j: int| 0 <= j < 33 ==> #[trigger] self.children@[j] == (if i + 1 < j <= num_keys + 1 { c0[j - 1] } else { c0[j] }),
            decreases i,
        {
            let kk = self.keys[i - 1];
            self.keys.set(i, kk);
            let cc = self.children[i];
            self.children.set(i + 1, cc);
            i = i - 1;
        }
        self.keys.set(index, key);
        self.children.set(index, left_child as u32);
        self.children.set(index + 1, right_child as u32);
        self.header.set_num_keys(num_keys as u16 + 1);
        proof {
            let n = num_keys as int;
            assert(self.keys@ =~= Seq::new(
                32,
                |j: int|
                    if j == index {
                        key
                    } else if index < j <= n {
                        k0[j - 1]
                    } else {
                        k0[j]
                    },
            ));
            assert(self.children@ =~= Seq::new(
                33,
                |j: int|
                    if j == index {
                        left_child as u32
                    } else if j == index + 1 {
                        right_child as u32
                    } else if index + 1 < j <= n + 1 {
                        c0[j - 1]
                    } else {
                        c0[j]
                    },
            ));
        }
        Ok(())
    }

    /// Writes the header, the keys and one child more than keys into
    /// `page`; the rest of the page stays.
    pub fn serialize(&self, page: &mut Page)
        requires
            self.header@.num_keys <= 32,
        ensures
            final(page)@ == node_bytes(old(page)@, self.header@, self.keys@, self.children@),
    {
        proof {
            lemma_auto_spec_u64_to_from_le_bytes();
            lemma_auto_spec_u32_to_from_le_bytes();
        }
        let buffer = page.data_mut();
        let ghost b0 = buffer@;
        self.header.serialize(buffer);
        proof {
            lemma_auto_spec_u16_to_from_le_bytes();
            assert(header_bytes(self.header@).len() == 10);
            lemma_splice_read_same(b0, 0, header_bytes(self.header@));
        }
        let n = self.header.num_keys() as usize;
        let ghost d0 = buffer@;
        let mut i: usize = 0;
        while i < n
            invariant
                i <= n,
                n <= 32,
                n == self.header@.num_keys,
                buffer@.len() == PAGE_SIZE,
                buffer@ == keys_written(d0, self.keys@, i as int),
            decreases n - i,
        {
            let b = u64_to_le_bytes(self.keys[i] as u64);
            write_slice_at(buffer, 64 + i * 8, b.as_slice());
            i = i + 1;
        }
        let ghost d1 = buffer@;
        let mut j: usize = 0;
        while j <= n
            invariant
                j <= n + 1,
                n <= 32,
                n == self.header@.num_keys,
                buffer@.len() == PAGE_SIZE,
                buffer@ == children_written(d1, self.children@, j as int),
            decreases n + 1 - j,
        {
            let b = u32_to_le_bytes(self.children[j]);
            write_slice_at(buffer, 320 + j * 4, b.as_slice());
            j = j + 1;
        }
    }

    /// Reads a node from `page`: its header, as many keys as it counts and
    /// one child more; the other keys, children and the data area are zero.
    pub fn deserialize(page: &Page) -> (r: Result<CacheOptimizedNode>)
        requires
            u16_at(page@, 1) <= 32,
        ensures
            r matches Ok(node) && node.header@ == read_header(page@) && node.keys@ == Seq::new(
                32,
                |i: int| if i < u16_at(page@, 1) { page_key(page@, i) } else { 0i64 },
            ) && node.children@ == Seq::new(
                33,
                |i: int| if i <= u16_at(page@, 1) { page_child(page@, i) } else { 0u32 },
            ),
    {
        let buffer = page.data();
        let header = match CacheAlignedNodeHeader::deserialize(buffer) {
            Ok(h) => h,
            Err(e) => return Err(e),
        };
        let mut keys = [0i64; 32];
        let mut children = [0u32; 33];
        let n = header.num_keys() as usize;
        let mut i: usize = 0;
        while i < n
            invariant
                i <= n,
                n <= 32,
                n == u16_at(page@, 1),
                buffer@ == page@,
                buffer@.len() == PAGE_SIZE,
                keys@.len() == 32,
                forall|j: int| 0 <= j < 32 ==> #[trigger] keys@[j] == (if j < i { page_key(page@, j) } else { 0i64 }),
            decreases n - i,
        {
            keys.set(i, read_i64(buffer, 64 + i * 8));
            i = i + 1;
        }
        let mut j: usize = 0;
        while j <= n
            invariant
                j <= n + 1,
                n <= 32,
                n == u16_at(page@, 1),
                buffer@ == page@,
                buffer@.len() == PAGE_SIZE,
                children@.len() == 33,
                forall|m: int| 0 <= m < 33 ==> #[trigger] children@[m] == (if m < j { page_child(page@, m) } else { 0u32 }),
            decreases n + 1 - j,
        {
            children.set(j, read_u32(buffer, 320 + j * 4));
            j = j + 1;
        }
        let node = CacheOptimizedNode { header, keys, children, data_area: [0u8; 3644] };
        proof {
            assert(node.keys@ =~= Seq::new(32, |i: int| if i < u16_at(page@, 1) { page_key(page@, i) } else { 0i64 }));
            assert(node.children@ =~= Seq::new(33, |i: int| if i <= u16_at(page@, 1) { page_child(page@, i) } else { 0u32 }));
        }
        Ok(node)
    }
}

/// Reading bytes that a splice wrote gives them back.
proof fn lemma_splice_read_same(d: Seq<u8>, off: int, src: Seq<u8>)
    requires
        0 <= off,
        off + src.len() <= d.len(),
    ensures
        splice(d, off, src).subrange(off, off + src.len()) == src,
        splice(d, off, src).len() == d.len(),
{
    assert(splice(d, off, src).subrange(off, off + src.len()) =~= src);
}

/// Reading bytes away from a splice gives the old ones.
proof fn lemma_splice_read_other(d: Seq<u8>, off: int, src: Seq<u8>, a: int, b: int)
    requires
        0 <= off,
        off + src.len() <= d.len(),
        0 <= a <= b <= d.len(),
        b <= off || off + src.len() <= a,
    ensures
        splice(d, off, src).subrange(a, b) == d.subrange(a, b),
{
    assert(splice(d, off, src).subrange(a, b) =~= d.subrange(a, b));
}

proof fn lemma_keys_written(d: Seq<u8>, keys: Seq<i64>, k: int, a: int, b: int)
    requires
        d.len() == PAGE_SIZE,
        0 <= k <= 32,
        keys.len() == 32,
        0 <= a <= b <= PAGE_SIZE,
        b <= 64 || 320 <= a,
    ensures
        keys_written(d, keys, k).len() == PAGE_SIZE,
        keys_written(d, keys, k).subrange(a, b) == d.subrange(a, b),
        forall|i: int| 0 <= i < k ==> #[trigger] keys_written(d, keys, k).subrange(64 + 8 * i, 64 + 8 * i + 8) == i64_bytes(keys[i]),
    decreases k,
{
    lemma_auto_spec_u64_to_from_le_bytes();
    if k > 0 {
        lemma_keys_written(d, keys, k - 1, a, b);
        let prev = keys_written(d, keys, k - 1);
        lemma_splice_read_same(prev, 64 + 8 * (k - 1), i64_bytes(keys[k - 1]));
        lemma_splice_read_other(prev, 64 + 8 * (k - 1), i64_bytes(keys[k - 1]), a, b);
        assert forall|i: int| 0 <= i < k implies #[trigger] keys_written(d, keys, k).subrange(64 + 8 * i, 64 + 8 * i + 8) == i64_bytes(keys[i]) by {
            if i < k - 1 {
                lemma_splice_read_other(prev, 64 + 8 * (k - 1), i64_bytes(keys[k - 1]), 64 + 8 * i, 64 + 8 * i + 8);
            }
        }
    }
}

proof fn lemma_children_written(d: Seq<u8>, children: Seq<u32>, k: int, a: int, b: int)
    requires
        d.len() == PAGE_SIZE,
        0 <= k <= 33,
        children.len() == 33,
        0 <= a <= b <= PAGE_SIZE,
        b <= 320,
    ensures
        children_written(d, children, k).len() == PAGE_SIZE,
        children_written(d, children, k).subrange(a, b) == d.subrange(a, b),
        forall|i: int| 0 <= i < k ==> #[trigger] children_written(d, children, k).subrange(320 + 4 * i, 320 + 4 * i + 4) == spec_u32_to_le_bytes(children[i]),
    decreases k,
{
    lemma_auto_spec_u32_to_from_le_bytes();
    if k > 0 {
        lemma_children_written(d, children, k - 1, a, b);
        let prev = children_written(d, children, k - 1);
        lemma_splice_read_same(prev, 320 + 4 * (k - 1), spec_u32_to_le_bytes(children[k - 1]));
        lemma_splice_read_other(prev, 320 + 4 * (k - 1), spec_u32_to_le_bytes(children[k - 1]), a, b);
        assert forall|i: int| 0 <= i < k implies #[trigger] children_written(d, children, k).subrange(320 + 4 * i, 320 + 4 * i + 4) == spec_u32_to_le_bytes(children[i]) by {
            if i < k - 1 {
                lemma_splice_read_other(prev, 320 + 4 * (k - 1), spec_u32_to_le_bytes(children[k - 1]), 320 + 4 * i, 320 + 4 * i + 4);
            }
        }
    }
}

/// A node read back from the page it was written to has the header it was
/// written with, the keys it counts, and one child more.
pub proof fn law_node_roundtrip(d: Seq<u8>, h: HeaderView, keys: Seq<i64>, children: Seq<u32>)
    requires
        d.len() == PAGE_SIZE,
        h.num_keys <= 32,
        keys.len() == 32,
        children.len() == 33,
    ensures
        read_header(node_bytes(d, h, keys, children)) == h,
        forall|i: int| 0 <= i < h.num_keys ==> #[trigger] page_key(node_bytes(d, h, keys, children), i) == keys[i],
        forall|i: int| 0 <= i <= h.num_keys ==> #[trigger] page_child(node_bytes(d, h, keys, children), i) == children[i],
{
    lemma_auto_spec_u16_to_from_le_bytes();
    lemma_auto_spec_u32_to_from_le_bytes();
    lemma_auto_spec_u64_to_from_le_bytes();
    let n = h.num_keys as int;
    let hb = header_bytes(h);
    assert(hb.len() == 10);
    let d0 = splice(d, 0, hb);
    lemma_splice_read_same(d, 0, hb);
    let d1 = keys_written(d0, keys, n);
    lemma_keys_written(d0, keys, n, 0, 10);
    let d2 = children_written(d1, children, n + 1);
    lemma_children_written(d1, children, n + 1, 0, 10);
    assert(d2.subrange(0, 10) == hb);
    assert(d2[0] == hb[0]);
    assert(d2[7] == hb[7]);
    assert(d2.subrange(1, 3) =~= hb.subrange(1, 3));
    assert(hb.subrange(1, 3) =~= spec_u16_to_le_bytes(h.num_keys));
    assert(d2.subrange(3, 7) =~= hb.subrange(3, 7));
    assert(hb.subrange(3, 7) =~= spec_u32_to_le_bytes(h.parent));
    assert(d2.subrange(8, 10) =~= hb.subrange(8, 10));
    assert(hb.subrange(8, 10) =~= spec_u16_to_le_bytes(h.flags));
    assert forall|i: int| 0 <= i < h.num_keys implies #[trigger] page_key(d2, i) == keys[i] by {
        lemma_children_written(d1, children, n + 1, 64 + 8 * i, 64 + 8 * i + 8);
        assert(d1.subrange(64 + 8 * i, 64 + 8 * i + 8) == i64_bytes(keys[i]));
        let x = keys[i];
        assert((x as u64) as i64 == x) by (bit_vector);
    }
    assert forall|i: int| 0 <= i <= h.num_keys implies #[trigger] page_child(d2, i) == children[i] by {
        assert(d2.subrange(320 + 4 * i, 320 + 4 * i + 4) == spec_u32_to_le_bytes(children[i]));
    }
}

/// Prefetching hints for the cache (the hints themselves are issued by the
/// platform layer).
pub struct CachePrefetcher;

/// Cache statistics for monitoring.
#[derive(Debug, Clone, Default)]
pub struct CachePerformanceStats {
    pub cache_hits: u64,
    pub cache_misses: u64,
    pub prefetch_hits: u64,
    pub cache_line_loads: u64,
}

} // verus!
