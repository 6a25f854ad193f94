//! The data access layer: fixed-size pages over an in-memory file image,
//! the meta record, and the free-page allocator.
//!
//! The layer owns the file image as a vector of page buffers.  Reading the
//! image from a file and writing it back is the caller's business; every
//! page operation here is on the image.  Page 0 holds the [`Meta`] record;
//! the page it names holds the encoded [`Freelist`]; all other allocated
//! pages hold encoded nodes.

use crate::endian::{read_u16_at, read_u64_at, write_bytes_at};
use crate::node::{spec_decode, spec_encodable, Item, Node, NodeModel};
use crate::{ByteString, KvError, PageNum};
use vstd::bytes::{
    lemma_auto_spec_u16_to_from_le_bytes, lemma_auto_spec_u64_to_from_le_bytes,
    spec_u16_from_le_bytes, spec_u16_to_le_bytes, spec_u64_from_le_bytes, spec_u64_to_le_bytes,
    u16_to_le_bytes, u64_to_le_bytes,
};
use vstd::prelude::*;
use vstd::slice::slice_to_vec;

verus! {

/// The page holding the meta record.
pub const META_PAGE_NUM: PageNum = 0;

/// Width in bytes of an encoded page number.
pub const PAGE_NUM_SIZE: usize = 8;

/// Width in bytes of an encoded node header.
pub const NODE_HEADER_SIZE: usize = 3;

/// The persistent meta record: the tree root's page number (`0` for an
/// empty tree) and the free list's page number.
#[derive(Clone, Copy, Debug, PartialEq, Eq, Structural)]
pub struct Meta {
    pub freelist_page: PageNum,
    pub root: PageNum,
}

/// Wire format of the meta record: `root`, then `freelist_page`, each as a
/// little-endian `u64`.
pub open spec fn spec_meta_bytes(m: Meta) -> Seq<u8> {
    spec_u64_to_le_bytes(m.root) + spec_u64_to_le_bytes(m.freelist_page)
}

impl Meta {
    /// The meta record of a brand-new store: empty tree, no free list page.
    pub fn new() -> (r: Meta)
        ensures
            r.root == 0,
            r.freelist_page == 0,
    {
        Meta { freelist_page: 0, root: 0 }
    }

    /// Encode the record as 16 little-endian bytes.
    pub fn serialize(&self) -> (r: Vec<u8>)
        ensures
            r@ == spec_meta_bytes(*self),
            r@.len() == 16,
    {
        let mut vc = u64_to_le_bytes(self.root);
        let mut fl = u64_to_le_bytes(self.freelist_page);
        vc.append(&mut fl);
        proof {
            lemma_auto_spec_u64_to_from_le_bytes();
        }
        vc
    }

    /// Decode the record from the front of a page buffer.
    pub fn deserialize(&mut self, vc: &[u8]) -> (r: Result<(), KvError>)
        ensures
            match r {
                Ok(_) => {
                    &&& vc@.len() >= 16
                    &&& final (self).root == spec_u64_from_le_bytes(vc@.subrange(0, 8))
                    &&& final (self).freelist_page == spec_u64_from_le_bytes(vc@.subrange(8, 16))
                },
                Err(e) => {
                    &&& e == KvError::MalformedPage
                    &&& vc@.len() < 16
                    &&& *final (self) == *old(self)
                },
            },
    {
        if vc.len() < 16 {
            return Err(KvError::MalformedPage);
        }
        self.root = read_u64_at(vc, 0);
        self.freelist_page = read_u64_at(vc, 8);
        Ok(())
    }
}

/// Encoding then decoding a meta record from any buffer that starts with its
/// bytes yields the record back.
pub proof fn lemma_meta_round_trip(m: Meta, buf: Seq<u8>)
    requires
        buf.len() >= 16,
        buf.subrange(0, 16) == spec_meta_bytes(m),
    ensures
        spec_u64_from_le_bytes(buf.subrange(0, 8)) == m.root,
        spec_u64_from_le_bytes(buf.subrange(8, 16)) == m.freelist_page,
{
    lemma_auto_spec_u64_to_from_le_bytes();
    assert(buf.subrange(0, 8) =~= buf.subrange(0, 16).subrange(0, 8));
    assert(buf.subrange(8, 16) =~= buf.subrange(0, 16).subrange(8, 16));
    assert(buf.subrange(0, 16).subrange(0, 8) =~= spec_u64_to_le_bytes(m.root));
    assert(buf.subrange(0, 16).subrange(8, 16) =~= spec_u64_to_le_bytes(m.freelist_page));
}

/// The free-page allocator: the highest page number ever handed out, and the
/// pages released for reuse, most recent last.
pub struct Freelist {
    max_page: PageNum,
    // prefer reusing released pages over growing the file
    released_pages: Vec<PageNum>,
}

/// Mathematical model of a [`Freelist`].
#[verifier::ext_equal]
pub struct FreelistModel {
    pub max_page: PageNum,
    pub released: Seq<PageNum>,
}

impl View for Freelist {
    type V = FreelistModel;

    closed spec fn view(&self) -> FreelistModel {
        FreelistModel { max_page: self.max_page, released: self.released_pages@ }
    }
}

impl FreelistModel {
    /// The watermark fits its 16-bit wire field, the released count fits its
    /// field, every released page is a real allocation — nonzero and not
    /// above the watermark — and no page is released twice.
    pub open spec fn wf(self) -> bool {
        &&& self.max_page <= 0xffff
        &&& self.released.len() <= 0xffff
        &&& forall|i: int|
            0 <= i < self.released.len() ==> 0 < #[trigger] self.released[i] <= self.max_page
        &&& forall|i: int, j: int|
            0 <= i < j < self.released.len() ==> #[trigger] self.released[i]
                != #[trigger] self.released[j]
    }
}

/// Wire format of the first `k` released pages, each a little-endian `u64`.
pub open spec fn spec_released_bytes(pages: Seq<PageNum>, k: int) -> Seq<u8>
    decreases k,
{
    if k <= 0 {
        Seq::empty()
    } else {
        spec_released_bytes(pages, k - 1) + spec_u64_to_le_bytes(pages[k - 1])
    }
}

/// Wire format of the free list: `max_page` and the released count as
/// little-endian `u16`s, then the released pages.
pub open spec fn spec_freelist_bytes(f: FreelistModel) -> Seq<u8> {
    spec_u16_to_le_bytes(f.max_page as u16) + spec_u16_to_le_bytes(f.released.len() as u16)
        + spec_released_bytes(f.released, f.released.len() as int)
}

/// The released pages read back from `buf`, starting at byte 4.
pub open spec fn spec_decode_released(buf: Seq<u8>, k: int) -> Seq<PageNum>
    decreases k,
{
    if k <= 0 {
        Seq::empty()
    } else {
        spec_decode_released(buf, k - 1).push(
            spec_u64_from_le_bytes(buf.subrange(4 + 8 * (k - 1), 4 + 8 * k)),
        )
    }
}

/// The free list read back from a page buffer: the watermark, the count,
/// and that many released pages; `None` when the count overruns the buffer.
pub open spec fn spec_decode_freelist(buf: Seq<u8>) -> Option<FreelistModel> {
    if buf.len() < 4 {
        None
    } else {
        let max_page = spec_u16_from_le_bytes(buf.subrange(0, 2)) as PageNum;
        let count = spec_u16_from_le_bytes(buf.subrange(2, 4)) as int;
        if 4 + 8 * count > buf.len() {
            None
        } else {
            Some(FreelistModel { max_page, released: spec_decode_released(buf, count) })
        }
    }
}

impl Freelist {
    /// A free list with nothing allocated and nothing released.
    pub fn new() -> (r: Freelist)
        ensures
            r@.max_page == 0,
            r@.released == Seq::<PageNum>::empty(),
            r@.wf(),
    {
        Freelist { max_page: 0, released_pages: Vec::new() }
    }

    /// Runtime counterpart of [`FreelistModel::wf`].
    pub fn is_wf(&self) -> (r: bool)
        ensures
            r == self@.wf(),
    {
        if self.max_page > 0xffff {
            return false;
        }
        if self.released_pages.len() > 0xffff {
            return false;
        }
        let mut i: usize = 0;
        while i < self.released_pages.len()
            invariant
                i <= self@.released.len(),
                forall|j: int|
                    0 <= j < i ==> 0 < #[trigger] self@.released[j] <= self@.max_page,
            decreases self@.released.len() - i,
        {
            let p = self.released_pages[i];
            if p == 0 || p > self.max_page {
                return false;
            }
            i = i + 1;
        }
        // no page may be released twice
        let mut a: usize = 0;
        while a < self.released_pages.len()
            invariant
                a <= self@.released.len(),
                forall|i2: int, j2: int|
                    0 <= i2 < a && i2 < j2 < self@.released.len()
                        ==> #[trigger] self@.released[i2] != #[trigger] self@.released[j2],
            decreases self@.released.len() - a,
        {
            let mut b: usize = a + 1;
            while b < self.released_pages.len()
                invariant
                    a < self@.released.len(),
                    a + 1 <= b <= self@.released.len(),
                    forall|j2: int|
                        (a as int) < j2 < b ==> self@.released[a as int]
                            != #[trigger] self@.released[j2],
                decreases self@.released.len() - b,
            {
                if self.released_pages[a] == self.released_pages[b] {
                    return false;
                }
                b = b + 1;
            }
            a = a + 1;
        }
        true
    }

    /// Whether [`Freelist::next_page`] can hand out a page: something was
    /// released, or the watermark has room to grow.
    pub fn can_allocate(&self) -> (r: bool)
        ensures
            r == (self@.released.len() > 0 || self@.max_page < 0xffff),
    {
        self.released_pages.len() > 0 || self.max_page < 0xffff
    }

    /// Hand out a page number: the most recently released page if any,
    /// otherwise a fresh one past the watermark.  Never returns 0, and the
    /// page handed out is no longer among the released ones.
    pub fn next_page(&mut self) -> (r: PageNum)
        requires
            old(self)@.wf(),
            old(self)@.released.len() > 0 || old(self)@.max_page < 0xffff,
        ensures
            final (self)@.wf(),
            r != 0,
            r <= final (self)@.max_page,
            !final (self)@.released.contains(r),
            if old(self)@.released.len() > 0 {
                &&& r == old(self)@.released.last()
                &&& final (self)@.released == old(self)@.released.drop_last()
                &&& final (self)@.max_page == old(self)@.max_page
            } else {
                &&& r == old(self)@.max_page + 1
                &&& final (self)@.max_page == old(self)@.max_page + 1
                &&& final (self)@.released == old(self)@.released
            },
    {
        if self.released_pages.len() != 0 {
            let r = self.released_pages.pop().unwrap();
            proof {
                assert(final (self)@.released =~= old(self)@.released.drop_last());
            }
            r
        } else {
            self.max_page = self.max_page + 1;
            self.max_page
        }
    }

    /// Put a page back for reuse.  A page may be released only once.
    pub fn release_page(&mut self, page: PageNum)
        requires
            old(self)@.wf(),
            0 < page <= old(self)@.max_page,
            old(self)@.released.len() < 0xffff,
            !old(self)@.released.contains(page),
        ensures
            final (self)@.wf(),
            final (self)@.released == old(self)@.released.push(page),
            final (self)@.max_page == old(self)@.max_page,
    {
        self.released_pages.push(page)
    }

    /// Encode the free list: watermark, count, then the released pages.
    pub fn serialize(&self) -> (r: Vec<u8>)
        requires
            self@.wf(),
        ensures
            r@ == spec_freelist_bytes(self@),
            r@.len() == 4 + 8 * self@.released.len(),
    {
        proof {
            lemma_auto_spec_u16_to_from_le_bytes();
            lemma_auto_spec_u64_to_from_le_bytes();
        }
        let mut data = u16_to_le_bytes(self.max_page as u16);
        let mut cnt = u16_to_le_bytes(self.released_pages.len() as u16);
        data.append(&mut cnt);
        let ghost header = data@;
        let mut i: usize = 0;
        while i < self.released_pages.len()
            invariant
                i <= self@.released.len(),
                self@.released.len() <= 0xffff,
                data@ == header + spec_released_bytes(self@.released, i as int),
                header.len() == 4,
            decreases self@.released.len() - i,
        {
            let mut pg = u64_to_le_bytes(self.released_pages[i]);
            data.append(&mut pg);
            proof {
                lemma_auto_spec_u64_to_from_le_bytes();
                assert(header + spec_released_bytes(self@.released, i as int) + spec_u64_to_le_bytes(
                    self@.released[i as int],
                ) =~= header + spec_released_bytes(self@.released, i + 1));
            }
            i = i + 1;
        }
        proof {
            lemma_released_bytes_len(self@.released, self@.released.len() as int);
        }
        data
    }

    /// Decode a free list from a page buffer, appending the released pages
    /// to this list's and overwriting the watermark.  On a malformed buffer
    /// the list is left unchanged.
    pub fn deserialize(&mut self, buf: &[u8]) -> (r: Result<(), KvError>)
        ensures
            match r {
                Ok(_) => match spec_decode_freelist(buf@) {
                    Some(f) => {
                        &&& final (self)@.max_page == f.max_page
                        &&& final (self)@.released == old(self)@.released + f.released
                    },
                    None => false,
                },
                Err(e) => {
                    &&& e == KvError::MalformedPage
                    &&& spec_decode_freelist(buf@) is None
                    &&& *final (self) == *old(self)
                },
            },
    {
        if buf.len() < 4 {
            return Err(KvError::MalformedPage);
        }
        let max_page = read_u16_at(buf, 0) as PageNum;
        let count = read_u16_at(buf, 2) as usize;
        let blen = buf.len();
        if (blen - 4) / 8 < count {
            return Err(KvError::MalformedPage);
        }
        let mut released: Vec<PageNum> = Vec::new();
        let mut i: usize = 0;
        while i < count
            invariant
                i <= count,
                blen == buf@.len(),
                4 + 8 * count <= blen,
                released@ == spec_decode_released(buf@, i as int),
            decreases count - i,
        {
            let pg = read_u64_at(buf, 4 + 8 * i);
            released.push(pg);
            i = i + 1;
        }
        self.max_page = max_page;
        let ghost old_released = self.released_pages@;
        self.released_pages.append(&mut released);
        Ok(())
    }
}

proof fn lemma_released_bytes_len(pages: Seq<PageNum>, k: int)
    requires
        0 <= k,
    ensures
        spec_released_bytes(pages, k).len() == 8 * k,
    decreases k,
{
    lemma_auto_spec_u64_to_from_le_bytes();
    if k > 0 {
        lemma_released_bytes_len(pages, k - 1);
    }
}

proof fn lemma_released_bytes_slice(pages: Seq<PageNum>, m: int, k: int)
    requires
        0 < k <= m <= pages.len(),
    ensures
        spec_released_bytes(pages, m).subrange(8 * (k - 1), 8 * k) == spec_u64_to_le_bytes(
            pages[k - 1],
        ),
    decreases m,
{
    lemma_auto_spec_u64_to_from_le_bytes();
    lemma_released_bytes_len(pages, m - 1);
    let a = spec_released_bytes(pages, m - 1);
    let b = spec_u64_to_le_bytes(pages[m - 1]);
    assert(spec_released_bytes(pages, m) == a + b);
    if k == m {
        assert((a + b).subrange(8 * (k - 1), 8 * k) =~= b);
    } else {
        lemma_released_bytes_slice(pages, m - 1, k);
        assert((a + b).subrange(8 * (k - 1), 8 * k) =~= a.subrange(8 * (k - 1), 8 * k));
    }
}

proof fn lemma_decode_released_of_encoded(pages: Seq<PageNum>, buf: Seq<u8>, k: int)
    requires
        0 <= k <= pages.len(),
        buf.len() >= 4 + 8 * pages.len() as int,
        buf.subrange(4, 4 + 8 * pages.len() as int) == spec_released_bytes(pages, pages.len() as int),
    ensures
        spec_decode_released(buf, k) == pages.take(k),
    decreases k,
{
    lemma_auto_spec_u64_to_from_le_bytes();
    lemma_released_bytes_len(pages, pages.len() as int);
    if k > 0 {
        lemma_decode_released_of_encoded(pages, buf, k - 1);
        lemma_released_bytes_slice(pages, pages.len() as int, k);
        assert(buf.subrange(4 + 8 * (k - 1), 4 + 8 * k) =~= buf.subrange(
            4,
            4 + 8 * pages.len() as int,
        ).subrange(8 * (k - 1), 8 * k));
        assert(pages.take(k) =~= pages.take(k - 1).push(pages[k - 1]));
    } else {
        assert(pages.take(0) =~= Seq::<PageNum>::empty());
    }
}

/// Encoding then decoding a free list from any buffer that starts with its
/// bytes yields the list back.
pub proof fn lemma_freelist_round_trip(f: FreelistModel, buf: Seq<u8>)
    requires
        f.wf(),
        buf.len() >= spec_freelist_bytes(f).len(),
        buf.subrange(0, spec_freelist_bytes(f).len() as int) == spec_freelist_bytes(f),
    ensures
        spec_decode_freelist(buf) == Some(f),
{
    lemma_auto_spec_u16_to_from_le_bytes();
    lemma_auto_spec_u64_to_from_le_bytes();
    lemma_released_bytes_len(f.released, f.released.len() as int);
    let fb = spec_freelist_bytes(f);
    let n = f.released.len() as int;
    assert(fb.len() == 4 + 8 * n);
    assert(buf.subrange(0, 2) =~= buf.subrange(0, fb.len() as int).subrange(0, 2));
    assert(buf.subrange(0, 2) =~= spec_u16_to_le_bytes(f.max_page as u16));
    assert(buf.subrange(2, 4) =~= buf.subrange(0, fb.len() as int).subrange(2, 4));
    assert(buf.subrange(2, 4) =~= spec_u16_to_le_bytes(f.released.len() as u16));
    assert(spec_u16_from_le_bytes(buf.subrange(0, 2)) == f.max_page as u16);
    assert(spec_u16_from_le_bytes(buf.subrange(2, 4)) == f.released.len() as u16);
    assert(buf.subrange(4, 4 + 8 * n) =~= buf.subrange(0, fb.len() as int).subrange(
        4,
        4 + 8 * n,
    ));
    assert(buf.subrange(4, 4 + 8 * n) =~= spec_released_bytes(f.released, n));
    lemma_decode_released_of_encoded(f.released, buf, n);
    assert(f.released.take(n) =~= f.released);
    let d = spec_decode_freelist(buf).unwrap();
    assert(d =~= f);
}

/// One allocation step of the free list: `page` is the most recently
/// released page if any was released, else the page past the watermark.
pub open spec fn spec_alloc(before: FreelistModel, after: FreelistModel, page: PageNum) -> bool {
    if before.released.len() > 0 {
        &&& page == before.released.last()
        &&& after.released == before.released.drop_last()
        &&& after.max_page == before.max_page
    } else {
        &&& page == before.max_page + 1
        &&& after.max_page == before.max_page + 1
        &&& after.released == before.released
    }
}

/// `after` holds an initial run of `before`'s released pages: allocations
/// took pages off the end and nothing was released.
pub open spec fn spec_released_prefix(after: FreelistModel, before: FreelistModel) -> bool {
    &&& after.released.len() <= before.released.len()
    &&& forall|i: int|
        0 <= i < after.released.len() ==> after.released[i] == #[trigger] before.released[i]
}

/// Configuration of the data access layer.  The fill bounds are given in
/// basis points (hundredths of a percent) of the page size.
pub struct DataAccessLayerConfig {
    pub page_size: usize,
    pub min_fill_bp: u64,
    pub max_fill_bp: u64,
}

impl DataAccessLayerConfig {
    /// Pages must hold the meta record and be addressable by the codec's
    /// 2-byte blob offsets; fill bounds are fractions of the page.
    pub open spec fn wf(self) -> bool {
        &&& 32 <= self.page_size <= 0x10000
        &&& self.min_fill_bp <= 10000
        &&& self.max_fill_bp <= 10000
    }

    /// 4096-byte pages, minimum fill 50%, maximum fill 95%.
    pub fn default() -> (r: DataAccessLayerConfig)
        ensures
            r.page_size == 4096,
            r.min_fill_bp == 5000,
            r.max_fill_bp == 9500,
            r.wf(),
    {
        DataAccessLayerConfig { page_size: 4096, min_fill_bp: 5000, max_fill_bp: 9500 }
    }
}

/// One page of the file image: its number and its buffer.
pub struct Page {
    pub num: PageNum,
    pub data: ByteString,
}

/// A page of zero bytes.
pub open spec fn spec_zero_page(page_size: int) -> Seq<u8> {
    Seq::new(page_size as nat, |i: int| 0u8)
}

/// `bytes` padded with zeros to a full page.
pub open spec fn spec_padded(bytes: Seq<u8>, page_size: int) -> Seq<u8> {
    bytes + Seq::new((page_size - bytes.len()) as nat, |i: int| 0u8)
}

/// `image` extended with zero pages until it has at least `target` pages.
pub open spec fn spec_grown(image: Seq<Seq<u8>>, page_size: int, target: int) -> Seq<Seq<u8>> {
    if image.len() >= target {
        image
    } else {
        image + Seq::new((target - image.len()) as nat, |i: int| spec_zero_page(page_size))
    }
}

/// The data access layer: the file image as one buffer per page, plus the
/// meta record, the free list, and the configuration.
pub struct DataAccessLayer {
    pub pages: Vec<ByteString>,
    pub page_size: usize,
    pub freelist: Freelist,
    pub meta: Meta,
    pub min_fill_bp: u64,
    pub max_fill_bp: u64,
}

impl DataAccessLayer {
    /// The file image as byte sequences, one per page.
    pub open spec fn image(self) -> Seq<Seq<u8>> {
        self.pages@.map_values(|p: ByteString| p@)
    }

    /// The configuration is sound, every page buffer has the configured
    /// size, the image is addressable by the free list's 16-bit watermark,
    /// and the free list is well formed.
    pub open spec fn wf(self) -> bool {
        &&& 32 <= self.page_size <= 0x10000
        &&& self.min_fill_bp <= 10000
        &&& self.max_fill_bp <= 10000
        &&& self.image().len() <= 0x10000
        &&& (forall|i: int|
            0 <= i < self.image().len() ==> (#[trigger] self.image()[i]).len() == self.page_size)
        &&& self.freelist@.wf()
    }

    /// Everything but the image and the free list is unchanged.
    pub open spec fn same_config(self, other: DataAccessLayer) -> bool {
        &&& self.page_size == other.page_size
        &&& self.min_fill_bp == other.min_fill_bp
        &&& self.max_fill_bp == other.max_fill_bp
        &&& self.meta == other.meta
    }

    /// `min_fill_percent × page_size`, in bytes.
    pub open spec fn spec_min_threshold(self) -> int {
        (self.page_size as int) * (self.min_fill_bp as int) / 10000
    }

    /// `max_fill_percent × page_size`, in bytes.
    pub open spec fn spec_max_threshold(self) -> int {
        (self.page_size as int) * (self.max_fill_bp as int) / 10000
    }

    /// A zero-filled page buffer with no page number assigned.
    pub fn allocate_empty_page(&self) -> (r: Page)
        ensures
            r.num == 0,
            r.data@ == spec_zero_page(self.page_size as int),
    {
        let p = Page { num: 0, data: vec![0u8; self.page_size] };
        proof {
            assert(p.data@ =~= spec_zero_page(self.page_size as int));
        }
        p
    }

    /// Read page `page_num` of the image into a fresh buffer.
    pub fn read_page(&self, page_num: PageNum) -> (r: Result<Page, KvError>)
        requires
            self.wf(),
        ensures
            match r {
                Ok(p) => {
                    &&& page_num < self.image().len()
                    &&& p.num == page_num
                    &&& p.data@ == self.image()[page_num as int]
                    &&& p.data@.len() == self.page_size
                },
                Err(e) => {
                    &&& e == KvError::IoError
                    &&& page_num >= self.image().len()
                },
            },
    {
        if page_num >= self.pages.len() as u64 {
            return Err(KvError::IoError);
        }
        let data = slice_to_vec(self.pages[page_num as usize].as_slice());
        Ok(Page { num: page_num, data })
    }

    /// Write `p`'s buffer to page `p.num`, growing the image with zero
    /// pages if it ends before that page.
    pub fn write_page(&mut self, p: &Page) -> (r: Result<(), KvError>)
        requires
            old(self).wf(),
        ensures
            final (self).wf(),
            old(self).same_config(*final (self)),
            final (self).freelist == old(self).freelist,
            match r {
                Ok(_) => {
                    &&& p.num <= 0xffff
                    &&& p.data@.len() == old(self).page_size
                    &&& final (self).image() == spec_grown(
                        old(self).image(),
                        old(self).page_size as int,
                        p.num + 1,
                    ).update(p.num as int, p.data@)
                },
                Err(e) => {
                    &&& e == KvError::IoError
                    &&& (p.num > 0xffff || p.data@.len() != old(self).page_size)
                    &&& *final (self) == *old(self)
                },
            },
    {
        if p.num > 0xffff || p.data.len() != self.page_size {
            return Err(KvError::IoError);
        }
        let target = p.num as usize;
        while self.pages.len() <= target
            invariant
                old(self).wf(),
                target <= 0xffff,
                self.page_size == old(self).page_size,
                self.meta == old(self).meta,
                self.freelist == old(self).freelist,
                self.min_fill_bp == old(self).min_fill_bp,
                self.max_fill_bp == old(self).max_fill_bp,
                old(self).image().len() <= self.pages@.len() <= 0x10000,
                self.pages@.len() <= target + 1 || self.pages@.len() == old(self).image().len(),
                self.image() =~= spec_grown(
                    old(self).image(),
                    old(self).page_size as int,
                    self.pages@.len() as int,
                ),
                forall|i: int|
                    0 <= i < self.image().len() ==> (#[trigger] self.image()[i]).len()
                        == self.page_size,
            decreases target + 1 - self.pages@.len(),
        {
            let z = vec![0u8; self.page_size];
            proof {
                assert(z@ =~= spec_zero_page(self.page_size as int));
            }
            let ghost prev = self.image();
            self.pages.push(z);
            proof {
                let oldim = old(self).image();
                let ps = old(self).page_size as int;
                let cur = self.image();
                let newlen = self.pages@.len() as int;
                assert(cur.len() == newlen);
                assert forall|i: int| 0 <= i < newlen implies cur[i] == spec_grown(
                    oldim,
                    ps,
                    newlen,
                )[i] by {
                    if i < newlen - 1 {
                        assert(cur[i] == prev[i]);
                        assert(prev[i] == spec_grown(oldim, ps, newlen - 1)[i]);
                    } else {
                        assert(cur[i] == z@);
                    }
                }
                assert(cur =~= spec_grown(oldim, ps, newlen));
            }
        }
        let fresh = slice_to_vec(p.data.as_slice());
        let ghost before = self.image();
        self.pages[target] = fresh;
        proof {
            assert(final (self).image() =~= before.update(target as int, p.data@));
            assert(before =~= spec_grown(
                old(self).image(),
                old(self).page_size as int,
                p.num + 1,
            ));
        }
        Ok(())
    }

    /// Encode `meta` into a fresh page and write it to page 0.
    pub fn write_meta(&mut self, meta: &Meta) -> (r: Result<Page, KvError>)
        requires
            old(self).wf(),
        ensures
            final (self).wf(),
            old(self).same_config(*final (self)),
            final (self).freelist == old(self).freelist,
            match r {
                Ok(pg) => {
                    &&& pg.num == META_PAGE_NUM
                    &&& pg.data@ == spec_padded(spec_meta_bytes(*meta), old(self).page_size as int)
                    &&& final (self).image() == spec_grown(
                        old(self).image(),
                        old(self).page_size as int,
                        1,
                    ).update(0, spec_padded(spec_meta_bytes(*meta), old(self).page_size as int))
                },
                Err(_) => false,
            },
    {
        let meta_bytes = meta.serialize();
        let mut pg = self.allocate_empty_page();
        write_bytes_at(&mut pg.data, 0, meta_bytes.as_slice());
        proof {
            assert(pg.data@ =~= spec_padded(spec_meta_bytes(*meta), self.page_size as int));
        }
        self.write_page(&pg)?;
        Ok(pg)
    }

    /// Read the meta record back from page 0.
    pub fn read_meta(&mut self) -> (r: Result<Meta, KvError>)
        requires
            old(self).wf(),
        ensures
            *final (self) == *old(self),
            match r {
                Ok(m) => {
                    &&& old(self).image().len() > 0
                    &&& m.root == spec_u64_from_le_bytes(old(self).image()[0].subrange(0, 8))
                    &&& m.freelist_page == spec_u64_from_le_bytes(
                        old(self).image()[0].subrange(8, 16),
                    )
                },
                Err(e) => {
                    &&& e == KvError::IoError
                    &&& old(self).image().len() == 0
                },
            },
    {
        let pg = self.read_page(META_PAGE_NUM)?;
        let mut meta = Meta::new();
        match meta.deserialize(pg.data.as_slice()) {
            Ok(_) => Ok(meta),
            Err(e) => Err(e),
        }
    }

    /// Encode the free list and write it to its page.
    pub fn write_freelist(&mut self) -> (r: Result<Page, KvError>)
        requires
            old(self).wf(),
        ensures
            final (self).wf(),
            old(self).same_config(*final (self)),
            final (self).freelist == old(self).freelist,
            match r {
                Ok(pg) => {
                    &&& 4 + 8 * old(self).freelist@.released.len() <= old(self).page_size
                    &&& old(self).meta.freelist_page <= 0xffff
                    &&& pg.num == old(self).meta.freelist_page
                    &&& pg.data@ == spec_padded(
                        spec_freelist_bytes(old(self).freelist@),
                        old(self).page_size as int,
                    )
                    &&& final (self).image() == spec_grown(
                        old(self).image(),
                        old(self).page_size as int,
                        old(self).meta.freelist_page + 1,
                    ).update(old(self).meta.freelist_page as int, pg.data@)
                },
                Err(e) => {
                    &&& e == KvError::IoError
                    &&& (4 + 8 * old(self).freelist@.released.len() > old(self).page_size || old(
                        self,
                    ).meta.freelist_page > 0xffff)
                    &&& *final (self) == *old(self)
                },
            },
    {
        let buf = self.freelist.serialize();
        if buf.len() > self.page_size {
            return Err(KvError::IoError);
        }
        let mut pg = self.allocate_empty_page();
        pg.num = self.meta.freelist_page;
        write_bytes_at(&mut pg.data, 0, buf.as_slice());
        proof {
            assert(pg.data@ =~= spec_padded(
                spec_freelist_bytes(self.freelist@),
                self.page_size as int,
            ));
        }
        self.write_page(&pg)?;
        Ok(pg)
    }

    /// Read the free list back from the page the meta record names.
    pub fn read_freelist(&mut self) -> (r: Result<Freelist, KvError>)
        requires
            old(self).wf(),
        ensures
            *final (self) == *old(self),
            match r {
                Ok(f) => {
                    &&& old(self).meta.freelist_page < old(self).image().len()
                    &&& spec_decode_freelist(
                        old(self).image()[old(self).meta.freelist_page as int],
                    ) == Some(f@)
                    &&& f@.wf()
                },
                Err(e) => match e {
                    KvError::IoError => old(self).meta.freelist_page >= old(self).image().len(),
                    KvError::MalformedPage => {
                        &&& old(self).meta.freelist_page < old(self).image().len()
                        &&& match spec_decode_freelist(
                            old(self).image()[old(self).meta.freelist_page as int],
                        ) {
                            Some(f) => !f.wf(),
                            None => true,
                        }
                    },
                    _ => false,
                },
            },
    {
        let pg = self.read_page(self.meta.freelist_page)?;
        let mut freelist = Freelist::new();
        match freelist.deserialize(pg.data.as_slice()) {
            Ok(_) => {},
            Err(e) => {
                return Err(e);
            },
        }
        proof {
            let f = spec_decode_freelist(pg.data@).unwrap();
            assert(freelist@.released =~= f.released);
            assert(freelist@ =~= f);
        }
        if !freelist.is_wf() {
            return Err(KvError::MalformedPage);
        }
        Ok(freelist)
    }

    /// Encode `node` and write it to its page, assigning a fresh page
    /// number first when it has none.  Returns the page number written.
    pub fn write_node(&mut self, node: &Node) -> (r: Result<PageNum, KvError>)
        requires
            old(self).wf(),
        ensures
            final (self).wf(),
            old(self).same_config(*final (self)),
            match r {
                Ok(p) => {
                    &&& spec_encodable(node@, old(self).page_size as int)
                    &&& p != 0 && p <= 0xffff
                    &&& (node.page_num != 0 ==> p == node.page_num && final (self).freelist == old(
                        self,
                    ).freelist)
                    &&& (node.page_num == 0 ==> spec_alloc(
                        old(self).freelist@,
                        final (self).freelist@,
                        p,
                    ))
                    &&& spec_decode(final (self).image()[p as int]) == Some(node@)
                    &&& final (self).image() == spec_grown(
                        old(self).image(),
                        old(self).page_size as int,
                        p + 1,
                    ).update(p as int, final (self).image()[p as int])
                },
                Err(e) => {
                    &&& *final (self) == *old(self)
                    &&& match e {
                        KvError::MalformedPage => !spec_encodable(
                            node@,
                            old(self).page_size as int,
                        ),
                        KvError::IoError => {
                            &&& spec_encodable(node@, old(self).page_size as int)
                            &&& (node.page_num > 0xffff || (node.page_num == 0 && old(
                                self,
                            ).freelist@.released.len() == 0 && old(self).freelist@.max_page
                                == 0xffff))
                        },
                        _ => false,
                    }
                },
            },
    {
        if !node.encodable(self.page_size) {
            return Err(KvError::MalformedPage);
        }
        let mut pg = self.allocate_empty_page();
        if node.page_num == 0 {
            if !self.freelist.can_allocate() {
                return Err(KvError::IoError);
            }
            pg.num = self.freelist.next_page();
        } else {
            if node.page_num > 0xffff {
                return Err(KvError::IoError);
            }
            pg.num = node.page_num;
        }
        node.serialize(&mut pg.data)?;
        self.write_page(&pg)?;
        Ok(pg.num)
    }

    /// Release `pgnum` back to the free list.  A page may be released only
    /// once.
    pub fn delete_node(&mut self, pgnum: PageNum)
        requires
            old(self).wf(),
            0 < pgnum <= old(self).freelist@.max_page,
            old(self).freelist@.released.len() < 0xffff,
            !old(self).freelist@.released.contains(pgnum),
        ensures
            final (self).wf(),
            old(self).same_config(*final (self)),
            final (self).image() == old(self).image(),
            final (self).freelist@.released == old(self).freelist@.released.push(pgnum),
            final (self).freelist@.max_page == old(self).freelist@.max_page,
    {
        self.freelist.release_page(pgnum);
    }

    /// Read page `pgnum` and decode the node stored on it.
    pub fn get_node(&self, pgnum: PageNum) -> (r: Result<Node, KvError>)
        requires
            self.wf(),
        ensures
            match r {
                Ok(n) => {
                    &&& pgnum < self.image().len()
                    &&& spec_decode(self.image()[pgnum as int]) == Some(
                        NodeModel { items: n@.items, children: n@.children },
                    )
                    &&& n.page_num == pgnum
                },
                Err(e) => match e {
                    KvError::IoError => pgnum >= self.image().len(),
                    KvError::MalformedPage => pgnum < self.image().len() && spec_decode(
                        self.image()[pgnum as int],
                    ) is None,
                    _ => false,
                },
            },
    {
        let pg = self.read_page(pgnum)?;
        let mut node = Node::new();
        match node.deserialize(pg.data.as_slice()) {
            Ok(_) => {},
            Err(e) => {
                return Err(e);
            },
        }
        node.page_num = pgnum;
        proof {
            let m = spec_decode(pg.data@).unwrap();
            assert(node@.items =~= m.items);
            assert(node@.children =~= m.children);
            assert(NodeModel { items: node@.items, children: node@.children } =~= m);
        }
        Ok(node)
    }

    /// `max_fill_percent × page_size`, in bytes.
    pub fn max_threshold(&self) -> (r: usize)
        requires
            self.wf(),
        ensures
            r == self.spec_max_threshold(),
    {
        proof {
            assert((self.page_size as int) * (self.max_fill_bp as int) <= 655360000)
                by (nonlinear_arith)
                requires
                    self.page_size <= 0x10000,
                    self.max_fill_bp <= 10000,
            ;
        }
        ((self.page_size as u64) * self.max_fill_bp / 10000) as usize
    }

    /// The node's size estimate exceeds the maximum fill threshold, so a
    /// completed insertion must split it.
    pub fn is_over_populated(&self, n: &Node) -> (r: bool)
        requires
            self.wf(),
            n@.items.len() <= 0x10000,
            forall|i: int| 0 <= i < n@.items.len() ==> crate::node::item_fits(#[trigger] n@.items[i]),
        ensures
            r == (crate::node::spec_size(n@) > self.spec_max_threshold()),
    {
        n.size() > self.max_threshold()
    }

    /// `min_fill_percent × page_size`, in bytes.
    pub fn min_threshold(&self) -> (r: usize)
        requires
            self.wf(),
        ensures
            r == self.spec_min_threshold(),
    {
        proof {
            assert((self.page_size as int) * (self.min_fill_bp as int) <= 655360000)
                by (nonlinear_arith)
                requires
                    self.page_size <= 0x10000,
                    self.min_fill_bp <= 10000,
            ;
        }
        ((self.page_size as u64) * self.min_fill_bp / 10000) as usize
    }

    /// The node's size estimate falls short of the minimum fill threshold.
    pub fn is_under_populated(&self, n: &Node) -> (r: bool)
        requires
            self.wf(),
            n@.items.len() <= 0x10000,
            forall|i: int| 0 <= i < n@.items.len() ==> crate::node::item_fits(#[trigger] n@.items[i]),
        ensures
            r == (crate::node::spec_size(n@) < self.spec_min_threshold()),
    {
        n.size() < self.min_threshold()
    }

    /// The index at which to split `node`: one past the smallest prefix
    /// whose estimated size exceeds the minimum threshold, provided at
    /// least one item is left behind.  `NotSplittable` when no prefix
    /// qualifies.
    pub fn get_split_index(&self, node: &Node) -> (r: Result<usize, KvError>)
        requires
            self.wf(),
            node@.items.len() <= 0x10000,
            forall|i: int| 0 <= i < node@.items.len() ==> crate::node::item_fits(#[trigger] node@.items[i]),
        ensures
            match r {
                Ok(s) => {
                    &&& Some(s as int) == crate::node::spec_split_index(
                        node@.items,
                        self.spec_min_threshold(),
                    )
                    &&& 1 <= s < node@.items.len()
                    &&& crate::node::spec_size_prefix(node@.items, s as int)
                        > self.spec_min_threshold()
                    &&& forall|k: int|
                        1 <= k < s ==> crate::node::spec_size_prefix(node@.items, k)
                            <= self.spec_min_threshold()
                },
                Err(e) => {
                    &&& e == KvError::NotSplittable
                    &&& crate::node::spec_split_index(node@.items, self.spec_min_threshold())
                        is None
                    &&& forall|k: int|
                        1 <= k <= node@.items.len() - 1 ==> crate::node::spec_size_prefix(
                            node@.items,
                            k,
                        ) <= self.spec_min_threshold()
                },
            },
    {
        let min_th = self.min_threshold();
        let mut size: usize = NODE_HEADER_SIZE;
        let mut idx: usize = 0;
        let n = node.items.len();
        while idx < n
            invariant
                self.wf(),
                idx <= n,
                n == node@.items.len(),
                n <= 0x10000,
                forall|j: int|
                    0 <= j < n ==> crate::node::item_fits(#[trigger] node@.items[j]),
                min_th == self.spec_min_threshold(),
                size == crate::node::spec_size_prefix(node@.items, idx as int),
                size <= NODE_HEADER_SIZE + 518 * idx,
                crate::node::spec_split_index(node@.items, self.spec_min_threshold())
                    == crate::node::spec_split_scan(
                    node@.items,
                    self.spec_min_threshold(),
                    idx as int,
                ),
                forall|k: int|
                    1 <= k <= idx && k <= n - 1 ==> crate::node::spec_size_prefix(node@.items, k)
                        <= min_th,
            decreases n - idx,
        {
            let e = node.element_size(idx);
            proof {
                assert(crate::node::item_fits(node@.items[idx as int]));
                assert(NODE_HEADER_SIZE + 518 * (idx + 1) == NODE_HEADER_SIZE + 518 * idx + 518);
            }
            size = size + e;
            if size > min_th && idx < n - 1 {
                return Ok(idx + 1);
            }
            idx = idx + 1;
        }
        Err(KvError::NotSplittable)
    }

    /// A node over `items` and `children` with a freshly allocated page
    /// number.
    pub fn new_node(&mut self, items: Vec<Item>, children: Vec<PageNum>) -> (r: Node)
        requires
            old(self).wf(),
            old(self).freelist@.released.len() > 0 || old(self).freelist@.max_page < 0xffff,
        ensures
            final (self).wf(),
            old(self).same_config(*final (self)),
            final (self).image() == old(self).image(),
            r@.items == items@.map_values(|it: Item| it@),
            r@.children == children@,
            spec_alloc(old(self).freelist@, final (self).freelist@, r.page_num),
            r.page_num != 0 && r.page_num <= 0xffff,
    {
        let page_num = self.freelist.next_page();
        Node { page_num, items, children }
    }
}

/// `bytes` cut into pages of `ps` bytes each.
pub open spec fn spec_chunks(bytes: Seq<u8>, ps: int) -> Seq<Seq<u8>> {
    Seq::new((bytes.len() as int / ps) as nat, |i: int| bytes.subrange(i * ps, i * ps + ps))
}

/// The first `k` pages of `image` laid out back to back.
pub open spec fn spec_image_concat(image: Seq<Seq<u8>>, k: int) -> Seq<u8>
    decreases k,
{
    if k <= 0 {
        Seq::empty()
    } else {
        spec_image_concat(image, k - 1) + image[k - 1]
    }
}

proof fn lemma_image_concat_len(image: Seq<Seq<u8>>, ps: int, k: int)
    requires
        0 <= k <= image.len(),
        forall|i: int| 0 <= i < image.len() ==> (#[trigger] image[i]).len() == ps,
    ensures
        spec_image_concat(image, k).len() == k * ps,
    decreases k,
{
    if k > 0 {
        lemma_image_concat_len(image, ps, k - 1);
        assert(image[k - 1].len() == ps);
        assert(spec_image_concat(image, k).len() == spec_image_concat(image, k - 1).len()
            + image[k - 1].len());
        assert((k - 1) * ps + ps == k * ps) by (nonlinear_arith);
    } else {
        assert(k * ps == 0) by (nonlinear_arith)
            requires
                k == 0,
        ;
    }
}

proof fn lemma_image_concat_slice(image: Seq<Seq<u8>>, ps: int, m: int, k: int)
    requires
        0 < k <= m <= image.len(),
        0 < ps,
        forall|i: int| 0 <= i < image.len() ==> (#[trigger] image[i]).len() == ps,
    ensures
        spec_image_concat(image, m).subrange((k - 1) * ps, k * ps) == image[k - 1],
    decreases m,
{
    lemma_image_concat_len(image, ps, m - 1);
    let a = spec_image_concat(image, m - 1);
    let b = image[m - 1];
    assert((k - 1) * ps + ps == k * ps) by (nonlinear_arith);
    if k == m {
        assert((a + b).subrange((k - 1) * ps, k * ps) =~= b);
    } else {
        lemma_image_concat_slice(image, ps, m - 1, k);
        assert(k * ps <= (m - 1) * ps) by (nonlinear_arith)
            requires
                k <= m - 1,
                0 < ps,
        ;
        assert((a + b).subrange((k - 1) * ps, k * ps) =~= a.subrange((k - 1) * ps, k * ps));
    }
}

/// Persistence round trip: a well-formed image whose page 0 starts with the
/// meta record's bytes and whose free-list page starts with the free list's
/// bytes can be written out back to back and opened again; the reopened
/// store sees the same pages, the same meta record and the same free list —
/// and therefore answers every search exactly as before.
pub proof fn lemma_persistence_round_trip(
    image: Seq<Seq<u8>>,
    ps: int,
    m: Meta,
    f: FreelistModel,
)
    requires
        32 <= ps <= 0x10000,
        0 < image.len() <= 0x10000,
        forall|i: int| 0 <= i < image.len() ==> (#[trigger] image[i]).len() == ps,
        f.wf(),
        image[0].subrange(0, 16) == spec_meta_bytes(m),
        m.freelist_page < image.len(),
        spec_freelist_bytes(f).len() <= ps,
        image[m.freelist_page as int].subrange(0, spec_freelist_bytes(f).len() as int)
            == spec_freelist_bytes(f),
    ensures
        ({
            let bytes = spec_image_concat(image, image.len() as int);
            &&& bytes.len() == image.len() * ps
            &&& bytes.len() as int % ps == 0
            &&& spec_chunks(bytes, ps) == image
            &&& spec_u64_from_le_bytes(image[0].subrange(0, 8)) == m.root
            &&& spec_u64_from_le_bytes(image[0].subrange(8, 16)) == m.freelist_page
            &&& spec_decode_freelist(image[m.freelist_page as int]) == Some(f)
        }),
{
    let n = image.len() as int;
    lemma_image_concat_len(image, ps, n);
    let bytes = spec_image_concat(image, n);
    vstd::arithmetic::div_mod::lemma_mod_multiples_basic(n, ps);
    vstd::arithmetic::div_mod::lemma_div_multiples_vanish(n, ps);
    assert(bytes.len() as int == n * ps);
    assert(n * ps == ps * n) by (nonlinear_arith);
    assert(bytes.len() as int % ps == 0);
    assert(bytes.len() as int / ps == n);
    let chunks = spec_chunks(bytes, ps);
    assert(chunks.len() == n);
    assert forall|i: int| 0 <= i < n implies chunks[i] == image[i] by {
        lemma_image_concat_slice(image, ps, n, i + 1);
        assert(i * ps == (i + 1 - 1) * ps);
        assert((i + 1) * ps == i * ps + ps) by (nonlinear_arith);
        assert(chunks[i] == bytes.subrange(i * ps, i * ps + ps));
    }
    assert(chunks =~= image);
    lemma_meta_round_trip(m, image[0]);
    lemma_freelist_round_trip(f, image[m.freelist_page as int]);
}

/// Persistence round trip, end to end at the store's own API: a well-formed
/// store whose meta page and free-list page hold their records — the state
/// [`DataAccessLayer::write_freelist`] followed by
/// [`DataAccessLayer::write_meta`] leaves behind — can be flattened by
/// [`DataAccessLayer::to_bytes`] and opened again by
/// [`DataAccessLayer::new`]: the byte string passes `new`'s checks and cuts
/// back into exactly the same pages, the same meta record and the same free
/// list, so every search answers as before.
pub proof fn lemma_saved_store_round_trip(d: DataAccessLayer)
    requires
        d.wf(),
        d.image().len() > 0,
        d.image()[0] == spec_padded(spec_meta_bytes(d.meta), d.page_size as int),
        d.meta.freelist_page < d.image().len(),
        4 + 8 * d.freelist@.released.len() <= d.page_size,
        d.image()[d.meta.freelist_page as int] == spec_padded(
            spec_freelist_bytes(d.freelist@),
            d.page_size as int,
        ),
    ensures
        ({
            let bytes = spec_image_concat(d.image(), d.image().len() as int);
            let ps = d.page_size as int;
            &&& bytes.len() > 0
            &&& bytes.len() as int % ps == 0
            &&& bytes.len() as int / ps == d.image().len()
            &&& spec_chunks(bytes, ps) == d.image()
            &&& spec_u64_from_le_bytes(d.image()[0].subrange(0, 8)) == d.meta.root
            &&& spec_u64_from_le_bytes(d.image()[0].subrange(8, 16)) == d.meta.freelist_page
            &&& spec_decode_freelist(d.image()[d.meta.freelist_page as int]) == Some(d.freelist@)
        }),
{
    let ps = d.page_size as int;
    let mb = spec_meta_bytes(d.meta);
    let fb = spec_freelist_bytes(d.freelist@);
    lemma_auto_spec_u16_to_from_le_bytes();
    lemma_auto_spec_u64_to_from_le_bytes();
    lemma_released_bytes_len(d.freelist@.released, d.freelist@.released.len() as int);
    assert(mb.len() == 16);
    assert(fb.len() == 4 + 8 * d.freelist@.released.len());
    // the records sit at the front of their zero-padded pages
    assert(d.image()[0].subrange(0, 16) =~= mb);
    assert(d.image()[d.meta.freelist_page as int].subrange(0, fb.len() as int) =~= fb);
    lemma_persistence_round_trip(d.image(), ps, d.meta, d.freelist@);
    let n = d.image().len() as int;
    vstd::arithmetic::div_mod::lemma_div_multiples_vanish(n, ps);
    assert(n * ps == ps * n) by (nonlinear_arith);
    assert(spec_image_concat(d.image(), n).len() as int / ps == n);
}

impl DataAccessLayer {
    /// Open a store held in `image`, or create a fresh one when `image` is
    /// empty.
    ///
    /// A fresh store allocates page 1 for the free list, persists the free
    /// list and then the meta record.  An existing image is cut into pages;
    /// the meta record is read from page 0 and the free list from the page
    /// it names.
    pub fn new(image: &[u8], options: &DataAccessLayerConfig) -> (r: Result<
        DataAccessLayer,
        KvError,
    >)
        requires
            options.wf(),
        ensures
            match r {
                Ok(d) => {
                    &&& d.wf()
                    &&& d.page_size == options.page_size
                    &&& d.min_fill_bp == options.min_fill_bp
                    &&& d.max_fill_bp == options.max_fill_bp
                    &&& if image@.len() == 0 {
                        let ps = options.page_size as int;
                        &&& d.meta == (Meta { freelist_page: 1, root: 0 })
                        &&& d.freelist@ == (FreelistModel {
                            max_page: 1,
                            released: Seq::<PageNum>::empty(),
                        })
                        &&& d.image().len() == 2
                        &&& d.image()[0] == spec_padded(spec_meta_bytes(d.meta), ps)
                        &&& d.image()[1] == spec_padded(spec_freelist_bytes(d.freelist@), ps)
                    } else {
                        let ps = options.page_size as int;
                        &&& image@.len() as int % ps == 0
                        &&& d.image() == spec_chunks(image@, ps)
                        &&& d.meta.root == spec_u64_from_le_bytes(d.image()[0].subrange(0, 8))
                        &&& d.meta.freelist_page == spec_u64_from_le_bytes(
                            d.image()[0].subrange(8, 16),
                        )
                        &&& d.meta.freelist_page < d.image().len()
                        &&& spec_decode_freelist(d.image()[d.meta.freelist_page as int]) == Some(
                            d.freelist@,
                        )
                    }
                },
                Err(e) => {
                    &&& image@.len() > 0
                    &&& {
                        let ps = options.page_size as int;
                        let chunks = spec_chunks(image@, ps);
                        match e {
                            KvError::IoError => image@.len() as int % ps != 0 || image@.len() as int / ps
                                > 0x10000 || (image@.len() as int % ps == 0 && image@.len() as int / ps <= 0x10000
                                && spec_u64_from_le_bytes(chunks[0].subrange(8, 16))
                                >= chunks.len()),
                            KvError::MalformedPage => {
                                &&& image@.len() as int % ps == 0
                                &&& image@.len() as int / ps <= 0x10000
                                &&& spec_u64_from_le_bytes(chunks[0].subrange(8, 16))
                                    < chunks.len()
                                &&& match spec_decode_freelist(
                                    chunks[spec_u64_from_le_bytes(
                                        chunks[0].subrange(8, 16),
                                    ) as int],
                                ) {
                                    Some(f) => !f.wf(),
                                    None => true,
                                }
                            },
                            _ => false,
                        }
                    }
                },
            },
    {
        if image.len() == 0 {
            let mut dal = DataAccessLayer {
                pages: Vec::new(),
                page_size: options.page_size,
                freelist: Freelist::new(),
                meta: Meta::new(),
                min_fill_bp: options.min_fill_bp,
                max_fill_bp: options.max_fill_bp,
            };
            proof {
                assert(dal.image() =~= Seq::<Seq<u8>>::empty());
            }
            dal.meta.freelist_page = dal.freelist.next_page();
            dal.write_freelist()?;
            let meta_clone = dal.meta;
            dal.write_meta(&meta_clone)?;
            proof {
                assert(dal.image().len() == 2);
            }
            Ok(dal)
        } else {
            let ps = options.page_size;
            if image.len() % ps != 0 || image.len() / ps > 0x10000 {
                return Err(KvError::IoError);
            }
            let count = image.len() / ps;
            let ilen = image.len();
            proof {
                vstd::arithmetic::div_mod::lemma_fundamental_div_mod(ilen as int, ps as int);
                assert(ilen as int == (ps as int) * ((ilen as int) / (ps as int)) + (ilen as int)
                    % (ps as int));
                assert((ilen as int) % (ps as int) == 0);
                assert(count as int == (ilen as int) / (ps as int));
                assert(ilen as int == (ps as int) * (count as int));
            }
            let mut pages: Vec<ByteString> = Vec::new();
            let mut i: usize = 0;
            while i < count
                invariant
                    i <= count,
                    count == image@.len() as int / (ps as int),
                    image@.len() as int % (ps as int) == 0,
                    count * ps == ilen,
                    ilen == image@.len(),
                    32 <= ps <= 0x10000,
                    pages@.len() == i,
                    forall|j: int|
                        0 <= j < i ==> (#[trigger] pages@[j])@ == image@.subrange(
                            j * ps,
                            j * ps + ps,
                        ),
                decreases count - i,
            {
                proof {
                    assert((i + 1) * ps <= count * ps) by (nonlinear_arith)
                        requires
                            i + 1 <= count,
                            ps >= 0,
                    ;
                    assert(i * ps + ps == (i + 1) * ps) by (nonlinear_arith);
                }
                let chunk = slice_to_vec(&image[i * ps..i * ps + ps]);
                pages.push(chunk);
                i = i + 1;
            }
            let mut dal = DataAccessLayer {
                pages,
                page_size: options.page_size,
                freelist: Freelist::new(),
                meta: Meta::new(),
                min_fill_bp: options.min_fill_bp,
                max_fill_bp: options.max_fill_bp,
            };
            proof {
                assert(dal.image() =~= spec_chunks(image@, ps as int));
                assert forall|j: int|
                    0 <= j < dal.image().len() implies (#[trigger] dal.image()[j]).len()
                    == dal.page_size by {
                    assert(dal.pages@[j]@ == image@.subrange(
                        j * (ps as int),
                        j * (ps as int) + (ps as int),
                    ));
                    assert(0 <= j * (ps as int) && j * (ps as int) + (ps as int)
                        <= image@.len()) by (nonlinear_arith)
                        requires
                            0 <= j,
                            j + 1 <= (count as int),
                            (count as int) * (ps as int) == image@.len(),
                            32 <= (ps as int),
                    ;
                }
                assert(dal.wf());
            }
            dal.meta = dal.read_meta()?;
            dal.freelist = dal.read_freelist()?;
            Ok(dal)
        }
    }

    /// The whole image as one byte string, pages back to back.
    pub fn to_bytes(&self) -> (r: Vec<u8>)
        requires
            self.wf(),
        ensures
            r@ == spec_image_concat(self.image(), self.image().len() as int),
    {
        let mut out: Vec<u8> = Vec::new();
        let mut i: usize = 0;
        while i < self.pages.len()
            invariant
                i <= self.pages@.len(),
                out@ == spec_image_concat(self.image(), i as int),
            decreases self.pages@.len() - i,
        {
            let mut chunk = slice_to_vec(self.pages[i].as_slice());
            out.append(&mut chunk);
            i = i + 1;
        }
        out
    }
}

} // verus!
