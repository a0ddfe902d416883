use vstd::prelude::*;

verus! {

/// Errors reported by the storage layer.
#[derive(Debug, PartialEq)]
pub enum Error {
    /// A page index out of range for this file.
    IncorrectPageNumber,
    /// The file header does not carry the expected magic tag.
    CorruptedFile,
    /// Adding an item would break the slotted-page invariants.
    PageFull,
    /// No unpinned frame is left to evict.
    BufferPoolExhausted,
    /// A catalog lookup found no such relation.
    RelationNotFound,
    /// The database or relation being created already exists.
    AlreadyExists,
    /// An error of the underlying file system, by description.
    IO(String),
    /// A value could not be turned into bytes.
    Serialize(String),
    /// A sequence of bytes could not be turned into a value.
    Deserialize(String),
}

} // verus!

verus! {

use crate::bufpage::PAGE_SIZE;

/// Size in bytes of the file header that precedes the first page.
pub const HEADER_SIZE: usize = 100;

/// Length of the magic tag at the start of the file header.
pub const MAGIC_BYTES_SIZE: usize = 6;

/// Number of a data page within a file; the first data page is 1.
pub type PageNumber = u32;

/// The magic tag `"Tinydb"`.
pub open spec fn magic_spec() -> Seq<u8> {
    seq![84u8, 105u8, 110u8, 121u8, 100u8, 98u8]
}

/// The magic tag `"Tinydb"`.
pub fn magic_bytes() -> (r: Vec<u8>)
    ensures
        r@ == magic_spec(),
{
    let r: Vec<u8> = vec![84u8, 105u8, 110u8, 121u8, 100u8, 98u8];
    assert(r@ =~= magic_spec());
    r
}

/// In-memory copy of a file header.
#[derive(Debug, PartialEq)]
pub struct Header {
    magic: Vec<u8>,
}

/// The serialized header: the magic bytes followed by zeros up to `HEADER_SIZE`.
pub open spec fn header_bytes(magic: Seq<u8>) -> Seq<u8> {
    Seq::new(HEADER_SIZE as nat, |i: int| if i < magic.len() { magic[i] } else { 0u8 })
}

impl Header {
    /// The magic tag this header carries.
    pub closed spec fn magic_view(&self) -> Seq<u8> {
        self.magic@
    }

    pub open spec fn wf(&self) -> bool {
        self.magic_view().len() == MAGIC_BYTES_SIZE
    }

    pub fn default() -> (h: Header)
        ensures
            h.wf(),
            h.magic_view() == magic_spec(),
    {
        Header { magic: magic_bytes() }
    }

    /// The magic bytes, zero-padded to `HEADER_SIZE`.
    pub fn serialize(&self) -> (r: Result<Vec<u8>, Error>)
        requires
            self.wf(),
        ensures
            r matches Ok(b) && b@ == header_bytes(self.magic_view()),
    {
        let mut data: Vec<u8> = Vec::new();
        let mut i: usize = 0;
        while i < HEADER_SIZE
            invariant
                self.wf(),
                i <= HEADER_SIZE,
                data@ =~= header_bytes(self.magic_view()).subrange(0, i as int),
            decreases HEADER_SIZE - i,
        {
            if i < MAGIC_BYTES_SIZE {
                data.push(self.magic[i]);
            } else {
                data.push(0u8);
            }
            i = i + 1;
        }
        assert(data@ =~= header_bytes(self.magic_view()));
        Ok(data)
    }

    /// Reads a header from the first bytes of `data`.
    pub fn deserialize(data: &[u8]) -> (r: Result<Header, Error>)
        ensures
            r is Ok <==> data@.len() >= MAGIC_BYTES_SIZE,
            r matches Ok(h) ==> h.wf() && h.magic_view() == data@.subrange(0, MAGIC_BYTES_SIZE as int),
            r matches Err(e) ==> e is Deserialize,
    {
        if data.len() < MAGIC_BYTES_SIZE {
            return Err(Error::Deserialize(String::from_str("header is shorter than its magic tag")));
        }
        let mut magic: Vec<u8> = Vec::new();
        let mut i: usize = 0;
        while i < MAGIC_BYTES_SIZE
            invariant
                i <= MAGIC_BYTES_SIZE <= data@.len(),
                magic@ =~= data@.subrange(0, i as int),
            decreases MAGIC_BYTES_SIZE - i,
        {
            magic.push(data[i]);
            i = i + 1;
        }
        Ok(Header { magic })
    }

    /// Whether this header carries the expected magic tag.
    pub fn has_valid_magic(&self) -> (r: bool)
        requires
            self.wf(),
        ensures
            r == (self.magic_view() == magic_spec()),
    {
        let expected = magic_bytes();
        let mut i: usize = 0;
        while i < MAGIC_BYTES_SIZE
            invariant
                self.wf(),
                expected@ == magic_spec(),
                i <= MAGIC_BYTES_SIZE,
                forall|k: int| 0 <= k < i ==> self.magic_view()[k] == magic_spec()[k],
            decreases MAGIC_BYTES_SIZE - i,
        {
            if self.magic[i] != expected[i] {
                return false;
            }
            i = i + 1;
        }
        assert(self.magic_view() =~= magic_spec());
        true
    }
}

} // verus!

verus! {

/// An in-memory copy of one page.
#[derive(Debug, PartialEq)]
pub struct MemPage {
    /// Number of the page within its file.
    pub number: PageNumber,
    /// The page bytes, `PAGE_SIZE` of them.
    pub data: Vec<u8>,
}

/// Page `n` of `pages` when `1 <= n <= pages.len()`.
pub open spec fn read_page_spec(pages: Seq<Seq<u8>>, n: int) -> Option<Seq<u8>> {
    if 1 <= n <= pages.len() {
        Some(pages[n - 1])
    } else {
        None
    }
}

/// `pages` after page `n` is overwritten with `d`; unchanged when `n` is out of range.
pub open spec fn write_page_spec(pages: Seq<Seq<u8>>, n: int, d: Seq<u8>) -> Seq<Seq<u8>> {
    if 1 <= n <= pages.len() {
        pages.update(n - 1, d)
    } else {
        pages
    }
}

/// Byte offset of page `n` in the file.
pub open spec fn offset_spec(n: int) -> int {
    HEADER_SIZE + (n - 1) * PAGE_SIZE
}

/// The file image of a header and its pages: header bytes, then the pages in order.
pub open spec fn image_spec(magic: Seq<u8>, pages: Seq<Seq<u8>>) -> Seq<u8>
    decreases pages.len(),
{
    if pages.len() == 0 {
        header_bytes(magic)
    } else {
        image_spec(magic, pages.drop_last()) + pages.last()
    }
}

/// Number of whole pages in a file image of `len` bytes.
pub open spec fn pages_in_len(len: int) -> int {
    if len <= HEADER_SIZE {
        0
    } else {
        (len - HEADER_SIZE) / (PAGE_SIZE as int)
    }
}

/// Page access to a relation file, held as its header and its pages.
pub struct Pager {
    header: Header,
    pages: Vec<Vec<u8>>,
}

impl Pager {
    /// The pages of the file, in order.
    pub closed spec fn pages(&self) -> Seq<Seq<u8>> {
        self.pages@.map_values(|v: Vec<u8>| v@)
    }

    pub closed spec fn header_magic(&self) -> Seq<u8> {
        self.header.magic_view()
    }

    pub closed spec fn wf(&self) -> bool {
        &&& self.header.wf()
        &&& self.pages@.len() < u32::MAX
        &&& forall|i: int| 0 <= i < self.pages@.len() ==> #[trigger] self.pages@[i]@.len() == PAGE_SIZE
    }

    pub proof fn lemma_wf(&self)
        requires
            self.wf(),
        ensures
            self.pages().len() < u32::MAX,
            self.header_magic().len() == MAGIC_BYTES_SIZE,
            forall|i: int| 0 <= i < self.pages().len() ==> #[trigger] self.pages()[i].len() == PAGE_SIZE,
    {
    }

    /// Opens a file given its bytes. An empty file gets the default header; otherwise
    /// the first bytes must carry the magic tag. Trailing bytes short of a page are ignored.
    pub fn open(image: &[u8]) -> (r: Result<Pager, Error>)
        requires
            pages_in_len(image@.len() as int) < u32::MAX,
        ensures
            r is Ok <==> (image@.len() == 0 || (image@.len() >= MAGIC_BYTES_SIZE
                && image@.subrange(0, MAGIC_BYTES_SIZE as int) == magic_spec())),
            r matches Err(e) ==> e == Error::CorruptedFile,
            r matches Ok(p) ==> {
                &&& p.wf()
                &&& p.header_magic() == magic_spec()
                &&& p.pages().len() == pages_in_len(image@.len() as int)
                &&& forall|i: int| 0 <= i < p.pages().len() ==> #[trigger] p.pages()[i]
                    == image@.subrange(offset_spec(i + 1), offset_spec(i + 1) + PAGE_SIZE)
            },
    {
        if image.len() == 0 {
            let p = Pager { header: Header::default(), pages: Vec::new() };
            assert(p.pages() =~= Seq::<Seq<u8>>::empty());
            return Ok(p);
        }
        let header = match Header::deserialize(image) {
            Ok(h) => h,
            Err(_) => { return Err(Error::CorruptedFile); },
        };
        if !header.has_valid_magic() {
            return Err(Error::CorruptedFile);
        }
        let n: usize = if image.len() <= HEADER_SIZE { 0 } else { (image.len() - HEADER_SIZE) / PAGE_SIZE };
        let len = image.len();
        let mut pages: Vec<Vec<u8>> = Vec::new();
        let mut i: usize = 0;
        while i < n
            invariant
                len == image@.len(),
                n == pages_in_len(image@.len() as int),
                n < u32::MAX,
                i <= n,
                pages@.len() == i,
                forall|k: int| 0 <= k < i ==> #[trigger] pages@[k]@
                    == image@.subrange(offset_spec(k + 1), offset_spec(k + 1) + PAGE_SIZE),
            decreases n - i,
        {
            proof {
                assert(HEADER_SIZE + (i + 1) * PAGE_SIZE <= HEADER_SIZE + n * PAGE_SIZE) by (nonlinear_arith)
                    requires i < n;
                assert(n * PAGE_SIZE <= image@.len() - HEADER_SIZE) by (nonlinear_arith)
                    requires n == (image@.len() - HEADER_SIZE) / (PAGE_SIZE as int), image@.len() > HEADER_SIZE;
                assert(HEADER_SIZE + i * PAGE_SIZE + PAGE_SIZE <= len);
            }
            let start = HEADER_SIZE + i * PAGE_SIZE;
            let mut page: Vec<u8> = Vec::new();
            let mut j: usize = 0;
            while j < PAGE_SIZE
                invariant
                    start + PAGE_SIZE <= image@.len(),
                    len == image@.len(),
                    j <= PAGE_SIZE,
                    page@ =~= image@.subrange(start as int, start + j),
                decreases PAGE_SIZE - j,
            {
                page.push(image[start + j]);
                j = j + 1;
            }
            pages.push(page);
            i = i + 1;
        }
        let p = Pager { header, pages };
        assert(p.header_magic() =~= magic_spec());
        Ok(p)
    }

    /// Byte offset of page `page` in the file.
    pub fn offset(page: PageNumber) -> (r: u64)
        requires
            page >= 1,
        ensures
            r == offset_spec(page as int),
    {
        assert((page as u64 - 1) * 16384 <= 0xffff_ffff * 16384) by (nonlinear_arith)
            requires page >= 1, page <= 0xffff_ffff;
        HEADER_SIZE as u64 + (page as u64 - 1) * PAGE_SIZE as u64
    }

    /// Checks that `page` names an existing page: `1 <= page <= size`.
    fn validate_page(&self, page: PageNumber) -> (r: Result<(), Error>)
        requires
            self.wf(),
        ensures
            r is Ok <==> read_page_spec(self.pages(), page as int) is Some,
            r matches Err(e) ==> e == Error::IncorrectPageNumber,
    {
        if page == 0 || page as usize > self.pages.len() {
            return Err(Error::IncorrectPageNumber);
        }
        Ok(())
    }

    /// Returns a copy of page `page`.
    pub fn read_page(&self, page: PageNumber) -> (r: Result<MemPage, Error>)
        requires
            self.wf(),
        ensures
            r is Ok <==> read_page_spec(self.pages(), page as int) is Some,
            r matches Ok(m) ==> m.number == page && Some(m.data@) == read_page_spec(self.pages(), page as int),
            r matches Err(e) ==> e == Error::IncorrectPageNumber,
    {
        self.validate_page(page)?;
        let data = self.pages[page as usize - 1].clone();
        Ok(MemPage { number: page, data })
    }

    /// Overwrites page `page.number` with `page.data`.
    pub fn write_page(&mut self, page: &MemPage) -> (r: Result<(), Error>)
        requires
            old(self).wf(),
            page.data@.len() == PAGE_SIZE,
        ensures
            final(self).wf(),
            r is Ok <==> read_page_spec(old(self).pages(), page.number as int) is Some,
            final(self).pages() == write_page_spec(old(self).pages(), page.number as int, page.data@),
            final(self).header_magic() == old(self).header_magic(),
            r matches Err(e) ==> e == Error::IncorrectPageNumber,
    {
        self.validate_page(page.number)?;
        let idx = page.number as usize - 1;
        self.pages.set(idx, page.data.clone());
        assert(self.pages() =~= old(self).pages().update(idx as int, page.data@));
        Ok(())
    }

    /// Appends a zeroed page to the file and returns its number.
    pub fn allocate_page(&mut self) -> (r: PageNumber)
        requires
            old(self).wf(),
            old(self).pages().len() < u32::MAX - 1,
        ensures
            final(self).wf(),
            final(self).pages() == old(self).pages().push(Seq::new(PAGE_SIZE as nat, |i: int| 0u8)),
            final(self).header_magic() == old(self).header_magic(),
            r == final(self).pages().len(),
    {
        let zero: Vec<u8> = zero_page();
        self.pages.push(zero);
        assert(self.pages() =~= old(self).pages().push(Seq::new(PAGE_SIZE as nat, |i: int| 0u8)));
        self.pages.len() as u32
    }

    /// Number of data pages in the file.
    pub fn size(&self) -> (r: Result<u32, Error>)
        requires
            self.wf(),
        ensures
            r matches Ok(n) && n == self.pages().len(),
    {
        Ok(self.pages.len() as u32)
    }

    /// Returns a copy of the file header.
    pub fn read_header(&self) -> (r: Result<Header, Error>)
        requires
            self.wf(),
        ensures
            r matches Ok(h) && h.wf() && h.magic_view() == self.header_magic(),
    {
        let magic = self.header.magic.clone();
        Ok(Header { magic })
    }

    /// Replaces the file header.
    pub fn write_header(&mut self, header: &Header) -> (r: Result<(), Error>)
        requires
            old(self).wf(),
            header.wf(),
        ensures
            r is Ok,
            final(self).wf(),
            final(self).header_magic() == header.magic_view(),
            final(self).pages() == old(self).pages(),
    {
        let magic = header.magic.clone();
        self.header = Header { magic };
        Ok(())
    }

    /// The bytes of the file: the serialized header, then every page in order.
    pub fn image(&self) -> (r: Vec<u8>)
        requires
            self.wf(),
        ensures
            r@ == image_spec(self.header_magic(), self.pages()),
    {
        let mut data = match self.header.serialize() {
            Ok(d) => d,
            Err(_) => Vec::new(),
        };
        let mut i: usize = 0;
        while i < self.pages.len()
            invariant
                self.wf(),
                i <= self.pages@.len(),
                data@ == image_spec(self.header_magic(), self.pages().subrange(0, i as int)),
            decreases self.pages@.len() - i,
        {
            assert(self.pages().subrange(0, i + 1).drop_last() =~= self.pages().subrange(0, i as int));
            data.extend_from_slice(self.pages[i].as_slice());
            i = i + 1;
        }
        assert(self.pages().subrange(0, self.pages@.len() as int) =~= self.pages());
        data
    }
}

/// A page of `PAGE_SIZE` zero bytes.
fn zero_page() -> (r: Vec<u8>)
    ensures
        r@ == Seq::new(PAGE_SIZE as nat, |i: int| 0u8),
{
    let mut r: Vec<u8> = Vec::new();
    let mut i: usize = 0;
    while i < PAGE_SIZE
        invariant
            i <= PAGE_SIZE,
            r@ =~= Seq::new(i as nat, |k: int| 0u8),
        decreases PAGE_SIZE - i,
    {
        r.push(0u8);
        i = i + 1;
    }
    r
}

/// Reading a page back after writing it yields the written bytes.
pub proof fn law_read_after_write(pages: Seq<Seq<u8>>, n: int, d: Seq<u8>)
    requires
        1 <= n <= pages.len(),
    ensures
        read_page_spec(write_page_spec(pages, n, d), n) == Some(d),
{
}

} // verus!