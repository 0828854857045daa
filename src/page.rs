//! The fixed 4096-byte block that the pager encrypts and stores, and its
//! explicit little-endian layout.
use crate::bytes::{
    copy_range, from_le16, le16, le32, lemma_le16, lemma_le32_at, push_bytes, push_u16, push_u32,
    read_u16, read_u32, u32_at, zeros,
};
use vstd::prelude::*;

verus! {

/// Bytes in the plaintext image of a page.
pub const PAGE_SIZE: usize = 4096;

/// Bytes of payload a page carries.
pub const DATA_SIZE: usize = 3997;

/// Bytes of reserved padding in the header.
pub const RESERVED_SIZE: usize = 88;

/// Kind byte of a page that holds a document or a tree node.
pub const KIND_DATA: u8 = 1;

/// Kind byte of the page that holds the primary index.
pub const KIND_INDEX: u8 = 2;

/// Where the header fields start in the image.
pub const AT_KIND: usize = 4;

pub const AT_USED: usize = 5;

pub const AT_NEXT: usize = 7;

pub const AT_RESERVED: usize = 11;

pub const AT_DATA: usize = 99;

/// One block of the database file, as held in memory.
pub struct Page {
    pub id: u32,
    /// 1 = data, 2 = index.
    pub page_type: u8,
    pub used_space: u16,
    /// Link to an overflow page; kept for later use.
    pub next_page: u32,
    pub reserved: Vec<u8>,
    pub data: Vec<u8>,
}

/// What a page holds, as plain values.
pub struct PageView {
    pub id: u32,
    pub page_type: u8,
    pub used_space: u16,
    pub next_page: u32,
    pub reserved: Seq<u8>,
    pub data: Seq<u8>,
}

impl View for Page {
    type V = PageView;

    open spec fn view(&self) -> PageView {
        PageView {
            id: self.id,
            page_type: self.page_type,
            used_space: self.used_space,
            next_page: self.next_page,
            reserved: self.reserved@,
            data: self.data@,
        }
    }
}

impl PageView {
    /// The buffers have their fixed sizes and the used space fits the payload.
    pub open spec fn wf(&self) -> bool {
        &&& self.reserved.len() == RESERVED_SIZE
        &&& self.data.len() == DATA_SIZE
        &&& self.used_space <= DATA_SIZE
    }

    /// The bytes of the payload that are in use.
    pub open spec fn used(&self) -> Seq<u8> {
        self.data.subrange(0, self.used_space as int)
    }
}

/// The 4096-byte image of a page: id, kind, used space, next link, reserved
/// bytes, payload, in that order, integers little-endian.
pub open spec fn image_of(p: PageView) -> Seq<u8> {
    le32(p.id) + seq![p.page_type] + le16(p.used_space) + le32(p.next_page) + p.reserved + p.data
}

/// The page that a 4096-byte image describes.
pub open spec fn page_of_image(b: Seq<u8>) -> PageView {
    PageView {
        id: u32_at(b, 0),
        page_type: b[AT_KIND as int],
        used_space: from_le16(b[AT_USED as int], b[AT_USED + 1]),
        next_page: u32_at(b, AT_NEXT as int),
        reserved: b.subrange(AT_RESERVED as int, AT_DATA as int),
        data: b.subrange(AT_DATA as int, PAGE_SIZE as int),
    }
}

/// Decoding the image of a page gives the page back.
pub proof fn lemma_image_round_trip(p: PageView)
    requires
        p.reserved.len() == RESERVED_SIZE,
        p.data.len() == DATA_SIZE,
    ensures
        image_of(p).len() == PAGE_SIZE,
        page_of_image(image_of(p)) == p,
{
    let b = image_of(p);
    assert(b.subrange(0, 4) =~= le32(p.id));
    lemma_le32_at(p.id, b, 0);
    assert(b.subrange(AT_NEXT as int, AT_NEXT + 4) =~= le32(p.next_page));
    lemma_le32_at(p.next_page, b, AT_NEXT as int);
    lemma_le16(p.used_space);
    assert(b[AT_USED as int] == le16(p.used_space)[0]);
    assert(b[AT_USED + 1] == le16(p.used_space)[1]);
    assert(b.subrange(AT_RESERVED as int, AT_DATA as int) =~= p.reserved);
    assert(b.subrange(AT_DATA as int, PAGE_SIZE as int) =~= p.data);
}

/// The page of the given id and kind whose payload starts with `bytes`, the
/// rest zero, with `bytes` as its used space and zeroed header padding.
pub open spec fn payload_page(id: u32, kind: u8, bytes: Seq<u8>) -> PageView {
    PageView {
        id,
        page_type: kind,
        used_space: bytes.len() as u16,
        next_page: 0,
        reserved: Seq::new(RESERVED_SIZE as nat, |i: int| 0u8),
        data: bytes + Seq::new((DATA_SIZE - bytes.len()) as nat, |i: int| 0u8),
    }
}

impl Page {
    /// An empty data page with the given id.
    pub fn new(id: u32) -> (r: Page)
        ensures
            r@.wf(),
            r.id == id,
            r.page_type == KIND_DATA,
            r.used_space == 0,
            r.next_page == 0,
            r@.reserved == Seq::new(RESERVED_SIZE as nat, |i: int| 0u8),
            r@.data == Seq::new(DATA_SIZE as nat, |i: int| 0u8),
    {
        Page {
            id,
            page_type: KIND_DATA,
            used_space: 0,
            next_page: 0,
            reserved: zeros(RESERVED_SIZE),
            data: zeros(DATA_SIZE),
        }
    }

    /// The 4096-byte image of the page.
    pub fn to_image(&self) -> (r: Vec<u8>)
        requires
            self.reserved@.len() == RESERVED_SIZE,
            self.data@.len() == DATA_SIZE,
        ensures
            r@ == image_of(self@),
            r@.len() == PAGE_SIZE,
    {
        let mut out: Vec<u8> = Vec::with_capacity(PAGE_SIZE);
        push_u32(&mut out, self.id);
        out.push(self.page_type);
        push_u16(&mut out, self.used_space);
        push_u32(&mut out, self.next_page);
        push_bytes(&mut out, self.reserved.as_slice());
        push_bytes(&mut out, self.data.as_slice());
        assert(out@ =~= image_of(self@));
        out
    }

    /// The page that a 4096-byte image describes.
    pub fn from_image(b: &[u8]) -> (r: Page)
        requires
            b@.len() == PAGE_SIZE,
        ensures
            r@ == page_of_image(b@),
    {
        Page {
            id: read_u32(b, 0),
            page_type: b[AT_KIND],
            used_space: read_u16(b, AT_USED),
            next_page: read_u32(b, AT_NEXT),
            reserved: copy_range(b, AT_RESERVED, AT_DATA),
            data: copy_range(b, AT_DATA, PAGE_SIZE),
        }
    }

    /// A page of the given kind whose payload starts with `bytes` and whose
    /// used space is their length.
    pub fn with_payload(id: u32, kind: u8, bytes: &[u8]) -> (r: Page)
        requires
            bytes@.len() <= DATA_SIZE,
        ensures
            r@.wf(),
            r.id == id,
            r.page_type == kind,
            r.used_space == bytes@.len(),
            r.next_page == 0,
            r@.used() == bytes@,
            r@ == payload_page(id, kind, bytes@),
    {
        let mut data: Vec<u8> = Vec::with_capacity(DATA_SIZE);
        push_bytes(&mut data, bytes);
        let mut i: usize = bytes.len();
        while i < DATA_SIZE
            invariant
                bytes@.len() <= i <= DATA_SIZE,
                data@.len() == i,
                data@ == bytes@ + Seq::new((i - bytes@.len()) as nat, |j: int| 0u8),
            decreases DATA_SIZE - i,
        {
            data.push(0u8);
            i = i + 1;
            assert(data@ =~= bytes@ + Seq::new((i - bytes@.len()) as nat, |j: int| 0u8));
        }
        let r = Page {
            id,
            page_type: kind,
            used_space: bytes.len() as u16,
            next_page: 0,
            reserved: zeros(RESERVED_SIZE),
            data,
        };
        assert(r@.used() =~= bytes@);
        assert(r@ =~= payload_page(id, kind, bytes@));
        r
    }

    /// A copy of the bytes of the payload that are in use.
    pub fn used_bytes(&self) -> (r: Vec<u8>)
        requires
            self@.wf(),
        ensures
            r@ == self@.used(),
    {
        copy_range(self.data.as_slice(), 0, self.used_space as usize)
    }
}

} // verus!
