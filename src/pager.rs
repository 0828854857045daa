//! The pager: page-granular authenticated encryption over the database file.
//! It holds the file's encrypted page records; page `k` is record `k`, the
//! bytes at `k * 4136`. Reading and writing the file itself is left to the
//! caller, which persists the records that `take_pending` names.
use crate::error::StoreError;
use crate::index::{enc_index, index_fits, PrimaryIndex};
use crate::order::key_seq;
use crate::page::{
    image_of, lemma_image_round_trip, page_of_image, payload_page, Page, PageView, DATA_SIZE,
    KIND_INDEX, PAGE_SIZE,
};
use crate::symmetric::{decrypt, encrypt, opens_to, KEY_SIZE};
use vstd::prelude::*;

verus! {

/// Bytes of one encrypted page on disk: nonce, ciphertext of the image, tag.
pub const ENCRYPTED_PAGE_SIZE: usize = 4136;

/// Relies on `std::io::Error::from(ErrorKind::UnexpectedEof)`: the error of a
/// read past the end of the file.
#[verifier::external_body]
fn unexpected_eof() -> (r: std::io::Error) {
    std::io::Error::from(std::io::ErrorKind::UnexpectedEof)
}

pub struct Pager {
    /// Encrypted record of each page, in page order.
    pub records: Vec<Vec<u8>>,
    pub total_pages: u32,
    pub master_key: [u8; KEY_SIZE],
    /// Pages written and not yet handed to the caller to persist.
    pub pending: Vec<u32>,
    pub index: PrimaryIndex,
}

/// What reading page `id` gives: `None` where the read fails as tampered.
pub open spec fn page_in_record(key: Seq<u8>, record: Seq<u8>) -> Option<PageView> {
    match opens_to(key, record) {
        Some(img) => if img.len() == PAGE_SIZE {
            Some(page_of_image(img))
        } else {
            None
        },
        None => None,
    }
}

/// Reading a page back after it was written gives the page that was written,
/// in every field.
pub proof fn lemma_read_after_write(pager: &Pager, page: PageView)
    requires
        pager.wf(),
        page.reserved.len() == crate::page::RESERVED_SIZE,
        page.data.len() == DATA_SIZE,
        page.id < pager.total(),
        pager.stores(page.id, image_of(page)),
    ensures
        pager.read_outcome(page.id) == Some(page),
{
    lemma_image_round_trip(page);
}

/// Page 0 opens, is an index page, and its payload is the encoding of `ix`.
pub open spec fn index_in_page_zero(p: &Pager, ix: PrimaryIndex) -> bool {
    &&& p.read_outcome(0) matches Some(pg)
    &&& pg.page_type == KIND_INDEX
    &&& pg.used_space <= DATA_SIZE
    &&& enc_index(key_seq(ix.keys@), ix.pages@) == pg.data.subrange(0, pg.used_space as int)
}

/// The index that `sync_index` wrote into page 0 is what a pager opened on
/// the same records under the same key loads: page 0 reads as an index page
/// holding its encoding, so `open` gives its map.
pub proof fn lemma_index_persists(written: &Pager, reopened: &Pager, ix: PrimaryIndex)
    requires
        written.wf(),
        reopened.wf(),
        ix.wf(),
        index_fits(key_seq(ix.keys@)),
        enc_index(key_seq(ix.keys@), ix.pages@).len() <= DATA_SIZE,
        written.stores(0, image_of(payload_page(0, KIND_INDEX, enc_index(key_seq(ix.keys@), ix.pages@)))),
        written.total() >= 1,
        reopened.records() == written.records(),
        reopened.key() == written.key(),
        reopened.total() >= 1,
    ensures
        index_in_page_zero(reopened, ix),
{
    let b = enc_index(key_seq(ix.keys@), ix.pages@);
    let pv = payload_page(0, KIND_INDEX, b);
    lemma_read_after_write(reopened, pv);
    assert(pv.data.subrange(0, pv.used_space as int) =~= b);
}

impl Pager {
    pub open spec fn records(&self) -> Seq<Seq<u8>> {
        self.records@.map_values(|r: Vec<u8>| r@)
    }

    pub open spec fn key(&self) -> Seq<u8> {
        self.master_key@
    }

    pub open spec fn total(&self) -> u32 {
        self.total_pages
    }

    pub open spec fn pending_ids(&self) -> Seq<u32> {
        self.pending@
    }

    pub open spec fn wf(&self) -> bool {
        &&& self.records().len() <= self.total()
        &&& forall|i: int| 0 <= i < self.records().len() ==> #[trigger] self.records()[i].len()
            == ENCRYPTED_PAGE_SIZE
        &&& self.key().len() == KEY_SIZE
        &&& self.index.wf()
    }

    /// Record `id` is on disk and opens to the image `img`.
    pub open spec fn stores(&self, id: u32, img: Seq<u8>) -> bool {
        &&& id < self.records().len()
        &&& opens_to(self.key(), self.records()[id as int]) == Some(img)
    }

    /// The outcome of reading page `id`, as `read_page` gives it: the page, or
    /// `None` on a failure.
    pub open spec fn read_outcome(&self, id: u32) -> Option<PageView> {
        if id >= self.total() || id >= self.records().len() {
            None
        } else {
            page_in_record(self.key(), self.records()[id as int])
        }
    }

    /// A pager over the bytes of a database file. The file's length must be a
    /// whole number of encrypted pages. Where page 0 opens, is an index page
    /// and its payload decodes as an index, that index is loaded; otherwise
    /// the index starts empty.
    pub fn open(image: &[u8], master_key: [u8; KEY_SIZE]) -> (r: Result<Pager, StoreError>)
        ensures
            r is Ok <==> image@.len() % (ENCRYPTED_PAGE_SIZE as nat) == 0 && image@.len()
                / (ENCRYPTED_PAGE_SIZE as nat) <= u32::MAX,
            r matches Err(e) ==> e is Serialization,
            r matches Ok(p) ==> {
                &&& p.wf()
                &&& p.total() == image@.len() / (ENCRYPTED_PAGE_SIZE as nat)
                &&& p.records().len() == p.total()
                &&& forall|i: int|
                    0 <= i < p.total() ==> #[trigger] p.records()[i] == image@.subrange(
                        i * ENCRYPTED_PAGE_SIZE,
                        (i + 1) * ENCRYPTED_PAGE_SIZE,
                    )
                &&& p.key() == master_key@
                &&& !p.index.dirty
                &&& p.pending_ids().len() == 0
                &&& p.index.keys@.len() > 0 ==> index_in_page_zero(&p, p.index)
                &&& !(p.read_outcome(0) matches Some(pg) && pg.page_type == KIND_INDEX && pg.used_space <= DATA_SIZE)
                    ==> p.index.keys@.len() == 0
                &&& forall|ix: PrimaryIndex|
                    ix.wf() && index_fits(key_seq(ix.keys@)) && #[trigger] index_in_page_zero(&p, ix)
                        ==> p.index@ == ix@
            },
    {
        if image.len() % ENCRYPTED_PAGE_SIZE != 0 {
            return Err(
                StoreError::Serialization(
                    "file length is not a whole number of pages".to_owned(),
                ),
            );
        }
        let image_len = image.len();
        let n = image_len / ENCRYPTED_PAGE_SIZE;
        if n > u32::MAX as usize {
            return Err(StoreError::Serialization("file has too many pages".to_owned()));
        }
        let mut records: Vec<Vec<u8>> = Vec::with_capacity(n);
        let mut i: usize = 0;
        proof {
            vstd::arithmetic::div_mod::lemma_fundamental_div_mod(image@.len() as int, ENCRYPTED_PAGE_SIZE as int);
            assert(image@.len() == n * ENCRYPTED_PAGE_SIZE);
        }
        while i < n
            invariant
                i <= n,
                image@.len() == n * ENCRYPTED_PAGE_SIZE,
                image@.len() == image_len,
                n == image@.len() / (ENCRYPTED_PAGE_SIZE as nat),
                image@.len() % (ENCRYPTED_PAGE_SIZE as nat) == 0,
                records@.len() == i,
                forall|j: int|
                    0 <= j < i ==> #[trigger] records@[j]@ == image@.subrange(
                        j * ENCRYPTED_PAGE_SIZE,
                        (j + 1) * ENCRYPTED_PAGE_SIZE,
                    ),
            decreases n - i,
        {
            proof {
                assert((i + 1) * ENCRYPTED_PAGE_SIZE <= n * ENCRYPTED_PAGE_SIZE) by (nonlinear_arith)
                    requires i + 1 <= n;
                assert(i * ENCRYPTED_PAGE_SIZE + ENCRYPTED_PAGE_SIZE == (i + 1) * ENCRYPTED_PAGE_SIZE) by (nonlinear_arith);
            }
            let rec = crate::bytes::copy_range(
                image,
                i * ENCRYPTED_PAGE_SIZE,
                (i + 1) * ENCRYPTED_PAGE_SIZE,
            );
            records.push(rec);
            i = i + 1;
        }
        let mut pager = Pager {
            records,
            total_pages: n as u32,
            master_key,
            pending: Vec::new(),
            index: PrimaryIndex::new(),
        };
        assert(pager.records() =~= pager.records@.map_values(|r: Vec<u8>| r@));
        if n > 0 {
            match pager.read_page(0) {
                Ok(page) => {
                    if page.page_type == KIND_INDEX && page.used_space as usize <= DATA_SIZE {
                        let used = page.used_bytes();
                        match PrimaryIndex::from_bytes(used.as_slice()) {
                            Ok(ix) => {
                                pager.index = ix;
                                assert(index_in_page_zero(&pager, pager.index));
                            },
                            Err(_) => {
                                assert forall|w: PrimaryIndex|
                                    w.wf() && index_fits(key_seq(w.keys@)) && #[trigger] index_in_page_zero(&pager, w)
                                        implies pager.index@ == w@ by {
                                    assert(enc_index(key_seq(w.keys@), w.pages@) == used@);
                                }
                            },
                        }
                    }
                },
                Err(_) => {},
            }
        }
        Ok(pager)
    }

    /// Pages that the file holds or that were handed out.
    pub fn total_pages(&self) -> (r: u32)
        ensures
            r == self.total(),
    {
        self.total_pages
    }

    /// The encrypted record of page `id`, as the file holds it.
    pub fn record(&self, id: u32) -> (r: Option<Vec<u8>>)
        ensures
            r is Some <==> id < self.records().len(),
            r matches Some(b) ==> b@ == self.records()[id as int],
    {
        if (id as usize) < self.records.len() {
            Some(self.records[id as usize].clone())
        } else {
            None
        }
    }

    /// The ids of the pages written since the last call, in order of writing,
    /// for the caller to persist; the list starts over.
    pub fn take_pending(&mut self) -> (r: Vec<u32>)
        ensures
            r@ == old(self).pending_ids(),
            final(self).pending_ids().len() == 0,
            final(self).records() == old(self).records(),
            final(self).total() == old(self).total(),
            final(self).key() == old(self).key(),
            final(self).index == old(self).index,
    {
        let mut out: Vec<u32> = Vec::new();
        std::mem::swap(&mut out, &mut self.pending);
        out
    }

    /// Encrypts the page's image under the master key with a fresh nonce and
    /// stores it as record `page.id`; records between the old end and it are
    /// zero-filled, as a file write past its end leaves them. The page count
    /// grows to cover `page.id`.
    pub fn write_page(&mut self, page: &Page) -> (r: Result<(), StoreError>)
        requires
            old(self).wf(),
            page.reserved@.len() == crate::page::RESERVED_SIZE,
            page.data@.len() == DATA_SIZE,
            page.id < u32::MAX,
        ensures
            r is Ok,
            final(self).wf(),
            final(self).stores(page.id, image_of(page@)),
            final(self).records().len() == if page.id < old(self).records().len() {
                old(self).records().len() as int
            } else {
                page.id + 1
            },
            forall|i: int|
                0 <= i < old(self).records().len() && i != page.id
                    ==> #[trigger] final(self).records()[i] == old(self).records()[i],
            final(self).total() == if page.id < old(self).total() {
                old(self).total()
            } else {
                (page.id + 1) as u32
            },
            final(self).key() == old(self).key(),
            final(self).index == old(self).index,
            final(self).pending_ids() == old(self).pending_ids().push(page.id),
    {
        let image = page.to_image();
        let key = self.master_key.as_slice();
        assert(key@ == self.key());
        let sealed = match encrypt(image.as_slice(), key) {
            Ok(s) => s,
            Err(_) => {
                return Err(StoreError::Tampered(page.id));
            },
        };
        let ghost old_records = self.records();
        assert forall|i: int| 0 <= i < self.records@.len() implies #[trigger] self.records@[i]@.len() == ENCRYPTED_PAGE_SIZE by {
            assert(self.records()[i].len() == ENCRYPTED_PAGE_SIZE);
        }
        let id = page.id as usize;
        if id < self.records.len() {
            self.records.set(id, sealed);
        } else {
            while self.records.len() < id
                invariant
                    self.records@.len() <= id,
                    self.index == old(self).index,
                    self.master_key == old(self).master_key,
                    self.total_pages == old(self).total_pages,
                    self.pending == old(self).pending,
                    old_records.len() <= self.records@.len(),
                    forall|i: int| 0 <= i < old_records.len() ==> #[trigger] self.records@[i]@ == old_records[i],
                    forall|i: int| 0 <= i < self.records@.len() ==> #[trigger] self.records@[i]@.len() == ENCRYPTED_PAGE_SIZE,
                decreases id - self.records@.len(),
            {
                self.records.push(crate::bytes::zeros(ENCRYPTED_PAGE_SIZE));
            }
            self.records.push(sealed);
        }
        if page.id >= self.total_pages {
            self.total_pages = page.id + 1;
        }
        self.pending.push(page.id);
        proof {
            assert(self.records()[page.id as int] == self.records@[page.id as int]@);

            assert(self.records().len() == self.records@.len());
            assert forall|i: int| 0 <= i < old_records.len() && i != page.id implies #[trigger] self.records()[i] == old_records[i] by {}
            assert(self.records()[page.id as int] == sealed@);
            assert forall|i: int| 0 <= i < self.records().len() implies #[trigger] self.records()[i].len() == ENCRYPTED_PAGE_SIZE by {
                assert(self.records@[i]@.len() == ENCRYPTED_PAGE_SIZE);
            }
        }
        Ok(())
    }

    /// Reads and decrypts page `id`. Fails with `PageNotFound` past the page
    /// count, with an I/O error where the file ends before the record, and
    /// with `Tampered` where the record does not open to a 4096-byte image.
    pub fn read_page(&self, id: u32) -> (r: Result<Page, StoreError>)
        requires
            self.wf(),
        ensures
            id >= self.total() ==> (r matches Err(StoreError::PageNotFound(x)) && x == id),
            id < self.total() && id >= self.records().len() ==> (r matches Err(StoreError::Io(_))),
            id < self.total() && id < self.records().len() ==> match page_in_record(self.key(), self.records()[id as int]) {
                Some(pv) => (r matches Ok(p) && p@ == pv),
                None => (r matches Err(StoreError::Tampered(x)) && x == id),
            },
            r matches Ok(p) ==> Some(p@) == self.read_outcome(id),
            r is Err ==> self.read_outcome(id) is None,
    {
        if id >= self.total_pages {
            return Err(StoreError::PageNotFound(id));
        }
        if id as usize >= self.records.len() {
            return Err(StoreError::Io(unexpected_eof()));
        }
        let rec = &self.records[id as usize];
        assert(rec@ == self.records()[id as int]);
        match decrypt(rec.as_slice(), self.master_key.as_slice()) {
            Err(_) => Err(StoreError::Tampered(id)),
            Ok(plain) => {
                if plain.len() != PAGE_SIZE {
                    return Err(StoreError::Tampered(id));
                }
                Ok(Page::from_image(plain.as_slice()))
            },
        }
    }

    /// Writes the index into page 0 (kind index, the encoded index as payload)
    /// when it changed since it was last written, and marks it clean. Fails
    /// with a serialisation error, changing nothing, when the index does not
    /// encode or its encoding exceeds a page's payload.
    pub fn sync_index(&mut self) -> (r: Result<(), StoreError>)
        requires
            old(self).wf(),
        ensures
            final(self).wf(),
            final(self).key() == old(self).key(),
            final(self).index.keys == old(self).index.keys,
            final(self).index.pages == old(self).index.pages,
            !old(self).index.dirty ==> r is Ok && final(self).records() == old(self).records()
                && final(self).total() == old(self).total() && !final(self).index.dirty,
            r matches Err(e) ==> e is Serialization && final(self).records() == old(self).records()
                && final(self).total() == old(self).total() && final(self).index.dirty,
            old(self).index.dirty && r is Ok ==> !final(self).index.dirty && final(self).stores(
                0,
                image_of(
                    payload_page(
                        0,
                        KIND_INDEX,
                        enc_index(key_seq(old(self).index.keys@), old(self).index.pages@),
                    ),
                ),
            ) && final(self).total() == if old(self).total() == 0 {
                1
            } else {
                old(self).total()
            },
            final(self).total() >= old(self).total(),
            final(self).records().len() >= old(self).records().len(),
            forall|i: int|
                0 < i < old(self).records().len() ==> #[trigger] final(self).records()[i] == old(
                    self,
                ).records()[i],
            old(self).index.dirty ==> (r is Ok <==> enc_index(
                key_seq(old(self).index.keys@),
                old(self).index.pages@,
            ).len() <= DATA_SIZE && old(self).index.keys@.len() <= u32::MAX && forall|i: int|
                0 <= i < old(self).index.keys@.len() ==> crate::bytes::str_fits(
                    #[trigger] old(self).index.keys@[i]@,
                )),
    {
        if !self.index.dirty {
            return Ok(());
        }
        let bytes = match self.index.to_bytes() {
            Ok(b) => b,
            Err(e) => {
                return Err(e);
            },
        };
        if bytes.len() > DATA_SIZE {
            return Err(StoreError::Serialization("Index too big for Page 0".to_owned()));
        }
        let page = Page::with_payload(0, KIND_INDEX, bytes.as_slice());
        self.write_page(&page)?;
        self.index.dirty = false;
        Ok(())
    }

    /// Hands out the next page id and counts it. Page 0 is kept for the index:
    /// on an empty file the first id is 1.
    pub fn allocate_page(&mut self) -> (r: u32)
        requires
            old(self).total() < u32::MAX - 1,
        ensures
            r == if old(self).total() == 0 {
                1
            } else {
                old(self).total()
            },
            final(self).total() == r + 1,
            final(self).records() == old(self).records(),
            final(self).key() == old(self).key(),
            final(self).index == old(self).index,
            final(self).pending_ids() == old(self).pending_ids(),
    {
        let id = if self.total_pages == 0 {
            1
        } else {
            self.total_pages
        };
        self.total_pages = id + 1;
        id
    }
}

} // verus!
