//! The image and entry-handle layer.
//!
//! A `TarImage` owns the archive bytes and serves random-offset range reads;
//! a `TarFile` is a read/seek view over one entry's data region that shares
//! the image through an `Arc` and keeps its own cursor. Because the shared
//! image is immutable after `open`, concurrent handles cannot observe each
//! other's cursors: every read is atomic with respect to other holders, and
//! no lock is needed. The scanner walks an image entry by entry against the
//! model in `scan`, threading the pending long-link payload as scan-local
//! state.

use std::sync::Arc;

use vstd::prelude::*;

use crate::scan::{
    file_type_of, hdr_read_model, link_of, scan_from, scan_model, EntryModel, HeaderReadModel,
    ScanEnd, ScanModel,
};
use crate::tar::{
    octal_value, read_tar_header, size_field, TarFileType, TarHeader,
};

verus! {

/// Why an archive operation failed; each variant that concerns a place in
/// the image carries the absolute byte offset implicated.
#[derive(Clone, Copy, Debug, PartialEq, Eq, Structural)]
pub enum TarError {
    /// Fewer bytes were available at the offset than were asked for.
    ShortRead(u64),
    /// The header block at the offset matches neither checksum convention.
    ChecksumMismatch(u64),
    /// A direct lookup at the offset found the archive terminator instead
    /// of an entry.
    NoEntry(u64),
    /// A seek computed a position outside `0..=u64::MAX`.
    InvalidSeek,
    /// An entry handle was taken for a kind it does not have.
    DowncastMismatch,
}

/// Why a scan stopped: the archive itself failed, or the visitor asked to.
#[derive(Debug, PartialEq, Eq)]
pub enum ScanError<E> {
    /// Reading or validating the archive failed.
    Archive(TarError),
    /// The visitor returned an error, propagated verbatim.
    Aborted(E),
}

/// A position for `FileInfo::seek`, relative to the entry's data region.
#[derive(Clone, Copy, Debug, PartialEq, Eq, Structural)]
pub enum SeekFrom {
    /// An absolute position within the entry.
    Start(u64),
    /// Relative to the entry's data size.
    End(i64),
    /// Relative to the current cursor.
    Current(i64),
}

/// The mathematical content of an image: its bytes and its locator.
pub struct ImageView {
    pub data: Seq<u8>,
    pub path: Seq<char>,
}

/// A random-access byte source: it reports a total size and serves reads of
/// arbitrary ranges at absolute offsets.
pub trait ImageInfo: Sized {
    /// The bytes the source holds.
    spec fn source(&self) -> Seq<u8>;

    /// The total size of the source, constant after it is opened.
    fn get_size(&self) -> (r: u64)
        ensures
            r == self.source().len(),
    ;

    /// Reads exactly `size` bytes at `offset`; fails with `ShortRead` when
    /// fewer are available.
    fn read_img_at(&self, offset: u64, size: u64) -> (r: Result<Vec<u8>, TarError>)
        ensures
            match r {
                Ok(v) => offset + size <= self.source().len() && v@ == self.source().subrange(
                    offset as int,
                    offset + size,
                ),
                Err(e) => offset + size > self.source().len() && e == TarError::ShortRead(offset),
            },
    ;
}

/// An in-memory image of a tar archive: the backing bytes and the locator
/// they were read from. Immutable after `open`.
pub struct TarImage {
    data: Vec<u8>,
    path: String,
}

impl View for TarImage {
    type V = ImageView;

    closed spec fn view(&self) -> ImageView {
        ImageView { data: self.data@, path: self.path@ }
    }
}

impl TarImage {
    /// Acquires the backing bytes read from `path` and shares them; the
    /// total byte length is recorded by the image.
    pub fn open(path: String, data: Vec<u8>) -> (img: Arc<TarImage>)
        ensures
            img@.data == data@,
            img@.path == path@,
    {
        Arc::new(TarImage { data, path })
    }

    /// The locator the image was opened from.
    pub fn get_path(&self) -> (r: String)
        ensures
            r@ == self@.path,
    {
        self.path.clone()
    }
}

impl ImageInfo for TarImage {
    open spec fn source(&self) -> Seq<u8> {
        self@.data
    }

    fn get_size(&self) -> (r: u64) {
        self.data.len() as u64
    }

    fn read_img_at(&self, offset: u64, size: u64) -> (r: Result<Vec<u8>, TarError>) {
        let len = self.data.len();
        if offset > len as u64 || size > len as u64 - offset {
            return Err(TarError::ShortRead(offset));
        }
        let start = offset as usize;
        let n = size as usize;
        let s = vstd::slice::slice_subrange(self.data.as_slice(), start, start + n);
        Ok(vstd::slice::slice_to_vec(s))
    }
}

/// Relies on `Arc::clone`: the clone is a handle to the same image.
#[verifier::external_body]
fn clone_image(img: &Arc<TarImage>) -> (r: Arc<TarImage>)
    ensures
        r == *img,
{
    img.clone()
}

/// The mathematical content of an entry handle.
pub struct TarFileView {
    /// The shared image the handle reads from.
    pub image: ImageView,
    /// The entry's 512-byte header block.
    pub header: Seq<u8>,
    /// Absolute offset at which the header read for this entry began.
    pub base_offset: u64,
    /// The read cursor, relative to the start of the data region.
    pub pos: u64,
    /// The classification derived from the type flag at construction.
    pub file_type: TarFileType,
    /// The resolved link target (non-empty only for symbolic links that
    /// picked up a pending long-link payload).
    pub link: Seq<char>,
    /// Bytes consumed reading the header, including a skipped sentinel
    /// block; the data region begins at `base_offset + header_size`.
    pub header_size: u64,
}

/// A read/seek view over one entry's data region, sharing the image.
pub struct TarFile {
    image: Arc<TarImage>,
    header: TarHeader,
    base_offset: u64,
    pos: u64,
    file_type: TarFileType,
    link: String,
    header_size: u64,
}

impl View for TarFile {
    type V = TarFileView;

    closed spec fn view(&self) -> TarFileView {
        TarFileView {
            image: self.image@,
            header: self.header@,
            base_offset: self.base_offset,
            pos: self.pos,
            file_type: self.file_type,
            link: self.link@,
            header_size: self.header_size,
        }
    }
}

/// A capability interface over one entry: an independently-cursored,
/// seekable byte stream bounded by the entry's metadata size.
pub trait FileInfo: Sized {
    /// The bytes of the shared backing source.
    spec fn source(&self) -> Seq<u8>;

    /// The entry's data size according to its metadata.
    spec fn entry_size(&self) -> nat;

    /// Absolute offset of the entry's data region in the source.
    spec fn data_offset(&self) -> nat;

    /// The handle's cursor, relative to the data region.
    spec fn cursor(&self) -> nat;

    /// The handle's internal invariant.
    spec fn inv(&self) -> bool;

    /// Reads up to `max` bytes at the cursor and advances it. At or past
    /// the entry's size it returns no bytes, never an error; within the
    /// entry it returns exactly the next `min(max, entry_size - cursor)`
    /// data bytes, or `ShortRead` when the source ends before them.
    fn read(&mut self, max: usize) -> (r: Result<Vec<u8>, TarError>)
        requires
            old(self).inv(),
        ensures
            final(self).inv(),
            final(self).source() == old(self).source(),
            final(self).entry_size() == old(self).entry_size(),
            final(self).data_offset() == old(self).data_offset(),
            old(self).cursor() >= old(self).entry_size() ==> (r matches Ok(v) && v@ == Seq::<
                u8,
            >::empty() && final(self).cursor() == old(self).cursor()),
            ({
                let n: int = if (max as int) < old(self).entry_size() - old(self).cursor() {
                    max as int
                } else {
                    old(self).entry_size() - old(self).cursor()
                };
                let at: int = old(self).data_offset() as int + old(self).cursor() as int;
                old(self).cursor() < old(self).entry_size() ==> match r {
                    Ok(v) => at + n <= old(self).source().len() && v@ == old(
                        self,
                    ).source().subrange(at, at + n) && final(self).cursor() == old(self).cursor()
                        + n,
                    Err(e) => at + n > old(self).source().len() && final(self).cursor() == old(
                        self,
                    ).cursor() && (e matches TarError::ShortRead(_)) && (at <= u64::MAX ==> e
                        == TarError::ShortRead(at as u64)),
                }
            }),
    ;

    /// Moves the cursor to an absolute, end-relative or cursor-relative
    /// position and returns the new position. Over-seeking past the entry's
    /// size is legal; a position outside `0..=u64::MAX` is refused.
    fn seek(&mut self, pos: SeekFrom) -> (r: Result<u64, TarError>)
        requires
            old(self).inv(),
        ensures
            final(self).inv(),
            final(self).source() == old(self).source(),
            final(self).entry_size() == old(self).entry_size(),
            final(self).data_offset() == old(self).data_offset(),
            ({
                let target: int = match pos {
                    SeekFrom::Start(n) => n as int,
                    SeekFrom::End(d) => old(self).entry_size() + d,
                    SeekFrom::Current(d) => old(self).cursor() + d,
                };
                if 0 <= target <= u64::MAX {
                    r matches Ok(p) && p == target && final(self).cursor() == target
                } else {
                    r == Err::<u64, TarError>(TarError::InvalidSeek) && final(self).cursor()
                        == old(self).cursor()
                }
            }),
    ;
}

impl TarFile {
    /// A handle is well formed when its header is one full block and its
    /// data region begins inside the shared source.
    pub open spec fn wf(&self) -> bool {
        &&& self@.header.len() == 512
        &&& self@.base_offset + self@.header_size <= self@.image.data.len()
        &&& self@.image.data.len() <= usize::MAX
    }

    /// A fresh handle over `image` for the entry `hdr` describes, with
    /// every position at zero and no classification resolved yet.
    pub fn new(image: Arc<TarImage>, hdr: TarHeader) -> (r: TarFile)
        ensures
            r@.image == image@,
            r@.header == hdr@,
            r@.base_offset == 0,
            r@.pos == 0,
            r@.file_type == TarFileType::Undefined,
            r@.link.len() == 0,
            r@.header_size == 0,
    {
        TarFile {
            image,
            header: hdr,
            base_offset: 0,
            pos: 0,
            file_type: TarFileType::Undefined,
            link: String::new(),
            header_size: 0,
        }
    }

    /// The entry's path name.
    pub fn get_name(&self) -> (r: String)
        requires
            self.wf(),
        ensures
            r@ == crate::tar::field_str(crate::tar::name_field(self@.header)),
    {
        self.header.get_name()
    }

    /// The entry's full path: `prefix + "/" + name` when a prefix is present.
    pub fn get_full_path(&self) -> (r: String)
        requires
            self.wf(),
        ensures
            r@ == crate::tar::full_path_of(self@.header),
    {
        self.header.get_full_path()
    }

    /// The entry's data size in bytes.
    pub fn get_size(&self) -> (r: u64)
        requires
            self.wf(),
        ensures
            r == octal_value(size_field(self@.header)),
    {
        self.header.get_size()
    }

    /// The entry's type flag character.
    pub fn get_type_flag(&self) -> (r: char)
        requires
            self.wf(),
        ensures
            r == (crate::tar::type_flag_of(self@.header) as char),
    {
        self.header.get_type_flag()
    }

    /// The absolute offset of the entry's header in the image.
    pub fn get_offset(&self) -> (r: u64)
        ensures
            r == self@.base_offset,
    {
        self.base_offset
    }

    /// The classification derived from the type flag at construction.
    pub fn get_file_type(&self) -> (r: TarFileType)
        ensures
            r == self@.file_type,
    {
        self.file_type
    }

    /// The resolved link target: the most recent long-link payload for a
    /// symbolic link that followed one, the empty string otherwise.
    pub fn get_link_target(&self) -> (r: String)
        ensures
            r@ == self@.link,
    {
        self.link.clone()
    }

    /// The decoded header, for the rest of the entry's metadata.
    pub fn get_header(&self) -> (r: &TarHeader)
        ensures
            r@ == self@.header,
    {
        &self.header
    }
}

impl FileInfo for TarFile {
    open spec fn source(&self) -> Seq<u8> {
        self@.image.data
    }

    open spec fn entry_size(&self) -> nat {
        octal_value(size_field(self@.header)) as nat
    }

    open spec fn data_offset(&self) -> nat {
        (self@.base_offset + self@.header_size) as nat
    }

    open spec fn cursor(&self) -> nat {
        self@.pos as nat
    }

    open spec fn inv(&self) -> bool {
        self.wf()
    }

    fn read(&mut self, max: usize) -> (r: Result<Vec<u8>, TarError>) {
        let size = self.header.get_size();
        if self.pos >= size {
            return Ok(Vec::new());
        }
        let start = self.base_offset + self.header_size;
        let remaining = size - self.pos;
        let max64 = max as u64;
        let n = if max64 < remaining {
            max64
        } else {
            remaining
        };
        if self.pos > u64::MAX - start {
            return Err(TarError::ShortRead(u64::MAX));
        }
        let at = start + self.pos;
        match self.image.read_img_at(at, n) {
            Ok(v) => {
                self.pos = self.pos + n;
                Ok(v)
            },
            Err(e) => Err(e),
        }
    }

    fn seek(&mut self, pos: SeekFrom) -> (r: Result<u64, TarError>) {
        let target: i128 = match pos {
            SeekFrom::Start(n) => n as i128,
            SeekFrom::End(d) => self.header.get_size() as i128 + d as i128,
            SeekFrom::Current(d) => self.pos as i128 + d as i128,
        };
        if target < 0 || target > u64::MAX as i128 {
            return Err(TarError::InvalidSeek);
        }
        self.pos = target as u64;
        Ok(self.pos)
    }
}

/// Reads one header at `offset`, skipping at most one sentinel block. On
/// success the bytes consumed are returned beside the header; a consumed
/// size of 0 means the archive terminator stood at `offset` (the returned
/// header is the second zero block).
pub fn tar_hdr_read_internal(img: &TarImage, offset: u64) -> (r: Result<(TarHeader, u64), TarError>)
    ensures
        ({
            let m = hdr_read_model(img.source(), offset as nat);
            match m {
                HeaderReadModel::Short { offset: o } => r == Err::<(TarHeader, u64), TarError>(
                    TarError::ShortRead(o as u64),
                ),
                HeaderReadModel::Terminator => (r matches Ok((h, n)) && n == 0 && h.wf() && h@
                    == img.source().subrange(offset as int + 512, offset as int + 1024)),
                HeaderReadModel::Bad { offset: o } => r == Err::<(TarHeader, u64), TarError>(
                    TarError::ChecksumMismatch(o as u64),
                ),
                HeaderReadModel::Header { block, hsize } => (r matches Ok((h, n)) && h@ == block
                    && n == hsize && h.wf()),
            }
        }),
{
    let len = image_size(img);
    if offset > len || 512 > len - offset {
        return Err(TarError::ShortRead(offset));
    }
    let buf = match img.read_img_at(offset, 512) {
        Ok(b) => b,
        Err(e) => {
            proof {
                assert(false);
            }
            return Err(e);
        },
    };
    let hdr = match read_tar_header(buf.as_slice()) {
        Some(h) => h,
        None => {
            proof {
                assert(false);
            }
            return Err(TarError::ShortRead(offset));
        },
    };
    proof {
        assert(buf@.subrange(0, 512) =~= buf@);
    }
    if !hdr.name_is_zero() {
        if hdr.crc_ok() {
            return Ok((hdr, 512));
        } else {
            return Err(TarError::ChecksumMismatch(offset));
        }
    }
    let off2 = offset + 512;
    if off2 > len || 512 > len - off2 {
        return Err(TarError::ShortRead(off2));
    }
    let buf2 = match img.read_img_at(off2, 512) {
        Ok(b) => b,
        Err(e) => {
            proof {
                assert(false);
            }
            return Err(e);
        },
    };
    let hdr2 = match read_tar_header(buf2.as_slice()) {
        Some(h) => h,
        None => {
            proof {
                assert(false);
            }
            return Err(TarError::ShortRead(off2));
        },
    };
    proof {
        assert(buf2@.subrange(0, 512) =~= buf2@);
    }
    if hdr2.name_is_zero() {
        Ok((hdr2, 0))
    } else if hdr2.crc_ok() {
        Ok((hdr2, 1024))
    } else {
        Err(TarError::ChecksumMismatch(off2))
    }
}

/// The image's total size as a `u64`.
fn image_size(img: &TarImage) -> (r: u64)
    ensures
        r == img.source().len(),
        img.source().len() <= usize::MAX,
{
    img.data.len() as u64
}

/// Reads the entry at `offset` and builds its handle, resolving the
/// classification and, for a symbolic link, the pending long-link payload.
fn read_file_header(img: &Arc<TarImage>, offset: u64, pending: &String) -> (r: Result<
    (TarFile, u64),
    TarError,
>)
    ensures
        ({
            let m = hdr_read_model(img@.data, offset as nat);
            match m {
                HeaderReadModel::Short { offset: o } => r == Err::<(TarFile, u64), TarError>(
                    TarError::ShortRead(o as u64),
                ),
                HeaderReadModel::Terminator => r == Err::<(TarFile, u64), TarError>(
                    TarError::NoEntry(offset),
                ),
                HeaderReadModel::Bad { offset: o } => r == Err::<(TarFile, u64), TarError>(
                    TarError::ChecksumMismatch(o as u64),
                ),
                HeaderReadModel::Header { block, hsize } => (r matches Ok((f, n)) && n == hsize
                    && f@.image == img@ && f@.header == block && f@.base_offset == offset
                    && f@.header_size == hsize && f@.pos == 0 && f@.file_type == file_type_of(
                    block,
                ) && f@.link == link_of(block, pending@) && f.wf()),
            }
        }),
{
    // Its size bound is needed for the handle's well-formedness.
    let _sz = image_size(&**img);
    match tar_hdr_read_internal(&**img, offset) {
        Err(e) => Err(e),
        Ok((hdr, n)) => {
            if n == 0 {
                return Err(TarError::NoEntry(offset));
            }
            let flag = hdr.type_flag_byte();
            let file_type = if flag == 53 {
                TarFileType::Directory
            } else if flag == 49 {
                TarFileType::SymbolicLink
            } else {
                TarFileType::Undefined
            };
            let link = if flag == 49 && !pending.as_str().is_empty() {
                pending.clone()
            } else {
                String::new()
            };
            let file = TarFile {
                image: clone_image(img),
                header: hdr,
                base_offset: offset,
                pos: 0,
                file_type,
                link,
                header_size: n,
            };
            Ok((file, n))
        },
    }
}

impl TarImage {
    /// Looks the entry at `offset` up directly. The terminator there is
    /// reported as `NoEntry`; no long-link payload is pending outside a
    /// forward scan, so a symbolic link resolves to an empty target.
    pub fn get_file_at(img: &Arc<TarImage>, offset: u64) -> (r: Result<(TarFile, u64), TarError>)
        ensures
            ({
                let m = hdr_read_model(img@.data, offset as nat);
                match m {
                    HeaderReadModel::Short { offset: o } => r == Err::<(TarFile, u64), TarError>(
                        TarError::ShortRead(o as u64),
                    ),
                    HeaderReadModel::Terminator => r == Err::<(TarFile, u64), TarError>(
                        TarError::NoEntry(offset),
                    ),
                    HeaderReadModel::Bad { offset: o } => r == Err::<(TarFile, u64), TarError>(
                        TarError::ChecksumMismatch(o as u64),
                    ),
                    HeaderReadModel::Header { block, hsize } => (r matches Ok((f, n)) && n == hsize
                        && f@.image == img@ && f@.header == block && f@.base_offset == offset
                        && f@.header_size == hsize && f@.pos == 0 && f@.file_type == file_type_of(
                        block,
                    ) && f@.link.len() == 0 && f.wf()),
                }
            }),
    {
        let pending = String::new();
        read_file_header(img, offset, &pending)
    }
}

/// Whether an entry handle is exactly the one a scan record describes.
pub open spec fn entry_matches(t: TarFile, img: ImageView, e: EntryModel) -> bool {
    &&& t@.image == img
    &&& t@.header == e.block
    &&& t@.base_offset == e.offset
    &&& t@.header_size == e.header_size
    &&& t@.pos == 0
    &&& t@.file_type == file_type_of(e.block)
    &&& t@.link == e.link
    &&& t.wf()
}

/// Every visited record among the first `upto` was yielded to the visitor,
/// which accepted it.
pub open spec fn all_visited_ok<F: Fn(TarFile) -> Result<(), E>, E>(
    f: F,
    img: ImageView,
    es: Seq<EntryModel>,
    upto: int,
) -> bool {
    forall|i: int|
        0 <= i < upto && (#[trigger] es[i]).visited ==> exists|t: TarFile|
            entry_matches(t, img, es[i]) && call_ensures(f, (t,), Ok::<(), E>(()))
}

impl TarImage {
    /// Walks the archive from offset 0, yielding each entry to `visit` in
    /// strictly increasing offset order. Long-link markers are consumed,
    /// not yielded: their payload resolves the link target of the entry
    /// that follows. The walk ends cleanly at the terminator or at the end
    /// of the source; a short or corrupt header stops it with the archive
    /// error, and a visitor failure stops it with that failure, each after
    /// every earlier entry was already delivered.
    pub fn for_each_entry<F: Fn(TarFile) -> Result<(), E>, E>(img: &Arc<TarImage>, visit: F) -> (r:
        Result<(), ScanError<E>>)
        requires
            forall|i: int, t: TarFile|
                0 <= i < scan_model(img@.data).entries.len() && #[trigger] entry_matches(
                    t,
                    img@,
                    scan_model(img@.data).entries[i],
                ) ==> call_requires(visit, (t,)),
        ensures
            ({
                let m = scan_model(img@.data);
                match r {
                    Ok(u) => (m.end matches ScanEnd::Terminated { .. } || m.end
                        matches ScanEnd::SourceEnd { .. }) && all_visited_ok(
                        visit,
                        img@,
                        m.entries,
                        m.entries.len() as int,
                    ),
                    Err(ScanError::Archive(e)) => ((m.end matches ScanEnd::Short { offset } && e
                        == TarError::ShortRead(offset as u64)) || (m.end matches ScanEnd::Bad {
                        offset,
                    } && e == TarError::ChecksumMismatch(offset as u64))) && all_visited_ok(
                        visit,
                        img@,
                        m.entries,
                        m.entries.len() as int,
                    ),
                    Err(ScanError::Aborted(e)) => exists|i: int|
                        0 <= i < m.entries.len() && (#[trigger] m.entries[i]).visited
                            && all_visited_ok(visit, img@, m.entries, i) && (exists|t: TarFile|
                            entry_matches(t, img@, m.entries[i]) && call_ensures(
                                visit,
                                (t,),
                                Err::<(), E>(e),
                            )),
                }
            }),
    {
        let total = image_size(&**img);
        let mut off: u64 = 0;
        let mut pending = String::new();
        let ghost source = img@.data;
        let ghost m = scan_model(source);
        let ghost mut k: int = 0;
        proof {
            assert(m.entries.skip(0) =~= m.entries);
        }
        while off < total
            invariant
                total == source.len() <= usize::MAX,
                source == img@.data,
                m == scan_model(source),
                off <= total,
                0 <= k <= m.entries.len(),
                scan_from(source, off as nat, pending@) == (ScanModel {
                    entries: m.entries.skip(k),
                    end: m.end,
                }),
                all_visited_ok(visit, img@, m.entries, k),
                forall|i: int, t: TarFile|
                    0 <= i < m.entries.len() && #[trigger] entry_matches(t, img@, m.entries[i])
                        ==> call_requires(visit, (t,)),
            decreases total - off,
        {
            match read_file_header(img, off, &pending) {
                Err(TarError::NoEntry(_)) => {
                    proof {
                        assert(m.entries.skip(k).len() == 0);
                        assert(k == m.entries.len());
                    }
                    return Ok(());
                },
                Err(e) => {
                    proof {
                        assert(m.entries.skip(k).len() == 0);
                        assert(k == m.entries.len());
                    }
                    return Err(ScanError::Archive(e));
                },
                Ok((file, n)) => {
                    let flag = file.get_header().type_flag_byte();
                    if flag == 75 {
                        let ghost ek = EntryModel {
                            offset: off as nat,
                            block: file@.header,
                            header_size: n as nat,
                            footprint: n as nat,
                            link: Seq::empty(),
                            visited: false,
                        };
                        let ghost p2 = crate::tar::field_str(
                            crate::tar::linkname_field(file@.header),
                        );
                        let ghost rest = scan_from(source, (off + n) as nat, p2);
                        proof {
                            assert(m.entries.skip(k) == seq![ek] + rest.entries);
                            crate::scan::lemma_skip_step(m.entries, k, ek, rest.entries);
                            k = k + 1;
                        }
                        pending = file.get_header().get_link_name();
                        off = off + n;
                    } else {
                        let body = file.get_size();
                        proof {
                            crate::tar::lemma_octal_value_bound(size_field(file@.header));
                            assert(crate::tar::pow8(12) == 0x1000000000) by {
                                reveal_with_fuel(crate::tar::pow8, 13);
                            }
                        }
                        let padded = if body % 512 == 0 {
                            body
                        } else {
                            (body / 512 + 1) * 512
                        };
                        let fp = n + padded;
                        let ghost ek = EntryModel {
                            offset: off as nat,
                            block: file@.header,
                            header_size: n as nat,
                            footprint: fp as nat,
                            link: link_of(file@.header, pending@),
                            visited: true,
                        };
                        let ghost next: nat = if off + fp <= source.len() {
                            (off + fp) as nat
                        } else {
                            source.len()
                        };
                        let ghost rest = scan_from(source, next, pending@);
                        proof {
                            assert(padded == crate::scan::padded_size(body as int));
                            assert(m.entries.skip(k) == seq![ek] + rest.entries);
                            crate::scan::lemma_skip_step(m.entries, k, ek, rest.entries);
                            assert(entry_matches(file, img@, m.entries[k]));
                        }
                        let ghost gfile = file;
                        match visit(file) {
                            Ok(u) => {},
                            Err(e) => {
                                proof {
                                    assert(entry_matches(gfile, img@, m.entries[k]));
                                    assert(m.entries[k].visited);
                                }
                                return Err(ScanError::Aborted(e));
                            },
                        }
                        proof {
                            assert(entry_matches(gfile, img@, m.entries[k]));
                            assert(call_ensures(visit, (gfile,), Ok::<(), E>(())));
                            k = k + 1;
                            assert forall|i: int|
                                0 <= i < k && (#[trigger] m.entries[i]).visited implies exists|
                                t: TarFile,
                            |
                                entry_matches(t, img@, m.entries[i]) && call_ensures(
                                    visit,
                                    (t,),
                                    Ok::<(), E>(()),
                                ) by {
                                if i == k - 1 {
                                    assert(entry_matches(gfile, img@, m.entries[i])
                                        && call_ensures(visit, (gfile,), Ok::<(), E>(())));
                                }
                            }
                        }
                        if fp >= total - off {
                            off = total;
                        } else {
                            off = off + fp;
                        }
                    }
                },
            }
        }
        proof {
            assert(m.entries.skip(k).len() == 0);
            assert(k == m.entries.len());
        }
        Ok(())
    }
}

/// Takes the concrete entry out of a generic handle for the expected kind;
/// a handle of any other kind is refused with `DowncastMismatch`.
pub fn try_into_tarfile(f: TarFile, expected: TarFileType) -> (r: Result<TarFile, TarError>)
    ensures
        f@.file_type == expected ==> (r matches Ok(t) && t == f),
        f@.file_type != expected ==> r == Err::<TarFile, TarError>(TarError::DowncastMismatch),
{
    if f.file_type == expected {
        Ok(f)
    } else {
        Err(TarError::DowncastMismatch)
    }
}

} // verus!
