//! The mathematical model of a full archive walk.
//!
//! `scan_from` describes, over the raw bytes of an image, exactly which
//! entries a forward scan discovers from a given offset, which long-link
//! markers it consumes on the way, and how it ends: at the two-zero-block
//! terminator, at the end of the source, or at the first unreadable or
//! corrupt header. The executable scanner in `base` is verified against this
//! model, and the laws at the bottom of this file are proved of the model
//! itself.

use vstd::prelude::*;

use crate::tar::{
    crc_ok_spec, field_str, linkname_field, octal_value, size_field, type_flag_of, zero_name,
};

verus! {

/// A data size rounded up to the next multiple of the 512-byte block size.
pub open spec fn padded_size(n: int) -> int {
    if n % 512 == 0 {
        n
    } else {
        (n / 512 + 1) * 512
    }
}

/// What reading one header at `off` yields.
pub enum HeaderReadModel {
    /// Fewer than 512 bytes remain at `offset`.
    Short { offset: nat },
    /// Two consecutive sentinel blocks: the archive terminator.
    Terminator,
    /// The block at `offset` fails checksum validation.
    Bad { offset: nat },
    /// A valid header block; `hsize` counts the bytes consumed reading it,
    /// including one skipped sentinel block when the header follows one.
    Header { block: Seq<u8>, hsize: nat },
}

/// Reading a header at `off`: one sentinel block is skipped; a second in a
/// row terminates the archive; anything else must validate its checksum.
pub open spec fn hdr_read_model(source: Seq<u8>, off: nat) -> HeaderReadModel {
    if off + 512 > source.len() {
        HeaderReadModel::Short { offset: off }
    } else {
        let b0 = source.subrange(off as int, off as int + 512);
        if !zero_name(b0) {
            if crc_ok_spec(b0) {
                HeaderReadModel::Header { block: b0, hsize: 512 }
            } else {
                HeaderReadModel::Bad { offset: off }
            }
        } else {
            if off + 1024 > source.len() {
                HeaderReadModel::Short { offset: off + 512 }
            } else {
                let b1 = source.subrange(off as int + 512, off as int + 1024);
                if zero_name(b1) {
                    HeaderReadModel::Terminator
                } else if crc_ok_spec(b1) {
                    HeaderReadModel::Header { block: b1, hsize: 1024 }
                } else {
                    HeaderReadModel::Bad { offset: off + 512 }
                }
            }
        }
    }
}

/// Whether a header read yields a header block.
pub open spec fn is_header_model(m: HeaderReadModel) -> bool {
    m matches HeaderReadModel::Header { .. }
}

/// The header block of a `Header` outcome.
pub open spec fn header_model_block(m: HeaderReadModel) -> Seq<u8> {
    match m {
        HeaderReadModel::Header { block, hsize } => block,
        _ => Seq::empty(),
    }
}

/// The bytes consumed by a `Header` outcome.
pub open spec fn header_model_size(m: HeaderReadModel) -> nat {
    match m {
        HeaderReadModel::Header { block, hsize } => hsize,
        _ => 0,
    }
}

/// The classification the scanner derives from a type flag: directories and
/// symbolic links are distinguished, everything else is left undefined.
pub open spec fn file_type_of(b: Seq<u8>) -> crate::tar::TarFileType {
    if type_flag_of(b) == 53 {
        crate::tar::TarFileType::Directory
    } else if type_flag_of(b) == 49 {
        crate::tar::TarFileType::SymbolicLink
    } else {
        crate::tar::TarFileType::Undefined
    }
}

/// The resolved link target of an entry: a symbolic link picks up the
/// pending long-link payload when one is present; every other entry, and a
/// symbolic link without a pending payload, resolves to the empty string.
pub open spec fn link_of(b: Seq<u8>, pending: Seq<char>) -> Seq<char> {
    if type_flag_of(b) == 49 && pending.len() > 0 {
        pending
    } else {
        Seq::empty()
    }
}

/// One record of the scan: an entry yielded to the visitor, or a long-link
/// marker consumed on the way (`visited == false`).
pub struct EntryModel {
    /// Absolute offset at which the header read for this record began.
    pub offset: nat,
    /// The 512-byte header block.
    pub block: Seq<u8>,
    /// Bytes consumed reading the header, including a skipped sentinel.
    pub header_size: nat,
    /// Total bytes the record occupies on disk: the header bytes plus, for
    /// everything but a long-link marker, the data padded to the block size.
    pub footprint: nat,
    /// The resolved link target at construction time.
    pub link: Seq<char>,
    /// Whether the scan yields this record to the visitor.
    pub visited: bool,
}

/// How a scan ends.
pub enum ScanEnd {
    /// The terminator was found; `offset` is where its first zero block lies.
    Terminated { offset: nat },
    /// The source ended without a terminator (tolerated truncation).
    SourceEnd { offset: nat },
    /// A header read ran past the end of the source at `offset`.
    Short { offset: nat },
    /// The header block at `offset` failed checksum validation.
    Bad { offset: nat },
}

/// Everything a scan does: the records it passes, in order, and how it ends.
pub struct ScanModel {
    pub entries: Seq<EntryModel>,
    pub end: ScanEnd,
}

/// The scan of `source` from `off` with `pending` as the long-link payload
/// most recently seen. A long-link marker advances by its header bytes alone
/// and replaces the pending payload; every other entry advances by its full
/// footprint, clamped to the end of the source.
pub open spec fn scan_from(source: Seq<u8>, off: nat, pending: Seq<char>) -> ScanModel
    decreases source.len() - off,
{
    if off >= source.len() {
        ScanModel { entries: seq![], end: ScanEnd::SourceEnd { offset: off } }
    } else {
        match hdr_read_model(source, off) {
            HeaderReadModel::Short { offset } => ScanModel {
                entries: seq![],
                end: ScanEnd::Short { offset },
            },
            HeaderReadModel::Terminator => ScanModel {
                entries: seq![],
                end: ScanEnd::Terminated { offset: off },
            },
            HeaderReadModel::Bad { offset } => ScanModel {
                entries: seq![],
                end: ScanEnd::Bad { offset },
            },
            HeaderReadModel::Header { block, hsize } => {
                if type_flag_of(block) == 75 {
                    let e = EntryModel {
                        offset: off,
                        block,
                        header_size: hsize,
                        footprint: hsize,
                        link: Seq::empty(),
                        visited: false,
                    };
                    let rest = scan_from(source, off + hsize, field_str(linkname_field(block)));
                    ScanModel { entries: seq![e] + rest.entries, end: rest.end }
                } else {
                    let fp = hsize + padded_size(octal_value(size_field(block)) as int);
                    let next = if off + fp <= source.len() {
                        (off + fp) as nat
                    } else {
                        source.len()
                    };
                    let e = EntryModel {
                        offset: off,
                        block,
                        header_size: hsize,
                        footprint: fp as nat,
                        link: link_of(block, pending),
                        visited: true,
                    };
                    let rest = scan_from(source, next, pending);
                    ScanModel { entries: seq![e] + rest.entries, end: rest.end }
                }
            },
        }
    }
}

/// The scan of a whole image: from offset 0 with no pending long-link.
pub open spec fn scan_model(source: Seq<u8>) -> ScanModel {
    scan_from(source, 0, Seq::empty())
}

/// The sum of the footprints of a sequence of scan records.
pub open spec fn footprint_sum(es: Seq<EntryModel>) -> int
    decreases es.len(),
{
    if es.len() == 0 {
        0
    } else {
        es[0].footprint + footprint_sum(es.drop_first())
    }
}

/// Stepping a suffix of the records: when the records from `k` on are one
/// record followed by `rest`, that record is `es[k]` and the records from
/// `k + 1` on are exactly `rest`.
pub proof fn lemma_skip_step(es: Seq<EntryModel>, k: int, e: EntryModel, rest: Seq<EntryModel>)
    requires
        0 <= k <= es.len(),
        es.skip(k) == seq![e] + rest,
    ensures
        k < es.len(),
        es[k] == e,
        es.skip(k + 1) == rest,
{
    assert(es.skip(k).len() == es.len() - k);
    assert(es.skip(k)[0] == es[k]);
    assert(es.skip(k + 1) =~= rest) by {
        assert forall|j: int| 0 <= j < es.len() - (k + 1) implies es.skip(k + 1)[j] == rest[j] by {
            assert(es.skip(k + 1)[j] == es[k + 1 + j]);
            assert(es.skip(k)[j + 1] == es[k + 1 + j]);
            assert((seq![e] + rest)[j + 1] == rest[j]);
        }
    }
}

/// Every record of a scan from `off` lies at or past `off`.
pub proof fn lemma_scan_entries_lower_bound(source: Seq<u8>, off: nat, pending: Seq<char>)
    ensures
        forall|i: int|
            0 <= i < scan_from(source, off, pending).entries.len()
                ==> (#[trigger] scan_from(source, off, pending).entries[i]).offset >= off,
    decreases source.len() - off,
{
    let m = scan_from(source, off, pending);
    if off < source.len() {
        match hdr_read_model(source, off) {
            HeaderReadModel::Header { block, hsize } => {
                if type_flag_of(block) == 75 {
                    lemma_scan_entries_lower_bound(
                        source,
                        off + hsize,
                        field_str(linkname_field(block)),
                    );
                } else {
                    let fp = hsize + padded_size(octal_value(size_field(block)) as int);
                    let next = if off + fp <= source.len() {
                        (off + fp) as nat
                    } else {
                        source.len()
                    };
                    lemma_scan_entries_lower_bound(source, next, pending);
                }
            },
            _ => {},
        }
    }
}

/// The scan visits records in strictly increasing offset order.
pub proof fn lemma_scan_offsets_increase(source: Seq<u8>, off: nat, pending: Seq<char>)
    ensures
        forall|i: int, j: int|
            0 <= i < j < scan_from(source, off, pending).entries.len()
                ==> (#[trigger] scan_from(source, off, pending).entries[i]).offset < (
            #[trigger] scan_from(source, off, pending).entries[j]).offset,
    decreases source.len() - off,
{
    let m = scan_from(source, off, pending);
    if off < source.len() {
        match hdr_read_model(source, off) {
            HeaderReadModel::Header { block, hsize } => {
                if type_flag_of(block) == 75 {
                    let next = off + hsize;
                    let p2 = field_str(linkname_field(block));
                    lemma_scan_offsets_increase(source, next, p2);
                    lemma_scan_entries_lower_bound(source, next, p2);
                    assert forall|i: int, j: int| 0 <= i < j < m.entries.len() implies (
                    #[trigger] m.entries[i]).offset < (#[trigger] m.entries[j]).offset by {
                        let rest = scan_from(source, next, p2);
                        assert(m.entries[j] == rest.entries[j - 1]);
                        if i > 0 {
                            assert(m.entries[i] == rest.entries[i - 1]);
                        }
                    }
                } else {
                    let fp = hsize + padded_size(octal_value(size_field(block)) as int);
                    let next = if off + fp <= source.len() {
                        (off + fp) as nat
                    } else {
                        source.len()
                    };
                    lemma_scan_offsets_increase(source, next, pending);
                    lemma_scan_entries_lower_bound(source, next, pending);
                    assert forall|i: int, j: int| 0 <= i < j < m.entries.len() implies (
                    #[trigger] m.entries[i]).offset < (#[trigger] m.entries[j]).offset by {
                        let rest = scan_from(source, next, pending);
                        assert(m.entries[j] == rest.entries[j - 1]);
                        if i > 0 {
                            assert(m.entries[i] == rest.entries[i - 1]);
                        }
                    }
                }
            },
            _ => {},
        }
    }
}

/// The offsets of a scan account exactly for the bytes consumed: the first
/// record lies at the start, each later record begins where the previous
/// record's footprint ends, and when the scan reaches the terminator, the
/// footprints of the visited entries and of the consumed long-link markers
/// sum exactly to the terminator's offset. A scan that instead runs off the
/// end of the source ends at the source's total size.
pub proof fn lemma_scan_accounting(source: Seq<u8>, off: nat, pending: Seq<char>)
    requires
        off <= source.len(),
    ensures
        scan_from(source, off, pending).entries.len() > 0 ==> scan_from(
            source,
            off,
            pending,
        ).entries[0].offset == off,
        forall|i: int|
            0 <= i && i + 1 < scan_from(source, off, pending).entries.len()
                ==> (#[trigger] scan_from(source, off, pending).entries[i + 1]).offset
                <= scan_from(source, off, pending).entries[i].offset + scan_from(
                source,
                off,
                pending,
            ).entries[i].footprint,
        forall|i: int|
            0 <= i && i + 1 < scan_from(source, off, pending).entries.len()
                ==> (#[trigger] scan_from(source, off, pending).entries[i + 1]).offset
                == scan_from(source, off, pending).entries[i].offset + scan_from(
                source,
                off,
                pending,
            ).entries[i].footprint,
        scan_from(source, off, pending).end matches ScanEnd::Terminated { offset: t } ==> t == off
            + footprint_sum(scan_from(source, off, pending).entries),
        scan_from(source, off, pending).end matches ScanEnd::SourceEnd { offset: o } ==> o
            == source.len() && off + footprint_sum(scan_from(source, off, pending).entries) >= o,
        scan_from(source, off, pending).end matches ScanEnd::SourceEnd { offset: o } ==> ((
        scan_from(source, off, pending).entries.len() > 0 && scan_from(
            source,
            off,
            pending,
        ).entries.last().offset + scan_from(source, off, pending).entries.last().footprint
            <= source.len()) ==> off + footprint_sum(scan_from(source, off, pending).entries)
            == o),
    decreases source.len() - off,
{
    let m = scan_from(source, off, pending);
    if off >= source.len() {
    } else {
        match hdr_read_model(source, off) {
            HeaderReadModel::Header { block, hsize } => {
                if type_flag_of(block) == 75 {
                    let next = off + hsize;
                    let p2 = field_str(linkname_field(block));
                    lemma_scan_accounting(source, next, p2);
                    let rest = scan_from(source, next, p2);
                    assert(m.entries.drop_first() =~= rest.entries);
                    assert forall|i: int| 0 <= i && i + 1 < m.entries.len() implies (
                    #[trigger] m.entries[i + 1]).offset == m.entries[i].offset
                        + m.entries[i].footprint by {
                        if i > 0 {
                            assert(m.entries[i] == rest.entries[i - 1]);
                            assert(m.entries[i + 1] == rest.entries[i]);
                        } else {
                            assert(m.entries[1] == rest.entries[0]);
                        }
                    }
                } else {
                    let fp = hsize + padded_size(octal_value(size_field(block)) as int);
                    let next = if off + fp <= source.len() {
                        (off + fp) as nat
                    } else {
                        source.len()
                    };
                    lemma_scan_accounting(source, next, pending);
                    let rest = scan_from(source, next, pending);
                    assert(m.entries.drop_first() =~= rest.entries);
                    assert forall|i: int| 0 <= i && i + 1 < m.entries.len() implies (
                    #[trigger] m.entries[i + 1]).offset == m.entries[i].offset
                        + m.entries[i].footprint by {
                        if i > 0 {
                            assert(m.entries[i] == rest.entries[i - 1]);
                            assert(m.entries[i + 1] == rest.entries[i]);
                        } else {
                            assert(m.entries[1] == rest.entries[0]);
                            assert(rest.entries.len() > 0);
                            assert(rest.entries[0].offset == next);
                            assert(next == off + fp);
                        }
                    }
                }
            },
            _ => {},
        }
    }
}

/// Two consecutive all-zero blocks terminate the scan with no error and no
/// further records, whatever bytes follow them.
pub proof fn lemma_terminator_stops(source: Seq<u8>, off: nat, pending: Seq<char>)
    requires
        off + 1024 <= source.len(),
        zero_name(source.subrange(off as int, off as int + 512)),
        zero_name(source.subrange(off as int + 512, off as int + 1024)),
    ensures
        scan_from(source, off, pending) == (ScanModel {
            entries: seq![],
            end: ScanEnd::Terminated { offset: off },
        }),
{
}

/// A long-link marker immediately followed by a symbolic-link entry yields a
/// symlink record whose resolved link target is the marker's payload name,
/// not the symlink's own link name field.
pub proof fn lemma_long_link_applies(source: Seq<u8>, off: nat, pending: Seq<char>)
    requires
        is_header_model(hdr_read_model(source, off)),
        type_flag_of(header_model_block(hdr_read_model(source, off))) == 75,
        field_str(linkname_field(header_model_block(hdr_read_model(source, off)))).len() > 0,
        is_header_model(
            hdr_read_model(source, off + header_model_size(hdr_read_model(source, off))),
        ),
        type_flag_of(
            header_model_block(
                hdr_read_model(source, off + header_model_size(hdr_read_model(source, off))),
            ),
        ) == 49,
    ensures
        scan_from(source, off, pending).entries.len() >= 2,
        !scan_from(source, off, pending).entries[0].visited,
        scan_from(source, off, pending).entries[1].visited,
        scan_from(source, off, pending).entries[1].link == field_str(
            linkname_field(header_model_block(hdr_read_model(source, off))),
        ),
{
    let m1 = hdr_read_model(source, off);
    let b1 = header_model_block(m1);
    let h1 = header_model_size(m1);
    let payload = field_str(linkname_field(b1));
    let m2 = hdr_read_model(source, off + h1);
    let b2 = header_model_block(m2);
    let inner = scan_from(source, off + h1, payload);
    assert(inner.entries.len() >= 1);
    assert(inner.entries[0].visited);
    assert(inner.entries[0].link == link_of(b2, payload));
    assert(scan_from(source, off, pending).entries[1] == inner.entries[0]);
}

} // verus!

