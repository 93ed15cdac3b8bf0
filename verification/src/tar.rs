//! The header codec: turns a raw 512-byte block into validated, structured
//! metadata.
//!
//! A tar header block stores numbers as ASCII octal digit strings and names
//! as NUL-padded byte fields. Decoding is total: unparsable numeric fields
//! decode to 0 and byte fields that are not valid UTF-8 decode to the empty
//! string. The block checksum is recomputed over all 512 bytes with the
//! checksum field replaced by ASCII spaces, under both the unsigned-byte and
//! the signed-byte convention found in the wild.

use vstd::prelude::*;

verus! {

/// Size in bytes of one tar block; headers occupy exactly one block.
pub const T_BLOCKSIZE: usize = 512;

// ---------------------------------------------------------------------------
// Octal number fields
// ---------------------------------------------------------------------------

/// An ASCII octal digit `'0'..='7'`.
pub open spec fn is_octal_digit(b: u8) -> bool {
    48 <= b <= 55
}

/// An ASCII whitespace byte (space, tab, line feed, vertical tab, form feed,
/// carriage return).
pub open spec fn is_space_byte(b: u8) -> bool {
    b == 32 || 9 <= b <= 13
}

/// Drops every trailing NUL byte.
pub open spec fn trim_zeros(s: Seq<u8>) -> Seq<u8>
    decreases s.len(),
{
    if s.len() > 0 && s.last() == 0 {
        trim_zeros(s.drop_last())
    } else {
        s
    }
}

/// Drops every trailing whitespace byte.
pub open spec fn trim_spaces_end(s: Seq<u8>) -> Seq<u8>
    decreases s.len(),
{
    if s.len() > 0 && is_space_byte(s.last()) {
        trim_spaces_end(s.drop_last())
    } else {
        s
    }
}

/// Drops every leading whitespace byte.
pub open spec fn trim_spaces_start(s: Seq<u8>) -> Seq<u8>
    decreases s.len(),
{
    if s.len() > 0 && is_space_byte(s.first()) {
        trim_spaces_start(s.subrange(1, s.len() as int))
    } else {
        s
    }
}

/// How a numeric field is trimmed before parsing: trailing NULs go first,
/// then surrounding whitespace.
pub open spec fn octal_trim(s: Seq<u8>) -> Seq<u8> {
    trim_spaces_start(trim_spaces_end(trim_zeros(s)))
}

/// Every byte is an ASCII octal digit.
pub open spec fn all_octal(s: Seq<u8>) -> bool {
    forall|i: int| 0 <= i < s.len() ==> is_octal_digit(s[i])
}

/// The value of a string of octal digits, most significant digit first.
pub open spec fn octal_val(s: Seq<u8>) -> int
    decreases s.len(),
{
    if s.len() == 0 {
        0
    } else {
        octal_val(s.drop_last()) * 8 + (s.last() - 48)
    }
}

/// What a numeric header field decodes to: the base-8 value of the trimmed
/// digits, or 0 when the trimmed field is empty, holds a non-digit, or does
/// not fit in a `u64`.
pub open spec fn octal_value(field: Seq<u8>) -> u64 {
    let t = octal_trim(field);
    if t.len() > 0 && all_octal(t) && octal_val(t) <= u64::MAX {
        octal_val(t) as u64
    } else {
        0
    }
}

/// 8 to the power `n`; bounds the value of an `n`-digit octal field.
pub open spec fn pow8(n: nat) -> int
    decreases n,
{
    if n == 0 {
        1
    } else {
        8 * pow8((n - 1) as nat)
    }
}

pub proof fn lemma_octal_val_bound(s: Seq<u8>)
    requires
        all_octal(s),
    ensures
        0 <= octal_val(s) < pow8(s.len()),
    decreases s.len(),
{
    if s.len() > 0 {
        assert(all_octal(s.drop_last())) by {
            assert(forall|i: int|
                0 <= i < s.len() - 1 ==> s.drop_last()[i] == s[i] && is_octal_digit(s[i]));
        }
        lemma_octal_val_bound(s.drop_last());
    }
}

pub proof fn lemma_octal_prefix_le(s: Seq<u8>, i: int)
    requires
        all_octal(s),
        0 <= i <= s.len(),
    ensures
        octal_val(s.subrange(0, i)) <= octal_val(s),
    decreases s.len() - i,
{
    if i == s.len() {
        assert(s.subrange(0, i) =~= s);
    } else {
        let p = s.subrange(0, i + 1);
        assert(p.drop_last() =~= s.subrange(0, i));
        assert(all_octal(p));
        lemma_octal_val_bound(p.drop_last());
        assert(octal_val(p) == octal_val(s.subrange(0, i)) * 8 + (s[i] - 48));
        lemma_octal_prefix_le(s, i + 1);
    }
}

proof fn lemma_trim_zeros_prefix(s: Seq<u8>, end: int)
    requires
        0 <= end <= s.len(),
        forall|j: int| end <= j < s.len() ==> s[j] == 0,
        end > 0 ==> s[end - 1] != 0,
    ensures
        trim_zeros(s) == s.subrange(0, end),
    decreases s.len(),
{
    if s.len() == end {
        assert(s.subrange(0, end) =~= s);
    } else {
        assert(s.last() == 0);
        let d = s.drop_last();
        assert(forall|j: int| end <= j < d.len() ==> d[j] == 0);
        assert(end > 0 ==> d[end - 1] != 0);
        lemma_trim_zeros_prefix(d, end);
        assert(d.subrange(0, end) =~= s.subrange(0, end));
    }
}

proof fn lemma_trim_spaces_end_prefix(s: Seq<u8>, end: int)
    requires
        0 <= end <= s.len(),
        forall|j: int| end <= j < s.len() ==> is_space_byte(s[j]),
        end > 0 ==> !is_space_byte(s[end - 1]),
    ensures
        trim_spaces_end(s) == s.subrange(0, end),
    decreases s.len(),
{
    if s.len() == end {
        assert(s.subrange(0, end) =~= s);
    } else {
        assert(is_space_byte(s.last()));
        let d = s.drop_last();
        assert(forall|j: int| end <= j < d.len() ==> is_space_byte(d[j]));
        lemma_trim_spaces_end_prefix(d, end);
        assert(d.subrange(0, end) =~= s.subrange(0, end));
    }
}

proof fn lemma_trim_spaces_start_suffix(s: Seq<u8>, start: int)
    requires
        0 <= start <= s.len(),
        forall|j: int| 0 <= j < start ==> is_space_byte(s[j]),
        start < s.len() ==> !is_space_byte(s[start]),
    ensures
        trim_spaces_start(s) == s.subrange(start, s.len() as int),
    decreases s.len(),
{
    if start == 0 {
        assert(s.subrange(0, s.len() as int) =~= s);
    } else {
        assert(is_space_byte(s.first()));
        let d = s.subrange(1, s.len() as int);
        assert(forall|j: int| 0 <= j < start - 1 ==> is_space_byte(d[j]));
        lemma_trim_spaces_start_suffix(d, start - 1);
        assert(d.subrange(start - 1, d.len() as int) =~= s.subrange(start, s.len() as int));
    }
}

proof fn lemma_trim_zeros_len(s: Seq<u8>)
    ensures
        trim_zeros(s).len() <= s.len(),
    decreases s.len(),
{
    if s.len() > 0 && s.last() == 0 {
        lemma_trim_zeros_len(s.drop_last());
    }
}

proof fn lemma_trim_spaces_end_len(s: Seq<u8>)
    ensures
        trim_spaces_end(s).len() <= s.len(),
    decreases s.len(),
{
    if s.len() > 0 && is_space_byte(s.last()) {
        lemma_trim_spaces_end_len(s.drop_last());
    }
}

proof fn lemma_trim_spaces_start_len(s: Seq<u8>)
    ensures
        trim_spaces_start(s).len() <= s.len(),
    decreases s.len(),
{
    if s.len() > 0 && is_space_byte(s.first()) {
        lemma_trim_spaces_start_len(s.subrange(1, s.len() as int));
    }
}

/// The value of a numeric field is below 8 to the width of the field.
pub proof fn lemma_octal_value_bound(field: Seq<u8>)
    ensures
        octal_value(field) < pow8(field.len()),
        pow8(field.len()) >= 1,
{
    let t = octal_trim(field);
    lemma_trim_zeros_len(field);
    lemma_trim_spaces_end_len(trim_zeros(field));
    lemma_trim_spaces_start_len(trim_spaces_end(trim_zeros(field)));
    lemma_pow8_mono(t.len(), field.len());
    if t.len() > 0 && all_octal(t) && octal_val(t) <= u64::MAX {
        lemma_octal_val_bound(t);
    }
}

/// Whether a byte is ASCII whitespace.
fn is_space(b: u8) -> (r: bool)
    ensures
        r == is_space_byte(b),
{
    b == 32 || (9 <= b && b <= 13)
}

/// Parses a numeric header field: NUL/space-trimmed ASCII octal digits,
/// with 0 for anything unparsable.
fn parse_octal(field: &[u8]) -> (r: u64)
    ensures
        r == octal_value(field@),
{
    let len = field.len();
    let mut end1: usize = len;
    while end1 > 0 && field[end1 - 1] == 0
        invariant
            end1 <= len == field@.len(),
            forall|j: int| end1 <= j < len ==> field@[j] == 0,
        decreases end1,
    {
        end1 = end1 - 1;
    }
    proof {
        lemma_trim_zeros_prefix(field@, end1 as int);
    }
    let ghost t1 = field@.subrange(0, end1 as int);
    let mut end2: usize = end1;
    while end2 > 0 && is_space(field[end2 - 1])
        invariant
            end2 <= end1 <= len == field@.len(),
            forall|j: int| end2 <= j < end1 ==> is_space_byte(field@[j]),
        decreases end2,
    {
        end2 = end2 - 1;
    }
    proof {
        lemma_trim_spaces_end_prefix(t1, end2 as int);
        assert(t1.subrange(0, end2 as int) =~= field@.subrange(0, end2 as int));
    }
    let ghost t2 = field@.subrange(0, end2 as int);
    let mut start: usize = 0;
    while start < end2 && is_space(field[start])
        invariant
            start <= end2 <= len == field@.len(),
            forall|j: int| 0 <= j < start ==> is_space_byte(field@[j]),
        decreases end2 - start,
    {
        start = start + 1;
    }
    proof {
        lemma_trim_spaces_start_suffix(t2, start as int);
        assert(t2.subrange(start as int, t2.len() as int) =~= field@.subrange(
            start as int,
            end2 as int,
        ));
    }
    let ghost t = field@.subrange(start as int, end2 as int);
    assert(octal_trim(field@) == t);
    if start == end2 {
        return 0;
    }
    let mut val: u64 = 0;
    let mut i: usize = start;
    while i < end2
        invariant
            start <= i <= end2 <= len == field@.len(),
            t == field@.subrange(start as int, end2 as int),
            t == octal_trim(field@),
            t.len() == end2 - start,
            forall|j: int| start <= j < i ==> is_octal_digit(field@[j]),
            val == octal_val(field@.subrange(start as int, i as int)),
        decreases end2 - i,
    {
        let b = field[i];
        if b < 48 || b > 55 {
            assert(!is_octal_digit(t[i - start as int]));
            assert(!all_octal(t));
            return 0;
        }
        let d = (b - 48) as u64;
        proof {
            assert(t.subrange(0, (i - start) as int) =~= field@.subrange(
                start as int,
                i as int,
            ));
            assert(t.subrange(0, (i + 1 - start) as int) =~= field@.subrange(
                start as int,
                i as int + 1,
            ));
            assert(field@.subrange(start as int, i as int + 1).drop_last() =~= field@.subrange(
                start as int,
                i as int,
            ));
        }
        if val > 0x1fff_ffff_ffff_ffff {
            // The value overflows a u64, so the whole field decodes to 0;
            // later digits cannot shrink it.
            proof {
                if all_octal(t) {
                    assert(octal_val(field@.subrange(start as int, i as int + 1)) > u64::MAX);
                    lemma_octal_prefix_le(t, (i + 1 - start) as int);
                }
            }
            return 0;
        }
        val = val * 8 + d;
        i = i + 1;
    }
    proof {
        assert(t =~= field@.subrange(start as int, i as int));
        assert(forall|j: int| 0 <= j < t.len() ==> is_octal_digit(t[j]));
    }
    val
}

// ---------------------------------------------------------------------------
// String fields
// ---------------------------------------------------------------------------

/// What a byte field decodes to as text: its bytes with the trailing NUL
/// padding removed, read as UTF-8, or the empty string when they are not
/// valid UTF-8.
pub open spec fn field_str(field: Seq<u8>) -> Seq<char> {
    let t = trim_zeros(field);
    if vstd::utf8::valid_utf8(t) {
        vstd::utf8::decode_utf8(t)
    } else {
        Seq::empty()
    }
}

/// Relies on `str::from_utf8`: it returns `Ok` exactly when the bytes are a
/// valid UTF-8 encoding, and the resulting string is those bytes decoded.
#[verifier::external_body]
fn utf8_to_str(bytes: &[u8]) -> (r: Option<&str>)
    ensures
        r is Some <==> vstd::utf8::valid_utf8(bytes@),
        r matches Some(s) ==> s@ == vstd::utf8::decode_utf8(bytes@),
{
    match core::str::from_utf8(bytes) {
        Ok(s) => Some(s),
        Err(_) => None,
    }
}

/// Decodes a byte field to a `String` as `field_str` describes.
fn string_field(field: &[u8]) -> (r: String)
    ensures
        r@ == field_str(field@),
{
    let len = field.len();
    let mut end: usize = len;
    while end > 0 && field[end - 1] == 0
        invariant
            end <= len == field@.len(),
            forall|j: int| end <= j < len ==> field@[j] == 0,
        decreases end,
    {
        end = end - 1;
    }
    proof {
        lemma_trim_zeros_prefix(field@, end as int);
    }
    let trimmed = vstd::slice::slice_subrange(field, 0, end);
    match utf8_to_str(trimmed) {
        Some(s) => s.to_owned(),
        None => String::new(),
    }
}

// ---------------------------------------------------------------------------
// Block layout
// ---------------------------------------------------------------------------

/// The name field: bytes 0..100 of the block.
pub open spec fn name_field(b: Seq<u8>) -> Seq<u8> {
    b.subrange(0, 100)
}

/// The mode field: bytes 100..108.
pub open spec fn mode_field(b: Seq<u8>) -> Seq<u8> {
    b.subrange(100, 108)
}

/// The owner id field: bytes 108..116.
pub open spec fn uid_field(b: Seq<u8>) -> Seq<u8> {
    b.subrange(108, 116)
}

/// The group id field: bytes 116..124.
pub open spec fn gid_field(b: Seq<u8>) -> Seq<u8> {
    b.subrange(116, 124)
}

/// The size field: bytes 124..136.
pub open spec fn size_field(b: Seq<u8>) -> Seq<u8> {
    b.subrange(124, 136)
}

/// The modification time field: bytes 136..148.
pub open spec fn mtime_field(b: Seq<u8>) -> Seq<u8> {
    b.subrange(136, 148)
}

/// The stored checksum field: bytes 148..156.
pub open spec fn chksum_field(b: Seq<u8>) -> Seq<u8> {
    b.subrange(148, 156)
}

/// The type flag: byte 156.
pub open spec fn type_flag_of(b: Seq<u8>) -> u8 {
    b[156]
}

/// The link name field: bytes 157..257.
pub open spec fn linkname_field(b: Seq<u8>) -> Seq<u8> {
    b.subrange(157, 257)
}

/// The owner name field: bytes 265..297.
pub open spec fn uname_field(b: Seq<u8>) -> Seq<u8> {
    b.subrange(265, 297)
}

/// The group name field: bytes 297..329.
pub open spec fn gname_field(b: Seq<u8>) -> Seq<u8> {
    b.subrange(297, 329)
}

/// The path prefix field: bytes 345..500.
pub open spec fn prefix_field(b: Seq<u8>) -> Seq<u8> {
    b.subrange(345, 500)
}

/// An entirely-zero name field: the block is a sentinel (end-of-archive
/// padding), not an entry.
pub open spec fn zero_name(b: Seq<u8>) -> bool {
    forall|i: int| 0 <= i < 100 ==> b[i] == 0
}

/// The full path a block describes: `prefix + "/" + name` when the prefix
/// field is non-empty, the bare name otherwise.
pub open spec fn full_path_of(b: Seq<u8>) -> Seq<char> {
    let p = field_str(prefix_field(b));
    let n = field_str(name_field(b));
    if p.len() > 0 {
        p + seq!['/'] + n
    } else {
        n
    }
}

// ---------------------------------------------------------------------------
// Checksums
// ---------------------------------------------------------------------------

/// A byte reinterpreted as a signed byte.
pub open spec fn signed_byte(b: u8) -> int {
    if b < 128 {
        b as int
    } else {
        b - 256
    }
}

/// Sum of the first `n` block bytes as unsigned values, with the stored
/// checksum field (bytes 148..156) replaced by ASCII spaces.
pub open spec fn cksum_prefix(b: Seq<u8>, n: int) -> int
    decreases n,
{
    if n <= 0 {
        0
    } else {
        cksum_prefix(b, n - 1) + if 148 <= n - 1 < 156 {
            32
        } else {
            b[n - 1] as int
        }
    }
}

/// Sum of the first `n` block bytes as signed values, with the stored
/// checksum field replaced by ASCII spaces.
pub open spec fn signed_cksum_prefix(b: Seq<u8>, n: int) -> int
    decreases n,
{
    if n <= 0 {
        0
    } else {
        signed_cksum_prefix(b, n - 1) + if 148 <= n - 1 < 156 {
            32
        } else {
            signed_byte(b[n - 1])
        }
    }
}

/// The block checksum under the unsigned-byte convention.
pub open spec fn unsigned_cksum(b: Seq<u8>) -> int {
    cksum_prefix(b, 512)
}

/// The block checksum under the signed-byte convention.
pub open spec fn signed_cksum(b: Seq<u8>) -> int {
    signed_cksum_prefix(b, 512)
}

/// A block passes validation when its stored checksum matches either
/// convention.
pub open spec fn crc_ok_spec(b: Seq<u8>) -> bool {
    octal_value(chksum_field(b)) == unsigned_cksum(b) || octal_value(chksum_field(b))
        == signed_cksum(b)
}

/// When every block byte outside the checksum field is below 128, the two
/// checksum conventions agree, so a header produced by a standard archiver
/// (whose bytes are ASCII) validates identically under both.
pub proof fn lemma_crc_conventions_agree(b: Seq<u8>)
    requires
        forall|i: int| 0 <= i < 512 ==> b[i] < 128,
    ensures
        unsigned_cksum(b) == signed_cksum(b),
{
    lemma_cksum_prefix_agree(b, 512);
}

proof fn lemma_cksum_prefix_agree(b: Seq<u8>, n: int)
    requires
        forall|i: int| 0 <= i < n ==> b[i] < 128,
        n <= 512,
    ensures
        cksum_prefix(b, n) == signed_cksum_prefix(b, n),
    decreases n,
{
    if n > 0 {
        lemma_cksum_prefix_agree(b, n - 1);
    }
}

// ---------------------------------------------------------------------------
// Entry kinds and the decoded header
// ---------------------------------------------------------------------------

/// The classification an entry handle carries, derived from the type flag.
#[derive(Clone, Copy, Debug, PartialEq, Eq, Structural)]
pub enum TarFileType {
    Undefined,
    Regular,
    Directory,
    Fifo,
    CharacterDevice,
    BlockDevice,
    SymbolicLink,
    Shadow,
    UnixDomainSocket,
    Whiteout,
    VirtualFile,
    VirtualDirectory,
}

/// One decoded 512-byte header block. Decoding keeps the raw bytes; every
/// getter is a pure reinterpretation of a fixed field of the block.
pub struct TarHeader {
    block: Vec<u8>,
}

impl View for TarHeader {
    type V = Seq<u8>;

    closed spec fn view(&self) -> Seq<u8> {
        self.block@
    }
}

impl TarHeader {
    /// A well-formed header holds exactly one block.
    pub open spec fn wf(&self) -> bool {
        self@.len() == 512
    }
}

/// Reads one header from the start of `buf`; `None` when fewer than 512
/// bytes are given.
pub fn read_tar_header(buf: &[u8]) -> (r: Option<TarHeader>)
    ensures
        r is Some <==> buf@.len() >= 512,
        r matches Some(h) ==> h@ == buf@.subrange(0, 512) && h.wf(),
{
    if buf.len() < T_BLOCKSIZE {
        return None;
    }
    let block = vstd::slice::slice_to_vec(vstd::slice::slice_subrange(buf, 0, T_BLOCKSIZE));
    Some(TarHeader { block })
}

impl TarHeader {
    /// The owner name field, decoded as text.
    pub fn get_uname(&self) -> (r: String)
        requires
            self.wf(),
        ensures
            r@ == field_str(uname_field(self@)),
    {
        string_field(vstd::slice::slice_subrange(self.block.as_slice(), 265, 297))
    }

    /// The group name field, decoded as text.
    pub fn get_gname(&self) -> (r: String)
        requires
            self.wf(),
        ensures
            r@ == field_str(gname_field(self@)),
    {
        string_field(vstd::slice::slice_subrange(self.block.as_slice(), 297, 329))
    }

    /// The entry's data size in bytes.
    pub fn get_size(&self) -> (r: u64)
        requires
            self.wf(),
        ensures
            r == octal_value(size_field(self@)),
    {
        parse_octal(vstd::slice::slice_subrange(self.block.as_slice(), 124, 136))
    }

    /// The numeric owner id.
    pub fn get_uid(&self) -> (r: u64)
        requires
            self.wf(),
        ensures
            r == octal_value(uid_field(self@)),
    {
        parse_octal(vstd::slice::slice_subrange(self.block.as_slice(), 108, 116))
    }

    /// The numeric group id.
    pub fn get_gid(&self) -> (r: u64)
        requires
            self.wf(),
        ensures
            r == octal_value(gid_field(self@)),
    {
        parse_octal(vstd::slice::slice_subrange(self.block.as_slice(), 116, 124))
    }

    /// The modification time.
    pub fn get_mtime(&self) -> (r: u64)
        requires
            self.wf(),
        ensures
            r == octal_value(mtime_field(self@)),
    {
        parse_octal(vstd::slice::slice_subrange(self.block.as_slice(), 136, 148))
    }

    /// The path name field, decoded as text.
    pub fn get_name(&self) -> (r: String)
        requires
            self.wf(),
        ensures
            r@ == field_str(name_field(self@)),
    {
        string_field(vstd::slice::slice_subrange(self.block.as_slice(), 0, 100))
    }

    /// The path prefix field, decoded as text.
    pub fn get_prefix(&self) -> (r: String)
        requires
            self.wf(),
        ensures
            r@ == field_str(prefix_field(self@)),
    {
        string_field(vstd::slice::slice_subrange(self.block.as_slice(), 345, 500))
    }

    /// The full path: `prefix + "/" + name` when a prefix is present.
    pub fn get_full_path(&self) -> (r: String)
        requires
            self.wf(),
        ensures
            r@ == full_path_of(self@),
    {
        let prefix = self.get_prefix();
        let name = self.get_name();
        if prefix.as_str().is_empty() {
            name
        } else {
            proof {
                reveal_strlit("/");
            }
            let mut r = prefix;
            r.append("/");
            r.append(name.as_str());
            assert(r@ =~= full_path_of(self@));
            r
        }
    }

    /// The type flag character.
    pub fn get_type_flag(&self) -> (r: char)
        requires
            self.wf(),
        ensures
            r == (type_flag_of(self@) as char),
    {
        self.block[156] as char
    }

    /// The raw type flag byte.
    pub fn type_flag_byte(&self) -> (r: u8)
        requires
            self.wf(),
        ensures
            r == type_flag_of(self@),
    {
        self.block[156]
    }

    /// The link name field, decoded as text.
    pub fn get_link_name(&self) -> (r: String)
        requires
            self.wf(),
        ensures
            r@ == field_str(linkname_field(self@)),
    {
        string_field(vstd::slice::slice_subrange(self.block.as_slice(), 157, 257))
    }

    /// Whether the name field is entirely zero: the block is a sentinel.
    pub fn name_is_zero(&self) -> (r: bool)
        requires
            self.wf(),
        ensures
            r == zero_name(self@),
    {
        let mut i: usize = 0;
        while i < 100
            invariant
                i <= 100,
                self.wf(),
                forall|j: int| 0 <= j < i ==> self@[j] == 0,
            decreases 100 - i,
        {
            if self.block[i] != 0 {
                return false;
            }
            i = i + 1;
        }
        true
    }

    /// Whether the stored checksum matches either checksum convention.
    pub fn crc_ok(&self) -> (r: bool)
        requires
            self.wf(),
        ensures
            r == crc_ok_spec(self@),
    {
        let real_crc = self.get_crc();
        real_crc == self.crc_calc() || real_crc == self.signed_crc_calc()
    }

    /// The block checksum under the unsigned-byte convention.
    pub fn crc_calc(&self) -> (r: i32)
        requires
            self.wf(),
        ensures
            r == unsigned_cksum(self@),
    {
        let mut sum: i32 = 0;
        let mut i: usize = 0;
        while i < 512
            invariant
                i <= 512,
                self.wf(),
                sum == cksum_prefix(self@, i as int),
                0 <= sum <= 255 * i,
            decreases 512 - i,
        {
            if 148 <= i && i < 156 {
                sum = sum + 32;
            } else {
                sum = sum + self.block[i] as i32;
            }
            i = i + 1;
        }
        sum
    }

    /// The block checksum under the signed-byte convention.
    pub fn signed_crc_calc(&self) -> (r: i32)
        requires
            self.wf(),
        ensures
            r == signed_cksum(self@),
    {
        let mut sum: i32 = 0;
        let mut i: usize = 0;
        while i < 512
            invariant
                i <= 512,
                self.wf(),
                sum == signed_cksum_prefix(self@, i as int),
                -128 * i <= sum <= 255 * i,
            decreases 512 - i,
        {
            if 148 <= i && i < 156 {
                sum = sum + 32;
            } else {
                let b = self.block[i];
                let v: i32 = if b < 128 {
                    b as i32
                } else {
                    b as i32 - 256
                };
                sum = sum + v;
            }
            i = i + 1;
        }
        sum
    }

    /// The checksum stored in the block, parsed from its octal field.
    pub fn get_crc(&self) -> (r: i32)
        requires
            self.wf(),
        ensures
            r == octal_value(chksum_field(self@)),
    {
        let v = parse_octal(vstd::slice::slice_subrange(self.block.as_slice(), 148, 156));
        proof {
            lemma_octal_value_bound(chksum_field(self@));
            assert(pow8(8) == 16777216) by {
                reveal_with_fuel(pow8, 9);
            }
        }
        v as i32
    }
}

pub proof fn lemma_pow8_pos(n: nat)
    ensures
        pow8(n) >= 1,
    decreases n,
{
    if n > 0 {
        lemma_pow8_pos((n - 1) as nat);
    }
}

pub proof fn lemma_pow8_mono(m: nat, n: nat)
    requires
        m <= n,
    ensures
        1 <= pow8(m) <= pow8(n),
    decreases n,
{
    if m == n {
        lemma_pow8_pos(m);
    } else {
        lemma_pow8_mono(m, (n - 1) as nat);
    }
}

} // verus!
