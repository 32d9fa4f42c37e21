use vstd::prelude::*;

use crate::error::{FatError, NameError};

verus! {

pub const SPACE: u8 = 0x20;

pub const DOT: u8 = 0x2E;

/// First name byte of a slot that is free, as are all slots after it.
pub const END_OF_DIRECTORY: u8 = 0x00;

/// First name byte of a single free, reusable slot.
pub const DELETED: u8 = 0xE5;

pub const READ_ONLY: u8 = 0x01;

pub const HIDDEN: u8 = 0x02;

pub const SYSTEM: u8 = 0x04;

pub const VOLUME_LABEL: u8 = 0x08;

pub const SUBDIRECTORY: u8 = 0x10;

pub const ARCHIVE: u8 = 0x20;

/// Length in bytes of one encoded root directory slot.
pub const ENTRY_SIZE: usize = 32;

/// One 32-byte slot of the root directory, field by field in on-disk order.
#[derive(Debug, Clone, Copy, PartialEq, Eq)]
pub struct RootEntry {
    pub filename: [u8; 8],
    pub extension: [u8; 3],
    pub attrs: u8,
    pub reserved: u16,
    pub creation_time: u16,
    pub creation_date: u16,
    pub last_access_date: u16,
    pub hi_first_lcluster: u16,
    pub last_write_time: u16,
    pub last_write_date: u16,
    pub lo_first_lcluster: u16,
    pub file_size: u32,
}

/// Byte `k` (0 low, 1 high) of the little-endian encoding of `v`.
pub open spec fn le16_byte(v: u16, k: int) -> u8 {
    if k == 0 {
        (v % 256) as u8
    } else {
        (v / 256) as u8
    }
}

/// Byte `k` (0 lowest) of the little-endian encoding of `v`.
pub open spec fn le32_byte(v: u32, k: int) -> u8 {
    if k == 0 {
        (v % 256) as u8
    } else if k == 1 {
        ((v / 256) % 256) as u8
    } else if k == 2 {
        ((v / 65536) % 256) as u8
    } else {
        (v / 16777216) as u8
    }
}

/// The 16-bit little-endian value stored at `b[at..at + 2]`.
pub open spec fn le16(b: Seq<u8>, at: int) -> u16 {
    (b[at] as int + 256 * b[at + 1] as int) as u16
}

/// The 32-bit little-endian value stored at `b[at..at + 4]`.
pub open spec fn le32(b: Seq<u8>, at: int) -> u32 {
    (b[at] as int + 256 * b[at + 1] as int + 65536 * b[at + 2] as int + 16777216 * b[at
        + 3] as int) as u32
}

/// Byte `i` of the on-disk form of `e`.
pub open spec fn entry_byte(e: RootEntry, i: int) -> u8 {
    if i < 8 {
        e.filename[i]
    } else if i < 11 {
        e.extension[i - 8]
    } else if i == 11 {
        e.attrs
    } else if i < 14 {
        le16_byte(e.reserved, i - 12)
    } else if i < 16 {
        le16_byte(e.creation_time, i - 14)
    } else if i < 18 {
        le16_byte(e.creation_date, i - 16)
    } else if i < 20 {
        le16_byte(e.last_access_date, i - 18)
    } else if i < 22 {
        le16_byte(e.hi_first_lcluster, i - 20)
    } else if i < 24 {
        le16_byte(e.last_write_time, i - 22)
    } else if i < 26 {
        le16_byte(e.last_write_date, i - 24)
    } else if i < 28 {
        le16_byte(e.lo_first_lcluster, i - 26)
    } else {
        le32_byte(e.file_size, i - 28)
    }
}

/// The 32 bytes that `e` occupies in the root directory.
pub open spec fn encode_spec(e: RootEntry) -> Seq<u8> {
    Seq::new(32, |i: int| entry_byte(e, i))
}

pub open spec fn has_flag(attrs: u8, mask: u8) -> bool {
    attrs & mask == mask
}

pub open spec fn is_flag(mask: u8) -> bool {
    mask == READ_ONLY || mask == HIDDEN || mask == SYSTEM || mask == VOLUME_LABEL || mask
        == SUBDIRECTORY || mask == ARCHIVE
}

/// `s` with its trailing spaces removed.
pub open spec fn trim_end(s: Seq<u8>) -> Seq<u8>
    decreases s.len(),
{
    if s.len() > 0 && s.last() == SPACE {
        trim_end(s.drop_last())
    } else {
        s
    }
}

pub open spec fn all_ascii(s: Seq<u8>) -> bool {
    forall|i: int| 0 <= i < s.len() ==> s[i] < 128
}

pub open spec fn ascii_chars(s: Seq<u8>) -> Seq<char> {
    s.map_values(|b: u8| b as char)
}

pub open spec fn upper(b: u8) -> u8 {
    if 97 <= b <= 122 {
        (b - 32) as u8
    } else {
        b
    }
}

/// `s` uppercased and padded with spaces to `n` bytes.
pub open spec fn padded(s: Seq<u8>, n: nat) -> Seq<u8> {
    Seq::new(n, |i: int| if i < s.len() { upper(s[i]) } else { SPACE })
}

/// `d` is the position of the one and only `.` of `s`.
pub open spec fn is_single_dot(s: Seq<u8>, d: int) -> bool {
    0 <= d < s.len() && s[d] == DOT && forall|i: int| 0 <= i < s.len() && i != d ==> s[i] != DOT
}

pub open spec fn has_single_dot(s: Seq<u8>) -> bool {
    exists|d: int| is_single_dot(s, d)
}

pub open spec fn dot_pos(s: Seq<u8>) -> int {
    choose|d: int| is_single_dot(s, d)
}

/// Why the text `s` is no valid 8.3 short name, or `None` where it is one.
pub open spec fn name_error(s: Seq<u8>) -> Option<NameError> {
    if !all_ascii(s) || !has_single_dot(s) {
        Some(NameError::BadFormat)
    } else if dot_pos(s) > 8 || s.len() - dot_pos(s) - 1 > 3 {
        Some(NameError::TooLong)
    } else {
        None
    }
}

/// The padded base field of the valid short name `s`.
pub open spec fn name_field(s: Seq<u8>) -> Seq<u8> {
    padded(s.subrange(0, dot_pos(s)), 8)
}

/// The padded extension field of the valid short name `s`.
pub open spec fn ext_field(s: Seq<u8>) -> Seq<u8> {
    padded(s.subrange(dot_pos(s) + 1, s.len() as int), 3)
}

/// The text `"NAME.EXT"` that the two padded fields stand for.
pub open spec fn short_name_spec(name: Seq<u8>, ext: Seq<u8>) -> Seq<u8> {
    trim_end(name) + seq![DOT] + trim_end(ext)
}

pub open spec fn text_bytes(s: Seq<char>) -> Seq<u8> {
    vstd::utf8::encode_utf8(s)
}

/// Relies on String::from_utf8: it succeeds exactly on valid UTF-8, holding the characters
/// that the bytes encode.
#[verifier::external_body]
fn utf8_string(b: Vec<u8>) -> (r: Option<String>)
    ensures
        r is Some <==> vstd::utf8::valid_utf8(b@),
        r is Some ==> r->0@ == vstd::utf8::decode_utf8(b@),
{
    String::from_utf8(b).ok()
}

/// 7-bit bytes are valid UTF-8, each encoding the character of the same code.
proof fn lemma_ascii_utf8(b: Seq<u8>)
    requires
        all_ascii(b),
    ensures
        vstd::utf8::valid_utf8(b),
        vstd::utf8::decode_utf8(b) == ascii_chars(b),
{
    let chars = ascii_chars(b);
    assert(vstd::utf8::is_ascii_chars(chars));
    vstd::utf8::is_ascii_chars_encode_utf8(chars);
    assert(vstd::utf8::encode_utf8(chars) =~= b);
    vstd::utf8::encode_utf8_valid_utf8(chars);
    vstd::utf8::encode_utf8_decode_utf8(chars);
}

proof fn lemma_encode_concat(a: Seq<char>, b: Seq<char>)
    ensures
        vstd::utf8::encode_utf8(a + b) == vstd::utf8::encode_utf8(a) + vstd::utf8::encode_utf8(b),
    decreases a.len(),
{
    if a.len() == 0 {
        assert(a + b =~= b);
        assert(vstd::utf8::encode_utf8(a) =~= Seq::<u8>::empty());
        assert(vstd::utf8::encode_utf8(a) + vstd::utf8::encode_utf8(b) =~= vstd::utf8::encode_utf8(b));
    } else {
        lemma_encode_concat(a.drop_first(), b);
        assert((a + b).drop_first() =~= a.drop_first() + b);
        assert((a + b)[0] == a[0]);
        let h = vstd::utf8::encode_scalar(a[0] as u32);
        assert(h + (vstd::utf8::encode_utf8(a.drop_first()) + vstd::utf8::encode_utf8(b)) =~= (h
            + vstd::utf8::encode_utf8(a.drop_first())) + vstd::utf8::encode_utf8(b));
    }
}

/// Two valid UTF-8 fields joined by a `.` are valid UTF-8, and decode field by field.
proof fn lemma_utf8_join(f: Seq<u8>, e: Seq<u8>)
    requires
        vstd::utf8::valid_utf8(f),
        vstd::utf8::valid_utf8(e),
    ensures
        vstd::utf8::valid_utf8(f + seq![DOT] + e),
        vstd::utf8::decode_utf8(f + seq![DOT] + e) == vstd::utf8::decode_utf8(f) + seq!['.']
            + vstd::utf8::decode_utf8(e),
{
    let cf = vstd::utf8::decode_utf8(f);
    let ce = vstd::utf8::decode_utf8(e);
    vstd::utf8::decode_utf8_encode_utf8(f);
    vstd::utf8::decode_utf8_encode_utf8(e);
    assert(vstd::utf8::encode_utf8(seq!['.']) =~= seq![DOT]) by {
        assert(vstd::utf8::is_ascii_chars(seq!['.']));
        vstd::utf8::is_ascii_chars_encode_utf8(seq!['.']);
        assert(seq!['.'][0] == '.');
    }
    lemma_encode_concat(cf, seq!['.']);
    lemma_encode_concat(cf + seq!['.'], ce);
    let all = cf + seq!['.'] + ce;
    assert(vstd::utf8::encode_utf8(all) == f + seq![DOT] + e);
    vstd::utf8::encode_utf8_valid_utf8(all);
    vstd::utf8::encode_utf8_decode_utf8(all);
}

fn le16_put(a: &mut [u8; 32], at: usize, v: u16)
    requires
        at + 1 < 32,
    ensures
        final(a)@ == old(a)@.update(at as int, le16_byte(v, 0)).update(at + 1, le16_byte(v, 1)),
{
    a[at] = (v % 256) as u8;
    a[at + 1] = (v / 256) as u8;
}

proof fn lemma_le16_bytes(b: Seq<u8>, at: int)
    requires
        0 <= at && at + 1 < b.len(),
    ensures
        le16_byte(le16(b, at), 0) == b[at],
        le16_byte(le16(b, at), 1) == b[at + 1],
{
}

proof fn lemma_le32_bytes(b: Seq<u8>, at: int)
    requires
        0 <= at && at + 3 < b.len(),
    ensures
        le32_byte(le32(b, at), 0) == b[at],
        le32_byte(le32(b, at), 1) == b[at + 1],
        le32_byte(le32(b, at), 2) == b[at + 2],
        le32_byte(le32(b, at), 3) == b[at + 3],
{
    let b0 = b[at] as int;
    let b1 = b[at + 1] as int;
    let b2 = b[at + 2] as int;
    let b3 = b[at + 3] as int;
    let v = b0 + 256 * b1 + 65536 * b2 + 16777216 * b3;
    assert(v % 256 == b0 && v / 256 == b1 + 256 * b2 + 65536 * b3) by (nonlinear_arith)
        requires
            v == b0 + 256 * b1 + 65536 * b2 + 16777216 * b3,
            0 <= b0 < 256,
            0 <= b1 < 256,
            0 <= b2 < 256,
            0 <= b3 < 256,
    ;
    assert((v / 256) % 256 == b1) by (nonlinear_arith)
        requires
            v / 256 == b1 + 256 * b2 + 65536 * b3,
            0 <= b1 < 256,
            0 <= b2 < 256,
            0 <= b3 < 256,
    ;
    assert(v / 65536 == b2 + 256 * b3) by (nonlinear_arith)
        requires
            v == b0 + 256 * b1 + 65536 * b2 + 16777216 * b3,
            0 <= b0 < 256,
            0 <= b1 < 256,
            0 <= b2 < 256,
            0 <= b3 < 256,
    ;
    assert((v / 65536) % 256 == b2) by (nonlinear_arith)
        requires
            v / 65536 == b2 + 256 * b3,
            0 <= b2 < 256,
            0 <= b3 < 256,
    ;
    assert(v / 16777216 == b3) by (nonlinear_arith)
        requires
            v == b0 + 256 * b1 + 65536 * b2 + 16777216 * b3,
            0 <= b0 < 256,
            0 <= b1 < 256,
            0 <= b2 < 256,
            0 <= b3 < 256,
    ;
    assert(le32(b, at) as int == v);
}

proof fn lemma_le16_injective(x: u16, y: u16)
    requires
        le16_byte(x, 0) == le16_byte(y, 0),
        le16_byte(x, 1) == le16_byte(y, 1),
    ensures
        x == y,
{
    assert(x % 256 == y % 256);
    assert(x / 256 == y / 256);
    assert(x == y) by (bit_vector)
        requires
            x % 256 == y % 256,
            x / 256 == y / 256,
    ;
}

proof fn lemma_le32_injective(x: u32, y: u32)
    requires
        le32_byte(x, 0) == le32_byte(y, 0),
        le32_byte(x, 1) == le32_byte(y, 1),
        le32_byte(x, 2) == le32_byte(y, 2),
        le32_byte(x, 3) == le32_byte(y, 3),
    ensures
        x == y,
{
    assert(x % 256 == y % 256);
    assert((x / 256) % 256 == (y / 256) % 256);
    assert((x / 65536) % 256 == (y / 65536) % 256);
    assert(x / 16777216 == y / 16777216);
    assert(x == y) by (bit_vector)
        requires
            x % 256 == y % 256,
            (x / 256) % 256 == (y / 256) % 256,
            (x / 65536) % 256 == (y / 65536) % 256,
            x / 16777216 == y / 16777216,
    ;
}

/// An entry is determined by its on-disk bytes: the entry that `decode` gives back on
/// the bytes of `e`, whose form is by its contract those same bytes, is `e` itself.
pub proof fn lemma_round_trip(e: RootEntry, d: RootEntry)
    requires
        encode_spec(d) == encode_spec(e),
    ensures
        d == e,
{
    assert forall|i: int| 0 <= i < 8 implies d.filename[i] == e.filename[i] by {
        assert(entry_byte(d, i) == encode_spec(d)[i]);
        assert(entry_byte(e, i) == encode_spec(e)[i]);
    }
    assert forall|i: int| 0 <= i < 3 implies d.extension[i] == e.extension[i] by {
        assert(entry_byte(d, i + 8) == encode_spec(d)[i + 8]);
        assert(entry_byte(e, i + 8) == encode_spec(e)[i + 8]);
    }
    assert(d.filename =~= e.filename);
    assert(d.extension =~= e.extension);
    let a = encode_spec(d);
    let b = encode_spec(e);
    assert(a[11] == b[11]);
    assert(a[12] == b[12] && a[13] == b[13]);
    lemma_le16_injective(d.reserved, e.reserved);
    assert(a[14] == b[14] && a[15] == b[15]);
    lemma_le16_injective(d.creation_time, e.creation_time);
    assert(a[16] == b[16] && a[17] == b[17]);
    lemma_le16_injective(d.creation_date, e.creation_date);
    assert(a[18] == b[18] && a[19] == b[19]);
    lemma_le16_injective(d.last_access_date, e.last_access_date);
    assert(a[20] == b[20] && a[21] == b[21]);
    lemma_le16_injective(d.hi_first_lcluster, e.hi_first_lcluster);
    assert(a[22] == b[22] && a[23] == b[23]);
    lemma_le16_injective(d.last_write_time, e.last_write_time);
    assert(a[24] == b[24] && a[25] == b[25]);
    lemma_le16_injective(d.last_write_date, e.last_write_date);
    assert(a[26] == b[26] && a[27] == b[27]);
    lemma_le16_injective(d.lo_first_lcluster, e.lo_first_lcluster);
    assert(a[28] == b[28] && a[29] == b[29] && a[30] == b[30] && a[31] == b[31]);
    lemma_le32_injective(d.file_size, e.file_size);
}

fn le16_get(a: &[u8; 32], at: usize) -> (r: u16)
    requires
        at + 1 < 32,
    ensures
        r == le16(a@, at as int),
{
    a[at] as u16 + 256 * (a[at + 1] as u16)
}

/// Length of `s[..n]` once its trailing spaces are removed.
fn trimmed_len(s: &[u8], n: usize) -> (r: usize)
    requires
        n <= s@.len(),
    ensures
        r <= n,
        s@.subrange(0, r as int) == trim_end(s@.subrange(0, n as int)),
{
    let mut k: usize = n;
    while k > 0 && s[k - 1] == SPACE
        invariant
            k <= n <= s@.len(),
            trim_end(s@.subrange(0, k as int)) == trim_end(s@.subrange(0, n as int)),
        decreases k,
    {
        assert(s@.subrange(0, k as int).drop_last() =~= s@.subrange(0, k - 1));
        k = k - 1;
    }
    k
}

/// Checks `s` against the 8.3 rules and returns its padded, uppercased fields.
pub fn encode_short_name(s: &[u8]) -> (r: Result<([u8; 8], [u8; 3]), NameError>)
    ensures
        name_error(s@) is Some <==> r is Err,
        r is Err ==> name_error(s@) == Some(r->Err_0),
        r is Ok ==> r->Ok_0.0@ == name_field(s@) && r->Ok_0.1@ == ext_field(s@),
{
    let len = s.len();
    let mut i: usize = 0;
    while i < len
        invariant
            len == s@.len(),
            i <= len,
            forall|j: int| 0 <= j < i ==> s@[j] < 128,
        decreases len - i,
    {
        if s[i] >= 128 {
            return Err(NameError::BadFormat);
        }
        i = i + 1;
    }
    let mut d: usize = 0;
    while d < len && s[d] != DOT
        invariant
            len == s@.len(),
            d <= len,
            forall|j: int| 0 <= j < d ==> s@[j] != DOT,
        decreases len - d,
    {
        d = d + 1;
    }
    if d == len {
        assert(!has_single_dot(s@));
        return Err(NameError::BadFormat);
    }
    let mut j: usize = d + 1;
    while j < len
        invariant
            len == s@.len(),
            d < j <= len,
            s@[d as int] == DOT,
            forall|k: int| 0 <= k < d ==> s@[k] != DOT,
            forall|k: int| d < k < j ==> s@[k] != DOT,
        decreases len - j,
    {
        if s[j] == DOT {
            assert(!is_single_dot(s@, d as int));
            assert(!has_single_dot(s@)) by {
                if has_single_dot(s@) {
                    let e = choose|e: int| is_single_dot(s@, e);
                    assert(e != d as int ==> s@[d as int] != DOT);
                    assert(e != j as int ==> s@[j as int] != DOT);
                }
            }
            return Err(NameError::BadFormat);
        }
        j = j + 1;
    }
    assert(is_single_dot(s@, d as int));
    assert(dot_pos(s@) == d as int);
    if d > 8 || len - d - 1 > 3 {
        return Err(NameError::TooLong);
    }
    let mut name: [u8; 8] = [SPACE; 8];
    let mut ext: [u8; 3] = [SPACE; 3];
    let mut k: usize = 0;
    while k < d
        invariant
            len == s@.len(),
            d <= 8,
            d < len,
            k <= d,
            forall|m: int| 0 <= m < k ==> name@[m] == upper(s@[m]),
            forall|m: int| k <= m < 8 ==> name@[m] == SPACE,
        decreases d - k,
    {
        name[k] = if 97 <= s[k] && s[k] <= 122 {
            s[k] - 32
        } else {
            s[k]
        };
        k = k + 1;
    }
    let e = len - d - 1;
    k = 0;
    while k < e
        invariant
            len == s@.len(),
            e == len - d - 1,
            e <= 3,
            k <= e,
            forall|m: int| 0 <= m < k ==> ext@[m] == upper(s@[d + 1 + m]),
            forall|m: int| k <= m < 3 ==> ext@[m] == SPACE,
        decreases e - k,
    {
        let b = s[d + 1 + k];
        ext[k] = if 97 <= b && b <= 122 {
            b - 32
        } else {
            b
        };
        k = k + 1;
    }
    assert(name@ =~= name_field(s@));
    assert(ext@ =~= ext_field(s@));
    Ok((name, ext))
}

impl RootEntry {
    /// A zeroed entry: every byte is zero, so the slot it stands for is free and marks the
    /// end of the directory.
    pub fn new() -> (r: RootEntry)
        ensures
            r.filename@ == Seq::new(8, |i: int| 0u8),
            r.extension@ == Seq::new(3, |i: int| 0u8),
            r.attrs == 0,
            r.reserved == 0,
            r.creation_time == 0,
            r.creation_date == 0,
            r.last_access_date == 0,
            r.hi_first_lcluster == 0,
            r.last_write_time == 0,
            r.last_write_date == 0,
            r.lo_first_lcluster == 0,
            r.file_size == 0,
    {
        let r = RootEntry {
            filename: [0; 8],
            extension: [0; 3],
            attrs: 0,
            reserved: 0,
            creation_time: 0,
            creation_date: 0,
            last_access_date: 0,
            hi_first_lcluster: 0,
            last_write_time: 0,
            last_write_date: 0,
            lo_first_lcluster: 0,
            file_size: 0,
        };
        assert(r.filename@ =~= Seq::new(8, |i: int| 0u8));
        assert(r.extension@ =~= Seq::new(3, |i: int| 0u8));
        r
    }

    /// The on-disk form of this entry, all 32 bytes.
    pub fn encode(&self) -> (r: [u8; 32])
        ensures
            r@ == encode_spec(*self),
    {
        let mut a: [u8; 32] = [0; 32];
        let mut i: usize = 0;
        while i < 8
            invariant
                i <= 8,
                forall|k: int| 0 <= k < i ==> a@[k] == self.filename@[k],
            decreases 8 - i,
        {
            a[i] = self.filename[i];
            i = i + 1;
        }
        i = 0;
        while i < 3
            invariant
                i <= 3,
                forall|k: int| 0 <= k < 8 ==> a@[k] == self.filename@[k],
                forall|k: int| 0 <= k < i ==> a@[8 + k] == self.extension@[k],
            decreases 3 - i,
        {
            a[8 + i] = self.extension[i];
            i = i + 1;
        }
        a[11] = self.attrs;
        le16_put(&mut a, 12, self.reserved);
        le16_put(&mut a, 14, self.creation_time);
        le16_put(&mut a, 16, self.creation_date);
        le16_put(&mut a, 18, self.last_access_date);
        le16_put(&mut a, 20, self.hi_first_lcluster);
        le16_put(&mut a, 22, self.last_write_time);
        le16_put(&mut a, 24, self.last_write_date);
        le16_put(&mut a, 26, self.lo_first_lcluster);
        let v = self.file_size;
        a[28] = (v % 256) as u8;
        a[29] = ((v / 256) % 256) as u8;
        a[30] = ((v / 65536) % 256) as u8;
        a[31] = (v / 16777216) as u8;
        assert(a@ =~= encode_spec(*self));
        a
    }

    /// The entry whose on-disk form is `b`.
    pub fn decode(b: &[u8; 32]) -> (r: RootEntry)
        ensures
            encode_spec(r) == b@,
    {
        let mut filename: [u8; 8] = [0; 8];
        let mut extension: [u8; 3] = [0; 3];
        let mut i: usize = 0;
        while i < 8
            invariant
                i <= 8,
                forall|k: int| 0 <= k < i ==> filename@[k] == b@[k],
            decreases 8 - i,
        {
            filename[i] = b[i];
            i = i + 1;
        }
        i = 0;
        while i < 3
            invariant
                i <= 3,
                forall|k: int| 0 <= k < i ==> extension@[k] == b@[8 + k],
            decreases 3 - i,
        {
            extension[i] = b[8 + i];
            i = i + 1;
        }
        let file_size: u32 = b[28] as u32 + 256 * (b[29] as u32) + 65536 * (b[30] as u32)
            + 16777216 * (b[31] as u32);
        assert(file_size == le32(b@, 28));
        proof {
            lemma_le16_bytes(b@, 12);
            lemma_le16_bytes(b@, 14);
            lemma_le16_bytes(b@, 16);
            lemma_le16_bytes(b@, 18);
            lemma_le16_bytes(b@, 20);
            lemma_le16_bytes(b@, 22);
            lemma_le16_bytes(b@, 24);
            lemma_le16_bytes(b@, 26);
            lemma_le32_bytes(b@, 28);
        }
        let r = RootEntry {
            filename,
            extension,
            attrs: b[11],
            reserved: le16_get(b, 12),
            creation_time: le16_get(b, 14),
            creation_date: le16_get(b, 16),
            last_access_date: le16_get(b, 18),
            hi_first_lcluster: le16_get(b, 20),
            last_write_time: le16_get(b, 22),
            last_write_date: le16_get(b, 24),
            lo_first_lcluster: le16_get(b, 26),
            file_size,
        };
        assert(encode_spec(r) =~= b@);
        r
    }
}

impl RootEntry {
    /// The text `"NAME.EXT"` with trailing spaces of both fields removed.
    pub fn filename(&self) -> (r: Result<String, NameError>)
        ensures
            r is Ok <==> all_ascii(self.filename@ + self.extension@),
            r is Ok ==> r->Ok_0@ == ascii_chars(
                short_name_spec(self.filename@, self.extension@),
            ),
            r is Err ==> r->Err_0 == NameError::BadFormat,
    {
        let ghost both = self.filename@ + self.extension@;
        let mut i: usize = 0;
        while i < 8
            invariant
                i <= 8,
                both == self.filename@ + self.extension@,
                forall|k: int| 0 <= k < i ==> both[k] < 128,
            decreases 8 - i,
        {
            if self.filename[i] >= 128 {
                assert(both[i as int] == self.filename@[i as int]);
                return Err(NameError::BadFormat);
            }
            i = i + 1;
        }
        i = 0;
        while i < 3
            invariant
                i <= 3,
                both == self.filename@ + self.extension@,
                forall|k: int| 0 <= k < 8 + i ==> both[k] < 128,
            decreases 3 - i,
        {
            if self.extension[i] >= 128 {
                assert(both[8 + i] == self.extension@[i as int]);
                return Err(NameError::BadFormat);
            }
            i = i + 1;
        }
        let n = trimmed_len(&self.filename, 8);
        let e = trimmed_len(&self.extension, 3);
        assert(self.filename@.subrange(0, 8) =~= self.filename@);
        assert(self.extension@.subrange(0, 3) =~= self.extension@);
        let mut out: Vec<u8> = Vec::new();
        i = 0;
        while i < n
            invariant
                n <= 8,
                i <= n,
                out@ == self.filename@.subrange(0, i as int),
            decreases n - i,
        {
            out.push(self.filename[i]);
            i = i + 1;
            assert(out@ =~= self.filename@.subrange(0, i as int));
        }
        out.push(DOT);
        i = 0;
        while i < e
            invariant
                n <= 8,
                e <= 3,
                i <= e,
                out@ == self.filename@.subrange(0, n as int) + seq![DOT]
                    + self.extension@.subrange(0, i as int),
            decreases e - i,
        {
            out.push(self.extension[i]);
            i = i + 1;
            assert(out@ =~= self.filename@.subrange(0, n as int) + seq![DOT]
                + self.extension@.subrange(0, i as int));
        }
        assert(out@ == short_name_spec(self.filename@, self.extension@));
        assert(all_ascii(out@)) by {
            assert forall|k: int| 0 <= k < out@.len() implies out@[k] < 128 by {
                if k < n {
                    assert(out@[k] == both[k]);
                } else if k > n {
                    assert(out@[k] == both[8 + k - n - 1]);
                }
            }
        }
        proof {
            lemma_ascii_utf8(out@);
        }
        match utf8_string(out) {
            Some(text) => Ok(text),
            None => Err(NameError::BadFormat),
        }
    }

    /// The padded `"NAME    .EXT"` text, or `"BAD FILENAME"` where a field is not valid UTF-8.
    pub fn filename_full(&self) -> (r: String)
        ensures
            vstd::utf8::valid_utf8(self.filename@) && vstd::utf8::valid_utf8(self.extension@) ==> r@
                == vstd::utf8::decode_utf8(self.filename@) + seq!['.'] + vstd::utf8::decode_utf8(
                self.extension@,
            ),
            !(vstd::utf8::valid_utf8(self.filename@) && vstd::utf8::valid_utf8(self.extension@))
                ==> r@ == "BAD FILENAME"@,
    {
        let name = utf8_string(vstd::slice::slice_to_vec(self.filename.as_slice()));
        let ext = utf8_string(vstd::slice::slice_to_vec(self.extension.as_slice()));
        if name.is_none() || ext.is_none() {
            return "BAD FILENAME".to_owned();
        }
        let mut out: Vec<u8> = Vec::new();
        let mut i: usize = 0;
        while i < 8
            invariant
                i <= 8,
                out@ == self.filename@.subrange(0, i as int),
            decreases 8 - i,
        {
            out.push(self.filename[i]);
            i = i + 1;
            assert(out@ =~= self.filename@.subrange(0, i as int));
        }
        out.push(DOT);
        i = 0;
        while i < 3
            invariant
                i <= 3,
                out@ == self.filename@ + seq![DOT] + self.extension@.subrange(0, i as int),
            decreases 3 - i,
        {
            out.push(self.extension[i]);
            i = i + 1;
            assert(out@ =~= self.filename@ + seq![DOT] + self.extension@.subrange(0, i as int));
        }
        assert(self.filename@.subrange(0, 8) =~= self.filename@);
        assert(self.extension@.subrange(0, 3) =~= self.extension@);
        proof {
            lemma_utf8_join(self.filename@, self.extension@);
        }
        match utf8_string(out) {
            Some(text) => text,
            None => "BAD FILENAME".to_owned(),
        }
    }

    /// Stores `filename` as an uppercased, space-padded 8.3 name.
    pub fn set_filename(&mut self, filename: String) -> (r: Result<(), NameError>)
        ensures
            r is Err <==> name_error(text_bytes(filename@)) is Some,
            r is Err ==> name_error(text_bytes(filename@)) == Some(r->Err_0) && *final(self)
                == *old(self),
            r is Ok ==> final(self).filename@ == name_field(text_bytes(filename@))
                && final(self).extension@ == ext_field(text_bytes(filename@)) && *final(self) == (
            RootEntry {
                filename: final(self).filename,
                extension: final(self).extension,
                ..*old(self)
            }),
    {
        let b = filename.as_str().as_bytes();
        match encode_short_name(b) {
            Ok((name, ext)) => {
                self.filename = name;
                self.extension = ext;
                Ok(())
            },
            Err(e) => Err(e),
        }
    }

    /// Sets the size in bytes of the file that the entry describes.
    pub fn set_size(&mut self, bytes: u32) -> (r: Result<(), FatError>)
        ensures
            r is Ok,
            *final(self) == (RootEntry { file_size: bytes, ..*old(self) }),
    {
        self.file_size = bytes;
        Ok(())
    }

    /// The first cluster of the file, from its high and low halves.
    pub fn entry_cluster(&self) -> (r: u32)
        ensures
            r == self.hi_first_lcluster * 65536 + self.lo_first_lcluster,
    {
        (self.hi_first_lcluster as u32) * 65536 + self.lo_first_lcluster as u32
    }

    /// Sets the first cluster; FAT12/16 can only store the low half.
    pub fn set_entry_cluster(&mut self, cluster_num: u32) -> (r: Result<(), FatError>)
        ensures
            r is Err <==> cluster_num > 0xFFFF,
            r is Err ==> r->Err_0 == FatError::Unsupported && *final(self) == *old(self),
            r is Ok ==> *final(self) == (RootEntry {
                lo_first_lcluster: cluster_num as u16,
                ..*old(self)
            }),
    {
        if cluster_num > 0xFFFF {
            return Err(FatError::Unsupported);
        }
        self.lo_first_lcluster = cluster_num as u16;
        Ok(())
    }

    fn set_flag(&mut self, mask: u8, on: bool)
        requires
            is_flag(mask),
        ensures
            has_flag(final(self).attrs, mask) == on,
            final(self).attrs & !mask == old(self).attrs & !mask,
            *final(self) == (RootEntry { attrs: final(self).attrs, ..*old(self) }),
    {
        let a = self.attrs;
        let x: u8 = if on {
            mask
        } else {
            0
        };
        let n = (a & !mask) | x;
        assert(((a & !mask) | x) & mask == x && ((a & !mask) | x) & !mask == a & !mask) by (bit_vector)
            requires
                x == mask || x == 0u8,
        ;
        assert(on ==> mask != 0u8);
        assert(mask != 0u8 ==> (0u8 & mask) != mask) by (bit_vector);
        self.attrs = n;
    }

    pub fn is_read_only(&self) -> (r: bool)
        ensures
            r == has_flag(self.attrs, READ_ONLY),
    {
        self.attrs & READ_ONLY == READ_ONLY
    }

    pub fn is_hidden(&self) -> (r: bool)
        ensures
            r == has_flag(self.attrs, HIDDEN),
    {
        self.attrs & HIDDEN == HIDDEN
    }

    pub fn is_system(&self) -> (r: bool)
        ensures
            r == has_flag(self.attrs, SYSTEM),
    {
        self.attrs & SYSTEM == SYSTEM
    }

    pub fn is_volume_label(&self) -> (r: bool)
        ensures
            r == has_flag(self.attrs, VOLUME_LABEL),
    {
        self.attrs & VOLUME_LABEL == VOLUME_LABEL
    }

    pub fn is_subdir(&self) -> (r: bool)
        ensures
            r == has_flag(self.attrs, SUBDIRECTORY),
    {
        self.attrs & SUBDIRECTORY == SUBDIRECTORY
    }

    pub fn is_archive(&self) -> (r: bool)
        ensures
            r == has_flag(self.attrs, ARCHIVE),
    {
        self.attrs & ARCHIVE == ARCHIVE
    }

    /// The slot holds no file: it is deleted or lies at or past the end of the directory.
    pub fn is_free(&self) -> (r: bool)
        ensures
            r == (self.filename[0] == END_OF_DIRECTORY || self.filename[0] == DELETED),
    {
        self.filename[0] == END_OF_DIRECTORY || self.filename[0] == DELETED
    }

    /// This slot and every slot after it are free.
    pub fn rest_are_free(&self) -> (r: bool)
        ensures
            r == (self.filename[0] == END_OF_DIRECTORY),
    {
        self.filename[0] == END_OF_DIRECTORY
    }

    pub fn set_is_read_only(&mut self, on: bool)
        ensures
            has_flag(final(self).attrs, READ_ONLY) == on,
            final(self).attrs & !READ_ONLY == old(self).attrs & !READ_ONLY,
            *final(self) == (RootEntry { attrs: final(self).attrs, ..*old(self) }),
    {
        self.set_flag(READ_ONLY, on)
    }

    pub fn set_is_hidden(&mut self, on: bool)
        ensures
            has_flag(final(self).attrs, HIDDEN) == on,
            final(self).attrs & !HIDDEN == old(self).attrs & !HIDDEN,
            *final(self) == (RootEntry { attrs: final(self).attrs, ..*old(self) }),
    {
        self.set_flag(HIDDEN, on)
    }

    pub fn set_is_system(&mut self, on: bool)
        ensures
            has_flag(final(self).attrs, SYSTEM) == on,
            final(self).attrs & !SYSTEM == old(self).attrs & !SYSTEM,
            *final(self) == (RootEntry { attrs: final(self).attrs, ..*old(self) }),
    {
        self.set_flag(SYSTEM, on)
    }

    pub fn set_is_volume_label(&mut self, on: bool)
        ensures
            has_flag(final(self).attrs, VOLUME_LABEL) == on,
            final(self).attrs & !VOLUME_LABEL == old(self).attrs & !VOLUME_LABEL,
            *final(self) == (RootEntry { attrs: final(self).attrs, ..*old(self) }),
    {
        self.set_flag(VOLUME_LABEL, on)
    }

    pub fn set_is_subdir(&mut self, on: bool)
        ensures
            has_flag(final(self).attrs, SUBDIRECTORY) == on,
            final(self).attrs & !SUBDIRECTORY == old(self).attrs & !SUBDIRECTORY,
            *final(self) == (RootEntry { attrs: final(self).attrs, ..*old(self) }),
    {
        self.set_flag(SUBDIRECTORY, on)
    }

    pub fn set_is_archive(&mut self, on: bool)
        ensures
            has_flag(final(self).attrs, ARCHIVE) == on,
            final(self).attrs & !ARCHIVE == old(self).attrs & !ARCHIVE,
            *final(self) == (RootEntry { attrs: final(self).attrs, ..*old(self) }),
    {
        self.set_flag(ARCHIVE, on)
    }
}

} // verus!
