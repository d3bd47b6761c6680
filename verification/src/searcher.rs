//! The xdb database layout and the query path.
//!
//! All multi-byte integers in the file are little-endian.  The layout is:
//! a 256-byte header, then 65536 vector-index slots of 8 bytes each, then
//! the segment index of 14-byte range records, then the location text.

use vstd::bytes::{
    lemma_auto_spec_u16_to_from_le_bytes, lemma_auto_spec_u32_to_from_le_bytes,
    spec_u16_from_le_bytes, spec_u16_to_le_bytes, spec_u32_from_le_bytes, spec_u32_to_le_bytes,
    u16_from_le_bytes, u16_to_le_bytes, u32_from_le_bytes, u32_to_le_bytes,
};
use vstd::prelude::*;
use vstd::slice::{slice_subrange, slice_to_vec};
use vstd::utf8::{decode_utf8, valid_utf8};

use crate::error::Ip2RegionError;
use crate::ip::spec_parse_ipv4;
use crate::text::{decode_text, field_value, split_chars, split_str};

verus! {

/// Size of the fixed file header in bytes.
pub const HEADER_INFO_LENGTH: usize = 256;

/// Number of rows of the vector index: one per value of the first octet.
pub const VECTOR_INDEX_ROWS: usize = 256;

/// Number of columns of the vector index: one per value of the second octet.
pub const VECTOR_INDEX_COLS: usize = 256;

/// Size of one vector-index slot in bytes: two little-endian u32 pointers.
pub const VECTOR_INDEX_SIZE: usize = 8;

/// Size of one segment-index record in bytes.
pub const SEGMENT_INDEX_SIZE: usize = 14;

/// The decoded file header: the first 16 bytes of the 256-byte header
/// region.
#[derive(Clone, PartialEq, Debug)]
pub struct Header {
    /// Format version of the database file.
    pub version: u16,
    /// Identifier of the index policy the file was built with.
    pub index_policy: u16,
    /// Creation time, seconds since the epoch.
    pub created_at: u32,
    /// Byte offset where the segment index region starts.
    pub start_index_ptr: u32,
    /// Byte offset where the segment index region ends.
    pub end_index_ptr: u32,
}

/// The header denoted by the first 16 bytes of `c`.
pub open spec fn spec_header(c: Seq<u8>) -> Header {
    Header {
        version: spec_u16_from_le_bytes(c.subrange(0, 2)),
        index_policy: spec_u16_from_le_bytes(c.subrange(2, 4)),
        created_at: spec_u32_from_le_bytes(c.subrange(4, 8)),
        start_index_ptr: spec_u32_from_le_bytes(c.subrange(8, 12)),
        end_index_ptr: spec_u32_from_le_bytes(c.subrange(12, 16)),
    }
}

/// The 16-byte little-endian encoding of `h`.
pub open spec fn spec_header_bytes(h: Header) -> Seq<u8> {
    spec_u16_to_le_bytes(h.version) + spec_u16_to_le_bytes(h.index_policy)
        + spec_u32_to_le_bytes(h.created_at) + spec_u32_to_le_bytes(h.start_index_ptr)
        + spec_u32_to_le_bytes(h.end_index_ptr)
}

impl Header {
    /// Decode the header from the front of the buffer.  Fails exactly when
    /// the buffer is too short to hold the fixed layout.
    pub fn new(data: &[u8]) -> (r: Result<Self, Ip2RegionError>)
        ensures
            data@.len() >= 16 ==> r == Ok::<Header, Ip2RegionError>(spec_header(data@)),
            data@.len() < 16 ==> r == Err::<Header, Ip2RegionError>(
                Ip2RegionError::MalformedHeader,
            ),
    {
        if data.len() < 16 {
            return Err(Ip2RegionError::MalformedHeader);
        }
        Ok(
            Header {
                version: u16_from_le_bytes(slice_subrange(data, 0, 2)),
                index_policy: u16_from_le_bytes(slice_subrange(data, 2, 4)),
                created_at: u32_from_le_bytes(slice_subrange(data, 4, 8)),
                start_index_ptr: u32_from_le_bytes(slice_subrange(data, 8, 12)),
                end_index_ptr: u32_from_le_bytes(slice_subrange(data, 12, 16)),
            },
        )
    }

    /// Encode the header as its 16-byte little-endian layout.
    pub fn to_bytes(&self) -> (r: Vec<u8>)
        ensures
            r@ == spec_header_bytes(*self),
    {
        let mut out = u16_to_le_bytes(self.version);
        let mut b = u16_to_le_bytes(self.index_policy);
        out.append(&mut b);
        let mut b = u32_to_le_bytes(self.created_at);
        out.append(&mut b);
        let mut b = u32_to_le_bytes(self.start_index_ptr);
        out.append(&mut b);
        let mut b = u32_to_le_bytes(self.end_index_ptr);
        out.append(&mut b);
        out
    }
}

/// One segment-index record: an inclusive IPv4 range and the position of
/// the location text it owns.  All offsets are absolute within the file
/// buffer.
#[derive(Clone, PartialEq, Debug, Default)]
pub struct IpIndex {
    /// First address of the range, inclusive.
    pub start_ip: u32,
    /// Last address of the range, inclusive.
    pub end_ip: u32,
    /// Length in bytes of the location text record.
    pub data_len: u16,
    /// Byte offset of the location text record in the buffer.
    pub data_index: u32,
}

/// The segment-index record denoted by the 14 bytes of `c` at offset `p`.
pub open spec fn spec_record(c: Seq<u8>, p: int) -> IpIndex {
    IpIndex {
        start_ip: spec_u32_from_le_bytes(c.subrange(p, p + 4)),
        end_ip: spec_u32_from_le_bytes(c.subrange(p + 4, p + 8)),
        data_len: spec_u16_from_le_bytes(c.subrange(p + 8, p + 10)),
        data_index: spec_u32_from_le_bytes(c.subrange(p + 10, p + 14)),
    }
}

/// The `i`-th record of the run of segment-index records starting at
/// buffer offset `sp`.
pub open spec fn rec_at(c: Seq<u8>, sp: int, i: int) -> IpIndex {
    spec_record(c, sp + 14 * i)
}

/// Whether the `i`-th record of the run at `sp` covers the address `ip`.
pub open spec fn record_covers(c: Seq<u8>, sp: int, i: int, ip: u32) -> bool {
    rec_at(c, sp, i).start_ip <= ip <= rec_at(c, sp, i).end_ip
}

/// Well-formedness of a run of `count` segment-index records at `sp`:
/// each range is ordered, and the ranges are ascending and disjoint.
pub open spec fn wf_segment(c: Seq<u8>, sp: int, count: int) -> bool {
    &&& forall|i: int|
        0 <= i < count ==> (#[trigger] rec_at(c, sp, i)).start_ip <= rec_at(c, sp, i).end_ip
    &&& forall|i: int, j: int|
        0 <= i < j < count ==> (#[trigger] rec_at(c, sp, i)).end_ip < (#[trigger] rec_at(
            c,
            sp,
            j,
        )).start_ip
}

/// Binary search over the records at `sp`, restricted to indices in
/// `[l, h)`: the index of the record whose range covers `ip`, found by
/// halving, or nothing when the search exhausts the range.  The upper
/// bound stays exclusive throughout, so narrowing the lower half at the
/// first record never takes the bound below zero.
pub open spec fn spec_bsearch(c: Seq<u8>, sp: int, ip: u32, l: int, h: int) -> Option<int>
    decreases h - l,
{
    if l < 0 || h <= l {
        None
    } else {
        let m = (l + h) / 2;
        if ip < rec_at(c, sp, m).start_ip {
            spec_bsearch(c, sp, ip, l, m)
        } else if ip > rec_at(c, sp, m).end_ip {
            spec_bsearch(c, sp, ip, m + 1, h)
        } else {
            Some(m)
        }
    }
}

/// Whatever the buffer holds, a found index lies in the searched range
/// and its record covers the address.
pub proof fn lemma_bsearch_sound(c: Seq<u8>, sp: int, ip: u32, l: int, h: int)
    ensures
        spec_bsearch(c, sp, ip, l, h) matches Some(m) ==> l <= m < h && record_covers(
            c,
            sp,
            m,
            ip,
        ),
    decreases h - l,
{
    if 0 <= l < h {
        let m = (l + h) / 2;
        lemma_bsearch_sound(c, sp, ip, l, m);
        lemma_bsearch_sound(c, sp, ip, m + 1, h);
    }
}

/// Over a well-formed run, the search finds a record whenever one of the
/// records in the searched range covers the address.
pub proof fn lemma_bsearch_complete(c: Seq<u8>, sp: int, ip: u32, l: int, h: int, count: int)
    requires
        0 <= l <= h <= count,
        wf_segment(c, sp, count),
        exists|i: int| l <= i < h && record_covers(c, sp, i, ip),
    ensures
        spec_bsearch(c, sp, ip, l, h) is Some,
    decreases h - l,
{
    let i = choose|i: int| l <= i < h && record_covers(c, sp, i, ip);
    let m = (l + h) / 2;
    if ip < rec_at(c, sp, m).start_ip {
        assert(i < m);
        lemma_bsearch_complete(c, sp, ip, l, m, count);
    } else if ip > rec_at(c, sp, m).end_ip {
        assert(i > m);
        lemma_bsearch_complete(c, sp, ip, m + 1, h, count);
    }
}

impl IpIndex {
    /// Decode one segment-index record from the front of `data`.  Fails
    /// exactly when fewer than 14 bytes are there: a truncated buffer.
    pub fn new(data: &[u8]) -> (r: Result<Self, Ip2RegionError>)
        ensures
            data@.len() >= 14 ==> r == Ok::<IpIndex, Ip2RegionError>(spec_record(data@, 0)),
            data@.len() < 14 ==> r == Err::<IpIndex, Ip2RegionError>(
                Ip2RegionError::OutOfBoundsIndex,
            ),
    {
        if data.len() < 14 {
            return Err(Ip2RegionError::OutOfBoundsIndex);
        }
        Ok(
            IpIndex {
                start_ip: u32_from_le_bytes(slice_subrange(data, 0, 4)),
                end_ip: u32_from_le_bytes(slice_subrange(data, 4, 8)),
                data_len: u16_from_le_bytes(slice_subrange(data, 8, 10)),
                data_index: u32_from_le_bytes(slice_subrange(data, 10, 14)),
            },
        )
    }

    /// First byte offset of this record's location text.
    pub fn start_at(&self) -> (r: usize)
        ensures
            r == self.data_index,
    {
        self.data_index as usize
    }

    /// One past the last byte offset of this record's location text.
    pub fn end_at(&self) -> (r: usize)
        requires
            self.data_index + self.data_len <= usize::MAX,
        ensures
            r == self.data_index + self.data_len,
    {
        self.data_index as usize + self.data_len as usize
    }
}

/// The outcome of the binary search over the records between the buffer
/// offsets `s_ptr` and `e_ptr`: the covering record, or why there is none.
pub open spec fn spec_segment_search(c: Seq<u8>, s_ptr: u32, e_ptr: u32, ip: u32) -> Result<
    IpIndex,
    Ip2RegionError,
> {
    if e_ptr < s_ptr || e_ptr > c.len() {
        Err(Ip2RegionError::OutOfBoundsIndex)
    } else {
        let count = (e_ptr - s_ptr) / 14;
        match spec_bsearch(c, s_ptr as int, ip, 0, count) {
            Some(m) => Ok(rec_at(c, s_ptr as int, m)),
            None => Err(Ip2RegionError::NotFound),
        }
    }
}

/// Binary search over the fixed-size records spanning the buffer offsets
/// `[s_ptr, e_ptr)` for the record whose range covers `ip`.  The bounds
/// are checked before any byte is read: a range outside the buffer is
/// reported, never followed.
pub fn segment_search(content: &Vec<u8>, s_ptr: u32, e_ptr: u32, ip: u32) -> (r: Result<
    IpIndex,
    Ip2RegionError,
>)
    ensures
        r == spec_segment_search(content@, s_ptr, e_ptr, ip),
{
    if e_ptr < s_ptr {
        return Err(Ip2RegionError::OutOfBoundsIndex);
    }
    if e_ptr as usize > content.len() {
        return Err(Ip2RegionError::OutOfBoundsIndex);
    }
    let count: u32 = (e_ptr - s_ptr) / (SEGMENT_INDEX_SIZE as u32);
    let mut l: u32 = 0;
    let mut h: u32 = count;
    while l < h
        invariant
            l <= h <= count,
            s_ptr <= e_ptr,
            e_ptr <= content@.len(),
            count == (e_ptr - s_ptr) / 14,
            spec_bsearch(content@, s_ptr as int, ip, l as int, h as int) == spec_bsearch(
                content@,
                s_ptr as int,
                ip,
                0,
                count as int,
            ),
        decreases h - l,
    {
        let m: u32 = (l + h) / 2;
        proof {
            assert(14 * (count as int) <= e_ptr - s_ptr) by {
                vstd::arithmetic::div_mod::lemma_fundamental_div_mod((e_ptr - s_ptr) as int, 14);
            }
            assert(14 * (m as int) + 14 <= 14 * (count as int));
        }
        let p: usize = s_ptr as usize + (m as usize) * SEGMENT_INDEX_SIZE;
        let rec = match IpIndex::new(slice_subrange(content.as_slice(), p, p + SEGMENT_INDEX_SIZE)) {
            Ok(rec) => rec,
            Err(e) => { return Err(e) },
        };
        proof {
            let c = content@;
            let q = p as int;
            assert(c.subrange(q, q + 14).subrange(0, 4) =~= c.subrange(q, q + 4));
            assert(c.subrange(q, q + 14).subrange(4, 8) =~= c.subrange(q + 4, q + 8));
            assert(c.subrange(q, q + 14).subrange(8, 10) =~= c.subrange(q + 8, q + 10));
            assert(c.subrange(q, q + 14).subrange(10, 14) =~= c.subrange(q + 10, q + 14));
            assert(rec == rec_at(c, s_ptr as int, m as int));
        }
        if ip < rec.start_ip {
            h = m;
        } else if ip > rec.end_ip {
            l = m + 1;
        } else {
            return Ok(rec);
        }
    }
    Err(Ip2RegionError::NotFound)
}

/// A located region in the official field order.  A field is absent when
/// the record's text there was empty or the literal `0`.
#[derive(Clone, PartialEq, Debug, Default)]
pub struct Location<'a> {
    /// Country name.
    pub contry: Option<&'a str>,
    /// Region name.
    pub region: Option<&'a str>,
    /// Province name.
    pub province: Option<&'a str>,
    /// City name.
    pub city: Option<&'a str>,
    /// Internet service provider name.
    pub isp: Option<&'a str>,
}

/// Positional field `i` of `v`, with empty text and the literal `0`
/// mapped to "unknown" (absent), and absent positions tolerated.
pub fn get<'a, 'b>(v: &'a [&'b str], i: usize) -> (r: Option<&'b str>)
    ensures
        match r {
            Some(t) => i < v@.len() && v@[i as int] == t && t@.len() > 0 && t@ != seq!['0'],
            None => i >= v@.len() || v@[i as int]@.len() == 0 || v@[i as int]@ == seq!['0'],
        },
{
    if i >= v.len() {
        return None;
    }
    let t: &'b str = *vstd::slice::slice_index_get(v, i);
    let n = t.unicode_len();
    if n == 0 {
        return None;
    }
    if n == 1 && t.get_char(0) == '0' {
        proof {
            assert(t@ =~= seq!['0']);
        }
        return None;
    }
    proof {
        if t@ == seq!['0'] {
            assert(t@.len() == 1 && t@[0] == '0');
        }
    }
    Some(t)
}

/// The vector-index slot that narrows the search for `ip`: one slot per
/// combination of the two highest octets.
pub open spec fn slot_of(ip: u32) -> int {
    (ip >> 24) * 256 + ((ip >> 16) & 0xff)
}

/// The outcome of a raw query against the buffer `c` for the dotted
/// decimal string `s`: the decoded location text of the record covering
/// the address, or the exact reason the query fails.
pub open spec fn spec_search(c: Seq<u8>, s: Seq<char>) -> Result<Seq<char>, Ip2RegionError> {
    match spec_parse_ipv4(s) {
        None => Err(Ip2RegionError::AddressParseFailure),
        Some(ip) => {
            let off = 256 + slot_of(ip) * 8;
            if off + 8 > c.len() {
                Err(Ip2RegionError::OutOfBoundsIndex)
            } else {
                let sp = spec_u32_from_le_bytes(c.subrange(off, off + 4));
                let ep = spec_u32_from_le_bytes(c.subrange(off + 4, off + 8));
                match spec_segment_search(c, sp, ep, ip) {
                    Err(e) => Err(e),
                    Ok(rec) => {
                        if rec.data_index + rec.data_len > c.len() {
                            Err(Ip2RegionError::OutOfBoundsIndex)
                        } else {
                            let data = c.subrange(
                                rec.data_index as int,
                                rec.data_index + rec.data_len,
                            );
                            if valid_utf8(data) {
                                Ok(decode_utf8(data))
                            } else {
                                Err(Ip2RegionError::InvalidUtf8)
                            }
                        }
                    },
                }
            }
        },
    }
}

/// Whether the optional field `o` is exactly positional field `i` of the
/// location text `text` split on `|`.
pub open spec fn field_matches(o: Option<&str>, text: Seq<char>, i: int) -> bool {
    match o {
        Some(t) => field_value(split_chars(text, '|'), i) == Some(t@),
        None => field_value(split_chars(text, '|'), i) is None,
    }
}

/// Whether `loc` carries exactly the five positional fields of `text`.
pub open spec fn location_matches<'a>(loc: Location<'a>, text: Seq<char>) -> bool {
    &&& field_matches(loc.contry, text, 0)
    &&& field_matches(loc.region, text, 1)
    &&& field_matches(loc.province, text, 2)
    &&& field_matches(loc.city, text, 3)
    &&& field_matches(loc.isp, text, 4)
}

/// The resolver: owns the whole database file content for its lifetime.
/// The buffer is never mutated; every query only reads it.
#[derive(Clone, PartialEq, Debug, Default)]
pub struct Searcher {
    content: Vec<u8>,
}

impl View for Searcher {
    type V = Seq<u8>;

    closed spec fn view(&self) -> Seq<u8> {
        self.content@
    }
}

impl Searcher {
    /// Build a searcher over the full content of a database file.
    pub fn new(content: Vec<u8>) -> (r: Searcher)
        ensures
            r@ == content@,
    {
        Searcher { content }
    }

    /// The raw bytes of the vector-index region, or nothing when the
    /// buffer is too short to hold it.
    pub fn vector_index(&self) -> (r: Vec<u8>)
        ensures
            self@.len() >= 256 + 256 * 256 * 8 ==> r@ == self@.subrange(
                256int,
                256int + 256 * 256 * 8,
            ),
            self@.len() < 256 + 256 * 256 * 8 ==> r@ == Seq::<u8>::empty(),
    {
        let len = VECTOR_INDEX_ROWS * VECTOR_INDEX_COLS * VECTOR_INDEX_SIZE;
        let start_at = HEADER_INFO_LENGTH;
        let end_at = start_at + len;
        if self.content.len() < end_at {
            let r: Vec<u8> = Vec::new();
            proof {
                assert(r@ =~= Seq::<u8>::empty());
            }
            return r;
        }
        slice_to_vec(slice_subrange(self.content.as_slice(), start_at, end_at))
    }

    /// A copy of the whole database buffer.
    pub fn content(&self) -> (r: Vec<u8>)
        ensures
            r@ == self@,
    {
        slice_to_vec(self.content.as_slice())
    }

    /// Resolve a dotted-decimal IPv4 string to the raw `|`-delimited
    /// location text of the record covering it.
    pub fn search<'a>(&'a self, ip_v4: &str) -> (r: Result<&'a str, Ip2RegionError>)
        ensures
            ({
                let sr = spec_search(self@, ip_v4@);
                match r {
                    Ok(t) => sr == Ok::<Seq<char>, Ip2RegionError>(t@),
                    Err(e) => sr == Err::<Seq<char>, Ip2RegionError>(e),
                }
            }),
    {
        let ip = match crate::ip::parse_ipv4(ip_v4) {
            Some(ip) => ip,
            None => { return Err(Ip2RegionError::AddressParseFailure) },
        };
        let i0 = (ip >> 24) as usize;
        let i1 = ((ip >> 16) & 0xff) as usize;
        proof {
            assert(ip >> 24 < 256 && (ip >> 16) & 0xff < 256) by (bit_vector);
        }
        let offset = HEADER_INFO_LENGTH + (i0 * VECTOR_INDEX_COLS + i1) * VECTOR_INDEX_SIZE;
        if offset + 8 > self.content.len() {
            return Err(Ip2RegionError::OutOfBoundsIndex);
        }
        let s_ptr = u32_from_le_bytes(slice_subrange(self.content.as_slice(), offset, offset + 4));
        let e_ptr = u32_from_le_bytes(
            slice_subrange(self.content.as_slice(), offset + 4, offset + 8),
        );
        let rec = match segment_search(&self.content, s_ptr, e_ptr, ip) {
            Ok(rec) => rec,
            Err(e) => { return Err(e) },
        };
        let di = rec.start_at();
        if di > self.content.len() {
            return Err(Ip2RegionError::OutOfBoundsIndex);
        }
        if rec.data_len as usize > self.content.len() - di {
            return Err(Ip2RegionError::OutOfBoundsIndex);
        }
        let de = rec.end_at();
        let data = slice_subrange(self.content.as_slice(), di, de);
        match decode_text(data) {
            Some(t) => Ok(t),
            None => Err(Ip2RegionError::InvalidUtf8),
        }
    }

    /// Resolve a dotted-decimal IPv4 string to the structured location
    /// record in the official field order.
    pub fn std_search<'a>(&'a self, ip_v4: &str) -> (r: Result<Location<'a>, Ip2RegionError>)
        ensures
            ({
                let sr = spec_search(self@, ip_v4@);
                match r {
                    Ok(loc) => sr matches Ok(text) && location_matches(loc, text),
                    Err(e) => sr == Err::<Seq<char>, Ip2RegionError>(e),
                }
            }),
    {
        let text = match self.search(ip_v4) {
            Ok(t) => t,
            Err(e) => { return Err(e) },
        };
        let parts = split_str(text, '|');
        let r = Location {
            contry: get(parts.as_slice(), 0),
            region: get(parts.as_slice(), 1),
            province: get(parts.as_slice(), 2),
            city: get(parts.as_slice(), 3),
            isp: get(parts.as_slice(), 4),
        };
        Ok(r)
    }

    /// Decode the file header from the front of the buffer.
    pub fn header(&self) -> (r: Result<Header, Ip2RegionError>)
        ensures
            self@.len() >= 16 ==> r == Ok::<Header, Ip2RegionError>(spec_header(self@)),
            self@.len() < 16 ==> r == Err::<Header, Ip2RegionError>(
                Ip2RegionError::MalformedHeader,
            ),
    {
        Header::new(self.content.as_slice())
    }
}

/// A raw query for a well-formed dotted-decimal string never fails on
/// address parsing or header decoding: it yields the location text, or
/// reports that no record covers the address, that an offset fell outside
/// the buffer, or that the located text was not UTF-8.
pub proof fn lemma_valid_query_outcomes(c: Seq<u8>, s: Seq<char>)
    requires
        spec_parse_ipv4(s) is Some,
    ensures
        spec_search(c, s) is Ok || spec_search(c, s) == Err::<Seq<char>, Ip2RegionError>(
            Ip2RegionError::NotFound,
        ) || spec_search(c, s) == Err::<Seq<char>, Ip2RegionError>(
            Ip2RegionError::OutOfBoundsIndex,
        ) || spec_search(c, s) == Err::<Seq<char>, Ip2RegionError>(Ip2RegionError::InvalidUtf8),
{
}

/// A successful raw query returns exactly the decoded text of a segment
/// record that lies inside the buffer and whose range covers the queried
/// address, whatever the buffer holds.
pub proof fn lemma_search_ok_covers(c: Seq<u8>, s: Seq<char>)
    requires
        spec_search(c, s) is Ok,
    ensures
        spec_parse_ipv4(s) is Some,
        exists|p: int|
            {
                &&& 0 <= p && p + 14 <= c.len()
                &&& (#[trigger] spec_record(c, p)).start_ip <= spec_parse_ipv4(s)->Some_0
                    <= spec_record(c, p).end_ip
                &&& spec_record(c, p).data_index + spec_record(c, p).data_len <= c.len()
                &&& spec_search(c, s)->Ok_0 == decode_utf8(
                    c.subrange(
                        spec_record(c, p).data_index as int,
                        spec_record(c, p).data_index + spec_record(c, p).data_len,
                    ),
                )
            },
{
    let ip = spec_parse_ipv4(s)->Some_0;
    let off = 256 + slot_of(ip) * 8;
    let sp = spec_u32_from_le_bytes(c.subrange(off, off + 4));
    let ep = spec_u32_from_le_bytes(c.subrange(off + 4, off + 8));
    lemma_segment_search_sound(c, sp, ep, ip);
    let i = choose|i: int|
        0 <= i < (ep - sp) / 14 && spec_segment_search(c, sp, ep, ip)->Ok_0 == rec_at(
            c,
            sp as int,
            i,
        ) && record_covers(c, sp as int, i, ip);
    let p = sp as int + 14 * i;
    vstd::arithmetic::div_mod::lemma_fundamental_div_mod((ep - sp) as int, 14);
    assert(14 * (i + 1) <= 14 * ((ep - sp) / 14));
    assert(spec_record(c, p).start_ip <= ip <= spec_record(c, p).end_ip);
}

/// Queries are idempotent: the outcome of a raw query is a function of
/// the buffer and the query string alone, so repeated queries against the
/// same searcher return identical results.
pub proof fn lemma_search_idempotent(
    c: Seq<u8>,
    s: Seq<char>,
    r1: Result<Seq<char>, Ip2RegionError>,
    r2: Result<Seq<char>, Ip2RegionError>,
)
    requires
        r1 == spec_search(c, s),
        r2 == spec_search(c, s),
    ensures
        r1 == r2,
{
}

/// A record returned by the segment search covers the queried address
/// and stands in the searched run, whatever the buffer holds.
pub proof fn lemma_segment_search_sound(c: Seq<u8>, s_ptr: u32, e_ptr: u32, ip: u32)
    ensures
        spec_segment_search(c, s_ptr, e_ptr, ip) matches Ok(rec) ==> exists|i: int|
            0 <= i < (e_ptr - s_ptr) / 14 && rec == rec_at(c, s_ptr as int, i) && record_covers(
                c,
                s_ptr as int,
                i,
                ip,
            ),
{
    if s_ptr <= e_ptr <= c.len() {
        let count = (e_ptr - s_ptr) / 14;
        lemma_bsearch_sound(c, s_ptr as int, ip, 0, count);
        if spec_bsearch(c, s_ptr as int, ip, 0, count) is Some {
            let m = spec_bsearch(c, s_ptr as int, ip, 0, count)->Some_0;
            assert(0 <= m < count && record_covers(c, s_ptr as int, m, ip));
        }
    }
}

/// Over a well-formed segment run the search succeeds whenever some
/// record of the run covers the address: no covering record is missed.
pub proof fn lemma_segment_search_complete(c: Seq<u8>, s_ptr: u32, e_ptr: u32, ip: u32)
    requires
        s_ptr <= e_ptr <= c.len(),
        wf_segment(c, s_ptr as int, (e_ptr - s_ptr) / 14),
        exists|i: int| 0 <= i < (e_ptr - s_ptr) / 14 && record_covers(c, s_ptr as int, i, ip),
    ensures
        spec_segment_search(c, s_ptr, e_ptr, ip) is Ok,
{
    let count = (e_ptr - s_ptr) / 14;
    lemma_bsearch_complete(c, s_ptr as int, ip, 0, count, count);
}

/// Encoding a header and decoding the result yields the identical fields.
pub proof fn lemma_header_round_trip(h: Header)
    ensures
        spec_header_bytes(h).len() == 16,
        spec_header(spec_header_bytes(h)) == h,
{
    lemma_auto_spec_u16_to_from_le_bytes();
    lemma_auto_spec_u32_to_from_le_bytes();
    let b = spec_header_bytes(h);
    assert(b.subrange(0, 2) =~= spec_u16_to_le_bytes(h.version));
    assert(b.subrange(2, 4) =~= spec_u16_to_le_bytes(h.index_policy));
    assert(b.subrange(4, 8) =~= spec_u32_to_le_bytes(h.created_at));
    assert(b.subrange(8, 12) =~= spec_u32_to_le_bytes(h.start_index_ptr));
    assert(b.subrange(12, 16) =~= spec_u32_to_le_bytes(h.end_index_ptr));
}

} // verus!
