use ip2region::error::Ip2RegionError;
use ip2region::searcher::{get, segment_search, Header, IpIndex, Searcher};

const HEADER_LEN: usize = 256;
const VECTOR_LEN: usize = 256 * 256 * 8;

fn base_db() -> Vec<u8> {
    let mut db = vec![0u8; HEADER_LEN + VECTOR_LEN];
    db[0..2].copy_from_slice(&2u16.to_le_bytes());
    db[2..4].copy_from_slice(&1u16.to_le_bytes());
    db[4..8].copy_from_slice(&1_700_000_000u32.to_le_bytes());
    db
}

fn set_slot(db: &mut Vec<u8>, b0: u8, b1: u8, s_ptr: u32, e_ptr: u32) {
    let off = HEADER_LEN + ((b0 as usize) * 256 + (b1 as usize)) * 8;
    db[off..off + 4].copy_from_slice(&s_ptr.to_le_bytes());
    db[off + 4..off + 8].copy_from_slice(&e_ptr.to_le_bytes());
}

fn push_record(db: &mut Vec<u8>, start_ip: u32, end_ip: u32, data_len: u16, data_index: u32) {
    db.extend_from_slice(&start_ip.to_le_bytes());
    db.extend_from_slice(&end_ip.to_le_bytes());
    db.extend_from_slice(&data_len.to_le_bytes());
    db.extend_from_slice(&data_index.to_le_bytes());
}

/// A database whose records each cover one /16 and carry the given texts.
fn build_db(entries: &[(u8, u8, &str)]) -> Vec<u8> {
    let mut db = base_db();
    let seg_start = db.len();
    let data_start = seg_start + 14 * entries.len();
    let mut texts: Vec<u8> = Vec::new();
    let mut offsets: Vec<(u32, u16)> = Vec::new();
    for (_, _, text) in entries {
        let bytes = text.as_bytes();
        offsets.push(((data_start + texts.len()) as u32, bytes.len() as u16));
        texts.extend_from_slice(bytes);
    }
    for (i, (b0, b1, _)) in entries.iter().enumerate() {
        let start_ip = u32::from_be_bytes([*b0, *b1, 0, 0]);
        let end_ip = u32::from_be_bytes([*b0, *b1, 255, 255]);
        let (data_index, data_len) = offsets[i];
        push_record(&mut db, start_ip, end_ip, data_len, data_index);
        let rec_off = (seg_start + 14 * i) as u32;
        set_slot(&mut db, *b0, *b1, rec_off, rec_off + 14);
    }
    db.extend_from_slice(&texts);
    db
}

#[test]
fn test_ip() {
    let db = build_db(&[
        (120, 24, "中国|0|广东省|深圳市|阿里云"),
        (208, 67, "美国|0|0|0|OpenDNS"),
    ]);
    let searcher = Searcher::new(db);
    let h = searcher.header();
    assert!(h.is_ok());
    println!("{:?}", h.unwrap());
    let location = searcher.std_search("120.24.78.129");
    println!("{:?}", location);
    assert!(location.is_ok());
    let location = location.unwrap();
    assert_eq!(location.city, Some("深圳市"));
    assert_eq!(location.isp, Some("阿里云"));
    let location = searcher.std_search("208.67.222.222");
    println!("{:?}", location);
    assert!(location.is_ok());
}

#[test]
fn raw_search_returns_whole_record() {
    let db = build_db(&[(120, 24, "中国|0|广东省|深圳市|阿里云")]);
    let searcher = Searcher::new(db);
    let text = searcher.search("120.24.78.129").unwrap();
    assert_eq!(text, "中国|0|广东省|深圳市|阿里云");
}

#[test]
fn repeated_queries_identical() {
    let db = build_db(&[(10, 0, "A|B|C|D|E")]);
    let searcher = Searcher::new(db);
    let first = searcher.search("10.0.0.1").map(|t| t.to_string());
    let second = searcher.search("10.0.0.1").map(|t| t.to_string());
    assert_eq!(first, second);
    let third = searcher.std_search("10.0.0.1").unwrap();
    let fourth = searcher.std_search("10.0.0.1").unwrap();
    assert_eq!(third, fourth);
}

#[test]
fn field_mapping_sentinels() {
    let db = build_db(&[(1, 2, "China|0|Guangdong|Shenzhen|Alibaba")]);
    let searcher = Searcher::new(db);
    let loc = searcher.std_search("1.2.3.4").unwrap();
    assert_eq!(loc.contry, Some("China"));
    assert_eq!(loc.region, None);
    assert_eq!(loc.province, Some("Guangdong"));
    assert_eq!(loc.city, Some("Shenzhen"));
    assert_eq!(loc.isp, Some("Alibaba"));
}

#[test]
fn field_mapping_get() {
    let v = vec!["China", "0", "Guangdong", "Shenzhen", "Alibaba"];
    assert_eq!(get(&v, 0), Some("China"));
    assert_eq!(get(&v, 1), None);
    assert_eq!(get(&v, 2), Some("Guangdong"));
    assert_eq!(get(&v, 3), Some("Shenzhen"));
    assert_eq!(get(&v, 4), Some("Alibaba"));
    assert_eq!(get(&v, 5), None);
    let w = vec![""];
    assert_eq!(get(&w, 0), None);
}

#[test]
fn missing_trailing_fields_are_unknown() {
    let db = build_db(&[(9, 9, "France|FR")]);
    let searcher = Searcher::new(db);
    let loc = searcher.std_search("9.9.9.9").unwrap();
    assert_eq!(loc.contry, Some("France"));
    assert_eq!(loc.region, Some("FR"));
    assert_eq!(loc.province, None);
    assert_eq!(loc.city, None);
    assert_eq!(loc.isp, None);
}

/// Three consecutive ranges: the middle is found, the low boundary is
/// inclusive, and an address past the last range is not found.
#[test]
fn binary_search_boundaries() {
    let mut content: Vec<u8> = Vec::new();
    push_record(&mut content, 0, 99, 1, 100);
    push_record(&mut content, 100, 199, 1, 101);
    push_record(&mut content, 200, 299, 1, 102);
    let rec = segment_search(&content, 0, 42, 150).unwrap();
    assert_eq!(rec.start_ip, 100);
    assert_eq!(rec.end_ip, 199);
    let rec = segment_search(&content, 0, 42, 99).unwrap();
    assert_eq!(rec.start_ip, 0);
    assert_eq!(rec.end_ip, 99);
    let rec = segment_search(&content, 0, 42, 200).unwrap();
    assert_eq!(rec.start_ip, 200);
    let r = segment_search(&content, 0, 42, 300);
    assert_eq!(r, Err(Ip2RegionError::NotFound));
}

/// An address below a single record's start must fail cleanly: narrowing
/// the upper bound at the first probe must not underflow.
#[test]
fn single_record_below_range() {
    let mut content: Vec<u8> = Vec::new();
    push_record(&mut content, 100, 199, 1, 100);
    let r = segment_search(&content, 0, 14, 50);
    assert_eq!(r, Err(Ip2RegionError::NotFound));
}

#[test]
fn empty_segment_range_not_found() {
    let db = build_db(&[(1, 2, "China|0|Guangdong|Shenzhen|Alibaba")]);
    let searcher = Searcher::new(db);
    let r = searcher.search("3.4.5.6");
    assert_eq!(r, Err(Ip2RegionError::NotFound));
}

#[test]
fn segment_range_errors() {
    let content = vec![0u8; 28];
    let r = segment_search(&content, 10, 5, 1);
    assert_eq!(r, Err(Ip2RegionError::OutOfBoundsIndex));
    let r = segment_search(&content, 0, 29, 1);
    assert_eq!(r, Err(Ip2RegionError::OutOfBoundsIndex));
}

#[test]
fn address_parse_failure() {
    let db = build_db(&[(1, 2, "China|0|Guangdong|Shenzhen|Alibaba")]);
    let searcher = Searcher::new(db);
    assert_eq!(
        searcher.search("not-an-ip"),
        Err(Ip2RegionError::AddressParseFailure)
    );
    assert_eq!(
        searcher.std_search("1.2.3.256").unwrap_err(),
        Ip2RegionError::AddressParseFailure
    );
}

#[test]
fn truncated_buffer_out_of_bounds() {
    let searcher = Searcher::new(vec![0u8; 64]);
    assert_eq!(
        searcher.search("1.2.3.4"),
        Err(Ip2RegionError::OutOfBoundsIndex)
    );
}

#[test]
fn data_pointer_out_of_bounds() {
    let mut db = base_db();
    let rec_off = db.len() as u32;
    let far = 10_000_000u32;
    push_record(&mut db, u32::from_be_bytes([5, 5, 0, 0]), u32::from_be_bytes([5, 5, 255, 255]), 8, far);
    set_slot(&mut db, 5, 5, rec_off, rec_off + 14);
    let searcher = Searcher::new(db);
    assert_eq!(
        searcher.search("5.5.5.5"),
        Err(Ip2RegionError::OutOfBoundsIndex)
    );
}

#[test]
fn invalid_utf8_record() {
    let mut db = base_db();
    let start_ip = u32::from_be_bytes([7, 7, 0, 0]);
    let end_ip = u32::from_be_bytes([7, 7, 255, 255]);
    let rec_pos = db.len() as u32;
    push_record(&mut db, start_ip, end_ip, 2, rec_pos + 14);
    db.extend_from_slice(&[0xff, 0xfe]);
    set_slot(&mut db, 7, 7, rec_pos, rec_pos + 14);
    let searcher = Searcher::new(db);
    assert_eq!(
        searcher.search("7.7.7.7"),
        Err(Ip2RegionError::InvalidUtf8)
    );
}

#[test]
fn malformed_header() {
    let searcher = Searcher::new(vec![1, 2, 3]);
    assert_eq!(searcher.header(), Err(Ip2RegionError::MalformedHeader));
    assert_eq!(
        Header::new(&[0u8; 15]),
        Err(Ip2RegionError::MalformedHeader)
    );
}

#[test]
fn header_round_trip() {
    let h = Header {
        version: 2,
        index_policy: 1,
        created_at: 1_700_000_000,
        start_index_ptr: 524544,
        end_index_ptr: 524600,
    };
    let bytes = h.to_bytes();
    assert_eq!(bytes.len(), 16);
    let decoded = Header::new(&bytes).unwrap();
    assert_eq!(decoded, h);
}

#[test]
fn header_from_database() {
    let db = build_db(&[(1, 2, "China|0|Guangdong|Shenzhen|Alibaba")]);
    let searcher = Searcher::new(db);
    let h = searcher.header().unwrap();
    assert_eq!(h.version, 2);
    assert_eq!(h.index_policy, 1);
    assert_eq!(h.created_at, 1_700_000_000);
}

#[test]
fn ip_index_decode() {
    let mut bytes: Vec<u8> = Vec::new();
    push_record(&mut bytes, 0x01020304, 0x0a0b0c0d, 7, 99);
    let rec = IpIndex::new(&bytes).unwrap();
    assert_eq!(rec.start_ip, 0x01020304);
    assert_eq!(rec.end_ip, 0x0a0b0c0d);
    assert_eq!(rec.data_len, 7);
    assert_eq!(rec.data_index, 99);
    assert_eq!(rec.start_at(), 99);
    assert_eq!(rec.end_at(), 106);
    assert_eq!(
        IpIndex::new(&bytes[0..13]),
        Err(Ip2RegionError::OutOfBoundsIndex)
    );
}

#[test]
fn vector_index_and_content() {
    let db = build_db(&[(1, 2, "China|0|Guangdong|Shenzhen|Alibaba")]);
    let searcher = Searcher::new(db.clone());
    assert_eq!(searcher.content(), db);
    let vi = searcher.vector_index();
    assert_eq!(vi.len(), VECTOR_LEN);
    assert_eq!(&vi[..], &db[HEADER_LEN..HEADER_LEN + VECTOR_LEN]);
    let short = Searcher::new(vec![0u8; 100]);
    assert_eq!(short.vector_index(), Vec::<u8>::new());
}
