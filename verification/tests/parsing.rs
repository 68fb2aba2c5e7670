use geolookup::addr::parse_ipv4;
use geolookup::record::parse_row;
use geolookup::text::{parse_u32, split, tokenize, trim};

fn v(s: &[u8]) -> Vec<u8> {
    s.to_vec()
}

#[test]
fn trim_strips_spaces_and_quotes() {
    assert_eq!(trim(&v(b"  \"Mountain View\"  ")), v(b"Mountain View"));
    assert_eq!(trim(&v(b"\"US\"")), v(b"US"));
    assert_eq!(trim(&v(b"plain")), v(b"plain"));
    assert_eq!(trim(&v(b" \" \" ")), Vec::<u8>::new());
    assert_eq!(trim(&v(b"")), Vec::<u8>::new());
    assert_eq!(trim(&v(b"a b")), v(b"a b"));
}

#[test]
fn split_keeps_every_field() {
    let fields = split(&v(b"a,b,,d"), 44);
    assert_eq!(fields, vec![v(b"a"), v(b"b"), v(b""), v(b"d")]);
    assert_eq!(split(&v(b""), 44), vec![v(b"")]);
    assert_eq!(split(&v(b","), 44), vec![v(b""), v(b"")]);
}

#[test]
fn tokenize_drops_empty_runs() {
    let words = tokenize(&v(b"  LOOKUP\t1.2.3.4 \r\n"));
    assert_eq!(words, vec![v(b"LOOKUP"), v(b"1.2.3.4")]);
    assert_eq!(tokenize(&v(b"   \t ")), Vec::<Vec<u8>>::new());
}

#[test]
fn parse_u32_accepts_plain_decimals() {
    assert_eq!(parse_u32(&v(b"0")), Some(0));
    assert_eq!(parse_u32(&v(b"16777216")), Some(16777216));
    assert_eq!(parse_u32(&v(b"+42")), Some(42));
    assert_eq!(parse_u32(&v(b"4294967295")), Some(u32::MAX));
}

#[test]
fn parse_u32_rejects_junk_and_overflow() {
    assert_eq!(parse_u32(&v(b"")), None);
    assert_eq!(parse_u32(&v(b"+")), None);
    assert_eq!(parse_u32(&v(b"12a")), None);
    assert_eq!(parse_u32(&v(b" 12")), None);
    assert_eq!(parse_u32(&v(b"-1")), None);
    assert_eq!(parse_u32(&v(b"4294967296")), None);
    assert_eq!(parse_u32(&v(b"99999999999999999999")), None);
}

#[test]
fn parse_ipv4_reads_dotted_quads() {
    assert_eq!(parse_ipv4(&v(b"0.0.0.0")), Some(0));
    assert_eq!(parse_ipv4(&v(b"1.0.0.1")), Some(16777217));
    assert_eq!(parse_ipv4(&v(b"2.0.0.1")), Some(33554433));
    assert_eq!(parse_ipv4(&v(b"255.255.255.255")), Some(u32::MAX));
    assert_eq!(parse_ipv4(&v(b"192.168.0.1")), Some(3232235521));
}

#[test]
fn parse_ipv4_rejects_malformed_literals() {
    assert_eq!(parse_ipv4(&v(b"")), None);
    assert_eq!(parse_ipv4(&v(b"not-an-ip")), None);
    assert_eq!(parse_ipv4(&v(b"1.2.3")), None);
    assert_eq!(parse_ipv4(&v(b"1.2.3.4.5")), None);
    assert_eq!(parse_ipv4(&v(b"256.0.0.1")), None);
    assert_eq!(parse_ipv4(&v(b"01.2.3.4")), None);
    assert_eq!(parse_ipv4(&v(b"+1.2.3.4")), None);
    assert_eq!(parse_ipv4(&v(b"1..2.3")), None);
    assert_eq!(parse_ipv4(&v(b"1.2.3.")), None);
}

#[test]
fn parse_row_accepts_a_quoted_spaced_row() {
    let row = v(b"16777216,33554431,\"US\",\"United States\",\"\",  \"Mountain View\"  ,\"\",\"\"");
    let rec = parse_row(&row).expect("row should parse");
    assert_eq!(rec.range_start, 16777216);
    assert_eq!(rec.range_end, 33554431);
    assert_eq!(rec.country_code, v(b"US"));
    assert_eq!(rec.city, v(b"Mountain View"));
}

#[test]
fn parse_row_trims_numeric_fields_too() {
    let row = v(b" \"10\" , \"20\" ,AA,name,unused,CityA,x,y");
    let rec = parse_row(&row).expect("row should parse");
    assert_eq!(rec.range_start, 10);
    assert_eq!(rec.range_end, 20);
    assert_eq!(rec.country_code, v(b"AA"));
    assert_eq!(rec.city, v(b"CityA"));
}

#[test]
fn parse_row_skips_wrong_field_count() {
    assert!(parse_row(&v(b"1,2,US,name,u,City,x")).is_none());
    assert!(parse_row(&v(b"1,2,US,name,u,City,x,y,z")).is_none());
    assert!(parse_row(&v(b"")).is_none());
}

#[test]
fn parse_row_skips_non_numeric_bounds() {
    assert!(parse_row(&v(b"one,2,US,name,u,City,x,y")).is_none());
    assert!(parse_row(&v(b"1,two,US,name,u,City,x,y")).is_none());
    assert!(parse_row(&v(b"4294967296,4294967297,US,name,u,City,x,y")).is_none());
}

#[test]
fn parse_row_skips_inverted_bounds() {
    assert!(parse_row(&v(b"20,10,US,name,u,City,x,y")).is_none());
    assert!(parse_row(&v(b"10,10,US,name,u,City,x,y")).is_some());
}
