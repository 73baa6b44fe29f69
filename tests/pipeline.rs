use brc_ingest::parser::{check_records, record_check, Entry};
use brc_ingest::report::{format_report, name_le, sort_by_name, summarize, summarize_checked};
use brc_ingest::stats::CityInfo;
use brc_ingest::table::CityTable;

fn text(b: Vec<u8>) -> String {
    String::from_utf8(b).unwrap()
}

fn entry_of(t: &CityTable, name: &str) -> CityInfo {
    let all = t.sorted_entries();
    let found: Vec<CityInfo> = all.into_iter().filter(|c| c.name == name.as_bytes()).collect();
    assert_eq!(found.len(), 1);
    found[0].clone()
}

#[test]
fn parses_positive_temperature() {
    let buf = b"Hamburg;12.3\n";
    let mut pos: usize = 0;
    let e = Entry::read(buf, &mut pos);
    assert_eq!(e.name(), b"Hamburg");
    assert_eq!(e.temp10(), 123);
    assert_eq!(pos, buf.len());
}

#[test]
fn parses_negative_temperature() {
    let buf = b"Berlin;-5.6\n";
    let mut pos: usize = 0;
    let e = Entry::read(buf, &mut pos);
    assert_eq!(e.name(), b"Berlin");
    assert_eq!(e.temp10(), -56);
    assert_eq!(pos, buf.len());
}

#[test]
fn parses_consecutive_records_and_long_names() {
    let buf = b"Abcdefghijklmnop;0.0\nAbcdefgh;100.5\n;-0.1\n";
    let mut pos: usize = 0;
    let a = Entry::read(buf, &mut pos);
    assert_eq!(a.name(), b"Abcdefghijklmnop");
    assert_eq!(a.temp10(), 0);
    let b = Entry::read(buf, &mut pos);
    assert_eq!(b.name(), b"Abcdefgh");
    assert_eq!(b.temp10(), 1005);
    let c = Entry::read(buf, &mut pos);
    assert_eq!(c.name(), b"");
    assert_eq!(c.temp10(), -1);
    assert_eq!(pos, buf.len());
}

#[test]
fn equal_names_hash_alike_across_records() {
    let buf = b"Oslo;1.0\nRome;2.0\nOslo;3.0\n";
    let mut pos: usize = 0;
    let a = Entry::read(buf, &mut pos);
    let b = Entry::read(buf, &mut pos);
    let c = Entry::read(buf, &mut pos);
    assert_eq!(a.hash(), c.hash());
    assert_ne!(a.hash(), b.hash());
}

#[test]
fn aggregates_three_records() {
    let t = CityTable::ingest(b"X;10.0\nX;20.0\nX;-5.0\n");
    let x = entry_of(&t, "X");
    assert_eq!(x.count, 3);
    assert_eq!(x.sum, 250);
    assert_eq!(x.min, -50);
    assert_eq!(x.max, 200);
    assert_eq!(text(x.values()), "=-5.0/8.3/20.0");
}

#[test]
fn colliding_names_stay_apart() {
    // "A" and "A\0" are hashed as the same single word, so their hashes agree.
    let buf = b"A;1.0\nA\0;2.0\nA;3.0\n";
    let mut pos: usize = 0;
    let a = Entry::read(buf, &mut pos);
    let b = Entry::read(buf, &mut pos);
    assert_eq!(a.hash(), b.hash());
    assert_ne!(a.name(), b.name());
    let t = CityTable::ingest(buf);
    let all = t.sorted_entries();
    assert_eq!(all.len(), 2);
    assert_eq!(all[0].name(), b"A");
    assert_eq!(all[1].name(), b"A\0");
    let x = entry_of(&t, "A");
    assert_eq!((x.count, x.sum, x.min, x.max), (2, 40, 10, 30));
    let y = entry_of(&t, "A\0");
    assert_eq!((y.count, y.sum, y.min, y.max), (1, 20, 20, 20));
}

#[test]
fn sorts_names_bytewise() {
    let v = vec![
        CityInfo::first(b"Zurich", 1, 0),
        CityInfo::first(b"Abu Dhabi", 2, 0),
        CityInfo::first(b"Malta", 3, 0),
    ];
    let s = sort_by_name(v);
    let names: Vec<&[u8]> = s.iter().map(|c| c.name()).collect();
    assert_eq!(names, vec![&b"Abu Dhabi"[..], &b"Malta"[..], &b"Zurich"[..]]);
}

#[test]
fn byte_order_compares_prefixes_and_bytes() {
    assert!(name_le(b"Abu", b"Abu Dhabi"));
    assert!(!name_le(b"Abu Dhabi", b"Abu"));
    assert!(name_le(b"Malta", b"Malta"));
    assert!(name_le(b"Zurich", b"a"));
    assert!(!name_le(b"b", b"a"));
}

#[test]
fn end_to_end_report() {
    let r = summarize(b"A;1.0\nB;2.0\nA;3.0\n");
    assert_eq!(text(r), "A=1.0/2.0/3.0\nB=2.0/2.0/2.0\n");
}

#[test]
fn report_of_sorted_input() {
    let r = summarize(b"Zurich;1.0\nAbu Dhabi;-2.5\nMalta;30.1\n");
    assert_eq!(text(r), "Abu Dhabi=-2.5/-2.5/-2.5\nMalta=30.1/30.1/30.1\nZurich=1.0/1.0/1.0\n");
}

#[test]
fn empty_input_gives_empty_report() {
    assert_eq!(summarize(b"").len(), 0);
    assert_eq!(CityTable::ingest(b"").sorted_entries().len(), 0);
}

#[test]
fn order_of_records_does_not_matter() {
    let a = summarize(b"A;1.0\nB;2.0\nA;3.0\nC;-4.4\n");
    let b = summarize(b"C;-4.4\nA;3.0\nB;2.0\nA;1.0\n");
    assert_eq!(a, b);
}

#[test]
fn shards_merged_equal_whole() {
    let whole = CityTable::ingest(b"A;1.0\nB;2.0\nA;3.0\nC;-4.4\n");
    let left = CityTable::ingest(b"A;1.0\nB;2.0\n");
    let right = CityTable::ingest(b"A;3.0\nC;-4.4\n");
    let joined = left.join(right);
    assert_eq!(joined.report(), whole.report());
    let a = entry_of(&joined, "A");
    assert_eq!((a.count, a.sum, a.min, a.max), (2, 40, 10, 30));
}

#[test]
fn merge_grouping_and_order_do_not_matter() {
    let ta = || CityTable::ingest(b"A;1.0\nB;-2.0\n");
    let tb = || CityTable::ingest(b"B;5.5\nC;0.3\n");
    let tc = || CityTable::ingest(b"A;-9.9\nC;7.0\n");
    let r1 = ta().join(tb()).join(tc()).report();
    let r2 = ta().join(tb().join(tc())).report();
    let r3 = tb().join(ta()).join(tc()).report();
    assert_eq!(r1, r2);
    assert_eq!(r1, r3);
    assert_eq!(text(r1), "A=-9.9/-4.5/1.0\nB=-2.0/1.8/5.5\nC=0.3/3.7/7.0\n");
}

#[test]
fn mean_rounds_half_away_from_zero() {
    let mut c = CityInfo::first(b"P", 0, 1);
    c.observe(2);
    // mean 1.5 tenths
    assert_eq!(text(c.values()), "=0.1/0.2/0.2");
    let mut d = CityInfo::first(b"N", 0, -1);
    d.observe(-2);
    assert_eq!(text(d.values()), "=-0.2/-0.2/-0.1");
    let mut e = CityInfo::first(b"Z", 0, -1);
    e.observe(0);
    e.observe(0);
    assert_eq!(text(e.values()), "=-0.1/0.0/0.0");
}

#[test]
fn new_entry_starts_at_extremes() {
    let c = CityInfo::new(b"Kyiv", 7);
    assert_eq!(c.name(), b"Kyiv");
    assert_eq!(c.hash(), 7);
    assert_eq!((c.count, c.sum, c.min, c.max), (0, 0, i64::MAX, i64::MIN));
}

#[test]
fn observe_and_absorb_fold_statistics() {
    let mut a = CityInfo::first(b"K", 0, 5);
    a.observe(-3);
    let mut b = CityInfo::first(b"K", 0, 12);
    b.observe(1);
    a.absorb(&b);
    assert_eq!((a.count, a.sum, a.min, a.max), (4, 15, -3, 12));
    assert!(a.has_name(b"K"));
    assert!(!a.has_name(b"K2"));
}

#[test]
fn formats_large_and_small_values() {
    let v = vec![CityInfo::first(b"Q", 0, -12345), CityInfo::first(b"R", 0, 7)];
    assert_eq!(text(format_report(&v)), "Q=-1234.5/-1234.5/-1234.5\nR=0.7/0.7/0.7\n");
}

#[test]
fn checked_summary_accepts_well_formed_input() {
    let r = summarize_checked(b"A;1.0\nB;2.0\nA;3.0\n").unwrap();
    assert_eq!(text(r), "A=1.0/2.0/3.0\nB=2.0/2.0/2.0\n");
}

#[test]
fn checked_summary_rejects_malformed_records() {
    assert!(summarize_checked(b"A;1.0").is_none());
    assert!(summarize_checked(b"A1.0\n").is_none());
    assert!(summarize_checked(b"A;1\n").is_none());
    assert!(summarize_checked(b"A;.5\n").is_none());
    assert!(summarize_checked(b"A;1.x\n").is_none());
    assert!(summarize_checked(b"A;1a.5\n").is_none());
    assert!(summarize_checked(b"A;99999999999999999999.0\n").is_none());
    assert!(check_records(b"A;-0.5\nBee;12.0\n"));
    assert!(!check_records(b"A;-0.5\nBee;12.0"));
}

#[test]
fn checked_summary_rejects_sum_overflow() {
    let big = b"A;922337203685477580.7\nA;0.1\n";
    assert!(check_records(big));
    assert!(CityTable::try_ingest(big).is_none());
    assert!(summarize_checked(big).is_none());
    let fine = b"A;922337203685477580.7\nA;-0.1\n";
    let t = CityTable::try_ingest(fine).unwrap();
    assert_eq!(entry_of(&t, "A").sum, i64::MAX - 1);
}

#[test]
fn record_check_gives_next_position() {
    assert_eq!(record_check(b"Ab;-12.5\nC;1.0\n", 0), Some(9));
    assert_eq!(record_check(b"Ab;-12.5\nC;1.0\n", 9), Some(15));
    assert_eq!(record_check(b"Ab;-12.5C;1.0\n", 0), None);
}
