use one_billion_rows::codec::render_tenths;
use one_billion_rows::error::Error;
use one_billion_rows::record::Record;
use one_billion_rows::split::{split_once, split_records};
use one_billion_rows::table::Table;

#[test]
fn manual_parse_decodes_tenths() {
    assert_eq!(Record::manual_parse(b"22.4"), Ok(224));
    assert_eq!(Record::manual_parse(b"-2.4"), Ok(-24));
    assert_eq!(Record::manual_parse(b"0.1"), Ok(1));
    assert_eq!(Record::manual_parse(b"0.0"), Ok(0));
    assert_eq!(Record::manual_parse(b"999.9"), Ok(9999));
    assert_eq!(Record::manual_parse(b"-999.9"), Ok(-9999));
    assert_eq!(Record::manual_parse(b"00.4"), Ok(4));
}

#[test]
fn manual_parse_rejects_other_shapes() {
    for bad in [
        &b""[..],
        b"-",
        b"22",
        b"2.",
        b".4",
        b"1.23",
        b"1234.5",
        b"2a.4",
        b"--2.4",
        b"2,4",
        b" 2.4",
    ] {
        assert_eq!(
            Record::manual_parse(bad),
            Err(Error::InvalidValue(bad.to_vec())),
            "accepted {:?}",
            bad
        );
    }
}

#[test]
fn parse_then_render_reproduces_canonical_text() {
    for text in [
        &b"0.0"[..],
        b"5.3",
        b"-0.1",
        b"22.4",
        b"-2.4",
        b"99.9",
        b"-99.9",
        b"123.4",
        b"999.9",
        b"-999.9",
    ] {
        let v = Record::manual_parse(text).unwrap();
        assert_eq!(render_tenths(v), text.to_vec(), "round trip of {:?}", text);
    }
}

#[test]
fn render_tenths_shows_one_fractional_digit() {
    assert_eq!(render_tenths(224), b"22.4".to_vec());
    assert_eq!(render_tenths(-24), b"-2.4".to_vec());
    assert_eq!(render_tenths(0), b"0.0".to_vec());
    assert_eq!(render_tenths(100), b"10.0".to_vec());
    assert_eq!(render_tenths(9999), b"999.9".to_vec());
    assert_eq!(render_tenths(-9999), b"-999.9".to_vec());
}

#[test]
fn split_once_splits_at_first_separator() {
    assert_eq!(split_once(b"Hamburg;22.4", b';'), Some((&b"Hamburg"[..], &b"22.4"[..])));
    assert_eq!(split_once(b"a;b;c", b';'), Some((&b"a"[..], &b"b;c"[..])));
    assert_eq!(split_once(b";x", b';'), Some((&b""[..], &b"x"[..])));
    assert_eq!(split_once(b"Hamburg,22.4", b';'), None);
    assert_eq!(split_once(b"", b';'), None);
}

#[test]
fn split_records_splits_at_every_terminator() {
    let lines = split_records(b"a;1.0\nb;2.0");
    assert_eq!(lines, vec![&b"a;1.0"[..], &b"b;2.0"[..]]);
    let lines = split_records(b"a\n\nb");
    assert_eq!(lines, vec![&b"a"[..], &b""[..], &b"b"[..]]);
    let lines: Vec<&[u8]> = split_records(b"");
    assert!(lines.is_empty());
}

#[test]
fn record_tracks_extremes_sum_and_count() {
    let mut rec = Record::default();
    rec.add(224);
    rec.add(-24);
    assert_eq!(rec.min, -24);
    assert_eq!(rec.max, 224);
    assert_eq!(rec.sum, 200);
    assert_eq!(rec.count, 2);
    assert_eq!(rec.average(), 100);
}

#[test]
fn record_average_truncates_toward_zero() {
    let mut rec = Record::default();
    rec.add(-1);
    rec.add(-2);
    assert_eq!(rec.average(), -1);
    let mut rec = Record::default();
    rec.add(1);
    rec.add(2);
    assert_eq!(rec.average(), 1);
}

#[test]
fn record_single_value_is_its_own_extremes_and_average() {
    let mut rec = Record::default();
    rec.add(76);
    assert_eq!((rec.min, rec.max, rec.average(), rec.count), (76, 76, 76, 1));
}

#[test]
fn table_update_or_insert_keeps_per_key_records() {
    let mut table = Table::new();
    table.upsert(b"Hamburg", 224);
    table.upsert(b"Kiel", 1);
    table.upsert(b"Hamburg", -24);
    let mut entries = table.entries();
    entries.sort_by(|a, b| a.0.cmp(&b.0));
    assert_eq!(entries.len(), 2);
    assert_eq!(entries[0].0, b"Hamburg".to_vec());
    assert_eq!(
        (entries[0].1.min, entries[0].1.max, entries[0].1.sum, entries[0].1.count),
        (-24, 224, 200, 2)
    );
    assert_eq!(entries[1].0, b"Kiel".to_vec());
    assert_eq!(
        (entries[1].1.min, entries[1].1.max, entries[1].1.sum, entries[1].1.count),
        (1, 1, 1, 1)
    );
}

#[test]
fn table_counts_sum_to_number_of_updates() {
    let mut table = Table::new();
    let updates: [(&[u8], i64); 6] =
        [(b"a", 10), (b"b", 20), (b"a", 30), (b"c", 40), (b"a", 50), (b"b", 60)];
    for (key, value) in updates {
        table.upsert(key, value);
    }
    let total: usize = table.entries().iter().map(|e| e.1.count).sum();
    assert_eq!(total, 6);
}
