use brc_stats::record::NameKey;
use brc_stats::report::{mean, render_report, report_line, stringify_result};
use brc_stats::scan::Reassembler;
use brc_stats::table::{Aggregate, AggregationTable, Malformed};

fn stats(t: &AggregationTable, name: &[u8]) -> Option<(i16, i16, i128, u64)> {
    t.get(&NameKey::from_name(name))
        .map(|a| (a.min(), a.max(), a.sum(), a.count()))
}

fn table_of(records: &[&[u8]]) -> AggregationTable {
    let mut t = AggregationTable::new();
    for r in records {
        t.decode_slice(r, b';').unwrap();
    }
    t
}

/// Feeds `input` in the given chunks: boundary records into one table,
/// regions into another, the two merged at the end.
fn run_chunks(chunks: &[&[u8]]) -> AggregationTable {
    let mut producer = AggregationTable::new();
    let mut worker = AggregationTable::new();
    let mut r = Reassembler::new(b'\n');
    for c in chunks {
        if let Some(s) = r.split_chunk(c) {
            producer.decode_slice(&s.boundary, b';').unwrap();
            worker.decode_region(&c[s.start..s.end], b';', b'\n').unwrap();
        }
    }
    if let Some(last) = r.finish() {
        producer.decode_slice(&last, b';').unwrap();
    }
    producer.merge(worker);
    producer
}

const SCENARIO: &[u8] = b"Hamburg;12.3\nHamburg;-1.0\nOslo;5.5\n";

#[test]
fn decode_two_values_of_one_name() {
    let t = table_of(&[b"Foo;23.4", b"Foo;-5.1"]);
    assert_eq!(stats(&t, b"Foo"), Some((-51, 234, 183, 2)));
    assert_eq!(t.len(), 1);
    assert_eq!(t.records_seen(), 2);
}

#[test]
fn decode_malformed_record_leaves_table() {
    let mut t = table_of(&[b"Foo;23.4"]);
    assert_eq!(t.decode_slice(b"Foo;23", b';'), Err(Malformed { record: 0 }));
    assert_eq!(t.decode_slice(b"Foo", b';'), Err(Malformed { record: 0 }));
    assert_eq!(stats(&t, b"Foo"), Some((234, 234, 234, 1)));
    assert_eq!(t.records_seen(), 1);
}

#[test]
fn end_to_end_scenario() {
    let t = run_chunks(&[SCENARIO]);
    assert_eq!(stats(&t, b"Hamburg"), Some((-10, 123, 113, 2)));
    assert_eq!(stats(&t, b"Oslo"), Some((55, 55, 55, 1)));
    assert_eq!(t.len(), 2);
    assert_eq!(t.records_seen(), 3);
}

#[test]
fn every_two_way_split_gives_the_same_table() {
    for cut in 0..=SCENARIO.len() {
        let t = run_chunks(&[&SCENARIO[..cut], &SCENARIO[cut..]]);
        assert_eq!(stats(&t, b"Hamburg"), Some((-10, 123, 113, 2)), "cut {}", cut);
        assert_eq!(stats(&t, b"Oslo"), Some((55, 55, 55, 1)), "cut {}", cut);
        assert_eq!(t.len(), 2);
    }
}

#[test]
fn every_three_way_split_gives_the_same_table() {
    let n = SCENARIO.len();
    for a in 0..=n {
        for b in a..=n {
            let t = run_chunks(&[&SCENARIO[..a], &SCENARIO[a..b], &SCENARIO[b..]]);
            assert_eq!(stats(&t, b"Hamburg"), Some((-10, 123, 113, 2)));
            assert_eq!(stats(&t, b"Oslo"), Some((55, 55, 55, 1)));
            assert_eq!(t.records_seen(), 3);
        }
    }
}

#[test]
fn byte_by_byte_chunks_give_the_same_table() {
    let chunks: Vec<&[u8]> = SCENARIO.chunks(1).collect();
    let t = run_chunks(&chunks);
    assert_eq!(stats(&t, b"Hamburg"), Some((-10, 123, 113, 2)));
    assert_eq!(stats(&t, b"Oslo"), Some((55, 55, 55, 1)));
}

#[test]
fn final_short_chunk_without_terminator_is_parsed() {
    let t = run_chunks(&[b"A;1.0\nB;2.", b"0\nC;-3.5"]);
    assert_eq!(stats(&t, b"A"), Some((10, 10, 10, 1)));
    assert_eq!(stats(&t, b"B"), Some((20, 20, 20, 1)));
    assert_eq!(stats(&t, b"C"), Some((-35, -35, -35, 1)));
    assert_eq!(t.records_seen(), 3);
}

#[test]
fn split_chunk_parts() {
    let mut r = Reassembler::new(b'\n');
    assert!(r.split_chunk(b"Ham").is_none());
    let s = r.split_chunk(b"burg;1.0\nOslo;2.0\nRiga;3.0\nBe").unwrap();
    assert_eq!(s.boundary, b"Hamburg;1.0".to_vec());
    let chunk = b"burg;1.0\nOslo;2.0\nRiga;3.0\nBe";
    assert_eq!(&chunk[s.start..s.end], b"Oslo;2.0\nRiga;3.0\n");
    let s = r.split_chunk(b"rn;4.0\n").unwrap();
    assert_eq!(s.boundary, b"Bern;4.0".to_vec());
    assert_eq!(s.start, s.end);
    assert_eq!(r.finish(), None);
}

#[test]
fn chunk_starting_with_terminator_completes_carry() {
    let mut r = Reassembler::new(b'\n');
    assert!(r.split_chunk(b"X;1.0").is_none());
    let s = r.split_chunk(b"\nY;2.0").unwrap();
    assert_eq!(s.boundary, b"X;1.0".to_vec());
    assert_eq!(s.start, 1);
    assert_eq!(s.end, 1);
    assert_eq!(r.finish(), Some(b"Y;2.0".to_vec()));
}

#[test]
fn decode_region_reports_first_malformed_record() {
    let mut t = AggregationTable::new();
    let r = t.decode_region(b"A;1.0\nB;x\nC;2.0\n", b';', b'\n');
    assert_eq!(r, Err(Malformed { record: 1 }));
    assert_eq!(stats(&t, b"A"), Some((10, 10, 10, 1)));
    assert_eq!(stats(&t, b"C"), None);
}

#[test]
fn decode_region_empty_and_unterminated() {
    let mut t = AggregationTable::new();
    assert_eq!(t.decode_region(b"", b';', b'\n'), Ok(()));
    assert_eq!(t.len(), 0);
    assert_eq!(t.decode_region(b"A;1.0\nA;3.0", b';', b'\n'), Ok(()));
    assert_eq!(stats(&t, b"A"), Some((10, 30, 40, 2)));
}

#[test]
fn empty_line_is_malformed() {
    let mut t = AggregationTable::new();
    assert_eq!(
        t.decode_region(b"A;1.0\n\nB;1.0\n", b';', b'\n'),
        Err(Malformed { record: 1 })
    );
}

#[test]
fn merge_is_commutative_and_associative() {
    let parts: [&[&[u8]]; 3] = [
        &[b"A;1.0", b"B;-2.0"],
        &[b"B;7.5", b"C;0.0", b"A;-9.9"],
        &[b"C;3.3", b"A;99.9"],
    ];
    let mk = |i: usize| table_of(parts[i]);
    let mut ab_c = mk(0);
    ab_c.merge(mk(1));
    ab_c.merge(mk(2));
    let mut bc = mk(1);
    bc.merge(mk(2));
    let mut a_bc = mk(0);
    a_bc.merge(bc);
    let mut c_b_a = mk(2);
    c_b_a.merge(mk(1));
    c_b_a.merge(mk(0));
    for t in [&ab_c, &a_bc, &c_b_a] {
        assert_eq!(stats(t, b"A"), Some((-99, 999, 10 - 99 + 999, 3)));
        assert_eq!(stats(t, b"B"), Some((-20, 75, 55, 2)));
        assert_eq!(stats(t, b"C"), Some((0, 33, 33, 2)));
        assert_eq!(t.records_seen(), 7);
        assert_eq!(t.len(), 3);
    }
}

#[test]
fn merge_with_empty_table() {
    let mut t = table_of(&[b"A;1.0"]);
    t.merge(AggregationTable::new());
    assert_eq!(stats(&t, b"A"), Some((10, 10, 10, 1)));
    let mut e = AggregationTable::new();
    e.merge(table_of(&[b"A;1.0"]));
    assert_eq!(stats(&e, b"A"), Some((10, 10, 10, 1)));
}

#[test]
fn combine_with_widens_and_accumulates() {
    let mut a = Aggregate::first(-5);
    a.combine_with(&Aggregate::first(12));
    assert_eq!((a.min(), a.max(), a.sum(), a.count()), (-5, 12, 7, 2));
}

#[test]
fn stringify_scenario_results() {
    let t = run_chunks(&[SCENARIO]);
    let h = t.get(&NameKey::from_name(b"Hamburg")).unwrap();
    assert_eq!(mean(&h), 56);
    assert_eq!(stringify_result(&h), b"-01.0/05.6/12.3".to_vec());
    let o = t.get(&NameKey::from_name(b"Oslo")).unwrap();
    assert_eq!(stringify_result(&o), b"05.5/05.5/05.5".to_vec());
}

#[test]
fn mean_truncates_toward_zero() {
    let t = table_of(&[b"N;-1.0", b"N;-0.5"]);
    let n = t.get(&NameKey::from_name(b"N")).unwrap();
    assert_eq!(mean(&n), -7);
    assert_eq!(stringify_result(&n), b"-01.0/-00.7/-00.5".to_vec());
    let t = table_of(&[b"P;0.1", b"P;0.2", b"P;0.2"]);
    let p = t.get(&NameKey::from_name(b"P")).unwrap();
    assert_eq!(mean(&p), 1);
}

#[test]
fn report_lines_drop_padding() {
    let t = run_chunks(&[SCENARIO]);
    let key = NameKey::from_name(b"Oslo");
    let line = report_line(&key, &t.get(&key).unwrap());
    assert_eq!(line, b"Oslo 05.5/05.5/05.5\n".to_vec());
    let report = render_report(&t);
    let text = String::from_utf8(report).unwrap();
    assert_eq!(text.lines().count(), 2);
    assert!(text.contains("Hamburg -01.0/05.6/12.3\n"));
    assert!(text.contains("Oslo 05.5/05.5/05.5\n"));
}

#[test]
fn extreme_values_render() {
    let t = table_of(&[b"X;-99.9", b"X;99.9"]);
    let x = t.get(&NameKey::from_name(b"X")).unwrap();
    assert_eq!(stringify_result(&x), b"-99.9/00.0/99.9".to_vec());
}
