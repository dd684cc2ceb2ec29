use lane_agg::engine::{cluster_process, consume, merge_into, process};
use lane_agg::records::AggError;
use lane_agg::table::{Data, LookupTable, MAP_SIZE};

/// The final table as a key-sorted list of (key bytes, statistics), the
/// way a reporter would consume it.
fn sorted_entries(data: &[u8], table: LookupTable) -> Vec<(Vec<u8>, Data)> {
    let mut out: Vec<(Vec<u8>, Data)> = table
        .drain(data)
        .into_iter()
        .map(|e| (data[e.key_start..e.key_end].to_vec(), e.stats))
        .collect();
    out.sort_by(|a, b| a.0.cmp(&b.0));
    out
}

fn run(data: &[u8], lanes: usize) -> Result<Vec<(Vec<u8>, Data)>, AggError> {
    cluster_process(data, lanes).map(|t| sorted_entries(data, t))
}

#[test]
fn scenario_two_stations_two_lanes() {
    let data = b"station_a;12.3\nstation_b;-4.5\nstation_a;9.8\n";
    let out = run(data, 2).unwrap();
    assert_eq!(out.len(), 2);
    assert_eq!(out[0].0, b"station_a".to_vec());
    assert_eq!(out[0].1, Data { min: 98, max: 123, sum: 221, count: 2 });
    assert_eq!(out[1].0, b"station_b".to_vec());
    assert_eq!(out[1].1, Data { min: -45, max: -45, sum: -45, count: 1 });

    // Rendered as the reporter would: min/mean/max with one decimal.
    let a = &out[0].1;
    let rendered = format!(
        "{:.1}/{:.1}/{:.1}",
        a.min as f32 / 10.0,
        (a.sum as f32 / a.count as f32) / 10.0,
        a.max as f32 / 10.0
    );
    assert_eq!(rendered, "9.8/11.1/12.3");
    let b = &out[1].1;
    let rendered_b = format!(
        "{:.1}/{:.1}/{:.1}",
        b.min as f32 / 10.0,
        (b.sum as f32 / b.count as f32) / 10.0,
        b.max as f32 / 10.0
    );
    assert_eq!(rendered_b, "-4.5/-4.5/-4.5");
}

#[test]
fn lane_count_does_not_change_result() {
    let mut input = String::new();
    for i in 0..200 {
        input.push_str(&format!("key_{};{}.{}\n", i % 17, (i % 30) - 9, i % 10));
    }
    let data = input.as_bytes();
    let baseline = run(data, 1).unwrap();
    for lanes in 2..=9 {
        assert_eq!(run(data, lanes).unwrap(), baseline);
    }
}

#[test]
fn count_conservation() {
    let mut input = String::new();
    let mut records = 0u64;
    for i in 0..500 {
        input.push_str(&format!("k{};0.{}\n", i % 23, i % 10));
        records += 1;
    }
    let out = run(input.as_bytes(), 4).unwrap();
    let total: u64 = out.iter().map(|e| e.1.count).sum();
    assert_eq!(total, records);
}

#[test]
fn aggregates_match_direct_scan() {
    let mut input = String::new();
    for i in 0..300 {
        let v: i32 = (i * 7 % 199) - 99; // tenths in -99..=99
        let sign = if v < 0 { "-" } else { "" };
        input.push_str(&format!("s{};{}{}.{}\n", i % 11, sign, v.abs() / 10, v.abs() % 10));
    }
    let data = input.as_bytes();
    let out = run(data, 3).unwrap();

    // Direct single-pass reference computation over the text.
    let mut direct: std::collections::BTreeMap<Vec<u8>, (i32, i32, i128, u64)> =
        std::collections::BTreeMap::new();
    for line in input.lines() {
        let (k, v) = line.split_once(';').unwrap();
        let tenths: i32 = (v.replace('.', "")).parse().unwrap();
        let e = direct
            .entry(k.as_bytes().to_vec())
            .or_insert((tenths, tenths, 0, 0));
        e.0 = e.0.min(tenths);
        e.1 = e.1.max(tenths);
        e.2 += tenths as i128;
        e.3 += 1;
    }
    assert_eq!(out.len(), direct.len());
    for (k, d) in &out {
        let (min, max, sum, count) = direct[k];
        assert_eq!((d.min, d.max, d.sum, d.count), (min, max, sum, count));
    }
}

#[test]
fn empty_input_yields_empty_table() {
    let out = run(b"", 3).unwrap();
    assert!(out.is_empty());
}

#[test]
fn input_without_trailing_newline() {
    let out = run(b"a;1.0\nb;2.0", 2).unwrap();
    assert_eq!(out.len(), 2);
    assert_eq!(out[0].1.sum, 10);
    assert_eq!(out[1].1.sum, 20);
}

#[test]
fn malformed_record_aborts_run() {
    assert!(matches!(
        cluster_process(b"a;1.0\nbroken\nb;2.0\n", 2),
        Err(AggError::MalformedRecord { .. })
    ));
    assert!(matches!(
        cluster_process(b"a;12.345\n", 1),
        Err(AggError::MalformedRecord { .. })
    ));
    assert!(matches!(
        cluster_process(b"a;xy\n", 1),
        Err(AggError::MalformedNumber { .. })
    ));
}

#[test]
fn capacity_exceeded_on_too_many_keys() {
    let mut input = String::new();
    for i in 0..(MAP_SIZE + 50) {
        input.push_str(&format!("key{};1.0\n", i));
    }
    assert!(matches!(
        cluster_process(input.as_bytes(), 2),
        Err(AggError::TableCapacityExceeded)
    ));
}

#[test]
fn capacity_boundary_fits() {
    // Exactly as many distinct keys as slots must still succeed.
    let mut input = String::new();
    for i in 0..MAP_SIZE {
        input.push_str(&format!("key{};1.0\n", i));
    }
    let out = run(input.as_bytes(), 3).unwrap();
    assert_eq!(out.len(), MAP_SIZE);
}

#[test]
fn merge_equals_single_scan() {
    let whole = b"x;1.0\ny;2.0\nx;3.0\nz;-4.0\ny;0.5\n";
    // Split at a record boundary: "x;1.0\ny;2.0\n" | "x;3.0\nz;-4.0\ny;0.5\n"
    let cut = 12;
    assert_eq!(whole[cut - 1], b'\n');

    let mut left = LookupTable::new();
    consume(whole, 0, cut, &mut left).unwrap();
    let mut right = LookupTable::new();
    consume(whole, cut, whole.len() - cut, &mut right).unwrap();
    merge_into(&mut left, whole, right).unwrap();

    let merged = sorted_entries(whole, left);
    let single = run(whole, 1).unwrap();
    assert_eq!(merged, single);
}

#[test]
fn lane_takes_record_straddling_its_end() {
    // The record starting inside the first partition runs past its end;
    // the first lane must own it and the second must not.
    let data = b"aa;1.1\nbbbbbbbb;2.2\ncc;3.3\n";
    let mut first = LookupTable::new();
    // Partition [0, 10): holds the starts of records one and two.
    consume(data, 0, 10, &mut first).unwrap();
    let first_entries = sorted_entries(data, first);
    assert_eq!(first_entries.len(), 2);
    assert_eq!(first_entries[0].0, b"aa".to_vec());
    assert_eq!(first_entries[1].0, b"bbbbbbbb".to_vec());
}

#[test]
fn process_single_step() {
    let data = b"k;5.5\nk;1.1\n";
    let mut store = LookupTable::new();
    let next = process(data, 0, &mut store).unwrap().unwrap();
    assert_eq!(next, 6);
    let next2 = process(data, next, &mut store).unwrap().unwrap();
    assert_eq!(next2, 12);
    assert!(matches!(process(data, next2, &mut store), Ok(None)));
    let out = sorted_entries(data, store);
    assert_eq!(out.len(), 1);
    assert_eq!(out[0].1, Data { min: 11, max: 55, sum: 66, count: 2 });
}

#[test]
fn duplicate_keys_across_lanes_are_combined() {
    let mut input = String::new();
    for _ in 0..50 {
        input.push_str("same;1.0\nother;-2.0\n");
    }
    let out = run(input.as_bytes(), 8).unwrap();
    assert_eq!(out.len(), 2);
    assert_eq!(out[0].1, Data { min: -20, max: -20, sum: -1000, count: 50 });
    assert_eq!(out[1].1, Data { min: 10, max: 10, sum: 500, count: 50 });
}
