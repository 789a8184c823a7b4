use psd::divergence::{paf_individual, select_rows};
use psd::record::{AlignmentRecord, DivergenceError, DivergenceRow};

fn rec(name: &str, start: u32, end: u32, len: u32, de: Option<f64>) -> AlignmentRecord<f64> {
    AlignmentRecord {
        query_name: name.as_bytes().to_vec(),
        query_start: start,
        query_end: end,
        alignment_block_len: len,
        de,
    }
}

fn key(row: &DivergenceRow<f64>) -> (String, u32, u32, f64) {
    (String::from_utf8(row.query_name.clone()).unwrap(), row.query_start, row.query_end, row.de)
}

#[test]
fn single_record_gives_no_rows() {
    let rows = paf_individual(vec![rec("qA", 0, 10, 10, Some(0.1))]).unwrap();
    assert!(rows.is_empty());
}

#[test]
fn overlapping_pair_gives_no_rows() {
    let rows = paf_individual(vec![
        rec("qA", 0, 10, 10, Some(0.1)),
        rec("qA", 5, 15, 10, Some(0.2)),
    ])
    .unwrap();
    assert!(rows.is_empty());
}

#[test]
fn touching_intervals_report_all_but_last() {
    let rows = paf_individual(vec![
        rec("qA", 0, 10, 10, Some(0.1)),
        rec("qA", 10, 20, 10, Some(0.2)),
        rec("qA", 20, 30, 10, Some(0.3)),
    ])
    .unwrap();
    let got: Vec<_> = rows.iter().map(key).collect();
    assert_eq!(
        got,
        vec![
            ("qA".to_string(), 0, 10, 0.1),
            ("qA".to_string(), 10, 20, 0.2),
        ]
    );
}

#[test]
fn rows_come_out_in_name_then_start_order() {
    let rows = paf_individual(vec![
        rec("qB", 50, 60, 10, Some(0.5)),
        rec("qA", 30, 40, 10, Some(0.3)),
        rec("qB", 0, 10, 10, Some(0.4)),
        rec("qA", 0, 10, 10, Some(0.1)),
        rec("qA", 10, 20, 10, Some(0.2)),
    ])
    .unwrap();
    let got: Vec<_> = rows.iter().map(key).collect();
    assert_eq!(
        got,
        vec![
            ("qA".to_string(), 0, 10, 0.1),
            ("qA".to_string(), 10, 20, 0.2),
            ("qA".to_string(), 30, 40, 0.3),
            ("qB".to_string(), 0, 10, 0.4),
        ]
    );
}

#[test]
fn overlap_drops_only_the_left_record() {
    let rows = paf_individual(vec![
        rec("qA", 0, 10, 10, Some(0.1)),
        rec("qA", 5, 15, 10, Some(0.2)),
        rec("qA", 20, 30, 10, Some(0.3)),
        rec("qA", 40, 50, 10, Some(0.4)),
    ])
    .unwrap();
    let got: Vec<_> = rows.iter().map(key).collect();
    assert_eq!(
        got,
        vec![
            ("qA".to_string(), 5, 15, 0.2),
            ("qA".to_string(), 20, 30, 0.3),
        ]
    );
}

#[test]
fn different_queries_never_overlap() {
    let rows = paf_individual(vec![
        rec("qA", 0, 100, 100, Some(0.1)),
        rec("qB", 5, 15, 10, Some(0.2)),
        rec("qB", 20, 30, 10, Some(0.3)),
    ])
    .unwrap();
    let got: Vec<_> = rows.iter().map(key).collect();
    assert_eq!(
        got,
        vec![
            ("qA".to_string(), 0, 100, 0.1),
            ("qB".to_string(), 5, 15, 0.2),
        ]
    );
}

#[test]
fn missing_divergence_on_reported_record_fails() {
    let r = paf_individual(vec![
        rec("qA", 0, 10, 10, None),
        rec("qA", 10, 20, 10, Some(0.2)),
    ]);
    assert_eq!(r.err(), Some(DivergenceError::MissingDivergenceField));
}

#[test]
fn missing_divergence_on_skipped_records_fails() {
    let r = paf_individual(vec![
        rec("qA", 0, 10, 10, None),
        rec("qA", 5, 15, 10, Some(0.2)),
        rec("qA", 20, 30, 10, Some(0.3)),
    ]);
    assert_eq!(r.err(), Some(DivergenceError::MissingDivergenceField));
}

#[test]
fn missing_divergence_on_last_record_fails() {
    let r = paf_individual(vec![
        rec("qA", 0, 10, 10, Some(0.1)),
        rec("qA", 10, 20, 10, Some(0.2)),
        rec("qA", 20, 30, 10, None),
    ]);
    assert_eq!(r.err(), Some(DivergenceError::MissingDivergenceField));
}

#[test]
fn records_with_equal_name_and_start_keep_input_order() {
    let rows = paf_individual(vec![
        rec("qA", 0, 10, 10, Some(0.1)),
        rec("qA", 0, 0, 10, Some(0.2)),
        rec("qA", 0, 0, 10, Some(0.3)),
        rec("qA", 40, 50, 10, Some(0.4)),
    ])
    .unwrap();
    let got: Vec<_> = rows.iter().map(key).collect();
    assert_eq!(
        got,
        vec![("qA".to_string(), 0, 0, 0.2), ("qA".to_string(), 0, 0, 0.3)]
    );
}

#[test]
fn empty_input_gives_no_rows() {
    let rows = paf_individual(Vec::<AlignmentRecord<f64>>::new()).unwrap();
    assert!(rows.is_empty());
}

#[test]
fn select_rows_reads_records_as_given() {
    let records = vec![
        rec("qB", 0, 10, 10, Some(0.1)),
        rec("qA", 0, 10, 10, Some(0.2)),
        rec("qA", 5, 10, 10, Some(0.3)),
    ];
    let rows = select_rows(&records).unwrap();
    let got: Vec<_> = rows.iter().map(key).collect();
    assert_eq!(got, vec![("qB".to_string(), 0, 10, 0.1)]);
}
