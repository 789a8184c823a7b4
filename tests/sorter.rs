use psd::order::{bytes_equal, bytes_less};
use psd::record::AlignmentRecord;
use psd::sorter::PAFSorter;

fn rec(name: &str, start: u32, de: f64) -> AlignmentRecord<f64> {
    AlignmentRecord {
        query_name: name.as_bytes().to_vec(),
        query_start: start,
        query_end: start + 1,
        alignment_block_len: 1,
        de: Some(de),
    }
}

fn keys(s: &PAFSorter<f64>) -> Vec<(String, u32, f64)> {
    s.0.iter()
        .map(|r| (String::from_utf8(r.query_name.clone()).unwrap(), r.query_start, r.de.unwrap()))
        .collect()
}

#[test]
fn sort_by_query_start_orders_starts() {
    let mut s = PAFSorter(vec![rec("b", 30, 0.1), rec("a", 10, 0.2), rec("c", 20, 0.3), rec("a", 10, 0.4)]);
    s.sort_by_query_start();
    assert_eq!(
        keys(&s),
        vec![
            ("a".to_string(), 10, 0.2),
            ("a".to_string(), 10, 0.4),
            ("c".to_string(), 20, 0.3),
            ("b".to_string(), 30, 0.1),
        ]
    );
}

#[test]
fn two_sorts_give_name_then_start_order() {
    let mut s = PAFSorter(vec![
        rec("qB", 5, 0.1),
        rec("qA", 7, 0.2),
        rec("qB", 1, 0.3),
        rec("qA", 3, 0.4),
        rec("q", 9, 0.5),
    ]);
    s.sort_by_query_start();
    s.sort_by_query_name();
    assert_eq!(
        keys(&s),
        vec![
            ("q".to_string(), 9, 0.5),
            ("qA".to_string(), 3, 0.4),
            ("qA".to_string(), 7, 0.2),
            ("qB".to_string(), 1, 0.3),
            ("qB".to_string(), 5, 0.1),
        ]
    );
}

#[test]
fn sort_by_query_name_keeps_order_within_a_query() {
    let mut s = PAFSorter(vec![rec("z", 1, 0.1), rec("a", 9, 0.2), rec("z", 0, 0.3), rec("a", 2, 0.4)]);
    s.sort_by_query_name();
    assert_eq!(
        keys(&s),
        vec![
            ("a".to_string(), 9, 0.2),
            ("a".to_string(), 2, 0.4),
            ("z".to_string(), 1, 0.1),
            ("z".to_string(), 0, 0.3),
        ]
    );
}

#[test]
fn names_compare_bytewise() {
    assert!(bytes_less(&b"qA".to_vec(), &b"qB".to_vec()));
    assert!(bytes_less(&b"q".to_vec(), &b"qA".to_vec()));
    assert!(bytes_less(&b"Z".to_vec(), &b"a".to_vec()));
    assert!(!bytes_less(&b"qA".to_vec(), &b"qA".to_vec()));
    assert!(!bytes_less(&b"qB".to_vec(), &b"qA".to_vec()));
    assert!(!bytes_less(&Vec::new(), &Vec::new()));
    assert!(bytes_equal(&b"chr1".to_vec(), &b"chr1".to_vec()));
    assert!(!bytes_equal(&b"chr1".to_vec(), &b"chr10".to_vec()));
    assert!(!bytes_equal(&b"chr1".to_vec(), &b"chr2".to_vec()));
}

#[test]
fn sorting_ordered_records_leaves_them_unchanged() {
    let input = vec![rec("b", 1, 0.1), rec("a", 1, 0.2), rec("c", 1, 0.3), rec("a", 2, 0.4)];
    let mut s = PAFSorter(input);
    s.sort_by_query_start();
    let once = keys(&s);
    assert_eq!(
        once,
        vec![
            ("b".to_string(), 1, 0.1),
            ("a".to_string(), 1, 0.2),
            ("c".to_string(), 1, 0.3),
            ("a".to_string(), 2, 0.4),
        ]
    );
    s.sort_by_query_start();
    assert_eq!(keys(&s), once);
}
