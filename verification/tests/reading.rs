use separation::collections::AdjacencyList;
use separation::data_reading::{
    build_adjacency_list, build_adjacency_list_from_csv, edges_from_records, parse_node,
    EdgeListError,
};
use separation::separation_deg::{bfs, calculate_max_degree_of_separation};

fn failure(text: &[u8]) -> EdgeListError {
    match build_adjacency_list_from_csv(text) {
        Ok(_) => panic!("the text was accepted"),
        Err(e) => e,
    }
}

fn accepted(text: &[u8]) -> AdjacencyList {
    match build_adjacency_list_from_csv(text) {
        Ok(adj) => adj,
        Err(e) => panic!("the text was rejected: {:?}", e),
    }
}

#[test]
fn parse_node_reads_plain_and_signed_integers() {
    assert_eq!(parse_node(b"0"), Some(0));
    assert_eq!(parse_node(b"42"), Some(42));
    assert_eq!(parse_node(b"+42"), Some(42));
    assert_eq!(parse_node(b"-42"), Some(-42));
    assert_eq!(parse_node(b"007"), Some(7));
    assert_eq!(parse_node(b"-0"), Some(0));
}

#[test]
fn parse_node_reads_the_ends_of_the_range() {
    assert_eq!(parse_node(b"2147483647"), Some(i32::MAX));
    assert_eq!(parse_node(b"-2147483648"), Some(i32::MIN));
    assert_eq!(parse_node(b"2147483648"), None);
    assert_eq!(parse_node(b"-2147483649"), None);
    assert_eq!(parse_node(b"99999999999999999999999999"), None);
    assert_eq!(parse_node(b"00000000000000000000000012"), Some(12));
}

#[test]
fn parse_node_rejects_what_is_no_integer() {
    assert_eq!(parse_node(b""), None);
    assert_eq!(parse_node(b"+"), None);
    assert_eq!(parse_node(b"-"), None);
    assert_eq!(parse_node(b" 1"), None);
    assert_eq!(parse_node(b"1 "), None);
    assert_eq!(parse_node(b"1.0"), None);
    assert_eq!(parse_node(b"--1"), None);
    assert_eq!(parse_node(b"1_000"), None);
    assert_eq!(parse_node(b"x"), None);
    assert_eq!(parse_node("١٢".as_bytes()), None);
}

#[test]
fn parse_node_agrees_with_std() {
    let samples = ["0", "-1", "+7", "12345", "-2147483648", "2147483648", "", "+", "-", "1e3", "0x10", " 5", "5 ", "٣"];
    for text in samples.iter() {
        assert_eq!(parse_node(text.as_bytes()), text.parse::<i32>().ok(), "{:?}", text);
    }
}

#[test]
fn build_adjacency_list_is_symmetric() {
    let adj = build_adjacency_list(&vec![(1, 2), (2, 3), (7, 7)]);
    for node in [1, 2, 3, 7] {
        assert!(adj.contains_node(node));
    }
    assert!(!adj.contains_node(4));
    assert_eq!(bfs(&adj, 1).unwrap().distance_to(2), Some(1));
    assert_eq!(bfs(&adj, 2).unwrap().distance_to(1), Some(1));
    assert_eq!(bfs(&adj, 3).unwrap().distance_to(1), Some(2));
    assert_eq!(bfs(&adj, 7).unwrap().len(), 1);
}

#[test]
fn build_adjacency_list_of_nothing_is_empty() {
    let adj = build_adjacency_list(&Vec::new());
    assert!(!adj.contains_node(0));
    assert_eq!(calculate_max_degree_of_separation(&adj), 0);
}

#[test]
fn csv_edge_list_builds_the_graph() {
    let adj = accepted(b"1,2\n2,3\n");
    let distances = bfs(&adj, 1).unwrap();
    assert_eq!(distances.len(), 3);
    assert_eq!(distances.distance_to(3), Some(2));
    assert_eq!(bfs(&adj, 3).unwrap().distance_to(1), Some(2));
}

#[test]
fn csv_first_line_is_data() {
    let adj = accepted(b"10,20\n20,30\n");
    assert!(adj.contains_node(10));
    assert_eq!(bfs(&adj, 10).unwrap().distance_to(30), Some(2));
}

#[test]
fn csv_accepts_signs_quotes_and_a_missing_final_newline() {
    let adj = accepted(b"+5,-3\r\n\"-3\",\"8\"");
    assert!(adj.contains_node(5));
    assert!(adj.contains_node(-3));
    assert_eq!(bfs(&adj, 5).unwrap().distance_to(8), Some(2));
}

#[test]
fn csv_ignores_fields_after_the_second() {
    let adj = accepted(b"1,2,road\n2,3,track\n");
    assert_eq!(bfs(&adj, 1).unwrap().distance_to(3), Some(2));
}

#[test]
fn csv_of_nothing_is_the_empty_graph() {
    let adj = accepted(b"");
    assert!(!adj.contains_node(0));
    assert_eq!(calculate_max_degree_of_separation(&adj), 0);
}

#[test]
fn csv_rejects_a_field_that_is_no_integer() {
    assert_eq!(failure(b"1,2\n3,x\n"), EdgeListError::NotAnInteger { record: 1, field: 1 });
    assert_eq!(failure(b"a,2\n"), EdgeListError::NotAnInteger { record: 0, field: 0 });
    assert_eq!(failure(b" 1,2\n"), EdgeListError::NotAnInteger { record: 0, field: 0 });
    assert_eq!(failure(b"1,2147483648\n"), EdgeListError::NotAnInteger { record: 0, field: 1 });
    assert_eq!(failure(b"1,\n"), EdgeListError::NotAnInteger { record: 0, field: 1 });
}

#[test]
fn csv_rejects_a_record_with_one_field() {
    assert_eq!(failure(b"1\n2\n"), EdgeListError::MissingField { record: 0, field: 1 });
}

#[test]
fn csv_rejects_records_of_unequal_length() {
    assert_eq!(failure(b"1,2\n3\n"), EdgeListError::Malformed { record: 1 });
    assert_eq!(failure(b"1,2\n3,4,5\n"), EdgeListError::Malformed { record: 1 });
}

#[test]
fn csv_rejects_text_that_is_not_utf8() {
    assert_eq!(failure(b"1,2\n\xff,4\n"), EdgeListError::Malformed { record: 1 });
}

#[test]
fn csv_reports_the_first_failure() {
    assert_eq!(failure(b"1,2\nx,y\n3\n"), EdgeListError::NotAnInteger { record: 1, field: 0 });
}

#[test]
fn edges_from_records_reads_the_first_two_fields() {
    let records = vec![
        Some(vec![b"1".to_vec(), b"2".to_vec()]),
        Some(vec![b"-4".to_vec(), b"+6".to_vec(), b"more".to_vec()]),
    ];
    assert_eq!(edges_from_records(&records), Ok(vec![(1, 2), (-4, 6)]));
    assert_eq!(edges_from_records(&Vec::new()), Ok(Vec::new()));
}

#[test]
fn edges_from_records_reports_each_kind_of_failure() {
    let good = Some(vec![b"1".to_vec(), b"2".to_vec()]);
    let records = vec![good.clone(), None];
    assert_eq!(edges_from_records(&records), Err(EdgeListError::Malformed { record: 1 }));
    let records = vec![good.clone(), Some(Vec::new())];
    assert_eq!(edges_from_records(&records), Err(EdgeListError::MissingField { record: 1, field: 0 }));
    let records = vec![Some(vec![b"1".to_vec()])];
    assert_eq!(edges_from_records(&records), Err(EdgeListError::MissingField { record: 0, field: 1 }));
    let records = vec![good.clone(), good.clone(), Some(vec![b"1".to_vec(), b"two".to_vec()])];
    assert_eq!(edges_from_records(&records), Err(EdgeListError::NotAnInteger { record: 2, field: 1 }));
    let records = vec![Some(vec![b"".to_vec()])];
    assert_eq!(edges_from_records(&records), Err(EdgeListError::NotAnInteger { record: 0, field: 0 }));
}

#[test]
fn add_node_keeps_an_existing_entry() {
    let mut adj = AdjacencyList::new();
    adj.add_edge(1, 2);
    adj.add_node(1);
    assert_eq!(bfs(&adj, 1).unwrap().distance_to(2), Some(1));
}
