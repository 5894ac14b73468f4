use roadch::ch::{edges_within, ChEdgeInfo, ChNodeInfo};
use roadch::load::{parse_ch_graph, parse_edge_line, parse_node_line, parse_number, split_at_byte, split_lines, ParseError};

#[test]
fn numbers() {
    assert_eq!(parse_number(b"12"), Some(12));
    assert_eq!(parse_number(b"+7"), Some(7));
    assert_eq!(parse_number(b"0"), Some(0));
    assert_eq!(parse_number(b""), None);
    assert_eq!(parse_number(b"+"), None);
    assert_eq!(parse_number(b"-1"), None);
    assert_eq!(parse_number(b"1a"), None);
    assert_eq!(parse_number(b"18446744073709551615"), Some(usize::MAX));
    assert_eq!(parse_number(b"18446744073709551616"), None);
    assert_eq!(parse_number(b"99999999999999999999"), None);
}

#[test]
fn splitting() {
    assert_eq!(split_at_byte(b"a b", b' '), vec![b"a".to_vec(), b"b".to_vec()]);
    assert_eq!(split_at_byte(b"", b' '), vec![Vec::<u8>::new()]);
    assert_eq!(split_at_byte(b"a  b ", b' ').len(), 4);
    assert_eq!(split_lines(b"x\r\ny\n"), vec![b"x".to_vec(), b"y".to_vec()]);
    assert_eq!(split_lines(b"x\n\ny"), vec![b"x".to_vec(), Vec::new(), b"y".to_vec()]);
}

#[test]
fn node_line() {
    assert_eq!(parse_node_line(b"3 900 49.2 7.0 250 12"), Ok(ChNodeInfo::new(3, 900, 250, 12)));
    assert_eq!(parse_node_line(b"3 900 49.2"), Err(ParseError::MissingField(3)));
    assert_eq!(parse_node_line(b"3 x 49.2 7.0 250 12"), Err(ParseError::BadNumber(1)));
    assert_eq!(parse_node_line(b"3 900 49.2 7.0 250"), Err(ParseError::MissingField(5)));
}

#[test]
fn edge_line() {
    assert_eq!(
        parse_edge_line(b"0 1 40 3 50 -1 -1"),
        Ok(ChEdgeInfo::new(0, 1, 40, 50, None, None))
    );
    assert_eq!(
        parse_edge_line(b"4 2 80 3 x 7 9"),
        Ok(ChEdgeInfo::new(4, 2, 80, 0, Some(7), Some(9)))
    );
    assert_eq!(parse_edge_line(b"0 1 40 3 50"), Err(ParseError::MissingField(5)));
    assert_eq!(parse_edge_line(b"0 1 z 3 50 1 1"), Err(ParseError::BadNumber(2)));
    assert_eq!(parse_edge_line(b"0"), Err(ParseError::MissingField(1)));
}

#[test]
fn whole_text() {
    let text = b"# comment\n\n2\n1\n0 10 1.0 2.0 5 0\n1 11 1.5 2.5 6 1\n0 1 30 2 40 -1 -1\n";
    let (nodes, edges) = parse_ch_graph(text).unwrap();
    assert_eq!(nodes, vec![ChNodeInfo::new(0, 10, 5, 0), ChNodeInfo::new(1, 11, 6, 1)]);
    assert_eq!(edges, vec![ChEdgeInfo::new(0, 1, 30, 40, None, None)]);
    assert!(edges_within(&edges, 2));
    assert!(!edges_within(&edges, 1));
}

#[test]
fn whole_text_errors() {
    assert_eq!(parse_ch_graph(b"# only\n"), Err(ParseError::MissingCount));
    assert_eq!(parse_ch_graph(b"x\n0\n"), Err(ParseError::BadCount));
    assert_eq!(parse_ch_graph(b"3\n0\n0 1 1 1 1 1\n"), Err(ParseError::MissingLine(3)));
    assert_eq!(parse_ch_graph(b"1\n0\n0 1 1 1 1\n"), Err(ParseError::MissingField(5)));
    assert_eq!(parse_ch_graph(b"0\n1\n0 1\n"), Err(ParseError::MissingField(2)));
}

use roadch::load::{parse_plain_edge_line, parse_plain_graph, parse_plain_node_line};
use roadch::plain::{EdgeInfo, NodeInfo};

#[test]
fn plain_lines() {
    assert_eq!(parse_plain_node_line(b"0 77 49.1 7.2 300"), Ok(NodeInfo::new(77, 300)));
    assert_eq!(parse_plain_node_line(b""), Err(ParseError::MissingField(1)));
    assert_eq!(parse_plain_edge_line(b"1 2 30 4 50"), Ok(EdgeInfo::new(1, 2, 30, 50)));
    assert_eq!(parse_plain_edge_line(b"1 2 30 4 fast"), Err(ParseError::BadNumber(4)));
    assert_eq!(parse_plain_edge_line(b"1 2 30"), Err(ParseError::MissingField(4)));
}

#[test]
fn plain_text() {
    let text = b"#c\n2\n1\n0 5 1.0 2.0 9\n1 6 1.0 2.0 8\n0 1 12 3 40\n";
    let (nodes, edges) = parse_plain_graph(text).unwrap();
    assert_eq!(nodes, vec![NodeInfo::new(5, 9), NodeInfo::new(6, 8)]);
    assert_eq!(edges, vec![EdgeInfo::new(0, 1, 12, 40)]);
    assert_eq!(
        parse_plain_graph(b"2\n1\n0 5 1.0 2.0 9\n1 6 1.0 2.0 8\n0 1 12 3 40\nextra\n"),
        Err(ParseError::TrailingLine(5))
    );
    assert_eq!(
        parse_plain_graph(b"2\n2\n0 5 1.0 2.0 9\n1 6 1.0 2.0 8\n0 1 12 3 40\n"),
        Err(ParseError::MissingLine(5))
    );
    assert_eq!(parse_plain_graph(b"2\n"), Err(ParseError::MissingCount));
}
