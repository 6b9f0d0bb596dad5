use duan::dimacs::{read_gr_bytes, GrEdge, GrFileError, GrParser};
use flate2::write::GzEncoder;
use flate2::Compression;
use std::io::Write;

fn read(txt: &str) -> (usize, Vec<GrEdge>) {
    read_gr_bytes(txt.as_bytes(), false).unwrap()
}

fn gzip(bytes: &[u8]) -> Vec<u8> {
    let mut e = GzEncoder::new(Vec::new(), Compression::default());
    e.write_all(bytes).unwrap();
    e.finish().unwrap()
}

#[test]
fn parses_one_indexed() {
    let txt = "c comment\np sp 4 5\na 1 2 10\na 2 3 5\na 3 4 1\na 1 4 100\na 2 4 7\n";
    let (n, edges) = read(txt);
    assert_eq!(n, 4);
    assert_eq!(edges.len(), 5);
}

#[test]
fn parses_zero_indexed() {
    let txt = "p sp 3 2\na 0 1 1\na 1 2 1\n";
    let (n, edges) = read(txt);
    assert_eq!(n, 3);
    assert_eq!(edges.len(), 2);
}

#[test]
fn ignores_comments_blanks() {
    let txt = "c hello\n\nc world\np sp 2 1\na 1 2 4\n";
    let (n, edges) = read(txt);
    assert_eq!(n, 2);
    assert_eq!(edges.len(), 1);
}

#[test]
fn missing_p_line_uses_inferred_n() {
    let txt = "a 1 5 1\na 2 3 1\n";
    let (n, edges) = read(txt);
    assert_eq!(n, 5);
    assert_eq!(edges.len(), 2);
}

#[test]
fn streams_without_buffer_explosion() {
    let mut s = String::from("p sp 10000 100000\n");
    for i in 0..100_000u32 {
        let u = (i % 10_000) + 1;
        let v = ((i + 1) % 10_000) + 1;
        s.push_str(&format!("a {} {} 1\n", u, v));
    }
    let (n, edges) = read(&s);
    assert_eq!(n, 10_000);
    assert_eq!(edges.len(), 100_000);
}

#[test]
fn arcs_keep_order_weight_text_and_shift() {
    let (n, edges) = read("a 1 2 10\na 2 3\n  a 3 1 x\n");
    // fewer than four arcs and no node 0: read as 1-based at the end
    assert_eq!(n, 3);
    assert_eq!(edges.len(), 3);
    assert_eq!((edges[0].source, edges[0].target), (0, 1));
    assert_eq!(edges[0].weight.as_deref(), Some("10"));
    assert_eq!(edges[1].weight, None);
    assert_eq!(edges[2].weight.as_deref(), Some("x"));
}

#[test]
fn zero_id_settles_zero_based_numbering() {
    let (n, edges) = read("a 1 2 3\na 0 4 1\na 4 5 1\n");
    assert_eq!(n, 6);
    assert_eq!((edges[0].source, edges[0].target), (1, 2));
    assert_eq!((edges[1].source, edges[1].target), (0, 4));
}

#[test]
fn malformed_arcs_are_skipped() {
    let (n, edges) = read("p sp 3 1\na 1\na x 2 1\nq 1 2\na 1 2\n");
    assert_eq!(n, 3);
    assert_eq!(edges.len(), 1);
}

#[test]
fn arcs_stay_within_the_node_count() {
    let (n, edges) = read("p sp 2 3\na 1 2 1\na 5 9 2\na 3 1 4\n");
    assert_eq!(n, 9);
    assert!(edges.iter().all(|e| e.source < n && e.target < n));
    let (n, edges) = read("a 7 3 1\na 2 3 1\n");
    assert_eq!(n, 7);
    assert!(edges.iter().all(|e| e.source < n && e.target < n));
}

#[test]
fn parser_fed_line_by_line_matches_whole_file() {
    let txt = "c x\np sp 4 2\na 1 2 10\na 3 4 5\n";
    let mut p = GrParser::new();
    for line in txt.lines() {
        p.feed_line(line);
    }
    let (n, edges) = p.finish().unwrap();
    let (n2, edges2) = read(txt);
    assert_eq!(n, n2);
    assert_eq!(edges.len(), edges2.len());
    for (a, b) in edges.iter().zip(edges2.iter()) {
        assert_eq!((a.source, a.target, &a.weight), (b.source, b.target, &b.weight));
    }
}

#[test]
fn gzipped_file_reads_like_plain_text() {
    let txt = "p sp 3 2\na 1 2 7\na 2 3 9\n";
    let (n, edges) = read_gr_bytes(&gzip(txt.as_bytes()), true).unwrap();
    assert_eq!(n, 3);
    assert_eq!(edges.len(), 2);
    assert_eq!((edges[1].source, edges[1].target), (1, 2));
    assert_eq!(edges[1].weight.as_deref(), Some("9"));
}

#[test]
fn bad_gzip_and_bad_utf8_are_reported() {
    assert_eq!(read_gr_bytes(b"p sp 3 2\n", true).unwrap_err(), GrFileError::BadGzip);
    assert_eq!(read_gr_bytes(b"p sp 3 2\n\xff\n", false).unwrap_err(), GrFileError::NotUtf8);
    assert_eq!(read_gr_bytes(&gzip(b"a 1 2 \xc3\n"), true).unwrap_err(), GrFileError::NotUtf8);
}

#[test]
fn crlf_lines_and_missing_final_newline() {
    let (n, edges) = read("p sp 3 2\r\na 1 2 4\r\na 2 3 5");
    assert_eq!(n, 3);
    assert_eq!(edges.len(), 2);
    assert_eq!(edges[0].weight.as_deref(), Some("4"));
    assert_eq!(edges[1].weight.as_deref(), Some("5"));
}

#[test]
fn node_count_overflow_only_for_zero_based_largest_id() {
    let big = usize::MAX.to_string();
    let zero_based = format!("a 0 {} 1\n", big);
    assert_eq!(read_gr_bytes(zero_based.as_bytes(), false).unwrap_err(), GrFileError::NodeCountOverflow);
    let one_based = format!("a 1 {} 1\n", big);
    let (n, edges) = read_gr_bytes(one_based.as_bytes(), false).unwrap();
    assert_eq!(n, usize::MAX);
    assert_eq!(edges.len(), 1);
}
