use cophmatch::errors::Error;
use cophmatch::parse::parse_input;
use cophmatch::solver::solve_matrix;

fn lines(texts: &[&str]) -> Vec<Vec<u8>> {
    texts.iter().map(|t| t.as_bytes().to_vec()).collect()
}

#[test]
fn parses_a_small_matrix() {
    // header positions: R1 R2 S1 S2; data token i+1 belongs to header position i
    let input = lines(&[
        "R1 R2 S1 S2",
        "R1 0 0 1 4",
        "R2 0 0 3 2",
    ]);
    let p = parse_input(&input).unwrap();
    assert_eq!(p.r_labels, vec![b"R1".to_vec(), b"R2".to_vec()]);
    assert_eq!(p.s_labels, vec![b"S1".to_vec(), b"S2".to_vec()]);
    assert_eq!(p.dist, vec![vec![1_000_000u64, 4_000_000], vec![3_000_000u64, 2_000_000]]);
}

#[test]
fn end_to_end_scenario_picks_the_cheap_pairing() {
    let input = lines(&[
        "R1 R2 S1 S2",
        "R1 0 0 1 4",
        "R2 0 0 3 2",
    ]);
    let p = parse_input(&input).unwrap();
    let rep = solve_matrix(p.dist, 10);
    let a = rep.outcome.unwrap();
    // R1 -> S1 (1) and R2 -> S2 (2), never the 4 + 3 pairing
    assert_eq!(a.path, vec![0u16, 1u16]);
    assert_eq!(a.total, 3_000_000);
}

#[test]
fn quotes_and_carriage_returns_are_stripped() {
    let input = lines(&[
        "\"R1\" \"S1\"\r",
        "\"R1\" 7.5 2.25\r",
    ]);
    let p = parse_input(&input).unwrap();
    assert_eq!(p.r_labels, vec![b"R1".to_vec()]);
    assert_eq!(p.s_labels, vec![b"S1".to_vec()]);
    // the value under the S column (header position 1 -> data token 2)
    assert_eq!(p.dist, vec![vec![2_250_000u64]]);
}

#[test]
fn decimal_fields_become_micro_units() {
    let input = lines(&[
        "R1 S1 S2 S3",
        "R1 0 0.000001 123 1.2345678",
    ]);
    let p = parse_input(&input).unwrap();
    // six decimals kept, further digits ignored
    assert_eq!(p.dist, vec![vec![1u64, 123_000_000, 1_234_567]]);
}

#[test]
fn unmatched_header_row_is_excluded() {
    // R3 appears in the header but never heads a data line
    let input = lines(&[
        "R1 R2 R3 S1 S2 S3",
        "R1 0 0 0 1 2 3",
        "R2 0 0 0 4 5 6",
    ]);
    let p = parse_input(&input).unwrap();
    assert_eq!(p.r_labels, vec![b"R1".to_vec(), b"R2".to_vec()]);
    assert_eq!(p.dist.len(), 2);
    assert_eq!(p.dist[0], vec![1_000_000u64, 2_000_000, 3_000_000]);
}

#[test]
fn non_numeric_distance_is_fatal() {
    let input = lines(&[
        "R1 S1 S2",
        "R1 0 1.5 oops",
    ]);
    assert_eq!(parse_input(&input).unwrap_err(), Error::ParseError);
}

#[test]
fn non_numeric_token_under_any_column_is_fatal() {
    // the bad token sits under an R column but is still parsed
    let input = lines(&[
        "R1 S1",
        "R1 bad 3",
    ]);
    assert_eq!(parse_input(&input).unwrap_err(), Error::ParseError);
}

#[test]
fn short_data_line_is_fatal() {
    let input = lines(&[
        "R1 S1 S2",
        "R1 0 1",
    ]);
    assert_eq!(parse_input(&input).unwrap_err(), Error::ParseError);
}

#[test]
fn unknown_labels_are_skipped() {
    let input = lines(&[
        "R1 S1",
        "X9 garbage here",
        "R7 also not a known row",
        "R1 0 2",
    ]);
    let p = parse_input(&input).unwrap();
    assert_eq!(p.dist, vec![vec![2_000_000u64]]);
}

#[test]
fn later_line_for_the_same_label_wins() {
    let input = lines(&[
        "R1 S1",
        "R1 0 2",
        "R1 0 9",
    ]);
    let p = parse_input(&input).unwrap();
    assert_eq!(p.dist, vec![vec![9_000_000u64]]);
}

#[test]
fn empty_and_headerless_inputs_are_fatal() {
    assert_eq!(parse_input(&Vec::new()).unwrap_err(), Error::ParseError);
    // header without S items
    let input = lines(&["R1 R2", "R1 0 0"]);
    assert_eq!(parse_input(&input).unwrap_err(), Error::ParseError);
    // header without R items
    let input = lines(&["S1 S2", "R1 0 0"]);
    assert_eq!(parse_input(&input).unwrap_err(), Error::ParseError);
    // no data line matches any header row
    let input = lines(&["R1 S1", "R2 0 1"]);
    assert_eq!(parse_input(&input).unwrap_err(), Error::ParseError);
}
