use local_searcher::table::{EmbeddingTable, LoadError};
use local_searcher::text::chars_of;
use local_searcher::table::parse_uint;

const TOY: &str = "3 4\nking 0.1 0.2 0.3 0.4\nqueen 1.0 2.0 3.0 4.0\nman -0.5 0.0 0.5 1.5\n";

fn row_values(table: &EmbeddingTable, i: usize) -> Vec<f32> {
    table.row(i).fields.iter().map(|f| f.parse::<f32>().unwrap()).collect()
}

fn pooled(table: &EmbeddingTable, tokens: &[&str]) -> Option<Vec<f32>> {
    let toks: Vec<String> = tokens.iter().map(|t| t.to_string()).collect();
    let rows = table.rows_for_tokens(&toks)?;
    let mut sum = vec![0.0f32; table.dim()];
    for &r in &rows {
        for (s, v) in sum.iter_mut().zip(row_values(table, r)) {
            *s += v;
        }
    }
    let inv = 1.0 / rows.len() as f32;
    Some(sum.into_iter().map(|s| s * inv).collect())
}

fn assert_close(v: &[f32], expected: &[f32]) {
    assert_eq!(v.len(), expected.len());
    for (i, (a, b)) in v.iter().zip(expected.iter()).enumerate() {
        assert!((a - b).abs() < 1e-6, "mismatch at index {i}: {a} vs {b}");
    }
}

fn load(text: &str) -> EmbeddingTable {
    match EmbeddingTable::parse(text) {
        Ok(t) => t,
        Err(_) => panic!("table should load"),
    }
}

#[test]
fn test_load_txt() {
    let emb = load(TOY);
    assert_eq!(emb.dim(), 4);
    assert_eq!(emb.num_rows(), 3);
    assert_eq!(emb.lookup("king"), Some(0));
    assert_eq!(emb.lookup("queen"), Some(1));
    assert_eq!(emb.lookup("man"), Some(2));
    let expected: Vec<f32> = vec![
        0.1, 0.2, 0.3, 0.4, //
        1.0, 2.0, 3.0, 4.0, //
        -0.5, 0.0, 0.5, 1.5,
    ];
    let data: Vec<f32> = (0..emb.num_rows()).flat_map(|i| row_values(&emb, i)).collect();
    assert_close(&data, &expected);
}

#[test]
fn test_embed_tokens_average() {
    let emb = load(TOY);
    assert_eq!(emb.rows_for_tokens(&vec!["king".to_string(), "queen".to_string()]), Some(vec![0, 1]));
    let v = pooled(&emb, &["king", "queen"]).expect("expected Some(vec) for in-vocab tokens");
    assert_close(&v, &[0.55, 1.10, 1.65, 2.20]);
}

#[test]
fn test_embed_tokens_oov() {
    let emb = load(TOY);
    assert_eq!(emb.rows_for_tokens(&vec!["oov".to_string(), "man".to_string()]), Some(vec![2]));
    let v = pooled(&emb, &["oov", "man"])
        .expect("expected Some(vec) when at least one token is in-vocab");
    assert_close(&v, &[-0.5, 0.0, 0.5, 1.5]);
}

#[test]
fn embed_tokens_no_match_gives_none() {
    let emb = load(TOY);
    assert_eq!(emb.rows_for_tokens(&vec!["oov".to_string(), "King".to_string()]), None);
    assert_eq!(emb.rows_for_tokens(&Vec::new()), None);
}

#[test]
fn load_header_table() {
    let emb = load("2 4\nking 0.1 0.2 0.3 0.4\nqueen 1.0 2.0 3.0 4.0\n");
    assert_eq!(emb.dim(), 4);
    assert_eq!(emb.num_rows(), 2);
    assert_eq!(emb.lookup("king"), Some(0));
    assert_eq!(emb.lookup("queen"), Some(1));
    assert_eq!(emb.row(1).word, "queen");
    assert_eq!(emb.row(1).line, 2);
    assert_close(&row_values(&emb, 0), &[0.1, 0.2, 0.3, 0.4]);
    assert_close(&row_values(&emb, 1), &[1.0, 2.0, 3.0, 4.0]);
}

#[test]
fn load_without_header_takes_dim_from_first_row() {
    let emb = load("\nking 1 2 3\r\n\nlone\nqueen 4 5 6");
    assert_eq!(emb.dim(), 3);
    assert_eq!(emb.num_rows(), 2);
    assert_eq!(emb.row(0).line, 1);
    assert_eq!(emb.row(1).fields, vec!["4", "5", "6"]);
}

#[test]
fn load_dimension_mismatch_fails() {
    match EmbeddingTable::parse("2 4\nking 0.1 0.2 0.3 0.4\nqueen 1.0 2.0 3.0\n") {
        Err(LoadError::DimensionMismatch { line, word, expected, actual }) => {
            assert_eq!((line, word.as_str(), expected, actual), (2, "queen", 4, 3));
        }
        _ => panic!("expected a dimension mismatch"),
    }
}

#[test]
fn load_mismatch_against_first_row() {
    match EmbeddingTable::parse("a 1 2\nb 1 2 3\n") {
        Err(LoadError::DimensionMismatch { line, expected, actual, .. }) => {
            assert_eq!((line, expected, actual), (1, 2, 3));
        }
        _ => panic!("expected a dimension mismatch"),
    }
}

#[test]
fn load_zero_dimension_header_fails() {
    assert!(matches!(EmbeddingTable::parse("5 0\nx 1\n"), Err(LoadError::InvalidDimension)));
}

#[test]
fn header_needs_exactly_two_integers() {
    let emb = load("2 4 5\n");
    assert_eq!(emb.dim(), 2);
    assert_eq!(emb.lookup("2"), Some(0));
}

#[test]
fn duplicate_word_last_row_wins() {
    let emb = load("w 1 2\nv 3 4\nw 5 6\n");
    assert_eq!(emb.num_rows(), 3);
    assert_eq!(emb.lookup("w"), Some(2));
    assert_eq!(emb.lookup("v"), Some(1));
    assert_eq!(emb.lookup("u"), None);
}

#[test]
fn empty_table() {
    let emb = load("");
    assert_eq!(emb.dim(), 0);
    assert_eq!(emb.num_rows(), 0);
}

#[test]
fn parse_uint_cases() {
    assert_eq!(parse_uint(&chars_of("42")), Some(42));
    assert_eq!(parse_uint(&chars_of("+7")), Some(7));
    assert_eq!(parse_uint(&chars_of("+")), None);
    assert_eq!(parse_uint(&chars_of("")), None);
    assert_eq!(parse_uint(&chars_of("-1")), None);
    assert_eq!(parse_uint(&chars_of("1x")), None);
    assert_eq!(parse_uint(&chars_of("18446744073709551615")), Some(usize::MAX));
    assert_eq!(parse_uint(&chars_of("18446744073709551616")), None);
}

#[test]
fn scan_keeps_rows_before_failure() {
    let (table, failure) = EmbeddingTable::scan("a 1 2\nb x y\nc 1 2 3\nd 4 5\n");
    assert!(matches!(failure, Some(LoadError::DimensionMismatch { line: 2, .. })));
    assert_eq!(table.dim(), 2);
    assert_eq!(table.num_rows(), 2);
    assert_eq!(table.row(1).word, "b");
    assert_eq!(table.row(1).fields, vec!["x", "y"]);
}

#[test]
fn scan_without_failure_matches_parse() {
    let (table, failure) = EmbeddingTable::scan(TOY);
    assert!(failure.is_none());
    assert_eq!(table.num_rows(), 3);
    assert_eq!(table.lookup("queen"), Some(1));
}
