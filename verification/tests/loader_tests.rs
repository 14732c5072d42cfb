//! The original loader and validation tests, run on the library's side of
//! each step: the text is cleaned, tokenised or parsed by the library, and
//! reading a cleaned text as a positive number is done here as the program
//! does it.

use benfordlens::analysis::observed_counts;
use benfordlens::data::{
    check_path, clean_number_text, json_document_numbers, json_line_numbers, plain_text_tokens,
};
use benfordlens::data::{csv_column_fields, read_csv_table, CsvTable};

/// Whether the field under each header, in the first record, reads as a number.
fn numeric_flags(table: &CsvTable) -> Vec<bool> {
    let width = match &table.headers {
        Ok(h) => h.len(),
        Err(_) => 0,
    };
    let first = match table.records.first() {
        Some(Some(fields)) => Some(fields),
        _ => None,
    };
    (0..width)
        .map(|j| first.and_then(|f| f.get(j)).map_or(false, |t| t.trim().parse::<f64>().is_ok()))
        .collect()
}

/// The fields of a column of CSV data, the default being the first numeric column.
fn csv_fields(data: &[u8], column: Option<&str>) -> Result<Vec<Option<String>>, String> {
    let table = read_csv_table(data);
    let numeric = numeric_flags(&table);
    csv_column_fields(&table, column, &numeric)
}
use benfordlens::digit::DigitPosition;
use benfordlens::statistics::observed_total;

/// Reads a numeric token as the program does: the library's cleaned text,
/// read as a finite positive `f64`.
fn parse_number(s: &str) -> Option<f64> {
    let t = clean_number_text(s)?;
    match t.parse::<f64>() {
        Ok(v) if v.is_finite() && v > 0.0 => Some(v),
        _ => None,
    }
}

/// Values, total and skipped count of a list of optional fields.
fn read_fields(fields: &[Option<String>]) -> (Vec<f64>, usize, usize) {
    let mut values = Vec::new();
    let mut skipped = 0;
    for f in fields {
        match f.as_deref().and_then(parse_number) {
            Some(v) => values.push(v),
            None => skipped += 1,
        }
    }
    (values, fields.len(), skipped)
}

fn positive(texts: Vec<String>) -> Vec<f64> {
    texts.iter().filter_map(|t| t.parse::<f64>().ok()).filter(|f| f.is_finite() && *f > 0.0).collect()
}

#[test]
fn test_parse_number_basic() {
    assert_eq!(parse_number("123"), Some(123.0));
    assert_eq!(parse_number("3.14"), Some(3.14));
    assert_eq!(parse_number("0.001"), Some(0.001));
    assert_eq!(parse_number("1e5"), Some(100000.0));
}

#[test]
fn test_parse_number_currency() {
    assert_eq!(parse_number("$123.45"), Some(123.45));
    assert_eq!(parse_number("€1000"), Some(1000.0));
    assert_eq!(parse_number("£42"), Some(42.0));
}

#[test]
fn test_parse_number_thousands() {
    assert_eq!(parse_number("1,234,567"), Some(1234567.0));
    assert_eq!(parse_number("$1,234.56"), Some(1234.56));
}

#[test]
fn test_parse_number_invalid() {
    assert_eq!(parse_number(""), None);
    assert_eq!(parse_number("abc"), None);
    assert_eq!(parse_number("0"), None);
    assert_eq!(parse_number("-5"), None);
    assert_eq!(parse_number("NaN"), None);
    assert_eq!(parse_number("inf"), None);
}

#[test]
fn test_parse_number_percent() {
    assert_eq!(parse_number("50%"), Some(50.0));
    assert_eq!(parse_number("3.14%"), Some(3.14));
}

#[test]
fn test_parse_plain_text() {
    let input = "123\n456\n789\nabc\n0\n-1\n";
    let tokens = plain_text_tokens(input);
    let values: Vec<f64> = tokens.iter().filter_map(|t| parse_number(t)).collect();
    assert_eq!(values, vec![123.0, 456.0, 789.0]);
    assert_eq!(tokens.len(), 6);
    assert_eq!(tokens.len() - values.len(), 3);
}

#[test]
fn test_parse_plain_text_csv_line() {
    let input = "100, 200, 300\n400 500 600\n";
    let values: Vec<f64> = plain_text_tokens(input).iter().filter_map(|t| parse_number(t)).collect();
    assert_eq!(values, vec![100.0, 200.0, 300.0, 400.0, 500.0, 600.0]);
}

#[test]
fn test_load_csv_file() {
    let data = "name,value\na,100\nb,200\nc,invalid\nd,300\n";
    let fields = csv_fields(data.as_bytes(), Some("value")).unwrap();
    let (values, total, skipped) = read_fields(&fields);
    assert_eq!(values, vec![100.0, 200.0, 300.0]);
    assert_eq!(total, 4);
    assert_eq!(skipped, 1);
}

#[test]
fn test_load_csv_default_column() {
    let data = "value\n100\n200\n300\n";
    let fields = csv_fields(data.as_bytes(), None).unwrap();
    let (values, _, _) = read_fields(&fields);
    assert_eq!(values, vec![100.0, 200.0, 300.0]);
}

#[test]
fn test_load_csv_missing_column() {
    let data = "a,b\n1,2\n";
    let result = csv_fields(data.as_bytes(), Some("nonexistent"));
    assert!(result.is_err());
}

#[test]
fn test_load_json_file() {
    let data = "[100, 200, 300, 0, -5, \"abc\"]\n";
    let values = positive(json_document_numbers(data.as_bytes(), None).unwrap());
    assert_eq!(values, vec![100.0, 200.0, 300.0]);
}

#[test]
fn test_load_json_object_with_column() {
    let data = "[{\"amount\": 100}, {\"amount\": 200}, {\"name\": \"x\"}]\n";
    let values = positive(json_document_numbers(data.as_bytes(), Some("amount")).unwrap());
    assert_eq!(values, vec![100.0, 200.0]);
}

#[test]
fn test_load_jsonl_file() {
    let mut values = Vec::new();
    for line in ["{\"v\": 100}", "{\"v\": 200}", "{\"v\": 300}"] {
        values.extend(positive(json_line_numbers(line.as_bytes(), Some("v")).unwrap()));
    }
    assert_eq!(values, vec![100.0, 200.0, 300.0]);
}

#[test]
fn test_load_plain_text_file() {
    let data = "123\n456\n789\n";
    let values: Vec<f64> = plain_text_tokens(data).iter().filter_map(|t| parse_number(t)).collect();
    assert_eq!(values, vec![123.0, 456.0, 789.0]);
}

#[test]
fn test_analyze_empty() {
    // An empty dataset yields no digits, and counting no digits is an error.
    let result = observed_counts(&vec![], DigitPosition::First);
    assert!(result.is_err());
}

#[test]
fn test_digit_counts_structure() {
    // 10, 20, 30, 40, 50 have the first digits 1, 2, 3, 4, 5.
    let digits = vec![1, 2, 3, 4, 5];
    let counts = observed_counts(&digits, DigitPosition::First).unwrap();
    assert_eq!(counts.len(), 9);
    assert_eq!(counts[0].0, 1);
    assert_eq!(counts[0].1, 1);
}

#[test]
fn test_chi_square_empty() {
    let observed: Vec<(u32, usize)> = vec![];
    assert!(observed_total(&observed).is_err());
}

#[test]
fn test_chi_square_zero_count() {
    let observed = vec![(1, 0), (2, 0)];
    assert!(observed_total(&observed).is_err());
}

#[test]
fn json_document_parse_error_message() {
    let e = json_document_numbers(b"[1, 2", None).unwrap_err();
    assert!(e.starts_with("failed to parse JSON: "), "{}", e);
    assert!(e.len() > "failed to parse JSON: ".len());
    assert!(json_line_numbers(b"not json", None).is_none());
    assert_eq!(json_line_numbers(b"{\"b\": 2, \"a\": [1]}", None), Some(vec!["1".to_string(), "2".to_string()]));
}

#[test]
fn check_path_refuses_parent_components() {
    assert!(check_path("data.csv").is_ok());
    assert!(check_path("/tmp/data/input.json").is_ok());
    assert!(check_path("a..b/c").is_ok());
    assert!(check_path("...").is_ok());
    assert!(check_path("dir/.hidden").is_ok());
    assert_eq!(check_path("../secret.csv"), Err("path traversal is not allowed: ../secret.csv".to_string()));
    assert!(check_path("a/../b").is_err());
    assert!(check_path("a/..").is_err());
    assert!(check_path("..").is_err());
    assert!(check_path("a\\..\\b").is_err());
}

#[test]
fn test_load_csv_first_numeric_column() {
    let data = "name,value\na,100\nb,200\n";
    let fields = csv_fields(data.as_bytes(), None).unwrap();
    let (values, total, skipped) = read_fields(&fields);
    assert_eq!(values, vec![100.0, 200.0]);
    assert_eq!(total, 2);
    assert_eq!(skipped, 0);
}
