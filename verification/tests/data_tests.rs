use benfordlens::data::{
    clean_number_text, extract_numbers_from_json, input_format, json_numbers_of, plain_text_tokens, InputFormat,
    JsonValue,
};
use benfordlens::data::{csv_column_fields, first_numeric_column, read_csv_table, CsvTable};

/// Whether the field under each header, in the first record, reads as a number.
fn numeric_flags(table: &CsvTable) -> Vec<bool> {
    let width = match &table.headers {
        Ok(h) => h.len(),
        Err(_) => 0,
    };
    let first = match table.records.first() {
        Some(Some(fields)) => Some(fields),
        _ => None,
    };
    (0..width)
        .map(|j| first.and_then(|f| f.get(j)).map_or(false, |t| t.trim().parse::<f64>().is_ok()))
        .collect()
}

/// The fields of a column of CSV data, the default being the first numeric column.
fn csv_fields(data: &[u8], column: Option<&str>) -> Result<Vec<Option<String>>, String> {
    let table = read_csv_table(data);
    let numeric = numeric_flags(&table);
    csv_column_fields(&table, column, &numeric)
}
use benfordlens::text::is_whitespace;

fn clean(s: &str) -> Option<String> {
    clean_number_text(s)
}

#[test]
fn clean_number_text_basic() {
    assert_eq!(clean("123"), Some("123".to_string()));
    assert_eq!(clean("3.14"), Some("3.14".to_string()));
    assert_eq!(clean("1e5"), Some("1e5".to_string()));
    assert_eq!(clean("  42  "), Some("42".to_string()));
}

#[test]
fn clean_number_text_currency() {
    assert_eq!(clean("$123.45"), Some("123.45".to_string()));
    assert_eq!(clean("€1000"), Some("1000".to_string()));
    assert_eq!(clean("£42"), Some("42".to_string()));
    assert_eq!(clean("+$5"), Some("$5".to_string()));
    assert_eq!(clean("$$+ 7"), Some("7".to_string()));
}

#[test]
fn clean_number_text_thousands_and_percent() {
    assert_eq!(clean("1,234,567"), Some("1234567".to_string()));
    assert_eq!(clean("$1,234.56"), Some("1234.56".to_string()));
    assert_eq!(clean("50%"), Some("50".to_string()));
    assert_eq!(clean("3.14%"), Some("3.14".to_string()));
    assert_eq!(clean("5%%"), Some("5".to_string()));
}

#[test]
fn clean_number_text_empty() {
    assert_eq!(clean(""), None);
    assert_eq!(clean("   "), None);
    assert_eq!(clean("$"), None);
    assert_eq!(clean(",%"), None);
    // Text that is not a number is left for the number reader to refuse.
    assert_eq!(clean("abc"), Some("abc".to_string()));
    assert_eq!(clean("-5"), Some("-5".to_string()));
}

#[test]
fn plain_text_tokens_lines() {
    let t = plain_text_tokens("123\n456\n789\nabc\n0\n-1\n");
    assert_eq!(t, vec!["123", "456", "789", "abc", "0", "-1"]);
}

#[test]
fn plain_text_tokens_commas_and_spaces() {
    let t = plain_text_tokens("100, 200, 300\n400 500 600\n");
    assert_eq!(t, vec!["100", "200", "300", "400", "500", "600"]);
    assert!(plain_text_tokens("").is_empty());
    assert!(plain_text_tokens(" ,\n\t,, ").is_empty());
    assert_eq!(plain_text_tokens("a\r\nb\u{3000}c"), vec!["a", "b", "c"]);
}

#[test]
fn whitespace_matches_std() {
    for code in 0u32..=0x10FFFF {
        if let Some(c) = char::from_u32(code) {
            assert_eq!(is_whitespace(c), c.is_whitespace(), "char {:x}", code);
        }
    }
}

#[test]
fn input_format_by_extension() {
    assert_eq!(input_format("csv"), InputFormat::Csv);
    assert_eq!(input_format("TSV"), InputFormat::Csv);
    assert_eq!(input_format("json"), InputFormat::Json);
    assert_eq!(input_format("Json"), InputFormat::Json);
    assert_eq!(input_format("jsonl"), InputFormat::Jsonl);
    assert_eq!(input_format("NDJSON"), InputFormat::Jsonl);
    assert_eq!(input_format("txt"), InputFormat::PlainText);
    assert_eq!(input_format(""), InputFormat::PlainText);
    assert_eq!(input_format("csvx"), InputFormat::PlainText);
}

fn num(t: &str) -> JsonValue {
    JsonValue::Number(t.to_string())
}

fn obj(members: Vec<(&str, JsonValue)>) -> JsonValue {
    JsonValue::Object(members.into_iter().map(|(k, v)| (k.to_string(), v)).collect())
}

#[test]
fn json_numbers_array() {
    // [100, 200, 300, 0, -5, "abc"]
    let doc = JsonValue::Array(vec![
        num("100"),
        num("200"),
        num("300"),
        num("0"),
        num("-5"),
        JsonValue::Text("abc".to_string()),
    ]);
    assert_eq!(json_numbers_of(&doc, None), vec!["100", "200", "300", "0", "-5"]);
}

#[test]
fn json_numbers_with_column() {
    // [{"amount": 100}, {"amount": 200}, {"name": "x"}]
    let doc = JsonValue::Array(vec![
        obj(vec![("amount", num("100"))]),
        obj(vec![("amount", num("200"))]),
        obj(vec![("name", JsonValue::Text("x".to_string()))]),
    ]);
    assert_eq!(json_numbers_of(&doc, Some("amount")), vec!["100", "200"]);
    let nested = obj(vec![
        ("u", num("9")),
        ("v", obj(vec![("w", JsonValue::Array(vec![num("1.5"), num("2")])), ("z", num("3"))])),
    ]);
    assert_eq!(json_numbers_of(&nested, Some("v")), vec!["1.5", "2", "3"]);
    assert!(json_numbers_of(&nested, Some("missing")).is_empty());
}

#[test]
fn json_numbers_without_column() {
    let doc = obj(vec![
        ("a", num("1")),
        ("b", JsonValue::Bool(true)),
        ("c", JsonValue::Array(vec![num("3"), obj(vec![("d", num("4"))]), JsonValue::Null])),
    ]);
    assert_eq!(json_numbers_of(&doc, None), vec!["1", "3", "4"]);
    let mut out = vec!["0".to_string()];
    extract_numbers_from_json(&doc, None, &mut out);
    assert_eq!(out, vec!["0", "1", "3", "4"]);
}

#[test]
fn csv_fields_named_column() {
    let data = b"name,value\na,100\nb,200\nc,invalid\nd,300\n";
    let r = csv_fields(data, Some("value")).unwrap();
    assert_eq!(
        r,
        vec![Some("100".to_string()), Some("200".to_string()), Some("invalid".to_string()), Some("300".to_string())]
    );
}

#[test]
fn csv_fields_default_column() {
    let r = csv_fields(b"value\n100\n200\n300\n", None).unwrap();
    assert_eq!(r, vec![Some("100".to_string()), Some("200".to_string()), Some("300".to_string())]);
    let r = csv_fields(b"a,b\n1,2\n3\n", Some("b")).unwrap();
    assert_eq!(r, vec![Some("2".to_string()), None]);
}

#[test]
fn csv_fields_missing_column() {
    let r = csv_fields(b"a,b\n1,2\n", Some("nonexistent"));
    assert_eq!(r, Err("column 'nonexistent' not found in CSV".to_string()));
}

#[test]
fn cleaned_number_has_no_separators_or_trailing_percent() {
    assert_eq!(clean("1,,2%%"), Some("12".to_string()));
    assert_eq!(clean("\u{a0}$1,000.5%\u{2003}"), Some("1000.5".to_string()));
    for s in ["1,2,3", "9%", "£1,234%", "+,%", "7 %"] {
        if let Some(t) = clean(s) {
            assert!(!t.contains(','), "{}", t);
            assert!(!t.ends_with('%'), "{}", t);
        }
    }
}

#[test]
fn tokens_hold_no_separators() {
    let input = "  12,,34\t56\r\n\u{2028}78 ,9,";
    let t = plain_text_tokens(input);
    assert_eq!(t, vec!["12", "34", "56", "78", "9"]);
    let kept: String = input.chars().filter(|c| !(c.is_whitespace() || *c == ',')).collect();
    assert_eq!(t.concat(), kept);
    for tok in &t {
        assert!(!tok.is_empty());
        assert!(!tok.chars().any(|c| c.is_whitespace() || c == ','));
    }
}

#[test]
fn csv_default_column_is_first_numeric() {
    let r = csv_fields(b"name,value\na,100\nb,200\n", None).unwrap();
    assert_eq!(r, vec![Some("100".to_string()), Some("200".to_string())]);
    let r = csv_fields(b"name,label\na,x\nb,y\n", None).unwrap();
    assert_eq!(r, vec![Some("a".to_string()), Some("b".to_string())]);
}

#[test]
fn first_numeric_column_falls_back_to_zero() {
    assert_eq!(first_numeric_column(&[false, true, true]), 1);
    assert_eq!(first_numeric_column(&[true]), 0);
    assert_eq!(first_numeric_column(&[false, false]), 0);
    assert_eq!(first_numeric_column(&[]), 0);
}
