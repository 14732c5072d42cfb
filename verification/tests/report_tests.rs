use benfordlens::report::{decimal_text, html_escape, html_header, markdown_header, text_header, DatasetSummary, OutputFormat};
use benfordlens::visualize::{bar_area_width, render_bar};

#[test]
fn test_html_escape() {
    assert_eq!(html_escape("a&b<c>d\"e"), "a&amp;b&lt;c&gt;d&quot;e");
}

#[test]
fn html_escape_other_text() {
    assert_eq!(html_escape(""), "");
    assert_eq!(html_escape("plain text é"), "plain text é");
    assert_eq!(html_escape("&&"), "&amp;&amp;");
    assert_eq!(html_escape("'"), "'");
}

#[test]
fn test_output_format_extension() {
    assert_eq!(OutputFormat::Text.extension(), "txt");
    assert_eq!(OutputFormat::Json.extension(), "json");
    assert_eq!(OutputFormat::Markdown.extension(), "md");
    assert_eq!(OutputFormat::Html.extension(), "html");
}

#[test]
fn decimal_text_values() {
    assert_eq!(decimal_text(0), "0");
    assert_eq!(decimal_text(7), "7");
    assert_eq!(decimal_text(1000), "1000");
    assert_eq!(decimal_text(usize::MAX), usize::MAX.to_string());
}

fn summary(column: Option<&str>, skipped: usize) -> DatasetSummary {
    DatasetSummary {
        source: "test.csv".to_string(),
        column: column.map(|c| c.to_string()),
        total_records: 1000,
        valid_values: 998,
        skipped,
    }
}

#[test]
fn text_header_lines() {
    let h = text_header(&summary(Some("amount"), 2));
    assert!(h.starts_with("╔"));
    assert!(h.contains("BenfordLens Analysis Report"));
    assert!(h.contains("  Source:          test.csv\n"));
    assert!(h.contains("  Column:          amount\n"));
    assert!(h.contains("  Total records:   1000\n"));
    assert!(h.contains("  Valid values:    998\n"));
    assert!(h.ends_with("  Skipped (invalid): 2\n"));
    let h2 = text_header(&summary(None, 0));
    assert!(!h2.contains("Column"));
    assert!(!h2.contains("Skipped"));
}

#[test]
fn markdown_header_lines() {
    let h = markdown_header(&summary(Some("amount"), 0));
    assert_eq!(
        h,
        "# BenfordLens Analysis Report\n\n- **Source:** test.csv\n- **Column:** amount\n- **Total records:** 1000\n- **Valid values:** 998\n\n"
    );
}

#[test]
fn html_header_escapes_and_counts() {
    let mut d = summary(Some("<b>"), 3);
    d.source = "a&b.csv".to_string();
    let h = html_header(&d);
    assert!(h.starts_with("<!DOCTYPE html>"));
    assert!(h.contains("<p><strong>Source:</strong> a&amp;b.csv</p>\n"));
    assert!(h.contains("<p><strong>Column:</strong> &lt;b&gt;</p>\n"));
    assert!(h.ends_with(
        "<p><strong>Total records:</strong> 1000 | <strong>Valid values:</strong> 998 | <strong>Skipped:</strong> 3</p>\n"
    ));
}

#[test]
fn bar_area_width_clamps() {
    assert_eq!(bar_area_width(70), 52);
    assert_eq!(bar_area_width(5), 2);
    assert_eq!(bar_area_width(200), 62);
    assert_eq!(bar_area_width(60), 42);
}

#[test]
fn render_bar_layout() {
    assert_eq!(render_bar(3, 6, 8), "███  |  ");
    assert_eq!(render_bar(5, 2, 6), "█╪███ ");
    assert_eq!(render_bar(0, 0, 4), "    ");
    assert_eq!(render_bar(10, 4, 4), "████");
    assert_eq!(render_bar(0, 1, 3), "|  ");
}

#[test]
fn html_escape_leaves_no_markup() {
    let e = html_escape("<<a href=\"x\">>&\"</a>");
    assert!(!e.contains('<') && !e.contains('>') && !e.contains('"'));
    assert_eq!(e, "&lt;&lt;a href=&quot;x&quot;&gt;&gt;&amp;&quot;&lt;/a&gt;");
}

#[test]
fn html_escape_round_trip_and_plain_text() {
    fn unescape(t: &str) -> String {
        t.replace("&lt;", "<").replace("&gt;", ">").replace("&quot;", "\"").replace("&amp;", "&")
    }
    for s in ["a&b<c>d\"e", "&amp;", "&lt;&gt;", "plain", ""] {
        let e = html_escape(s);
        assert_eq!(unescape(&e), s);
        for (i, _) in e.match_indices('&') {
            let rest = &e[i..];
            assert!(
                rest.starts_with("&amp;") || rest.starts_with("&lt;") || rest.starts_with("&gt;") || rest.starts_with("&quot;")
            );
        }
    }
    assert_eq!(html_escape("no markup here: 1 + 2 = 3"), "no markup here: 1 + 2 = 3");
}
