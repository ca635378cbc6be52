use fuzz_web::coverage::{get_coverage_html_path, html_escape};

#[test]
fn test_html_escape() {
    assert_eq!(html_escape("normal text"), "normal text");
    assert_eq!(html_escape("<script>alert('XSS')</script>"), "&lt;script&gt;alert(&apos;XSS&apos;)&lt;/script&gt;");
    assert_eq!(html_escape("a & b"), "a &amp; b");
    assert_eq!(html_escape(r#"<div class="test">"#), "&lt;div class=&quot;test&quot;");
}

#[test]
fn test_get_coverage_html_path() {
    assert_eq!(get_coverage_html_path("/tmp"), "/tmp/coverage_html/index.html");
    assert_eq!(get_coverage_html_path("/var/log"), "/var/log/coverage_html/index.html");
}

#[test]
fn escape_quote_then_close_drops_close() {
    assert_eq!(html_escape("\">"), "&quot;");
    assert_eq!(html_escape("a\" >"), "a&quot; &gt;");
    assert_eq!(html_escape(">\""), "&gt;&quot;");
}

#[test]
fn escape_output_holds_no_markup() {
    let inputs = ["<a href='x'>\"&\"</a>", "&&<<>>''\"\"", "plain", ""];
    for input in inputs {
        let out = html_escape(input);
        assert!(!out.contains('<') && !out.contains('>') && !out.contains('"') && !out.contains('\''));
        for (i, _) in out.match_indices('&') {
            let rest = &out[i..];
            assert!(
                rest.starts_with("&amp;") || rest.starts_with("&lt;") || rest.starts_with("&gt;")
                    || rest.starts_with("&quot;") || rest.starts_with("&apos;")
            );
        }
    }
}

#[test]
fn escape_keeps_plain_text_and_concatenates() {
    assert_eq!(html_escape("int main(void) { return 0; }"), "int main(void) { return 0; }");
    assert_eq!(html_escape("ünïcødé ▶"), "ünïcødé ▶");
    let a = "x < y";
    let b = " & z";
    assert_eq!(html_escape(&format!("{}{}", a, b)), format!("{}{}", html_escape(a), html_escape(b)));
    assert_eq!(html_escape(""), "");
}
