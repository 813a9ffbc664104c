use vortex::template::{escape_html, render_fortunes, render_fortunes_zerocopy};

fn escaped(text: &[u8]) -> Vec<u8> {
    let mut out = Vec::new();
    escape_html(text, &mut out);
    out
}

#[test]
fn the_five_markup_bytes_are_escaped() {
    assert_eq!(escaped(b"&<>\"'"), b"&amp;&lt;&gt;&quot;&#x27;");
    assert_eq!(
        escaped(b"<script>alert(\"x\");</script>"),
        b"&lt;script&gt;alert(&quot;x&quot;);&lt;/script&gt;"
    );
    assert_eq!(escaped(b"plain"), b"plain");
    assert_eq!(escaped(b""), b"");
    assert_eq!(escaped("フレームワーク&".as_bytes()), "フレームワーク&amp;".as_bytes());
}

#[test]
fn escaping_appends() {
    let mut out = b"a<".to_vec();
    escape_html(b"<b", &mut out);
    assert_eq!(out, b"a<&lt;b");
}

#[test]
fn escaping_parts_is_escaping_the_whole() {
    let parts = [escaped(b"a&b"), escaped(b"<c>")].concat();
    assert_eq!(parts, escaped(b"a&b<c>"));
}

#[test]
fn escaped_text_holds_no_markup() {
    let all: Vec<u8> = (0..=255).collect();
    let out = escaped(&all);
    assert!(out.iter().all(|b| !b"<>\"'".contains(b)));
}

#[test]
fn escaping_tells_texts_apart() {
    assert_ne!(escaped(b"&amp;"), escaped(b"&"));
    assert_ne!(escaped(b"<"), escaped(b"&lt;"));
}

const START: &str = "<!DOCTYPE html><html><head><title>Fortunes</title></head><body><table><tr><th>id</th><th>message</th></tr>";
const EXTRA: &str = "<tr><td>0</td><td>Additional fortune added at request time.</td></tr>";
const END: &str = "</table></body></html>";

#[test]
fn fortunes_are_sorted_and_escaped() {
    let rows = vec![
        (11, "<script>alert(\"x\");</script>".to_string()),
        (4, "A bad random number generator: 1, 1, 1".to_string()),
        (-7, "Zebra".to_string()),
    ];
    let mut out = b"left over".to_vec();
    render_fortunes(&rows, &mut out);
    let want = format!(
        "{}<tr><td>11</td><td>&lt;script&gt;alert(&quot;x&quot;);&lt;/script&gt;</td></tr><tr><td>4</td><td>A bad random number generator: 1, 1, 1</td></tr>{}<tr><td>-7</td><td>Zebra</td></tr>{}",
        START, EXTRA, END
    );
    assert_eq!(String::from_utf8(out).unwrap(), want);
}

#[test]
fn equal_messages_keep_their_order() {
    let rows = vec![(3, "b".to_string()), (2, "a".to_string()), (1, "b".to_string())];
    let mut out = Vec::new();
    render_fortunes(&rows, &mut out);
    let want = format!(
        "{}{}<tr><td>2</td><td>a</td></tr><tr><td>3</td><td>b</td></tr><tr><td>1</td><td>b</td></tr>{}",
        START, EXTRA, END
    );
    assert_eq!(String::from_utf8(out).unwrap(), want);
}

#[test]
fn a_prefix_comes_before_what_it_starts() {
    let rows = vec![(1, "bb".to_string()), (2, "b".to_string()), (3, "".to_string())];
    let mut out = Vec::new();
    render_fortunes(&rows, &mut out);
    let text = String::from_utf8(out).unwrap();
    let at = |id: &str| text.find(&format!("<tr><td>{}</td>", id)).unwrap();
    assert!(at("3") < at("0") && at("0") < at("2") && at("2") < at("1"));
}

#[test]
fn without_fortunes_the_page_holds_the_extra_one() {
    let mut out = Vec::new();
    render_fortunes(&[], &mut out);
    assert_eq!(String::from_utf8(out).unwrap(), format!("{}{}{}", START, EXTRA, END));
}

#[test]
fn extreme_numbers_are_written_in_full() {
    let rows = vec![(i32::MIN, "a".to_string()), (i32::MAX, "b".to_string())];
    let mut out = Vec::new();
    render_fortunes(&rows, &mut out);
    let text = String::from_utf8(out).unwrap();
    assert!(text.contains("<td>-2147483648</td><td>a</td>"));
    assert!(text.contains("<td>2147483647</td><td>b</td>"));
}

#[test]
fn both_renderers_show_the_same_page() {
    let messages = ["a1b2c3", "f8e7d6c5", "<b>3a9f</b>", "7c4e2f8a", "0", "4f2a8b", "0", "b7", "é"];
    let strings: Vec<(i32, String)> =
        messages.iter().enumerate().map(|(i, m)| (i as i32 + 1, m.to_string())).collect();
    let rows: Vec<(i32, &[u8])> = strings.iter().map(|(i, m)| (*i, m.as_bytes())).collect();
    let (mut a, mut b) = (Vec::new(), b"old".to_vec());
    render_fortunes(&strings, &mut a);
    render_fortunes_zerocopy(&rows, rows.len(), &mut b);
    assert_eq!(a, b);
}

#[test]
fn the_fixed_size_renderer_takes_fifteen_rows() {
    let messages: Vec<String> = (0..20).map(|i| format!("m{:02}", i)).collect();
    let rows: Vec<(i32, &[u8])> =
        messages.iter().enumerate().map(|(i, m)| (i as i32 + 100, m.as_bytes())).collect();
    let mut out = Vec::new();
    render_fortunes_zerocopy(&rows, 20, &mut out);
    let text = String::from_utf8(out).unwrap();
    assert!(text.contains("<td>114</td>") && !text.contains("<td>115</td>"));
    let mut few = Vec::new();
    render_fortunes_zerocopy(&rows, 2, &mut few);
    let text = String::from_utf8(few).unwrap();
    assert!(text.contains("<td>101</td>") && !text.contains("<td>102</td>"));
    let mut none = Vec::new();
    render_fortunes_zerocopy(&[], 0, &mut none);
    assert_eq!(String::from_utf8(none).unwrap(), format!("{}{}{}", START, EXTRA, END));
}
