use mail_cli::html::{decode_numeric_entities, html_to_text, remove_tag_blocks};

#[test]
fn remove_style_block_case_insensitive() {
    let html = "a<STYLE type=x>p{}</Style>b";
    assert_eq!(remove_tag_blocks(html, "style"), "ab");
}

#[test]
fn remove_unterminated_block_drops_rest() {
    assert_eq!(remove_tag_blocks("keep<script>x=1", "script"), "keep");
}

#[test]
fn remove_several_blocks() {
    assert_eq!(
        remove_tag_blocks("1<style>a</style>2<style>b</style>3", "style"),
        "123"
    );
}

#[test]
fn remove_without_blocks_is_identity() {
    assert_eq!(remove_tag_blocks("plain <b>text</b>", "style"), "plain <b>text</b>");
}

#[test]
fn numeric_entities_decimal_and_hex() {
    assert_eq!(decode_numeric_entities("a&#65;b&#x42;c&#X43;"), "aAbBcC");
}

#[test]
fn numeric_entities_invalid_kept() {
    assert_eq!(decode_numeric_entities("&#;&#xZZ;&#55296;&#"), "&#;&#xZZ;&#55296;&#");
}

#[test]
fn numeric_entities_plus_sign_accepted() {
    assert_eq!(decode_numeric_entities("&#+65;"), "A");
}

#[test]
fn numeric_entities_overflow_kept() {
    assert_eq!(decode_numeric_entities("&#4294967296;"), "&#4294967296;");
}

#[test]
fn numeric_entities_without_references_unchanged() {
    assert_eq!(decode_numeric_entities("no refs & here"), "no refs & here");
}

#[test]
fn html_to_text_basic() {
    let html = "<html><head><style>body{color:red}</style></head><body><p>Hello&nbsp;World</p><div>Line &amp; two</div></body></html>";
    assert_eq!(html_to_text(html), "Hello World\nLine & two");
}

#[test]
fn html_to_text_collapses_blank_lines() {
    let html = "<p>a</p>\n\n\n\n<p>b</p>";
    assert_eq!(html_to_text(html), "a\n\nb");
}

#[test]
fn html_to_text_entities_and_script() {
    let html = "<script>alert(1)</script>&lt;tag&gt; &quot;q&quot; &apos;s&#39; &#169;";
    assert_eq!(html_to_text(html), "<tag> \"q\" 's' \u{a9}");
}

#[test]
fn html_to_text_breaks_and_trim() {
    let html = "  <br>one<br/>two<br />three<li>four</h1>  ";
    assert_eq!(html_to_text(html), "one\ntwo\nthree\nfour");
}

#[test]
fn html_to_text_empty() {
    assert_eq!(html_to_text(""), "");
    assert_eq!(html_to_text("<p></p>"), "");
}

#[test]
fn html_to_text_never_two_blank_lines() {
    let html = "<div>a</div><div></div><div></div><div></div><p>b</p>\n \n\t\n<br><br><br>c";
    let t = html_to_text(html);
    assert!(!t.contains("\n\n\n"));
    assert_eq!(t, "a\n\nb\n\nc");
    assert_eq!(t.trim(), t);
}

#[test]
fn html_to_text_every_line_trimmed() {
    let r = html_to_text("<p>  a  </p><p> b \t</p><div>\u{a0}c d </div>");
    assert_eq!(r, "a\nb\nc d");
    for l in r.split('\n') {
        assert_eq!(l, l.trim());
    }
}

#[test]
fn html_to_text_plain_text_is_trimmed_only() {
    assert_eq!(html_to_text("  hello world \t"), "hello world");
    assert_eq!(html_to_text("x"), "x");
    assert_eq!(html_to_text("   "), "");
}

#[test]
fn numeric_entities_never_lengthen() {
    for s in ["&#65;&#x1F600;", "&#9;", "&#+65;", "a &# b", "&#xD800;", "&#;"] {
        let r = decode_numeric_entities(s);
        assert!(r.len() <= s.len());
        assert!(r.chars().count() <= s.chars().count());
        if r.chars().count() == s.chars().count() {
            assert_eq!(r, s);
        }
    }
    assert_eq!(decode_numeric_entities("&#65;&#x1F600;"), "A\u{1F600}");
}
