use akasabi::html::builder::HTML;
use akasabi::html::builder::Tag;
use akasabi::html::escape_html;

#[test]
fn test_escape_html() {
    assert_eq!("&lt;&gt;&quot;&amp;", escape_html("<>\"&"));
}

#[test]
fn escape_html_is_a_noop_on_clean_text() {
    assert_eq!(escape_html("plain text 123"), "plain text 123");
    assert_eq!(escape_html(""), "");
    assert_eq!(escape_html("日本語もそのまま"), "日本語もそのまま");
}

#[test]
fn escape_html_mixes_entities_and_text() {
    assert_eq!(escape_html("a<b>c\"d&e"), "a&lt;b&gt;c&quot;d&amp;e");
}

#[test]
fn tag_without_children_self_closes() {
    let t = Tag::new("br");
    assert_eq!(t.to_string(), "<br />");
}

#[test]
fn tag_with_text_child() {
    let mut t = Tag::new("h1");
    t.push_str("It works!");
    assert_eq!(t.to_string(), "<h1>It works!</h1>");
}

#[test]
fn tag_with_attributes_and_nested_tag() {
    let mut inner = Tag::new("span");
    inner.push_str("x");
    let mut t = Tag::new("div");
    t.push_attr("id", "main");
    t.push_attr("class", "wide");
    t.push_tag(inner);
    assert_eq!(t.to_string(), "<div id=\"main\"class=\"wide\"><span>x</span></div>");
}

#[test]
fn html_document_layout() {
    let mut html = HTML::new("akasabi", "ja");
    let mut div = Tag::new("h1");
    div.push_str("It works!");
    html.body.push_tag(div);
    assert_eq!(
        html.to_string(),
        "<!DOCTYPE html>\n<html lang=\"ja\">\n<head><title>akasabi</title></head><body><h1>It works!</h1></body></html>\n"
    );
}
