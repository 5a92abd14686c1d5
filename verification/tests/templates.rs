use ferrox::utils::templates::{render_error, render_indexing};

#[test]
fn render_error_inserts_status_and_message() {
    let rendered = String::from_utf8(render_error("404", "Not Found")).expect("valid utf-8");

    assert!(rendered.contains("404"));
    assert!(rendered.contains("Not Found"));
}

#[test]
fn render_indexing_escapes_title_but_keeps_listing_markup() {
    let rendered = String::from_utf8(render_indexing(
        r#"<script>alert("x")</script>"#,
        "<li><a href=\"file.txt\">file.txt</a></li>",
    ))
    .expect("valid utf-8");

    assert!(
        rendered.contains("&lt;script&gt;"),
        "rendered output: {rendered}"
    );
    assert!(rendered.contains("alert"), "rendered output: {rendered}");
    assert!(rendered.contains("script"), "rendered output: {rendered}");
    assert!(rendered.contains("<li><a href=\"file.txt\">file.txt</a></li>"));
}
