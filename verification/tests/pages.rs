use md_puppy::page::{get_filename_from_path, get_output_dir, Page};

#[test]
fn get_output_dir_test() {
    let output: String = get_output_dir("home");
    assert_eq!(output, String::from("/"));
    let output: String = get_output_dir("index");
    assert_eq!(output, String::from("/"));
    let output: String = get_output_dir("");
    assert_eq!(output, String::from("/"));
    let output: String = get_output_dir("test");
    assert_eq!(output, String::from("/test"));
}

#[test]
fn get_output_dir_case_folds() {
    assert_eq!(get_output_dir("HOME"), String::from("/"));
    assert_eq!(get_output_dir("InDeX"), String::from("/"));
    assert_eq!(get_output_dir("Foo"), String::from("/foo"));
    assert_eq!(get_output_dir("BLOG"), String::from("/blog"));
}

#[test]
fn get_filename_from_path_test() {
    let output: String = get_filename_from_path("site/example/index.md");
    assert_eq!(output, String::from("index"));
    let output: String = get_filename_from_path("site/index.md");
    assert_eq!(output, String::from("index"));
    let output: String = get_filename_from_path("site/testo.md");
    assert_eq!(output, String::from("testo"));
    let output: String = get_filename_from_path("site/testo.html");
    assert_ne!(output, String::from("testo"));
}

#[test]
fn frontmatter_parsing_test() {
    let mut page: Page = Page::new();
    let frontmatter: &str = "---
title: example_title
description: example_description
category: example_category
date: example_date
";
    page.parse_frontmatter(frontmatter)
        .expect("[ ERROR ] Failed to parse frontatter!");

    assert_eq!(page.title, String::from("example_title"));
    assert_eq!(page.description, String::from("example_description"));
    assert_eq!(page.category, String::from("example_category"));
    assert_eq!(page.date, String::from("example_date"));
}

#[test]
fn frontmatter_defaults_apply_to_missing_fields() {
    let mut page: Page = Page::new();
    page.parse_frontmatter("title: Only Title").expect("should parse");
    assert_eq!(page.title, String::from("Only Title"));
    assert_eq!(page.description, String::from("Site generated with puppy_md"));
    assert_eq!(page.date, String::from("1970-01-01T00:00:00-0000"));
    assert_eq!(page.category, String::from(""));
}

#[test]
fn frontmatter_wrong_typed_field_falls_back() {
    let mut page: Page = Page::new();
    page.parse_frontmatter("title: true\ncategory: blog").expect("should parse");
    // `true` decodes as a boolean, not a string, so the default applies.
    assert_eq!(page.title, String::from("Default Title"));
    assert_eq!(page.category, String::from("blog"));
}

#[test]
fn frontmatter_malformed_block_is_an_error() {
    let mut page: Page = Page::new();
    let before_title = page.title.clone();
    let result = page.parse_frontmatter("title: [unclosed");
    assert!(result.is_err());
    assert_eq!(page.title, before_title);
}

#[test]
fn frontmatter_round_trip_preserves_fields() {
    let mut page: Page = Page::new();
    page.parse_frontmatter(
        "title: Round Trip\ndescription: a description\ncategory: blog\ndate: 2022-01-17",
    )
    .expect("should parse");
    let reserialized = format!(
        "title: {}\ndescription: {}\ncategory: {}\ndate: {}",
        page.title, page.description, page.category, page.date
    );
    let mut again: Page = Page::new();
    again.parse_frontmatter(&reserialized).expect("should parse again");
    assert_eq!(again.title, page.title);
    assert_eq!(again.description, page.description);
    assert_eq!(again.category, page.category);
    assert_eq!(again.date, page.date);
}

#[test]
fn replace_navbar_substitutes_marker() {
    let mut page: Page = Page::new();
    page.content = String::from("<body><div id=topnav></body>");
    page.replace_navbar("<nav>links</nav>");
    assert_eq!(page.content, String::from("<body><nav>links</nav></body>"));
}

#[test]
fn replace_site_name_substitutes_marker() {
    let mut page: Page = Page::new();
    page.content = String::from("a <div id=site_name> b <div id=site_name> c");
    page.replace_site_name("My Site");
    assert_eq!(page.content, String::from("a My Site b My Site c"));
}

#[test]
fn replace_base_url_substitutes_marker() {
    let mut page: Page = Page::new();
    page.content = String::from("<base href=base_url>");
    page.replace_base_url("https://example.org");
    assert_eq!(page.content, String::from("https://example.org"));
}

#[test]
fn from_content_without_metadata_block_is_malformed() {
    let result = Page::from_content("content/a.md", "just a body, no block", "{{content}}\n");
    assert!(matches!(result, Err(md_puppy::errors::BuildError::MalformedMetadata)));
}

#[test]
fn from_content_builds_a_full_page() {
    let input = "---\ntitle: A\ncategory: Blog\ndate: 2022-01-01T00:00:00-07:00\n---\nHello\n";
    let page = Page::from_content("content/blog/a.md", input, "{{content}}").expect("should build");
    assert_eq!(page.title, String::from("A"));
    assert_eq!(page.category, String::from("Blog"));
    assert_eq!(page.filepath, String::from("content/blog/a.md"));
    assert_eq!(page.filename, String::from("a"));
    assert_eq!(page.output_path, String::from("/blog"));
    assert_eq!(page.content, String::from("<p>Hello</p>\n\n"));
}
