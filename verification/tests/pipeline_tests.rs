use md_puppy::errors::BuildError;
use md_puppy::pipeline::{build_site, index_page_content, new_page_content};
use md_puppy::site::Site;
use md_puppy::Config;

const TEMPLATE: &str = "<html>\n<div id=site_name>\n{{topnav}}\n{{content}}\n</html>\n";

fn sample_files() -> Vec<(String, String)> {
    vec![
        (
            String::from("content/blog/first.md"),
            String::from(
                "---\ntitle: First\ncategory: blog\ndate: 2022-01-01T00:00:00-07:00\n---\nHello *world*\n",
            ),
        ),
        (
            String::from("content/blog/second.md"),
            String::from(
                "---\ntitle: Second\ncategory: blog\ndate: 2022-02-01T00:00:00-07:00\n---\nMore text\n",
            ),
        ),
        (
            String::from("content/secret/hidden.md"),
            String::from(
                "---\ntitle: Hidden\ncategory: draft\ndate: 2022-03-01T00:00:00-07:00\n---\nUnpublished\n",
            ),
        ),
    ]
}

#[test]
fn build_produces_one_output_per_page() {
    let mut site = Site::new();
    let files = sample_files();
    let outs = build_site(&mut site, &files, TEMPLATE, "2022-06-01T00:00:00-07:00")
        .expect("build should succeed");
    let paths: Vec<&str> = outs.iter().map(|o| o.0.as_str()).collect();
    assert!(paths.contains(&"site/blog/first.html"));
    assert!(paths.contains(&"site/blog/second.html"));
    // the blog category had no index document, so a synthetic one appears
    assert!(paths.contains(&"site/blog/index.html"));
    // the draft page is still rendered and written, after the others
    assert_eq!(outs.len(), 4);
    assert!(paths.contains(&"site/draft/hidden.html"));
}

#[test]
fn drafts_are_written_but_stay_out_of_aggregation() {
    let mut site = Site::new();
    let files = sample_files();
    let outs = build_site(&mut site, &files, TEMPLATE, "2022-06-01T00:00:00-07:00")
        .expect("build should succeed");
    let hidden = outs
        .iter()
        .find(|o| o.0 == "site/draft/hidden.html")
        .expect("draft written");
    // the draft file itself is fully rendered, with the site-wide markers
    assert!(hidden.1.contains("<p>Unpublished</p>"));
    assert!(hidden.1.contains("md_puppy site"));
    // but no other output mentions it, and the navigation has no draft link
    for out in outs.iter().filter(|o| o.0 != "site/draft/hidden.html") {
        assert!(!out.1.contains("Hidden"));
        assert!(!out.1.contains("draft"));
    }
    assert_eq!(site.drafts.len(), 1);
    assert_eq!(site.pages.len(), 3);
}

#[test]
fn build_expands_site_wide_markers() {
    let mut site = Site::new();
    let files = sample_files();
    let outs = build_site(&mut site, &files, TEMPLATE, "2022-06-01T00:00:00-07:00")
        .expect("build should succeed");
    let first = outs
        .iter()
        .find(|o| o.0 == "site/blog/first.html")
        .expect("first page written");
    assert!(first.1.contains("<p>Hello <em>world</em></p>"));
    assert!(first.1.contains("md_puppy site"));
    assert!(first.1.contains("<li><a href='/blog/index.html'>blog</a></li>"));
    assert!(!first.1.contains("{{content}}"));
    let index = outs
        .iter()
        .find(|o| o.0 == "site/blog/index.html")
        .expect("index page written");
    assert!(index.1.contains("First"));
    assert!(index.1.contains("Second"));
    assert!(!index.1.contains("Hidden"));
}

#[test]
fn build_is_deterministic() {
    let files = sample_files();
    let mut site1 = Site::new();
    let outs1 = build_site(&mut site1, &files, TEMPLATE, "2022-06-01T00:00:00-07:00")
        .expect("first build");
    let mut site2 = Site::new();
    let outs2 = build_site(&mut site2, &files, TEMPLATE, "2022-06-01T00:00:00-07:00")
        .expect("second build");
    assert_eq!(outs1, outs2);
}

#[test]
fn build_aborts_on_a_malformed_document() {
    let mut site = Site::new();
    let files = vec![(
        String::from("content/blog/bad.md"),
        String::from("no metadata block at all"),
    )];
    let err = build_site(&mut site, &files, TEMPLATE, "2022-06-01T00:00:00-07:00").unwrap_err();
    assert!(matches!(err, BuildError::MalformedMetadata));
}

#[test]
fn build_aborts_on_an_unknown_placeholder() {
    let mut site = Site::new();
    let files = vec![(
        String::from("content/blog/a.md"),
        String::from("---\ntitle: A\ncategory: blog\ndate: 2022-01-01T00:00:00-07:00\n---\nBody\n"),
    )];
    let err = build_site(
        &mut site,
        &files,
        "{{tags}}\n",
        "2022-06-01T00:00:00-07:00",
    )
    .unwrap_err();
    match err {
        BuildError::UnknownPlaceholder(key) => assert_eq!(key, "{{tags}}"),
        other => panic!("expected an unknown-placeholder error, got {:?}", other),
    }
}

#[test]
fn new_page_content_scaffolds_a_draft() {
    let content = new_page_content("2022-06-01T00:00:00-07:00");
    assert_eq!(
        content,
        "---\ntitle: Default Title\ndescription: Default Description\ncategory: draft\n\
         date: 2022-06-01T00:00:00-07:00\n---\n# {{title}}\n\n{{date}}\n\n---\n"
    );
}

#[test]
fn index_page_content_holds_the_listing_marker() {
    let content = index_page_content("blog", "2022-06-01T00:00:00-07:00");
    assert_eq!(
        content,
        "---\ntitle: blog Index\ndescription: Index for blog\ncategory: blog\n\
         date: 2022-06-01T00:00:00-07:00\n---\n\n{{ index blog }}\n"
    );
}

#[test]
fn config_requires_a_filename_argument() {
    let args = vec![String::from("md_puppy")];
    assert!(Config::new(&args).is_err());
    let args = vec![String::from("md_puppy"), String::from("input.md")];
    let config = Config::new(&args).expect("config should build");
    assert_eq!(config.filename, "input.md");
}
