use md_puppy::errors::BuildError;
use md_puppy::page::Page;
use md_puppy::render::markdown_to_html;
use md_puppy::template::{
    embed_youtube, get_placeholder, get_value, process_template, replace_placeholder,
};

fn example_page() -> Page {
    let mut page = Page::new();
    page.title = String::from("A Short Example");
    page.description = String::from("this is a short example of a markdown file");
    page.category = String::from("examples");
    page.date = String::from("2022-01-17T12:34:11-0700");
    page.content = String::from("<p>body</p>");
    page
}

#[test]
fn markdown_compiling_get_placeholder_test() {
    let example_text: &str = "{{title}}";
    let output: Option<String> = get_placeholder(example_text);

    assert_eq!(output.unwrap(), "{{title}}".to_string());

    let example_text: &str = "this is a title";
    let output: Option<String> = get_placeholder(example_text);

    assert_eq!(output, None);
}

#[test]
fn template_processing_get_placeholder_test() {
    let example_text: &str = "{{title}}";
    let output: Option<String> = get_placeholder(example_text);

    assert_eq!(output.unwrap(), "{{title}}".to_string());

    let example_text: &str = "this is a title";
    let output: Option<String> = get_placeholder(example_text);

    assert_eq!(output, None);
}

#[test]
fn template_replacement_test() {
    let page: Page = example_page();

    let input: &str = "This is {{title}}";
    let output = replace_placeholder(input, &page);
    assert_eq!(output.unwrap(), "This is A Short Example");

    let input: &str = "{{category}}: This is {{title}}";
    let output = replace_placeholder(input, &page);
    assert_eq!(output.unwrap(), "examples: This is A Short Example");

    let input: &str = "This is title";
    let output = replace_placeholder(input, &page);
    assert_eq!(output.unwrap(), "This is title");

    let input: &str = "This is {{tags}}";
    assert!(replace_placeholder(input, &page).is_err());
}

#[test]
fn get_value_test() {
    let page: Page = example_page();

    assert_eq!(get_value("{{title}}", &page).unwrap(), "A Short Example");
    assert_eq!(
        get_value("{{description}}", &page).unwrap(),
        "this is a short example of a markdown file"
    );
    assert_eq!(get_value("{{category}}", &page).unwrap(), "examples");
    assert_eq!(
        get_value("{{date}}", &page),
        Some("2022-01-17T12:34:11-0700".to_string())
    );
    assert_eq!(get_value("{{tags}}", &page), None);
}

#[test]
fn two_placeholders_on_one_line_both_resolve() {
    let page = example_page();
    let output = replace_placeholder("{{category}}: {{title}}", &page).unwrap();
    assert_eq!(output, "examples: A Short Example");
}

#[test]
fn unknown_placeholder_is_named_in_the_error() {
    let page = example_page();
    let err = replace_placeholder("before {{tags}} after", &page).unwrap_err();
    match err {
        BuildError::UnknownPlaceholder(key) => assert_eq!(key, "{{tags}}"),
        other => panic!("expected an unknown-placeholder error, got {:?}", other),
    }
}

#[test]
fn expansion_without_placeholders_is_identity() {
    let page = example_page();
    let template = "<html>\nno markers here\n</html>\n";
    let output = process_template(&page, template).unwrap();
    assert_eq!(output, template);
}

#[test]
fn structural_markers_resolve_to_embedded_markers() {
    let page = example_page();
    assert_eq!(
        get_value("{{site_name}}", &page).unwrap(),
        "<div id=site_name>"
    );
    assert_eq!(get_value("{{topnav}}", &page).unwrap(), "<div id=topnav>");
    assert_eq!(
        get_value("{{base_url}}", &page).unwrap(),
        "<base href=base_url>"
    );
    assert_eq!(get_value("{{tags}}", &page), None);
}

#[test]
fn date_value_is_reformatted() {
    let mut page = example_page();
    page.date = String::from("2022-02-08T15:16:19-07:00");
    assert_eq!(
        get_value("{{date}}", &page).unwrap(),
        "February  8, 2022 |  3:16 pm"
    );
}

#[test]
fn index_marker_resolves_to_listing_container() {
    let page = example_page();
    assert_eq!(
        get_value("{{ index blog }}", &page).unwrap(),
        "<div id='index' class='blog'>"
    );
}

#[test]
fn youtube_marker_resolves_to_embed() {
    let page = example_page();
    let embed = get_value("{{ youtube abc123 }}", &page).unwrap();
    assert!(embed.contains("https://www.youtube-nocookie.com/embed/abc123"));
    assert!(embed.starts_with("<div id='youtube-div'>"));
    let direct = embed_youtube("{{ youtube abc123 }}");
    assert_eq!(direct, embed);
}

#[test]
fn unmatched_marker_passes_through_as_text() {
    let page = example_page();
    let output = replace_placeholder("an open {{ marker without close", &page).unwrap();
    assert_eq!(output, "an open {{ marker without close");
    // an unmatched opener anywhere on the line is ordinary text
    let output = replace_placeholder("a{{b", &page).unwrap();
    assert_eq!(output, "a{{b");
    // a closer that precedes every opener leaves no placeholder either
    let output = replace_placeholder("}} stray {{ pair", &page).unwrap();
    assert_eq!(output, "}} stray {{ pair");
    assert_eq!(get_placeholder("ab}}c"), None);
    assert_eq!(get_placeholder("a{{b"), None);
}

#[test]
fn self_referential_value_hits_the_substitution_limit() {
    let mut page = example_page();
    page.title = String::from("{{title}}");
    let err = replace_placeholder("{{title}}", &page).unwrap_err();
    assert!(matches!(err, BuildError::SubstitutionLimit));
}

#[test]
fn markdown_rendering_is_deterministic() {
    let body = "# Heading\n\nSome *text* with ~~strikethrough~~.\n";
    let first = markdown_to_html(body);
    let second = markdown_to_html(body);
    assert_eq!(first, second);
}

#[test]
fn markdown_rendering_produces_html() {
    assert_eq!(markdown_to_html("# Hi"), "<h1>Hi</h1>\n");
    assert_eq!(
        markdown_to_html("*emphasis* and ~~gone~~"),
        "<p><em>emphasis</em> and <del>gone</del></p>\n"
    );
}

#[test]
fn error_messages_name_the_cause() {
    let err = BuildError::UnknownPlaceholder(String::from("{{tags}}"));
    assert_eq!(err.message(), "Invalid key, {{tags}} in template");
    assert_eq!(
        BuildError::MalformedMetadata.message(),
        "[ ERROR ] Frontmatter is missing"
    );
}
