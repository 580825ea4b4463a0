//! Markdown rendering: body text in, HTML fragment out.

use vstd::prelude::*;

verus! {

/// The HTML fragment the CommonMark renderer produces for a body text, with
/// tables, footnotes, strikethrough, task lists and smart punctuation
/// enabled. The result is a function of the input characters alone.
pub uninterp spec fn markdown_html_of(s: Seq<char>) -> Seq<char>;

/// Relies on pulldown_cmark's `Parser::new_ext` and `html::push_html`: with
/// a fixed option set the renderer is a pure function of the input text.
#[verifier::external_body]
pub fn markdown_to_html(input: &str) -> (r: String)
    ensures
        r@ == markdown_html_of(input@),
{
    let mut parser_options = pulldown_cmark::Options::empty();
    parser_options.insert(pulldown_cmark::Options::ENABLE_TABLES);
    parser_options.insert(pulldown_cmark::Options::ENABLE_FOOTNOTES);
    parser_options.insert(pulldown_cmark::Options::ENABLE_STRIKETHROUGH);
    parser_options.insert(pulldown_cmark::Options::ENABLE_TASKLISTS);
    parser_options.insert(pulldown_cmark::Options::ENABLE_SMART_PUNCTUATION);
    let parser = pulldown_cmark::Parser::new_ext(input, parser_options);
    let mut html_output = String::new();
    pulldown_cmark::html::push_html(&mut html_output, parser);
    html_output
}

/// Rendering is deterministic: two renders of equal body texts are
/// byte-identical.
pub proof fn lemma_render_deterministic(
    s1: Seq<char>,
    s2: Seq<char>,
    r1: Seq<char>,
    r2: Seq<char>,
)
    requires
        s1 == s2,
        r1 == markdown_html_of(s1),
        r2 == markdown_html_of(s2),
    ensures
        r1 == r2,
{
}

} // verus!
