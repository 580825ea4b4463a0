//! Decoding of the YAML metadata block at the head of a content file.

use vstd::prelude::*;

verus! {

/// The four recognized metadata fields, each present only when the block
/// holds the key with a string-typed value.
pub struct RawFrontmatter {
    pub title: Option<String>,
    pub description: Option<String>,
    pub date: Option<String>,
    pub category: Option<String>,
}

pub open spec fn opt_chars(o: Option<String>) -> Option<Seq<char>> {
    match o {
        Some(s) => Some(s@),
        None => None,
    }
}

/// What the YAML decoder yields for a metadata block: `None` when the block
/// is malformed (or holds no document), otherwise the `title`,
/// `description`, `date` and `category` values that are present with
/// string-typed values. The result is a function of the characters alone.
pub uninterp spec fn frontmatter_fields_of(s: Seq<char>) -> Option<
    (Option<Seq<char>>, Option<Seq<char>>, Option<Seq<char>>, Option<Seq<char>>),
>;

/// The four metadata fields a decoded block settles to, the fixed
/// defaults filling absent or non-string fields: title, description,
/// date, category.
pub open spec fn spec_decoded(fm: Seq<char>) -> (Seq<char>, Seq<char>, Seq<char>, Seq<char>) {
    let f = frontmatter_fields_of(fm).unwrap();
    (
        (match f.0 {
            Some(t) => t,
            None => "Default Title"@,
        }),
        (match f.1 {
            Some(d) => d,
            None => "Site generated with puppy_md"@,
        }),
        (match f.2 {
            Some(d) => d,
            None => "1970-01-01T00:00:00-0000"@,
        }),
        (match f.3 {
            Some(c) => c,
            None => ""@,
        }),
    )
}

/// No recognized field is altered on its way into the page record: a
/// well-formed block that holds all four fields with string-typed values
/// decodes to exactly those values, so the round trip from block to
/// record loses nothing.
pub proof fn lemma_frontmatter_lossless(
    fm: Seq<char>,
    t: Seq<char>,
    d: Seq<char>,
    dt: Seq<char>,
    c: Seq<char>,
)
    requires
        frontmatter_fields_of(fm) == Some((Some(t), Some(d), Some(dt), Some(c))),
    ensures
        spec_decoded(fm) == (t, d, dt, c),
{
}

/// Relies on yaml_rust's `YamlLoader::load_from_str`, `Yaml`'s `&str`
/// indexing (absent keys give `BadValue`) and `Yaml::as_str` (`Some` exactly
/// for string-typed values): decoding is a pure function of the block, a
/// scan error or an empty document stream being a malformed block.
#[verifier::external_body]
pub fn decode_frontmatter(text: &str) -> (r: Option<RawFrontmatter>)
    ensures
        match r {
            Some(f) => frontmatter_fields_of(text@) == Some(
                (
                    opt_chars(f.title),
                    opt_chars(f.description),
                    opt_chars(f.date),
                    opt_chars(f.category),
                ),
            ),
            None => frontmatter_fields_of(text@) is None,
        },
{
    let docs = match yaml_rust::YamlLoader::load_from_str(text) {
        Ok(d) => d,
        Err(_) => return None,
    };
    let fm = docs.first()?;
    Some(RawFrontmatter {
        title: fm["title"].as_str().map(str::to_string),
        description: fm["description"].as_str().map(str::to_string),
        date: fm["date"].as_str().map(str::to_string),
        category: fm["category"].as_str().map(str::to_string),
    })
}

} // verus!
