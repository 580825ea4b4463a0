//! The parsed representation of one content file: metadata, body, rendered
//! HTML and derived path information.

use vstd::prelude::*;

use crate::errors::BuildError;
use crate::frontmatter::{decode_frontmatter, frontmatter_fields_of, spec_decoded};
use crate::render::{markdown_html_of, markdown_to_html};
use crate::template::{
    expand_fails_with, expansion_exceeds, lines_expand_to, process_template, SUBST_LIMIT,
};
use crate::text::{
    chars_string, copy_range, find_sub, first_match, last_index_of, lemma_first_match,
    replace_all, rfind_char, spec_lines, spec_lower, spec_replace, str_chars, to_lower, vec_eq,
};

verus! {

#[derive(Debug)]
pub struct Page {
    pub date: String,
    pub title: String,
    pub category: String,
    pub description: String,
    pub content: String,
    pub filepath: String,
    pub filename: String,
    pub output_path: String,
}

/// The mathematical model of a page: each field as its character sequence.
pub struct PageView {
    pub date: Seq<char>,
    pub title: Seq<char>,
    pub category: Seq<char>,
    pub description: Seq<char>,
    pub content: Seq<char>,
    pub filepath: Seq<char>,
    pub filename: Seq<char>,
    pub output_path: Seq<char>,
}

impl View for Page {
    type V = PageView;

    open spec fn view(&self) -> PageView {
        PageView {
            date: self.date@,
            title: self.title@,
            category: self.category@,
            description: self.description@,
            content: self.content@,
            filepath: self.filepath@,
            filename: self.filename@,
            output_path: self.output_path@,
        }
    }
}

impl Clone for Page {
    fn clone(&self) -> (r: Page)
        ensures
            r == *self,
    {
        Page {
            date: self.date.clone(),
            title: self.title.clone(),
            category: self.category.clone(),
            description: self.description.clone(),
            content: self.content.clone(),
            filepath: self.filepath.clone(),
            filename: self.filename.clone(),
            output_path: self.output_path.clone(),
        }
    }
}

impl Page {
    /// A page with every field at its placeholder default.
    pub fn new() -> (r: Page)
        ensures
            r.title@ == "default_title"@,
            r.description@ == "default_description"@,
            r.category@ == "default_cat"@,
            r.date@ == "default_date"@,
            r.content@ == "<h1>default_content</h1>"@,
            r.filepath@ == "content/index.md"@,
            r.filename@ == "index"@,
            r.output_path@ == "/"@,
    {
        Page {
            title: String::from_str("default_title"),
            description: String::from_str("default_description"),
            category: String::from_str("default_cat"),
            date: String::from_str("default_date"),
            content: String::from_str("<h1>default_content</h1>"),
            filepath: String::from_str("content/index.md"),
            filename: String::from_str("index"),
            output_path: String::from_str("/"),
        }
    }

    /// Decodes a metadata block into the four metadata fields. A malformed
    /// block is a hard error and leaves the page untouched; a missing or
    /// non-string field falls back to its fixed default.
    pub fn parse_frontmatter(&mut self, frontmatter: &str) -> (r: Result<(), String>)
        ensures
            r is Err <==> frontmatter_fields_of(frontmatter@) is None,
            r is Err ==> *final(self) == *old(self),
            r is Ok ==> {
                let fields = spec_decoded(frontmatter@);
                &&& final(self).title@ == fields.0
                &&& final(self).description@ == fields.1
                &&& final(self).date@ == fields.2
                &&& final(self).category@ == fields.3
                &&& final(self).content == old(self).content
                &&& final(self).filepath == old(self).filepath
                &&& final(self).filename == old(self).filename
                &&& final(self).output_path == old(self).output_path
            },
    {
        match decode_frontmatter(frontmatter) {
            None => Err(String::from_str("[ ERROR ] Frontmatter is missing")),
            Some(fields) => {
                self.title = match fields.title {
                    Some(t) => t,
                    None => String::from_str("Default Title"),
                };
                self.description = match fields.description {
                    Some(d) => d,
                    None => String::from_str("Site generated with puppy_md"),
                };
                self.date = match fields.date {
                    Some(d) => d,
                    None => String::from_str("1970-01-01T00:00:00-0000"),
                };
                self.category = match fields.category {
                    Some(c) => c,
                    None => String::from_str(""),
                };
                Ok(())
            },
        }
    }
    /// Renders the body to markdown HTML and expands the template against
    /// the page, line by line; the result becomes the page's content. On a
    /// template error the content is left at the rendered markdown, as the
    /// build is abandoned anyway.
    pub fn content_to_html(&mut self, template: &str) -> (r: Result<(), BuildError>)
        ensures
            final(self)@.date == old(self)@.date,
            final(self)@.title == old(self)@.title,
            final(self)@.category == old(self)@.category,
            final(self)@.description == old(self)@.description,
            final(self)@.filepath == old(self)@.filepath,
            final(self)@.filename == old(self)@.filename,
            final(self)@.output_path == old(self)@.output_path,
            (match r {
                Ok(_) => lines_expand_to(
                    spec_lines(template@),
                    (PageView { content: markdown_html_of(old(self)@.content), ..old(self)@ }),
                    final(self)@.content,
                ),
                Err(e) => final(self)@.content == markdown_html_of(old(self)@.content) && (match e {
                    BuildError::UnknownPlaceholder(k) => exists|i: int|
                        0 <= i < spec_lines(template@).len() && expand_fails_with(
                            #[trigger] spec_lines(template@)[i],
                            (PageView { content: markdown_html_of(old(self)@.content), ..old(self)@ }),
                            k@,
                        ),
                    BuildError::SubstitutionLimit => exists|i: int|
                        0 <= i < spec_lines(template@).len() && expansion_exceeds(
                            #[trigger] spec_lines(template@)[i],
                            (PageView { content: markdown_html_of(old(self)@.content), ..old(self)@ }),
                            SUBST_LIMIT as nat,
                        ),
                    BuildError::MalformedMetadata => false,
                }),
            }),
    {
        let rendered = markdown_to_html(self.content.as_str());
        self.content = rendered;
        match process_template(self, template) {
            Ok(out) => {
                self.content = out;
                Ok(())
            },
            Err(e) => Err(e),
        }
    }

    /// Substitutes the navigation fragment for every navigation marker in
    /// the content.
    pub fn replace_navbar(&mut self, navbar: &str)
        ensures
            final(self)@ == (PageView {
                content: spec_replace(old(self)@.content, "<div id=topnav>"@, navbar@),
                ..old(self)@
            }),
    {
        proof {
            reveal_strlit("<div id=topnav>");
        }
        let c = str_chars(self.content.as_str());
        let pat = str_chars("<div id=topnav>");
        let val = str_chars(navbar);
        let out = replace_all(&c, &pat, &val);
        self.content = chars_string(&out);
    }

    /// Substitutes the configured site name for every site-name marker in
    /// the content.
    pub fn replace_site_name(&mut self, site_name: &str)
        ensures
            final(self)@ == (PageView {
                content: spec_replace(old(self)@.content, "<div id=site_name>"@, site_name@),
                ..old(self)@
            }),
    {
        proof {
            reveal_strlit("<div id=site_name>");
        }
        let c = str_chars(self.content.as_str());
        let pat = str_chars("<div id=site_name>");
        let val = str_chars(site_name);
        let out = replace_all(&c, &pat, &val);
        self.content = chars_string(&out);
    }

    /// Substitutes the configured base URL for every base-URL marker in
    /// the content.
    pub fn replace_base_url(&mut self, base_url: &str)
        ensures
            final(self)@ == (PageView {
                content: spec_replace(old(self)@.content, "<base href=base_url>"@, base_url@),
                ..old(self)@
            }),
    {
        proof {
            reveal_strlit("<base href=base_url>");
        }
        let c = str_chars(self.content.as_str());
        let pat = str_chars("<base href=base_url>");
        let val = str_chars(base_url);
        let out = replace_all(&c, &pat, &val);
        self.content = chars_string(&out);
    }
}

/// Appends a segment to the accumulated list only when it is non-empty.
pub open spec fn append_nonempty(acc: Seq<Seq<char>>, p: Seq<char>) -> Seq<Seq<char>> {
    if p.len() == 0 {
        acc
    } else {
        acc.push(p)
    }
}

/// The non-empty segments of a content file, split on the first two `---`
/// delimiters into at most three pieces: the metadata block, the body, and
/// whatever preceded the first delimiter.
pub open spec fn spec_doc_parts(s: Seq<char>) -> Seq<Seq<char>> {
    match first_match(s, "---"@) {
        None => append_nonempty(Seq::empty(), s),
        Some(i) => {
            let p1 = s.subrange(0, i as int);
            let r1 = s.subrange(i as int + 3, s.len() as int);
            match first_match(r1, "---"@) {
                None => append_nonempty(append_nonempty(Seq::empty(), p1), r1),
                Some(j) => append_nonempty(
                    append_nonempty(append_nonempty(Seq::empty(), p1), r1.subrange(0, j as int)),
                    r1.subrange(j as int + 3, r1.len() as int),
                ),
            }
        },
    }
}

/// Splits a content file into its non-empty segments, as `spec_doc_parts`
/// describes them.
fn doc_segments(input: &Vec<char>) -> (r: Vec<Vec<char>>)
    ensures
        r@.len() == spec_doc_parts(input@).len(),
        forall|i: int| 0 <= i < r@.len() ==> r@[i]@ == spec_doc_parts(input@)[i],
{
    proof {
        reveal_strlit("---");
    }
    let delim = str_chars("---");
    let mut segs: Vec<Vec<char>> = Vec::new();
    match find_sub(input, &delim) {
        None => {
            let p = copy_range(input, 0, input.len());
            proof {
                assert(p@ =~= input@);
            }
            if p.len() > 0 {
                segs.push(p);
            }
        },
        Some(i) => {
            proof {
                lemma_first_match(input@, "---"@);
            }
            let p1 = copy_range(input, 0, i);
            let r1 = copy_range(input, i + 3, input.len());
            match find_sub(&r1, &delim) {
                None => {
                    if p1.len() > 0 {
                        segs.push(p1);
                    }
                    if r1.len() > 0 {
                        segs.push(r1);
                    }
                },
                Some(j) => {
                    proof {
                        lemma_first_match(r1@, "---"@);
                    }
                    let p2 = copy_range(&r1, 0, j);
                    let n1 = r1.len();
                    let p3 = copy_range(&r1, j + 3, n1);
                    if p1.len() > 0 {
                        segs.push(p1);
                    }
                    if p2.len() > 0 {
                        segs.push(p2);
                    }
                    if p3.len() > 0 {
                        segs.push(p3);
                    }
                },
            }
        },
    }
    segs
}

/// The model of a page between frontmatter decoding plus markdown
/// rendering and template expansion: metadata fields settled (with their
/// defaults), content at the rendered body, paths derived.
pub open spec fn spec_mid_view(filepath: Seq<char>, input: Seq<char>) -> PageView {
    let parts = spec_doc_parts(input);
    let fields = spec_decoded(parts[0]);
    let category = fields.3;
    PageView {
        title: fields.0,
        description: fields.1,
        date: fields.2,
        category: category,
        content: markdown_html_of(parts[1]),
        filepath: filepath,
        filename: filepath.subrange(
            last_index_of(filepath, '/').unwrap() as int + 1,
            filepath.len() - 3,
        ),
        output_path: spec_output_dir(category),
    }
}

/// What `from_content` builds: the page carries the decoded metadata and
/// derived paths of `spec_mid_view`, and a settled template expansion as
/// its content.
pub open spec fn is_built_page(
    filepath: Seq<char>,
    input: Seq<char>,
    template: Seq<char>,
    p: PageView,
) -> bool {
    let mid = spec_mid_view(filepath, input);
    &&& p.date == mid.date
    &&& p.title == mid.title
    &&& p.category == mid.category
    &&& p.description == mid.description
    &&& p.filepath == mid.filepath
    &&& p.filename == mid.filename
    &&& p.output_path == mid.output_path
    &&& lines_expand_to(spec_lines(template), mid, p.content)
}

/// A document is parsed and rendered to exactly one page: any two pages
/// built from the same path, content text and template are equal.
pub proof fn lemma_built_page_deterministic(
    filepath: Seq<char>,
    input: Seq<char>,
    template: Seq<char>,
    p1: PageView,
    p2: PageView,
)
    requires
        is_built_page(filepath, input, template, p1),
        is_built_page(filepath, input, template, p2),
    ensures
        p1 == p2,
{
    crate::template::lemma_lines_expansion_deterministic(
        spec_lines(template),
        spec_mid_view(filepath, input),
        p1.content,
        p2.content,
    );
}

/// The document at `path` with text `input` parses, renders and expands
/// to exactly the page `p`.
pub open spec fn doc_builds(
    path: Seq<char>,
    input: Seq<char>,
    template: Seq<char>,
    p: PageView,
) -> bool {
    &&& spec_doc_parts(input).len() >= 2
    &&& frontmatter_fields_of(spec_doc_parts(input)[0]) is Some
    &&& is_built_page(path, input, template, p)
}

/// The document at `path` with text `input` fails with exactly `e`: a
/// malformed metadata block, an unknown template token (carried in the
/// error), or a template line that never settles within the step budget.
pub open spec fn doc_fails(
    path: Seq<char>,
    input: Seq<char>,
    template: Seq<char>,
    e: BuildError,
) -> bool {
    match e {
        BuildError::MalformedMetadata => spec_doc_parts(input).len() < 2
            || frontmatter_fields_of(spec_doc_parts(input)[0]) is None,
        BuildError::UnknownPlaceholder(k) => spec_doc_parts(input).len() >= 2
            && frontmatter_fields_of(spec_doc_parts(input)[0]) is Some && (exists|i: int|
            0 <= i < spec_lines(template).len() && expand_fails_with(
                #[trigger] spec_lines(template)[i],
                spec_mid_view(path, input),
                k@,
            )),
        BuildError::SubstitutionLimit => spec_doc_parts(input).len() >= 2
            && frontmatter_fields_of(spec_doc_parts(input)[0]) is Some && (exists|i: int|
            0 <= i < spec_lines(template).len() && expansion_exceeds(
                #[trigger] spec_lines(template)[i],
                spec_mid_view(path, input),
                SUBST_LIMIT as nat,
            )),
    }
}

/// A document that builds can misfire only on the step budget: on such a
/// document neither a malformed-metadata nor an unknown-token failure is
/// possible, since every template line provably settles.
pub proof fn lemma_built_doc_never_misparses(
    path: Seq<char>,
    input: Seq<char>,
    template: Seq<char>,
    p: PageView,
    e: BuildError,
)
    requires
        doc_builds(path, input, template, p),
        doc_fails(path, input, template, e),
    ensures
        e is SubstitutionLimit,
{
    let mid = spec_mid_view(path, input);
    match e {
        BuildError::MalformedMetadata => {},
        BuildError::UnknownPlaceholder(k) => {
            let i = choose|i: int|
                0 <= i < spec_lines(template).len() && expand_fails_with(
                    #[trigger] spec_lines(template)[i],
                    mid,
                    k@,
                );
            crate::template::lemma_lines_expand_nth(spec_lines(template), mid, p.content, i);
            let f = choose|f: Seq<char>|
                #[trigger] crate::template::expands_to(spec_lines(template)[i], mid, f);
            crate::template::lemma_settled_line_never_fails(
                spec_lines(template)[i],
                mid,
                f,
                k@,
            );
        },
        BuildError::SubstitutionLimit => {},
    }
}

impl Page {
    /// Parses one content file, already read into `input`, into a fully
    /// rendered page: split off the metadata block, decode it, derive the
    /// paths, render the body and expand the template. A file without a
    /// recognizable block-plus-body shape, or with an undecodable block,
    /// is malformed.
    pub fn from_content(filepath: &str, input: &str, template: &str) -> (r: Result<
        Page,
        BuildError,
    >)
        requires
            last_index_of(filepath@, '/') is Some,
            last_index_of(filepath@, '/').unwrap() + 4 <= filepath@.len(),
        ensures
            (match r {
                Ok(page) => doc_builds(filepath@, input@, template@, page@),
                Err(e) => doc_fails(filepath@, input@, template@, e),
            }),
    {
        let mut page = Page::new();
        let chars = str_chars(input);
        let segs = doc_segments(&chars);
        if segs.len() < 2 {
            return Err(BuildError::MalformedMetadata);
        }
        page.filepath = String::from_str(filepath);
        page.filename = get_filename_from_path(filepath);
        let fm_str = chars_string(&segs[0]);
        match page.parse_frontmatter(fm_str.as_str()) {
            Err(_) => {
                return Err(BuildError::MalformedMetadata);
            },
            Ok(_) => {},
        }
        page.output_path = get_output_dir(page.category.as_str());
        page.content = chars_string(&segs[1]);
        match page.content_to_html(template) {
            Ok(_) => Ok(page),
            Err(e) => Err(e),
        }
    }
}

/// The output directory prefix a category maps to: the reserved
/// uncategorized values go to the site root, anything else to a directory
/// named by the folded category.
pub open spec fn spec_output_dir(category: Seq<char>) -> Seq<char> {
    let lc = spec_lower(category);
    if lc == "home"@ || lc == "index"@ || lc.len() == 0 {
        "/"@
    } else {
        "/"@ + lc
    }
}

/// Maps a category to its output directory prefix under the site root.
/// Case folding is ASCII: letters outside ASCII pass through unchanged.
pub fn get_output_dir(category: &str) -> (r: String)
    ensures
        r@ == spec_output_dir(category@),
{
    let lower = to_lower(&str_chars(category));
    let home = str_chars("home");
    let index = str_chars("index");
    if vec_eq(&lower, &home) || vec_eq(&lower, &index) || lower.len() == 0 {
        String::from_str("/")
    } else {
        let mut out = String::from_str("/");
        let tail = chars_string(&lower);
        out.append(tail.as_str());
        out
    }
}

/// The filename stem between the last `/` and a three-character extension.
pub fn get_filename_from_path(path: &str) -> (r: String)
    requires
        last_index_of(path@, '/') is Some,
        last_index_of(path@, '/').unwrap() + 4 <= path@.len(),
    ensures
        r@ == path@.subrange(
            last_index_of(path@, '/').unwrap() as int + 1,
            path@.len() - 3,
        ),
{
    let chars = str_chars(path);
    let slash = match rfind_char(&chars, '/') {
        Some(i) => i,
        None => 0,  // unreachable under the precondition
    };
    let n = chars.len();
    let stem = copy_range(&chars, slash + 1, n - 3);
    chars_string(&stem)
}

} // verus!
