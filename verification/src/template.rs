//! The template engine: recursive placeholder substitution, applied
//! independently to every line of a template.
//!
//! A placeholder is the span from the first `{{` to the first `}}` of a
//! line, inclusive. After one substitution the same line is scanned again,
//! so one pass can resolve markers that substitution itself introduced; a
//! line with no placeholder passes through unchanged. A line whose
//! substitution keeps producing new placeholders forever would never
//! settle, so the engine gives up on it after a fixed step budget.

use vstd::prelude::*;

use crate::dates::{convert_datetime, spec_display_date};
use crate::errors::BuildError;
use crate::page::{Page, PageView};
use crate::text::{
    chars_string, contains_sub, copy_range, ends_with, find_sub, first_match, has_prefix,
    has_suffix, lemma_first_match, match_at, occurs, push_all, replace_all, spec_lines,
    spec_replace, split_lines, starts_with, str_chars, vec_eq,
};

verus! {

/// The most substitutions the engine performs on one line before giving up.
pub const SUBST_LIMIT: usize = 1000;

// ---------------------------------------------------------------------------
// Locating a placeholder
// ---------------------------------------------------------------------------

/// The placeholder token of a line: everything from the first `{{` to the
/// first `}}`, both inclusive. A line where either marker is missing, or
/// where the first `}}` does not follow a `{{`, holds no placeholder and
/// passes through as ordinary text.
pub open spec fn spec_placeholder(line: Seq<char>) -> Option<Seq<char>> {
    match (first_match(line, "{{"@), first_match(line, "}}"@)) {
        (Some(s), Some(e)) => if s <= e {
            Some(line.subrange(s as int, e as int + 2))
        } else {
            None
        },
        _ => None,
    }
}

/// Exact executable counterpart of `spec_placeholder`.
fn placeholder_of(line: &Vec<char>) -> (r: Option<Vec<char>>)
    ensures
        (match r {
            Some(k) => spec_placeholder(line@) == Some(k@),
            None => spec_placeholder(line@) is None,
        }),
{
    proof {
        reveal_strlit("{{");
        reveal_strlit("}}");
    }
    let ob = str_chars("{{");
    let cb = str_chars("}}");
    let n = line.len();
    match (find_sub(line, &ob), find_sub(line, &cb)) {
        (Some(s), Some(e)) => {
            if s <= e {
                proof {
                    lemma_first_match(line@, "}}"@);
                    assert(match_at(line@, "}}"@, e as int));
                    assert(e + 2 <= n);
                }
                Some(copy_range(line, s, e + 2))
            } else {
                None
            }
        },
        _ => None,
    }
}

/// Finds the placeholder token of a template line, if it holds one.
pub fn get_placeholder(template: &str) -> (r: Option<String>)
    ensures
        (match r {
            Some(k) => spec_placeholder(template@) == Some(k@),
            None => spec_placeholder(template@) is None,
        }),
{
    let chars = str_chars(template);
    match placeholder_of(&chars) {
        Some(k) => Some(chars_string(&k)),
        None => None,
    }
}

// ---------------------------------------------------------------------------
// Resolving a placeholder token against a page
// ---------------------------------------------------------------------------

/// The fixed embed fragment for `{{ youtube <id> }}` markers, with the
/// video identifier spliced in.
pub open spec fn spec_youtube(key: Seq<char>) -> Option<Seq<char>> {
    if starts_with(key, "{{ youtube "@) && ends_with(key, " }}"@) && key.len() >= "{{ youtube "@.len()
        + " }}"@.len() {
        Some(
            spec_replace(
                yt_embed_template(),
                "{{video_id}}"@,
                key.subrange("{{ youtube "@.len() as int, key.len() - " }}"@.len()),
            ),
        )
    } else {
        None
    }
}

pub open spec fn yt_embed_template() -> Seq<char> {
    "<div id='youtube-div'><iframe id='youtube-iframe' src='https://www.youtube-nocookie.com/embed/{{video_id}}' title='YouTube video player' frameborder='0' allow='accelerometer; autoplay; clipboard-write; encrypted-media; gyroscope; picture-in-picture' allowfullscreen></iframe></div>'"@
}

/// The listing-container marker for `{{ index <category> }}` markers; the
/// second pass substitutes the category's listing for this container.
pub open spec fn spec_index_marker(key: Seq<char>) -> Option<Seq<char>> {
    if starts_with(key, "{{ index "@) && ends_with(key, " }}"@) && key.len() >= "{{ index "@.len()
        + " }}"@.len() {
        Some(
            "<div id='index' class='"@ + key.subrange(
                "{{ index "@.len() as int,
                key.len() - " }}"@.len(),
            ) + "'>"@,
        )
    } else {
        None
    }
}

/// The value a placeholder token resolves to against one page: a metadata
/// field, the rendered content, a structural marker consumed by a later
/// pass, or a parameterized youtube / index form. `None` is an unknown
/// token and a hard error.
pub open spec fn spec_value(key: Seq<char>, page: PageView) -> Option<Seq<char>> {
    if key == "{{title}}"@ {
        Some(page.title)
    } else if key == "{{description}}"@ {
        Some(page.description)
    } else if key == "{{category}}"@ {
        Some(page.category)
    } else if key == "{{date}}"@ {
        Some(spec_display_date(page.date))
    } else if key == "{{content}}"@ {
        Some(page.content)
    } else if key == "{{filename}}"@ {
        Some(page.filename)
    } else if key == "{{output_path}}"@ {
        Some(page.output_path)
    } else if key == "{{base_url}}"@ {
        Some("<base href=base_url>"@)
    } else if key == "{{site_name}}"@ {
        Some("<div id=site_name>"@)
    } else if key == "{{topnav}}"@ {
        Some("<div id=topnav>"@)
    } else if occurs(key, "youtube"@) {
        spec_youtube(key)
    } else if occurs(key, "index"@) {
        spec_index_marker(key)
    } else {
        None
    }
}

/// Builds the youtube embed fragment for a well-formed youtube marker.
pub fn embed_youtube(youtube_key: &str) -> (r: String)
    requires
        spec_youtube(youtube_key@) is Some,
    ensures
        spec_youtube(youtube_key@) == Some(r@),
{
    proof {
        reveal_strlit("{{ youtube ");
        reveal_strlit(" }}");
    }
    let key = str_chars(youtube_key);
    let prefix = str_chars("{{ youtube ");
    let suffix = str_chars(" }}");
    let video_id = copy_range(&key, prefix.len(), key.len() - suffix.len());
    let template = str_chars(
        "<div id='youtube-div'><iframe id='youtube-iframe' src='https://www.youtube-nocookie.com/embed/{{video_id}}' title='YouTube video player' frameborder='0' allow='accelerometer; autoplay; clipboard-write; encrypted-media; gyroscope; picture-in-picture' allowfullscreen></iframe></div>'",
    );
    let marker = str_chars("{{video_id}}");
    proof {
        reveal_strlit("{{video_id}}");
    }
    let out = replace_all(&template, &marker, &video_id);
    chars_string(&out)
}

/// Exact executable counterpart of `spec_value`.
fn value_of(key: &Vec<char>, page: &Page) -> (r: Option<String>)
    ensures
        (match r {
            Some(v) => spec_value(key@, page@) == Some(v@) && key@.len() > 0,
            None => spec_value(key@, page@) is None,
        }),
{
    if vec_eq(key, &str_chars("{{title}}")) {
        proof {
            reveal_strlit("{{title}}");
        }
        Some(page.title.clone())
    } else if vec_eq(key, &str_chars("{{description}}")) {
        proof {
            reveal_strlit("{{description}}");
        }
        Some(page.description.clone())
    } else if vec_eq(key, &str_chars("{{category}}")) {
        proof {
            reveal_strlit("{{category}}");
        }
        Some(page.category.clone())
    } else if vec_eq(key, &str_chars("{{date}}")) {
        proof {
            reveal_strlit("{{date}}");
        }
        Some(convert_datetime(page.date.as_str()))
    } else if vec_eq(key, &str_chars("{{content}}")) {
        proof {
            reveal_strlit("{{content}}");
        }
        Some(page.content.clone())
    } else if vec_eq(key, &str_chars("{{filename}}")) {
        proof {
            reveal_strlit("{{filename}}");
        }
        Some(page.filename.clone())
    } else if vec_eq(key, &str_chars("{{output_path}}")) {
        proof {
            reveal_strlit("{{output_path}}");
        }
        Some(page.output_path.clone())
    } else if vec_eq(key, &str_chars("{{base_url}}")) {
        proof {
            reveal_strlit("{{base_url}}");
        }
        Some(String::from_str("<base href=base_url>"))
    } else if vec_eq(key, &str_chars("{{site_name}}")) {
        proof {
            reveal_strlit("{{site_name}}");
        }
        Some(String::from_str("<div id=site_name>"))
    } else if vec_eq(key, &str_chars("{{topnav}}")) {
        proof {
            reveal_strlit("{{topnav}}");
        }
        Some(String::from_str("<div id=topnav>"))
    } else {
        let yt = str_chars("youtube");
        let ix = str_chars("index");
        proof {
            reveal_strlit("youtube");
            reveal_strlit("index");
        }
        if contains_sub(key, &yt) {
            youtube_value(key)
        } else if contains_sub(key, &ix) {
            index_value(key)
        } else {
            None
        }
    }
}

/// The youtube branch of `value_of`.
fn youtube_value(key: &Vec<char>) -> (r: Option<String>)
    requires
        occurs(key@, "youtube"@),
    ensures
        (match r {
            Some(v) => spec_youtube(key@) == Some(v@) && key@.len() > 0,
            None => spec_youtube(key@) is None,
        }),
{
    proof {
        reveal_strlit("{{ youtube ");
        reveal_strlit(" }}");
    }
    let prefix = str_chars("{{ youtube ");
    let suffix = str_chars(" }}");
    if has_prefix(key, &prefix) && has_suffix(key, &suffix) && key.len() >= prefix.len()
        + suffix.len() {
        let s = chars_string(key);
        Some(embed_youtube(s.as_str()))
    } else {
        None
    }
}

/// The index branch of `value_of`.
fn index_value(key: &Vec<char>) -> (r: Option<String>)
    requires
        occurs(key@, "index"@),
    ensures
        (match r {
            Some(v) => spec_index_marker(key@) == Some(v@) && key@.len() > 0,
            None => spec_index_marker(key@) is None,
        }),
{
    proof {
        reveal_strlit("{{ index ");
        reveal_strlit(" }}");
        reveal_strlit("<div id='index' class='");
        reveal_strlit("'>");
    }
    let prefix = str_chars("{{ index ");
    let suffix = str_chars(" }}");
    if has_prefix(key, &prefix) && has_suffix(key, &suffix) && key.len() >= prefix.len()
        + suffix.len() {
        let category = copy_range(key, prefix.len(), key.len() - suffix.len());
        let mut out = str_chars("<div id='index' class='");
        push_all(&mut out, &category);
        let close = str_chars("'>");
        push_all(&mut out, &close);
        Some(chars_string(&out))
    } else {
        None
    }
}

/// Resolves one placeholder token against a page.
pub fn get_value(key: &str, page: &Page) -> (r: Option<String>)
    ensures
        (match r {
            Some(v) => spec_value(key@, page@) == Some(v@),
            None => spec_value(key@, page@) is None,
        }),
{
    let chars = str_chars(key);
    value_of(&chars, page)
}

// ---------------------------------------------------------------------------
// Iterated substitution on one line
// ---------------------------------------------------------------------------

/// The line holds a placeholder that resolves, so one more substitution is
/// possible.
pub open spec fn step_defined(line: Seq<char>, page: PageView) -> bool {
    match spec_placeholder(line) {
        Some(key) => spec_value(key, page) is Some,
        None => false,
    }
}

/// The line after `n` substitution steps; a line whose placeholder is
/// absent, or does not resolve, stays as it is.
pub open spec fn expand_iter(line: Seq<char>, page: PageView, n: nat) -> Seq<char>
    decreases n,
{
    if n == 0 {
        line
    } else {
        match spec_placeholder(line) {
            None => line,
            Some(key) => match spec_value(key, page) {
                None => line,
                Some(v) => expand_iter(spec_replace(line, key, v), page, (n - 1) as nat),
            },
        }
    }
}

/// A line without a possible step never moves.
pub proof fn lemma_expand_idle(line: Seq<char>, page: PageView, n: nat)
    requires
        !step_defined(line, page),
    ensures
        expand_iter(line, page, n) == line,
{
}

/// Steps compose: `m + n` steps are `m` steps followed by `n` more.
pub proof fn lemma_expand_iter_add(line: Seq<char>, page: PageView, m: nat, n: nat)
    ensures
        expand_iter(line, page, m + n) == expand_iter(expand_iter(line, page, m), page, n),
    decreases m,
{
    if m == 0 {
        assert(expand_iter(line, page, 0) == line);
    } else if !step_defined(line, page) {
        lemma_expand_idle(line, page, m + n);
        lemma_expand_idle(line, page, m);
        lemma_expand_idle(line, page, n);
    } else {
        let key = spec_placeholder(line).unwrap();
        let v = spec_value(key, page).unwrap();
        let l2 = spec_replace(line, key, v);
        assert(expand_iter(line, page, m + n) == expand_iter(l2, page, (m + n - 1) as nat));
        assert((m - 1) + n == m + n - 1);
        lemma_expand_iter_add(l2, page, (m - 1) as nat, n);
        assert(expand_iter(line, page, m) == expand_iter(l2, page, (m - 1) as nat));
    }
}

/// The line's substitution settles at `out`: some number of steps reaches
/// it and no placeholder is left.
pub open spec fn expands_to(line: Seq<char>, page: PageView, out: Seq<char>) -> bool {
    exists|n: nat|
        out == #[trigger] expand_iter(line, page, n) && spec_placeholder(out) is None
}

/// The line's substitution runs into the unknown token `key`.
pub open spec fn expand_fails_with(line: Seq<char>, page: PageView, key: Seq<char>) -> bool {
    exists|n: nat|
        spec_placeholder(#[trigger] expand_iter(line, page, n)) == Some(key) && spec_value(
            key,
            page,
        ) is None
}

/// Every state within the step budget still has a further step: the line
/// never settles in time.
pub open spec fn expansion_exceeds(line: Seq<char>, page: PageView, limit: nat) -> bool {
    forall|n: nat| n <= limit ==> step_defined(#[trigger] expand_iter(line, page, n), page)
}

/// Substitutes placeholders on one line, rescanning after each
/// substitution, until none is left. An unknown token is a hard error that
/// names the token; a line that has not settled after `SUBST_LIMIT`
/// substitutions is reported rather than looped on forever.
pub fn replace_placeholder(input_text: &str, page: &Page) -> (r: Result<String, BuildError>)
    ensures
        (match r {
            Ok(out) => expands_to(input_text@, page@, out@),
            Err(e) => (match e {
                BuildError::UnknownPlaceholder(k) => expand_fails_with(input_text@, page@, k@),
                BuildError::SubstitutionLimit => expansion_exceeds(
                    input_text@,
                    page@,
                    SUBST_LIMIT as nat,
                ),
                BuildError::MalformedMetadata => false,
            }),
        }),
        spec_placeholder(input_text@) is None ==> (r matches Ok(out) && out@ == input_text@),
{
    let mut cur = str_chars(input_text);
    let mut fuel: usize = SUBST_LIMIT;
    let ghost mut steps: nat = 0nat;
    loop
        invariant
            steps + fuel == SUBST_LIMIT,
            cur@ == expand_iter(input_text@, page@, steps),
            forall|m: nat|
                m < steps ==> step_defined(#[trigger] expand_iter(input_text@, page@, m), page@),
        decreases fuel,
    {
        match placeholder_of(&cur) {
            None => {
                proof {
                    assert(cur@ == expand_iter(input_text@, page@, steps));
                    if steps == 0 {
                        assert(cur@ == input_text@);
                    }
                }
                return Ok(chars_string(&cur));
            },
            Some(key) => {
                match value_of(&key, page) {
                    None => {
                        proof {
                            assert(spec_placeholder(expand_iter(input_text@, page@, steps))
                                == Some(key@));
                            if spec_placeholder(input_text@) is None {
                                lemma_expand_idle(input_text@, page@, steps);
                            }
                        }
                        return Err(BuildError::UnknownPlaceholder(chars_string(&key)));
                    },
                    Some(v) => {
                        proof {
                            if spec_placeholder(input_text@) is None {
                                lemma_expand_idle(input_text@, page@, steps);
                            }
                        }
                        if fuel == 0 {
                            proof {
                                assert forall|n: nat| n <= SUBST_LIMIT as nat implies step_defined(
                                    #[trigger] expand_iter(input_text@, page@, n),
                                    page@,
                                ) by {
                                    if n < steps {
                                    } else {
                                        assert(n == steps);
                                        assert(step_defined(cur@, page@));
                                    }
                                };
                            }
                            return Err(BuildError::SubstitutionLimit);
                        }
                        let vchars = str_chars(v.as_str());
                        let next = replace_all(&cur, &key, &vchars);
                        proof {
                            lemma_expand_iter_add(input_text@, page@, steps, 1nat);
                            assert(expand_iter(spec_replace(cur@, key@, v@), page@, 0nat)
                                == spec_replace(cur@, key@, v@));
                            assert(expand_iter(cur@, page@, 1nat) == spec_replace(
                                cur@,
                                key@,
                                v@,
                            ));
                            steps = steps + 1;
                        }
                        cur = next;
                        fuel -= 1;
                    },
                }
            },
        }
    }
}

// ---------------------------------------------------------------------------
// Whole-template expansion, line by line
// ---------------------------------------------------------------------------

/// `out` is the lines of a template, each settled by substitution, joined
/// with one '\n' after every line.
pub open spec fn lines_expand_to(ls: Seq<Seq<char>>, page: PageView, out: Seq<char>) -> bool
    decreases ls.len(),
{
    if ls.len() == 0 {
        out == Seq::<char>::empty()
    } else {
        exists|f: Seq<char>|
            #[trigger] expands_to(ls[0], page, f) && f.len() + 1 <= out.len() && out.subrange(
                0,
                f.len() as int,
            ) == f && out[f.len() as int] == '\n' && lines_expand_to(
                ls.drop_first(),
                page,
                out.subrange(f.len() as int + 1, out.len() as int),
            )
    }
}

/// Extending a settled prefix by one more settled line.
proof fn lemma_lines_snoc(ls: Seq<Seq<char>>, page: PageView, o: Seq<char>, l: Seq<char>, f: Seq<char>)
    requires
        lines_expand_to(ls, page, o),
        expands_to(l, page, f),
    ensures
        lines_expand_to(ls.push(l), page, o + f + seq!['\n']),
    decreases ls.len(),
{
    let ls2 = ls.push(l);
    let out2 = o + f + seq!['\n'];
    assert(ls2.len() > 0);
    if ls.len() == 0 {
        assert(o == Seq::<char>::empty());
        assert(ls2[0] == l);
        assert(expands_to(ls2[0], page, f));
        assert(out2.subrange(0, f.len() as int) =~= f);
        assert(out2[f.len() as int] == '\n');
        assert(out2.subrange(f.len() as int + 1, out2.len() as int) =~= Seq::<char>::empty());
        assert(ls2.drop_first() =~= Seq::<Seq<char>>::empty());
        assert(lines_expand_to(
            ls2.drop_first(),
            page,
            out2.subrange(f.len() as int + 1, out2.len() as int),
        ));
    } else {
        let f0 = choose|f0: Seq<char>|
            #[trigger] expands_to(ls[0], page, f0) && f0.len() + 1 <= o.len() && o.subrange(
                0,
                f0.len() as int,
            ) == f0 && o[f0.len() as int] == '\n' && lines_expand_to(
                ls.drop_first(),
                page,
                o.subrange(f0.len() as int + 1, o.len() as int),
            );
        let r0 = o.subrange(f0.len() as int + 1, o.len() as int);
        lemma_lines_snoc(ls.drop_first(), page, r0, l, f);
        assert(ls2.drop_first() =~= ls.drop_first().push(l));
        assert(ls2[0] == ls[0]);
        assert(expands_to(ls2[0], page, f0));
        assert(out2.subrange(0, f0.len() as int) =~= f0);
        assert(out2[f0.len() as int] == '\n');
        assert(out2.subrange(f0.len() as int + 1, out2.len() as int) =~= r0 + f + seq!['\n']);
        assert(lines_expand_to(ls2.drop_first(), page, r0 + f + seq!['\n']));
    }
}

/// A line whose substitution settles can never also run into an unknown
/// token: the two outcomes exclude each other.
pub proof fn lemma_settled_line_never_fails(
    line: Seq<char>,
    page: PageView,
    out: Seq<char>,
    key: Seq<char>,
)
    requires
        expands_to(line, page, out),
    ensures
        !expand_fails_with(line, page, key),
{
    if expand_fails_with(line, page, key) {
        let n1 = choose|n: nat|
            out == #[trigger] expand_iter(line, page, n) && spec_placeholder(out) is None;
        let n2 = choose|n: nat|
            spec_placeholder(#[trigger] expand_iter(line, page, n)) == Some(key) && spec_value(
                key,
                page,
            ) is None;
        if n1 <= n2 {
            lemma_expand_iter_add(line, page, n1, (n2 - n1) as nat);
            lemma_expand_idle(out, page, (n2 - n1) as nat);
        } else {
            lemma_expand_iter_add(line, page, n2, (n1 - n2) as nat);
            lemma_expand_idle(expand_iter(line, page, n2), page, (n1 - n2) as nat);
        }
    }
}

/// A line that settles within the step budget never exhausts it.
pub proof fn lemma_settled_line_never_exceeds(
    line: Seq<char>,
    page: PageView,
    n: nat,
    limit: nat,
)
    requires
        n <= limit,
        spec_placeholder(expand_iter(line, page, n)) is None,
    ensures
        !expansion_exceeds(line, page, limit),
{
    if expansion_exceeds(line, page, limit) {
        assert(step_defined(expand_iter(line, page, n), page));
    }
}

/// Every line of a settled whole-template expansion settles itself.
pub proof fn lemma_lines_expand_nth(ls: Seq<Seq<char>>, page: PageView, out: Seq<char>, i: int)
    requires
        lines_expand_to(ls, page, out),
        0 <= i < ls.len(),
    ensures
        exists|f: Seq<char>| #[trigger] expands_to(ls[i], page, f),
    decreases i,
{
    let f0 = choose|f: Seq<char>|
        #[trigger] expands_to(ls[0], page, f) && f.len() + 1 <= out.len() && out.subrange(
            0,
            f.len() as int,
        ) == f && out[f.len() as int] == '\n' && lines_expand_to(
            ls.drop_first(),
            page,
            out.subrange(f.len() as int + 1, out.len() as int),
        );
    if i == 0 {
        assert(expands_to(ls[0], page, f0));
    } else {
        let rest = out.subrange(f0.len() as int + 1, out.len() as int);
        lemma_lines_expand_nth(ls.drop_first(), page, rest, i - 1);
        let w = choose|f: Seq<char>| #[trigger] expands_to(ls.drop_first()[i - 1], page, f);
        assert(ls[i] == ls.drop_first()[i - 1]);
        assert(expands_to(ls[i], page, w));
    }
}

/// Substitution settles at one output only: any two settled results for
/// the same line and page are byte-identical.
pub proof fn lemma_expansion_deterministic(
    line: Seq<char>,
    page: PageView,
    o1: Seq<char>,
    o2: Seq<char>,
)
    requires
        expands_to(line, page, o1),
        expands_to(line, page, o2),
    ensures
        o1 == o2,
{
    let n1 = choose|n: nat|
        o1 == #[trigger] expand_iter(line, page, n) && spec_placeholder(o1) is None;
    let n2 = choose|n: nat|
        o2 == #[trigger] expand_iter(line, page, n) && spec_placeholder(o2) is None;
    if n1 <= n2 {
        lemma_expand_iter_add(line, page, n1, (n2 - n1) as nat);
        lemma_expand_idle(o1, page, (n2 - n1) as nat);
    } else {
        lemma_expand_iter_add(line, page, n2, (n1 - n2) as nat);
        lemma_expand_idle(o2, page, (n1 - n2) as nat);
    }
}

/// Whole-template expansion settles at one output only.
pub proof fn lemma_lines_expansion_deterministic(
    ls: Seq<Seq<char>>,
    page: PageView,
    o1: Seq<char>,
    o2: Seq<char>,
)
    requires
        lines_expand_to(ls, page, o1),
        lines_expand_to(ls, page, o2),
    ensures
        o1 == o2,
    decreases ls.len(),
{
    if ls.len() == 0 {
        assert(o1 =~= o2);
    } else {
        let f1 = choose|f: Seq<char>|
            #[trigger] expands_to(ls[0], page, f) && f.len() + 1 <= o1.len() && o1.subrange(
                0,
                f.len() as int,
            ) == f && o1[f.len() as int] == '\n' && lines_expand_to(
                ls.drop_first(),
                page,
                o1.subrange(f.len() as int + 1, o1.len() as int),
            );
        let f2 = choose|f: Seq<char>|
            #[trigger] expands_to(ls[0], page, f) && f.len() + 1 <= o2.len() && o2.subrange(
                0,
                f.len() as int,
            ) == f && o2[f.len() as int] == '\n' && lines_expand_to(
                ls.drop_first(),
                page,
                o2.subrange(f.len() as int + 1, o2.len() as int),
            );
        lemma_expansion_deterministic(ls[0], page, f1, f2);
        let r1 = o1.subrange(f1.len() as int + 1, o1.len() as int);
        let r2 = o2.subrange(f2.len() as int + 1, o2.len() as int);
        lemma_lines_expansion_deterministic(ls.drop_first(), page, r1, r2);
        assert(o1 =~= o1.subrange(0, f1.len() as int) + seq!['\n'] + r1);
        assert(o2 =~= o2.subrange(0, f2.len() as int) + seq!['\n'] + r2);
    }
}

/// Expansion is the identity on a template without placeholders: when no
/// line of the template holds a placeholder — and the template ends in a
/// newline and carries no carriage return, so that rejoining the lines
/// with single newlines reproduces it — the settled output is the
/// template itself.
pub proof fn lemma_expand_identity_on_plain_template(
    template: Seq<char>,
    page: PageView,
    out: Seq<char>,
)
    requires
        template.len() > 0 ==> template[template.len() - 1] == '\n',
        forall|i: int| 0 <= i < template.len() ==> template[i] != '\r',
        forall|i: int|
            0 <= i < spec_lines(template).len() ==> spec_placeholder(
                #[trigger] spec_lines(template)[i],
            ) is None,
        lines_expand_to(spec_lines(template), page, out),
    ensures
        out == template,
    decreases template.len(),
{
    let ls = spec_lines(template);
    let nl = seq!['\n'];
    if template.len() == 0 {
        assert(out =~= template);
    } else {
        lemma_first_match(template, nl);
        match first_match(template, nl) {
            None => {
                assert(template.subrange(
                    template.len() - 1,
                    template.len() as int,
                ) =~= nl);
                assert(match_at(template, nl, template.len() - 1));
            },
            Some(i) => {
                let line0 = crate::text::strip_cr(template.subrange(0, i as int));
                let rest = template.subrange(i as int + 1, template.len() as int);
                assert(match_at(template, nl, i as int));
                assert(template[i as int] == '\n') by {
                    assert(template.subrange(i as int, i as int + 1)[0] == template[i as int]);
                };
                assert(line0 == template.subrange(0, i as int)) by {
                    if i > 0 {
                        assert(template.subrange(0, i as int)[i - 1] == template[i - 1]);
                    }
                };
                assert(ls == seq![line0] + spec_lines(rest));
                assert(ls.len() > 0);
                let f0 = choose|f: Seq<char>|
                    #[trigger] expands_to(ls[0], page, f) && f.len() + 1 <= out.len()
                        && out.subrange(0, f.len() as int) == f && out[f.len() as int] == '\n'
                        && lines_expand_to(
                        ls.drop_first(),
                        page,
                        out.subrange(f.len() as int + 1, out.len() as int),
                    );
                let n = choose|n: nat|
                    f0 == #[trigger] expand_iter(ls[0], page, n) && spec_placeholder(
                        f0,
                    ) is None;
                assert(spec_placeholder(ls[0]) is None);
                lemma_expand_idle(ls[0], page, n);
                assert(f0 == ls[0]);
                assert(f0 == line0);
                let r0 = out.subrange(f0.len() as int + 1, out.len() as int);
                assert(ls.drop_first() =~= spec_lines(rest));
                assert(rest.len() > 0 ==> rest[rest.len() - 1] == '\n') by {
                    if rest.len() > 0 {
                        assert(rest[rest.len() - 1] == template[template.len() - 1]);
                    }
                };
                assert(forall|k: int| 0 <= k < rest.len() ==> rest[k] != '\r');
                assert(forall|k: int|
                    0 <= k < spec_lines(rest).len() ==> spec_placeholder(
                        #[trigger] spec_lines(rest)[k],
                    ) is None) by {
                    assert(forall|k: int|
                        0 <= k < spec_lines(rest).len() ==> spec_lines(rest)[k] == ls[k + 1]);
                };
                lemma_expand_identity_on_plain_template(rest, page, r0);
                assert(out =~= f0 + nl + r0);
                assert(template =~= line0 + nl + rest);
            },
        }
    }
}

/// Expands every line of a template against one page and joins the
/// results, one line per template line. Returns the first error any line
/// produces; a template whose lines hold no placeholder at all always
/// succeeds, unchanged but for line-ending normalization.
pub fn process_template(page: &Page, template: &str) -> (r: Result<String, BuildError>)
    ensures
        (match r {
            Ok(out) => lines_expand_to(spec_lines(template@), page@, out@),
            Err(e) => (match e {
                BuildError::UnknownPlaceholder(k) => exists|i: int|
                    0 <= i < spec_lines(template@).len() && expand_fails_with(
                        #[trigger] spec_lines(template@)[i],
                        page@,
                        k@,
                    ),
                BuildError::SubstitutionLimit => exists|i: int|
                    0 <= i < spec_lines(template@).len() && expansion_exceeds(
                        #[trigger] spec_lines(template@)[i],
                        page@,
                        SUBST_LIMIT as nat,
                    ),
                BuildError::MalformedMetadata => false,
            }),
        }),
        (forall|i: int|
            0 <= i < spec_lines(template@).len() ==> spec_placeholder(
                #[trigger] spec_lines(template@)[i],
            ) is None) ==> r is Ok,
{
    let ghost ls = spec_lines(template@);
    let tchars = str_chars(template);
    let lines = split_lines(&tchars);
    let mut out = String::new();
    let mut i: usize = 0;
    proof {
        reveal_strlit("\n");
        assert(ls.subrange(0, 0) =~= Seq::<Seq<char>>::empty());
    }
    while i < lines.len()
        invariant
            ls == spec_lines(template@),
            lines@.len() == ls.len(),
            forall|j: int| 0 <= j < ls.len() ==> lines@[j]@ == ls[j],
            i <= ls.len(),
            lines_expand_to(ls.subrange(0, i as int), page@, out@),
        decreases ls.len() - i,
    {
        let line_str = chars_string(&lines[i]);
        let ghost out0 = out@;
        match replace_placeholder(line_str.as_str(), page) {
            Ok(s) => {
                out.append(s.as_str());
                out.append("\n");
                proof {
                    reveal_strlit("\n");
                    lemma_lines_snoc(ls.subrange(0, i as int), page@, out0, ls[i as int], s@);
                    assert(ls.subrange(0, i as int).push(ls[i as int]) =~= ls.subrange(
                        0,
                        i as int + 1,
                    ));
                    assert(out@ =~= out0 + s@ + seq!['\n']);
                }
            },
            Err(e) => {
                proof {
                    match &e {
                        BuildError::UnknownPlaceholder(k) => {
                            assert(expand_fails_with(ls[i as int], page@, k@));
                            let n = choose|n: nat|
                                spec_placeholder(
                                    #[trigger] expand_iter(ls[i as int], page@, n),
                                ) == Some(k@) && spec_value(k@, page@) is None;
                            if spec_placeholder(ls[i as int]) is None {
                                lemma_expand_idle(ls[i as int], page@, n);
                            }
                        },
                        BuildError::SubstitutionLimit => {
                            assert(expansion_exceeds(ls[i as int], page@, SUBST_LIMIT as nat));
                            assert(step_defined(expand_iter(ls[i as int], page@, 0nat), page@));
                        },
                        BuildError::MalformedMetadata => {},
                    }
                }
                return Err(e);
            },
        }
        i += 1;
    }
    proof {
        assert(ls.subrange(0, ls.len() as int) =~= ls);
    }
    Ok(out)
}

} // verus!
