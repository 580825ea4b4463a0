//! The build pipeline: parse every content file, aggregate the document
//! set, give each category an index document, rewrite the site-wide
//! markers, and hand back the output files to persist.

use vstd::prelude::*;

use crate::errors::BuildError;
use crate::page::{doc_builds, doc_fails, Page, PageView};
use crate::site::{
    contains_string, is_nav_of, is_reserved, lemma_has_cat_is_contains, lemma_sorted_desc_unique,
    page_views, sorted_desc, spec_index_chain, str_views, Site,
};
use crate::text::{last_index_of, lemma_last_index_of, spec_lower, spec_replace};

verus! {

broadcast use vstd::seq_lib::group_to_multiset_ensures;

// ---------------------------------------------------------------------------
// The aggregate state a build evolves, as views
// ---------------------------------------------------------------------------

pub struct SiteModel {
    pub pages: Seq<PageView>,
    pub drafts: Seq<PageView>,
    pub dirs: Seq<Seq<char>>,
    pub cats: Seq<Seq<char>>,
}

pub open spec fn model_of(site: Site) -> SiteModel {
    SiteModel {
        pages: page_views(site.pages@),
        drafts: page_views(site.drafts@),
        dirs: str_views(site.directory@),
        cats: str_views(site.categories@),
    }
}

/// What inserting one parsed page does to the aggregate state.
pub open spec fn add_effect(s: SiteModel, p: PageView) -> SiteModel {
    let cat = spec_lower(p.category);
    SiteModel {
        pages: if cat == "draft"@ {
            s.pages
        } else {
            s.pages.push(p)
        },
        drafts: if cat == "draft"@ {
            s.drafts.push(p)
        } else {
            s.drafts
        },
        dirs: if cat == "draft"@ {
            s.dirs
        } else {
            s.dirs.push(p.output_path + "/"@ + p.filename + ".html"@)
        },
        cats: if is_reserved(cat) || s.cats.contains(cat) {
            s.cats
        } else {
            s.cats.push(cat)
        },
    }
}

// ---------------------------------------------------------------------------
// Content of the scaffolded documents
// ---------------------------------------------------------------------------

/// The text of a category's synthetic index document.
pub open spec fn spec_index_input(cat: Seq<char>, ts: Seq<char>) -> Seq<char> {
    "---\ntitle: "@ + cat + " Index\ndescription: Index for "@ + cat + "\ncategory: "@ + cat
        + "\ndate: "@ + ts + "\n---\n\n{{ index "@ + cat + " }}\n"@
}

/// The path a category's synthetic index document is created under.
pub open spec fn spec_index_path(cat: Seq<char>) -> Seq<char> {
    "content/"@ + cat + "/index.md"@
}

/// A freshly scaffolded content file: default metadata in a draft
/// category, the creation timestamp, and a body that shows the title and
/// date placeholders.
pub fn new_page_content(timestamp: &str) -> (r: String)
    ensures
        r@ == "---\ntitle: Default Title\ndescription: Default Description\ncategory: draft\ndate: "@
            + timestamp@ + "\n---\n# {{title}}\n\n{{date}}\n\n---\n"@,
{
    let mut out = String::from_str(
        "---\ntitle: Default Title\ndescription: Default Description\ncategory: draft\ndate: ",
    );
    out.append(timestamp);
    out.append("\n---\n# {{title}}\n\n{{date}}\n\n---\n");
    out
}

/// The synthetic index document for a category: metadata naming the
/// category, and a body that is exactly the category's listing marker.
pub fn index_page_content(category: &str, timestamp: &str) -> (r: String)
    ensures
        r@ == spec_index_input(category@, timestamp@),
{
    let mut out = String::from_str("---\ntitle: ");
    out.append(category);
    out.append(" Index\ndescription: Index for ");
    out.append(category);
    out.append("\ncategory: ");
    out.append(category);
    out.append("\ndate: ");
    out.append(timestamp);
    out.append("\n---\n\n{{ index ");
    out.append(category);
    out.append(" }}\n");
    out
}

/// Builds the synthetic index path and proves where its last slash sits.
fn index_file_path(category: &str) -> (r: String)
    ensures
        r@ == spec_index_path(category@),
        last_index_of(r@, '/') == Some((r@.len() - 9) as nat),
        r@.len() >= 17,
{
    let mut out = String::from_str("content/");
    out.append(category);
    out.append("/index.md");
    proof {
        reveal_strlit("content/");
        reveal_strlit("/index.md");
        let v = out@;
        assert(v.len() == 17 + category@.len());
        assert(v[v.len() - 9] == "/index.md"@[0]);
        assert(v[v.len() - 9] == '/');
        assert forall|j: int| v.len() - 9 < j < v.len() implies v[j] != '/' by {
            assert(v[j] == "/index.md"@[j - (v.len() - 9)]);
        };
        lemma_last_index_of(v, '/');
        match last_index_of(v, '/') {
            Some(k) => {
                if (k as int) < v.len() - 9 {
                    assert(v[v.len() - 9] == '/');
                }
                if (k as int) > v.len() - 9 {
                    assert(v[k as int] != '/');
                }
            },
            None => {
                assert(v[v.len() - 9] != '/');
            },
        }
    }
    out
}

// ---------------------------------------------------------------------------
// The pipeline's phases, as relations between aggregate states
// ---------------------------------------------------------------------------

/// The parse pass: every document of `files`, in order, builds a page
/// that is inserted into the aggregate state.
pub open spec fn parse_phase(
    files: Seq<(String, String)>,
    template: Seq<char>,
    s0: SiteModel,
    s1: SiteModel,
) -> bool
    decreases files.len(),
{
    if files.len() == 0 {
        s1 == s0
    } else {
        exists|p: PageView|
            #[trigger] doc_builds(files[0].0@, files[0].1@, template, p) && parse_phase(
                files.drop_first(),
                template,
                add_effect(s0, p),
                s1,
            )
    }
}

proof fn lemma_parse_phase_snoc(
    files: Seq<(String, String)>,
    template: Seq<char>,
    s0: SiteModel,
    s1: SiteModel,
    f: (String, String),
    p: PageView,
)
    requires
        parse_phase(files, template, s0, s1),
        doc_builds(f.0@, f.1@, template, p),
    ensures
        parse_phase(files.push(f), template, s0, add_effect(s1, p)),
    decreases files.len(),
{
    let files2 = files.push(f);
    assert(files2[0] == if files.len() == 0 {
        f
    } else {
        files[0]
    });
    if files.len() == 0 {
        assert(s1 == s0);
        assert(files2.drop_first() =~= Seq::<(String, String)>::empty());
        assert(doc_builds(files2[0].0@, files2[0].1@, template, p));
        assert(parse_phase(files2.drop_first(), template, add_effect(s0, p), add_effect(s1, p)));
    } else {
        let q = choose|q: PageView|
            #[trigger] doc_builds(files[0].0@, files[0].1@, template, q) && parse_phase(
                files.drop_first(),
                template,
                add_effect(s0, q),
                s1,
            );
        lemma_parse_phase_snoc(files.drop_first(), template, add_effect(s0, q), s1, f, p);
        assert(files2.drop_first() =~= files.drop_first().push(f));
        assert(doc_builds(files2[0].0@, files2[0].1@, template, q));
        assert(parse_phase(files2.drop_first(), template, add_effect(s0, q), add_effect(s1, p)));
    }
}

/// The aggregate pass: each category lacking an index document, in order,
/// gets a synthetic one, built and inserted like any other document.
pub open spec fn aggregate_phase(
    cs: Seq<Seq<char>>,
    ts: Seq<char>,
    template: Seq<char>,
    s0: SiteModel,
    s1: SiteModel,
) -> bool
    decreases cs.len(),
{
    if cs.len() == 0 {
        s1 == s0
    } else if s0.dirs.contains("/"@ + cs[0] + "/index.html"@) {
        aggregate_phase(cs.drop_first(), ts, template, s0, s1)
    } else {
        exists|p: PageView|
            #[trigger] doc_builds(spec_index_path(cs[0]), spec_index_input(cs[0], ts), template, p)
                && aggregate_phase(cs.drop_first(), ts, template, add_effect(s0, p), s1)
    }
}

proof fn lemma_aggregate_phase_snoc_skip(
    cs: Seq<Seq<char>>,
    ts: Seq<char>,
    template: Seq<char>,
    s0: SiteModel,
    s1: SiteModel,
    c: Seq<char>,
)
    requires
        aggregate_phase(cs, ts, template, s0, s1),
        s1.dirs.contains("/"@ + c + "/index.html"@),
    ensures
        aggregate_phase(cs.push(c), ts, template, s0, s1),
    decreases cs.len(),
{
    let cs2 = cs.push(c);
    assert(cs2[0] == if cs.len() == 0 {
        c
    } else {
        cs[0]
    });
    if cs.len() == 0 {
        assert(s1 == s0);
        assert(cs2.drop_first() =~= Seq::<Seq<char>>::empty());
        assert(aggregate_phase(cs2.drop_first(), ts, template, s0, s1));
    } else if s0.dirs.contains("/"@ + cs[0] + "/index.html"@) {
        lemma_aggregate_phase_snoc_skip(cs.drop_first(), ts, template, s0, s1, c);
        assert(cs2.drop_first() =~= cs.drop_first().push(c));
    } else {
        let q = choose|q: PageView|
            #[trigger] doc_builds(spec_index_path(cs[0]), spec_index_input(cs[0], ts), template, q)
                && aggregate_phase(cs.drop_first(), ts, template, add_effect(s0, q), s1);
        lemma_aggregate_phase_snoc_skip(cs.drop_first(), ts, template, add_effect(s0, q), s1, c);
        assert(cs2.drop_first() =~= cs.drop_first().push(c));
        assert(doc_builds(spec_index_path(cs2[0]), spec_index_input(cs2[0], ts), template, q));
        assert(aggregate_phase(cs2.drop_first(), ts, template, add_effect(s0, q), s1));
    }
}

proof fn lemma_aggregate_phase_snoc_add(
    cs: Seq<Seq<char>>,
    ts: Seq<char>,
    template: Seq<char>,
    s0: SiteModel,
    s1: SiteModel,
    c: Seq<char>,
    p: PageView,
)
    requires
        aggregate_phase(cs, ts, template, s0, s1),
        !s1.dirs.contains("/"@ + c + "/index.html"@),
        doc_builds(spec_index_path(c), spec_index_input(c, ts), template, p),
    ensures
        aggregate_phase(cs.push(c), ts, template, s0, add_effect(s1, p)),
    decreases cs.len(),
{
    let cs2 = cs.push(c);
    assert(cs2[0] == if cs.len() == 0 {
        c
    } else {
        cs[0]
    });
    if cs.len() == 0 {
        assert(s1 == s0);
        assert(cs2.drop_first() =~= Seq::<Seq<char>>::empty());
        assert(doc_builds(spec_index_path(cs2[0]), spec_index_input(cs2[0], ts), template, p));
        assert(aggregate_phase(
            cs2.drop_first(),
            ts,
            template,
            add_effect(s0, p),
            add_effect(s1, p),
        ));
    } else if s0.dirs.contains("/"@ + cs[0] + "/index.html"@) {
        lemma_aggregate_phase_snoc_add(cs.drop_first(), ts, template, s0, s1, c, p);
        assert(cs2.drop_first() =~= cs.drop_first().push(c));
    } else {
        let q = choose|q: PageView|
            #[trigger] doc_builds(spec_index_path(cs[0]), spec_index_input(cs[0], ts), template, q)
                && aggregate_phase(cs.drop_first(), ts, template, add_effect(s0, q), s1);
        lemma_aggregate_phase_snoc_add(cs.drop_first(), ts, template, add_effect(s0, q), s1, c, p);
        assert(cs2.drop_first() =~= cs.drop_first().push(c));
        assert(doc_builds(spec_index_path(cs2[0]), spec_index_input(cs2[0], ts), template, q));
        assert(aggregate_phase(
            cs2.drop_first(),
            ts,
            template,
            add_effect(s0, q),
            add_effect(s1, p),
        ));
    }
}

/// The parse pass is a function of its inputs: each document builds a
/// unique page, so the whole pass reaches a unique state.
pub proof fn lemma_parse_phase_deterministic(
    files: Seq<(String, String)>,
    template: Seq<char>,
    s0: SiteModel,
    a: SiteModel,
    b: SiteModel,
)
    requires
        parse_phase(files, template, s0, a),
        parse_phase(files, template, s0, b),
    ensures
        a == b,
    decreases files.len(),
{
    if files.len() > 0 {
        let p1 = choose|p: PageView|
            #[trigger] doc_builds(files[0].0@, files[0].1@, template, p) && parse_phase(
                files.drop_first(),
                template,
                add_effect(s0, p),
                a,
            );
        let p2 = choose|p: PageView|
            #[trigger] doc_builds(files[0].0@, files[0].1@, template, p) && parse_phase(
                files.drop_first(),
                template,
                add_effect(s0, p),
                b,
            );
        crate::page::lemma_built_page_deterministic(files[0].0@, files[0].1@, template, p1, p2);
        lemma_parse_phase_deterministic(files.drop_first(), template, add_effect(s0, p1), a, b);
    }
}

/// The aggregate pass is a function of its inputs, for the same reason.
pub proof fn lemma_aggregate_phase_deterministic(
    cs: Seq<Seq<char>>,
    ts: Seq<char>,
    template: Seq<char>,
    s0: SiteModel,
    a: SiteModel,
    b: SiteModel,
)
    requires
        aggregate_phase(cs, ts, template, s0, a),
        aggregate_phase(cs, ts, template, s0, b),
    ensures
        a == b,
    decreases cs.len(),
{
    if cs.len() > 0 {
        if s0.dirs.contains("/"@ + cs[0] + "/index.html"@) {
            lemma_aggregate_phase_deterministic(cs.drop_first(), ts, template, s0, a, b);
        } else {
            let p1 = choose|p: PageView|
                #[trigger] doc_builds(spec_index_path(cs[0]), spec_index_input(cs[0], ts), template, p)
                    && aggregate_phase(cs.drop_first(), ts, template, add_effect(s0, p), a);
            let p2 = choose|p: PageView|
                #[trigger] doc_builds(spec_index_path(cs[0]), spec_index_input(cs[0], ts), template, p)
                    && aggregate_phase(cs.drop_first(), ts, template, add_effect(s0, p), b);
            crate::page::lemma_built_page_deterministic(
                spec_index_path(cs[0]),
                spec_index_input(cs[0], ts),
                template,
                p1,
                p2,
            );
            lemma_aggregate_phase_deterministic(
                cs.drop_first(),
                ts,
                template,
                add_effect(s0, p1),
                a,
                b,
            );
        }
    }
}

/// The whole build is deterministic: two runs over the same content
/// files, template, timestamp, starting state and site name write
/// byte-identical files. Each phase reaches a unique state, the
/// navigation and the sorted page order are unique, and the write pass is
/// a function of all of them.
pub proof fn lemma_build_deterministic(
    files: Seq<(String, String)>,
    ts: Seq<char>,
    template: Seq<char>,
    s0: SiteModel,
    site_name: Seq<char>,
    mid1: SiteModel,
    fin1: SiteModel,
    nav1: Seq<char>,
    sps1: Seq<PageView>,
    outs1: Seq<(String, String)>,
    mid2: SiteModel,
    fin2: SiteModel,
    nav2: Seq<char>,
    sps2: Seq<PageView>,
    outs2: Seq<(String, String)>,
)
    requires
        parse_phase(files, template, s0, mid1),
        aggregate_phase(mid1.cats, ts, template, mid1, fin1),
        is_nav_of(mid1.cats, nav1),
        sorted_desc(sps1),
        sps1.to_multiset() == fin1.pages.to_multiset(),
        write_phase(fin1.pages + fin1.drafts, fin1.cats, sps1, nav1, site_name, outs1),
        parse_phase(files, template, s0, mid2),
        aggregate_phase(mid2.cats, ts, template, mid2, fin2),
        is_nav_of(mid2.cats, nav2),
        sorted_desc(sps2),
        sps2.to_multiset() == fin2.pages.to_multiset(),
        write_phase(fin2.pages + fin2.drafts, fin2.cats, sps2, nav2, site_name, outs2),
    ensures
        outs1.len() == outs2.len(),
        forall|i: int|
            0 <= i < outs1.len() ==> (#[trigger] outs1[i].0@) == outs2[i].0@ && outs1[i].1@
                == outs2[i].1@,
{
    lemma_parse_phase_deterministic(files, template, s0, mid1, mid2);
    lemma_aggregate_phase_deterministic(mid1.cats, ts, template, mid1, fin1, fin2);
    crate::site::lemma_navigation_deterministic(mid1.cats, nav1, nav2);
    lemma_sorted_desc_unique(sps1, sps2);
    let wl = fin1.pages + fin1.drafts;
    assert forall|i: int| 0 <= i < outs1.len() implies (#[trigger] outs1[i].0@) == outs2[i].0@
        && outs1[i].1@ == outs2[i].1@ by {
        assert(outs1[i].0@ == "site"@ + wl[i].output_path + "/"@ + wl[i].filename + ".html"@);
        assert(outs2[i].0@ == "site"@ + wl[i].output_path + "/"@ + wl[i].filename + ".html"@);
    };
}

/// Some document of the build fails with exactly `e`: either one of the
/// content files, after every file before it parsed, or — after every
/// content file parsed — a synthetic index document for a category that
/// still lacks one.
pub open spec fn build_fails_with(
    files: Seq<(String, String)>,
    ts: Seq<char>,
    template: Seq<char>,
    s0: SiteModel,
    e: BuildError,
) -> bool {
    (exists|k: int, s: SiteModel|
        0 <= k < files.len() && #[trigger] parse_phase(files.subrange(0, k), template, s0, s)
            && doc_fails(files[k].0@, files[k].1@, template, e)) || (exists|
        s: SiteModel,
        j: int,
        s2: SiteModel,
    |
        #[trigger] parse_phase(files, template, s0, s) && 0 <= j < s.cats.len()
            && #[trigger] aggregate_phase(s.cats.subrange(0, j), ts, template, s, s2)
            && !s2.dirs.contains("/"@ + s.cats[j] + "/index.html"@) && doc_fails(
            spec_index_path(s.cats[j]),
            spec_index_input(s.cats[j], ts),
            template,
            e,
        ))
}

// ---------------------------------------------------------------------------
// The write pass
// ---------------------------------------------------------------------------

/// One page's content after the site-wide second pass: the listing
/// containers filled from the sorted pages, then the navigation marker,
/// then the site-name marker.
pub open spec fn spec_second_pass(
    content: Seq<char>,
    cats: Seq<Seq<char>>,
    sorted_ps: Seq<PageView>,
    nav: Seq<char>,
    site_name: Seq<char>,
) -> Seq<char> {
    spec_replace(
        spec_replace(spec_index_chain(content, cats, sorted_ps), "<div id=topnav>"@, nav),
        "<div id=site_name>"@,
        site_name,
    )
}

/// One written output file: the document's resolved path, and its content
/// rewritten by the second pass against some descending arrangement of the
/// build's pages — which is unique, so the content is pinned.
pub open spec fn is_written_output(
    out: (String, String),
    p: PageView,
    cats: Seq<Seq<char>>,
    pages_ms: vstd::multiset::Multiset<PageView>,
    nav: Seq<char>,
    site_name: Seq<char>,
) -> bool {
    &&& out.0@ == "site"@ + p.output_path + "/"@ + p.filename + ".html"@
    &&& exists|sorted_ps: Seq<PageView>|
        sorted_desc(sorted_ps) && sorted_ps.to_multiset() == pages_ms && out.1@
            == #[trigger] spec_second_pass(p.content, cats, sorted_ps, nav, site_name)
}

/// The files a build writes: one per document of `wl` — the pages, then
/// the drafts — each at `site<output_path>/<name>.html` with its content
/// rewritten by the second pass.
pub open spec fn write_phase(
    wl: Seq<PageView>,
    cats: Seq<Seq<char>>,
    sorted_ps: Seq<PageView>,
    nav: Seq<char>,
    site_name: Seq<char>,
    outs: Seq<(String, String)>,
) -> bool {
    &&& outs.len() == wl.len()
    &&& (forall|i: int|
        0 <= i < wl.len() ==> (#[trigger] outs[i].0@) == "site"@ + wl[i].output_path + "/"@
            + wl[i].filename + ".html"@ && outs[i].1@ == spec_second_pass(
            wl[i].content,
            cats,
            sorted_ps,
            nav,
            site_name,
        ))
}

/// Clones a page list, value for value.
fn clone_pages(v: &Vec<Page>) -> (r: Vec<Page>)
    ensures
        r@ == v@,
{
    let mut r: Vec<Page> = Vec::new();
    let mut i: usize = 0;
    while i < v.len()
        invariant
            i <= v@.len(),
            r@ =~= v@.subrange(0, i as int),
        decreases v@.len() - i,
    {
        r.push(v[i].clone());
        proof {
            assert(r@ =~= v@.subrange(0, i + 1));
        }
        i += 1;
    }
    proof {
        assert(r@ =~= v@);
    }
    r
}

/// Clones the category list, value for value.
fn clone_strings(v: &Vec<String>) -> (r: Vec<String>)
    ensures
        r@ == v@,
{
    let mut r: Vec<String> = Vec::new();
    let mut i: usize = 0;
    while i < v.len()
        invariant
            i <= v@.len(),
            r@ =~= v@.subrange(0, i as int),
        decreases v@.len() - i,
    {
        r.push(v[i].clone());
        proof {
            assert(r@ =~= v@.subrange(0, i + 1));
        }
        i += 1;
    }
    proof {
        assert(r@ =~= v@);
    }
    r
}

/// Runs a whole build over content already read from disk: `files` pairs
/// each content path with its text. Every file is parsed, rendered and
/// added to the site; a category without an index document gets a
/// synthetic one, stamped with `timestamp`; then the site-wide second pass
/// rewrites every page — drafts included, though they stay invisible to
/// listings and navigation — and the output files come back as
/// `(path, content)` pairs, one per document. The first failing document
/// aborts the whole build, before later documents touch the site.
pub fn build_site(
    site: &mut Site,
    files: &Vec<(String, String)>,
    template: &str,
    timestamp: &str,
) -> (r: Result<Vec<(String, String)>, BuildError>)
    requires
        old(site).inv(),
        forall|i: int|
            0 <= i < files@.len() ==> last_index_of(#[trigger] files@[i].0@, '/') is Some
                && last_index_of(files@[i].0@, '/').unwrap() + 4 <= files@[i].0@.len(),
    ensures
        final(site).inv(),
        final(site).site_name == old(site).site_name,
        final(site).static_url == old(site).static_url,
        final(site).template_url == old(site).template_url,
        final(site).template_path == old(site).template_path,
        final(site).dithering == old(site).dithering,
        final(site).base_url == old(site).base_url,
        (match r {
            Ok(outs) => exists|mid: SiteModel, fin: SiteModel, nav: Seq<char>|
                {
                    &&& #[trigger] parse_phase(files@, template@, model_of(*old(site)), mid)
                    &&& #[trigger] aggregate_phase(mid.cats, timestamp@, template@, mid, fin)
                    &&& #[trigger] is_nav_of(mid.cats, nav)
                    &&& str_views(final(site).categories@) == fin.cats
                    &&& str_views(final(site).directory@) == fin.dirs
                    &&& page_views(final(site).drafts@) == fin.drafts
                    &&& page_views(final(site).pages@).to_multiset() == fin.pages.to_multiset()
                    &&& sorted_desc(page_views(final(site).pages@))
                    &&& write_phase(
                        fin.pages + fin.drafts,
                        fin.cats,
                        page_views(final(site).pages@),
                        nav,
                        old(site).site_name@,
                        outs@,
                    )
                },
            Err(e) => build_fails_with(files@, timestamp@, template@, model_of(*old(site)), e),
        }),
        (forall|e: BuildError|
            !build_fails_with(files@, timestamp@, template@, model_of(*old(site)), e)) ==> r is Ok,
{
    let ghost m0 = model_of(*old(site));
    let mut i: usize = 0;
    proof {
        assert(files@.subrange(0, 0) =~= Seq::<(String, String)>::empty());
    }
    while i < files.len()
        invariant
            site.inv(),
            site.site_name == old(site).site_name,
            site.static_url == old(site).static_url,
            site.template_url == old(site).template_url,
            site.template_path == old(site).template_path,
            site.dithering == old(site).dithering,
            site.base_url == old(site).base_url,
            i <= files@.len(),
            m0 == model_of(*old(site)),
            forall|k: int|
                0 <= k < files@.len() ==> last_index_of(#[trigger] files@[k].0@, '/') is Some
                    && last_index_of(files@[k].0@, '/').unwrap() + 4 <= files@[k].0@.len(),
            parse_phase(files@.subrange(0, i as int), template@, m0, model_of(*site)),
        decreases files@.len() - i,
    {
        let pair = &files[i];
        match Page::from_content(pair.0.as_str(), pair.1.as_str(), template) {
            Ok(page) => {
                let ghost pre = *site;
                let ghost pv = page@;
                site.add_page(page);
                proof {
                    lemma_has_cat_is_contains(pre.categories@, spec_lower(pv.category));
                    assert(page_views(site.pages@) =~= add_effect(model_of(pre), pv).pages);
                    assert(page_views(site.drafts@) =~= add_effect(model_of(pre), pv).drafts);
                    assert(str_views(site.directory@) =~= add_effect(model_of(pre), pv).dirs);
                    assert(str_views(site.categories@) =~= add_effect(model_of(pre), pv).cats);
                    assert(model_of(*site) == add_effect(model_of(pre), pv));
                    assert(doc_builds(files@[i as int].0@, files@[i as int].1@, template@, pv));
                    lemma_parse_phase_snoc(
                        files@.subrange(0, i as int),
                        template@,
                        m0,
                        model_of(pre),
                        files@[i as int],
                        pv,
                    );
                    assert(files@.subrange(0, i as int).push(files@[i as int]) =~= files@.subrange(
                        0,
                        i as int + 1,
                    ));
                }
            },
            Err(e) => {
                proof {
                    assert(parse_phase(
                        files@.subrange(0, i as int),
                        template@,
                        m0,
                        model_of(*site),
                    ));
                    assert(doc_fails(files@[i as int].0@, files@[i as int].1@, template@, e));
                    assert(build_fails_with(
                        files@,
                        timestamp@,
                        template@,
                        model_of(*old(site)),
                        e,
                    ));
                }
                return Err(e);
            },
        }
        i += 1;
    }
    proof {
        assert(files@.subrange(0, files@.len() as int) =~= files@);
    }
    let ghost mid = model_of(*site);
    let nav = site.create_category_links();
    let cats = clone_strings(&site.categories);
    let mut ci: usize = 0;
    proof {
        assert(mid.cats.subrange(0, 0) =~= Seq::<Seq<char>>::empty());
    }
    while ci < cats.len()
        invariant
            site.inv(),
            site.site_name == old(site).site_name,
            site.static_url == old(site).static_url,
            site.template_url == old(site).template_url,
            site.template_path == old(site).template_path,
            site.dithering == old(site).dithering,
            site.base_url == old(site).base_url,
            m0 == model_of(*old(site)),
            parse_phase(files@, template@, m0, mid),
            is_nav_of(mid.cats, nav@),
            str_views(cats@) == mid.cats,
            cats@.len() == mid.cats.len(),
            ci <= cats@.len(),
            aggregate_phase(
                mid.cats.subrange(0, ci as int),
                timestamp@,
                template@,
                mid,
                model_of(*site),
            ),
        decreases cats@.len() - ci,
    {
        let ghost c = mid.cats[ci as int];
        let cat = &cats[ci];
        proof {
            assert(cats@[ci as int]@ == str_views(cats@)[ci as int]);
        }
        let mut probe = String::from_str("/");
        probe.append(cat.as_str());
        probe.append("/index.html");
        proof {
            assert(probe@ == "/"@ + c + "/index.html"@);
        }
        let in_dir = contains_string(&site.directory, &probe);
        proof {
            lemma_has_cat_is_contains(site.directory@, probe@);
        }
        if !in_dir {
            let content = index_page_content(cat.as_str(), timestamp);
            let fpath = index_file_path(cat.as_str());
            match Page::from_content(fpath.as_str(), content.as_str(), template) {
                Ok(page) => {
                    let ghost pre = *site;
                    let ghost pv = page@;
                    site.add_page(page);
                    proof {
                        lemma_has_cat_is_contains(pre.categories@, spec_lower(pv.category));
                        assert(page_views(site.pages@) =~= add_effect(model_of(pre), pv).pages);
                        assert(page_views(site.drafts@) =~= add_effect(model_of(pre), pv).drafts);
                        assert(str_views(site.directory@) =~= add_effect(model_of(pre), pv).dirs);
                        assert(str_views(site.categories@) =~= add_effect(
                            model_of(pre),
                            pv,
                        ).cats);
                        assert(model_of(*site) == add_effect(model_of(pre), pv));
                        assert(doc_builds(
                            spec_index_path(c),
                            spec_index_input(c, timestamp@),
                            template@,
                            pv,
                        ));
                        lemma_aggregate_phase_snoc_add(
                            mid.cats.subrange(0, ci as int),
                            timestamp@,
                            template@,
                            mid,
                            model_of(pre),
                            c,
                            pv,
                        );
                        assert(mid.cats.subrange(0, ci as int).push(c) =~= mid.cats.subrange(
                            0,
                            ci as int + 1,
                        ));
                    }
                },
                Err(e) => {
                    proof {
                        assert(parse_phase(files@, template@, m0, mid));
                        assert(aggregate_phase(
                            mid.cats.subrange(0, ci as int),
                            timestamp@,
                            template@,
                            mid,
                            model_of(*site),
                        ));
                        assert(!model_of(*site).dirs.contains("/"@ + c + "/index.html"@));
                        assert(doc_fails(
                            spec_index_path(c),
                            spec_index_input(c, timestamp@),
                            template@,
                            e,
                        ));
                        assert(0 <= (ci as int) < mid.cats.len());
                        assert(build_fails_with(files@, timestamp@, template@, m0, e));
                        assert(build_fails_with(
                            files@,
                            timestamp@,
                            template@,
                            model_of(*old(site)),
                            e,
                        ));
                    }
                    return Err(e);
                },
            }
        } else {
            proof {
                lemma_aggregate_phase_snoc_skip(
                    mid.cats.subrange(0, ci as int),
                    timestamp@,
                    template@,
                    mid,
                    model_of(*site),
                    c,
                );
                assert(mid.cats.subrange(0, ci as int).push(c) =~= mid.cats.subrange(
                    0,
                    ci as int + 1,
                ));
            }
        }
        ci += 1;
    }
    proof {
        assert(mid.cats.subrange(0, mid.cats.len() as int) =~= mid.cats);
    }
    let ghost fin = model_of(*site);
    let pages = clone_pages(&site.pages);
    let drafts = clone_pages(&site.drafts);
    let np = pages.len();
    let mut outs: Vec<(String, String)> = Vec::new();
    let mut wi: usize = 0;
    while wi < pages.len()
        invariant
            site.inv(),
            site.site_name == old(site).site_name,
            site.static_url == old(site).static_url,
            site.template_url == old(site).template_url,
            site.template_path == old(site).template_path,
            site.dithering == old(site).dithering,
            site.base_url == old(site).base_url,
            m0 == model_of(*old(site)),
            parse_phase(files@, template@, m0, mid),
            aggregate_phase(mid.cats, timestamp@, template@, mid, fin),
            is_nav_of(mid.cats, nav@),
            page_views(pages@) == fin.pages,
            page_views(drafts@) == fin.drafts,
            np == pages@.len(),
            str_views(site.categories@) == fin.cats,
            str_views(site.directory@) == fin.dirs,
            page_views(site.drafts@) == fin.drafts,
            page_views(site.pages@).to_multiset() == fin.pages.to_multiset(),
            wi <= pages@.len(),
            outs@.len() == wi,
            wi > 0 ==> sorted_desc(page_views(site.pages@)),
            forall|j: int|
                0 <= j < wi ==> is_written_output(
                    #[trigger] outs@[j],
                    fin.pages[j],
                    fin.cats,
                    fin.pages.to_multiset(),
                    nav@,
                    old(site).site_name@,
                ),
        decreases pages@.len() - wi,
    {
        let mut page = pages[wi].clone();
        let ghost pv = page@;
        proof {
            assert(pv == page_views(pages@)[wi as int]);
        }
        page.replace_index(site);
        let ghost sp = page_views(site.pages@);
        proof {
            assert(page@.content == spec_index_chain(pv.content, fin.cats, sp));
        }
        page.replace_navbar(nav.as_str());
        page.replace_site_name(site.site_name.as_str());
        proof {
            assert(page@.content == spec_second_pass(
                pv.content,
                fin.cats,
                sp,
                nav@,
                old(site).site_name@,
            ));
        }
        let mut opath = String::from_str("site");
        opath.append(page.output_path.as_str());
        opath.append("/");
        opath.append(page.filename.as_str());
        opath.append(".html");
        outs.push((opath, page.content));
        proof {
            assert(outs@[wi as int].0@ == "site"@ + fin.pages[wi as int].output_path + "/"@
                + fin.pages[wi as int].filename + ".html"@);
            assert(outs@[wi as int].1@ == spec_second_pass(
                fin.pages[wi as int].content,
                fin.cats,
                sp,
                nav@,
                old(site).site_name@,
            ));
            assert(is_written_output(
                outs@[wi as int],
                fin.pages[wi as int],
                fin.cats,
                fin.pages.to_multiset(),
                nav@,
                old(site).site_name@,
            ));
        }
        wi += 1;
    }
    let mut di: usize = 0;
    while di < drafts.len()
        invariant
            site.inv(),
            site.site_name == old(site).site_name,
            site.static_url == old(site).static_url,
            site.template_url == old(site).template_url,
            site.template_path == old(site).template_path,
            site.dithering == old(site).dithering,
            site.base_url == old(site).base_url,
            m0 == model_of(*old(site)),
            parse_phase(files@, template@, m0, mid),
            aggregate_phase(mid.cats, timestamp@, template@, mid, fin),
            is_nav_of(mid.cats, nav@),
            page_views(pages@) == fin.pages,
            page_views(drafts@) == fin.drafts,
            np == pages@.len(),
            str_views(site.categories@) == fin.cats,
            str_views(site.directory@) == fin.dirs,
            page_views(site.drafts@) == fin.drafts,
            page_views(site.pages@).to_multiset() == fin.pages.to_multiset(),
            di <= drafts@.len(),
            outs@.len() == np + di,
            np + di > 0 ==> sorted_desc(page_views(site.pages@)),
            forall|j: int|
                0 <= j < np ==> is_written_output(
                    #[trigger] outs@[j],
                    fin.pages[j],
                    fin.cats,
                    fin.pages.to_multiset(),
                    nav@,
                    old(site).site_name@,
                ),
            forall|j: int|
                0 <= j < di ==> is_written_output(
                    #[trigger] outs@[np + j],
                    fin.drafts[j],
                    fin.cats,
                    fin.pages.to_multiset(),
                    nav@,
                    old(site).site_name@,
                ),
        decreases drafts@.len() - di,
    {
        let mut page = drafts[di].clone();
        let ghost pv = page@;
        proof {
            assert(pv == page_views(drafts@)[di as int]);
        }
        page.replace_index(site);
        let ghost sp = page_views(site.pages@);
        proof {
            assert(page@.content == spec_index_chain(pv.content, fin.cats, sp));
        }
        page.replace_navbar(nav.as_str());
        page.replace_site_name(site.site_name.as_str());
        proof {
            assert(page@.content == spec_second_pass(
                pv.content,
                fin.cats,
                sp,
                nav@,
                old(site).site_name@,
            ));
        }
        let mut opath = String::from_str("site");
        opath.append(page.output_path.as_str());
        opath.append("/");
        opath.append(page.filename.as_str());
        opath.append(".html");
        outs.push((opath, page.content));
        proof {
            assert(outs@[(np + di) as int].0@ == "site"@ + fin.drafts[di as int].output_path
                + "/"@ + fin.drafts[di as int].filename + ".html"@);
            assert(outs@[(np + di) as int].1@ == spec_second_pass(
                fin.drafts[di as int].content,
                fin.cats,
                sp,
                nav@,
                old(site).site_name@,
            ));
            assert(is_written_output(
                outs@[(np + di) as int],
                fin.drafts[di as int],
                fin.cats,
                fin.pages.to_multiset(),
                nav@,
                old(site).site_name@,
            ));
        }
        di += 1;
    }
    proof {
        let wl = fin.pages + fin.drafts;
        if wl.len() == 0 {
            assert(page_views(site.pages@).to_multiset().len() == fin.pages.to_multiset().len());
            assert(page_views(site.pages@).len() == 0);
            assert(sorted_desc(page_views(site.pages@)));
        }
        assert forall|j: int| 0 <= j < wl.len() implies (#[trigger] outs@[j].0@) == "site"@
            + wl[j].output_path + "/"@ + wl[j].filename + ".html"@ && outs@[j].1@
            == spec_second_pass(
            wl[j].content,
            fin.cats,
            page_views(site.pages@),
            nav@,
            old(site).site_name@,
        ) by {
            let p = if j < np {
                fin.pages[j]
            } else {
                fin.drafts[j - np]
            };
            assert(wl[j] == p);
            if j >= np {
                let k = j - np;
                assert(is_written_output(
                    outs@[np + k],
                    fin.drafts[k],
                    fin.cats,
                    fin.pages.to_multiset(),
                    nav@,
                    old(site).site_name@,
                ));
                assert(outs@[np + k] == outs@[j]);
            }
            assert(is_written_output(
                outs@[j],
                p,
                fin.cats,
                fin.pages.to_multiset(),
                nav@,
                old(site).site_name@,
            ));
            let sq = choose|sorted_ps: Seq<PageView>|
                sorted_desc(sorted_ps) && sorted_ps.to_multiset() == fin.pages.to_multiset()
                    && outs@[j].1@ == #[trigger] spec_second_pass(
                    p.content,
                    fin.cats,
                    sorted_ps,
                    nav@,
                    old(site).site_name@,
                );
            lemma_sorted_desc_unique(sq, page_views(site.pages@));
        };
        assert(write_phase(
            wl,
            fin.cats,
            page_views(site.pages@),
            nav@,
            old(site).site_name@,
            outs@,
        ));
        assert(parse_phase(files@, template@, model_of(*old(site)), mid));
        assert(aggregate_phase(mid.cats, timestamp@, template@, mid, fin));
        assert(is_nav_of(mid.cats, nav@));
    }
    Ok(outs)
}

} // verus!
