//! The build-scoped aggregate: the full document set of one build, the
//! derived category set, and the site-wide navigation and listing
//! fragments computed from them.

use vstd::multiset::Multiset;
use vstd::prelude::*;

use crate::dates::{convert_datetime, spec_display_date};
use crate::page::{Page, PageView};
use crate::text::{
    chars_string, contains_sub, ends_with, has_suffix, lemma_lex_le_total, lemma_lex_le_trans,
    lex_le, lex_le_vec, occurs, push_all, replace_all, spec_lower, spec_replace, str_chars,
    to_lower, vec_eq,
};

verus! {

broadcast use vstd::seq_lib::group_to_multiset_ensures;

/// The categories that never enter the category set: the uncategorized
/// values, and `draft`.
pub open spec fn is_reserved(cat: Seq<char>) -> bool {
    cat == "home"@ || cat == "index"@ || cat == "draft"@ || cat.len() == 0
}

pub open spec fn str_views(s: Seq<String>) -> Seq<Seq<char>> {
    s.map_values(|x: String| x@)
}

pub open spec fn page_views(s: Seq<Page>) -> Seq<PageView> {
    s.map_values(|p: Page| p@)
}

/// `c` is one of the category strings.
pub open spec fn has_cat(cats: Seq<String>, c: Seq<char>) -> bool {
    exists|i: int| 0 <= i < cats.len() && #[trigger] cats[i]@ == c
}

/// Membership among the strings and among their views agree.
pub proof fn lemma_has_cat_is_contains(cats: Seq<String>, c: Seq<char>)
    ensures
        has_cat(cats, c) == str_views(cats).contains(c),
{
    if has_cat(cats, c) {
        let i = choose|i: int| 0 <= i < cats.len() && #[trigger] cats[i]@ == c;
        assert(str_views(cats)[i] == c);
    }
    if str_views(cats).contains(c) {
        let i = choose|i: int| 0 <= i < str_views(cats).len() && str_views(cats)[i] == c;
        assert(cats[i]@ == c);
    }
}

pub struct Site {
    pub pages: Vec<Page>,
    pub drafts: Vec<Page>,
    pub directory: Vec<String>,
    pub categories: Vec<String>,
    pub site_name: String,
    pub static_url: String,
    pub template_url: String,
    pub template_path: String,
    pub dithering: bool,
    pub base_url: String,
}

impl Site {
    /// What every build-scoped site maintains: drafts never enter the page
    /// collection, and the category set holds distinct, non-reserved
    /// values only.
    pub open spec fn inv(self) -> bool {
        &&& (forall|i: int|
            0 <= i < self.pages@.len() ==> spec_lower(#[trigger] self.pages@[i]@.category)
                != "draft"@)
        &&& (forall|i: int|
            0 <= i < self.categories@.len() ==> !is_reserved(#[trigger] self.categories@[i]@))
        &&& (forall|i: int|
            0 <= i < self.categories@.len() ==> spec_lower(#[trigger] self.categories@[i]@)
                == self.categories@[i]@)
        &&& (forall|i: int, j: int|
            0 <= i < j < self.categories@.len() ==> #[trigger] self.categories@[i]@ != #[trigger] self.categories@[j]@)
    }

    /// An empty site with the default configuration; the configuration
    /// loader overwrites the fields it finds configured.
    pub fn new() -> (site: Site)
        ensures
            site.pages@.len() == 0,
            site.drafts@.len() == 0,
            site.directory@.len() == 0,
            site.categories@.len() == 0,
            site.site_name@ == "md_puppy site"@,
            site.static_url@
                == "https://github.com/SoftAnnaLee/md_puppy/releases/download/static/static.zip"@,
            site.template_url@
                == "https://raw.githubusercontent.com/SoftAnnaLee/md_puppy/main/template/boilerplate.html"@,
            site.template_path@ == "template/boilerplate.html"@,
            site.dithering == false,
            site.base_url@ == "https://www.example.com"@,
            site.inv(),
    {
        Site {
            pages: Vec::new(),
            drafts: Vec::new(),
            directory: Vec::new(),
            categories: Vec::new(),
            site_name: String::from_str("md_puppy site"),
            static_url: String::from_str(
                "https://github.com/SoftAnnaLee/md_puppy/releases/download/static/static.zip",
            ),
            template_url: String::from_str(
                "https://raw.githubusercontent.com/SoftAnnaLee/md_puppy/main/template/boilerplate.html",
            ),
            template_path: String::from_str("template/boilerplate.html"),
            dithering: false,
            base_url: String::from_str("https://www.example.com"),
        }
    }
}

/// Whether one of the strings reads `c`.
pub(crate) fn contains_string(v: &Vec<String>, s: &String) -> (r: bool)
    ensures
        r == has_cat(v@, s@),
{
    let mut i: usize = 0;
    while i < v.len()
        invariant
            i <= v@.len(),
            forall|j: int| 0 <= j < i ==> #[trigger] v@[j]@ != s@,
        decreases v@.len() - i,
    {
        if v[i] == *s {
            return true;
        }
        i += 1;
    }
    false
}

impl Site {
    /// Inserts a parsed page into the build. The case-folded category
    /// joins the category set unless it is reserved or already present; a
    /// draft page is kept aside for the write pass but stays out of the
    /// page collection and the output directory, so the aggregation layer
    /// never sees it.
    pub fn add_page(&mut self, page: Page)
        ensures
            final(self).site_name == old(self).site_name,
            final(self).static_url == old(self).static_url,
            final(self).template_url == old(self).template_url,
            final(self).template_path == old(self).template_path,
            final(self).dithering == old(self).dithering,
            final(self).base_url == old(self).base_url,
            ({
                let cat = spec_lower(page@.category);
                &&& (if cat == "draft"@ {
                    &&& final(self).pages@ == old(self).pages@
                    &&& final(self).directory@ == old(self).directory@
                    &&& final(self).drafts@ == old(self).drafts@.push(page)
                } else {
                    &&& final(self).drafts@ == old(self).drafts@
                    &&& final(self).pages@ == old(self).pages@.push(page)
                    &&& final(self).directory@.len() == old(self).directory@.len() + 1
                    &&& final(self).directory@[old(self).directory@.len() as int]@ == page@.output_path
                        + "/"@ + page@.filename + ".html"@
                    &&& (forall|i: int|
                        0 <= i < old(self).directory@.len() ==> final(self).directory@[i] == old(
                            self,
                        ).directory@[i])
                })
                &&& (if is_reserved(cat) || has_cat(old(self).categories@, cat) {
                    final(self).categories@ == old(self).categories@
                } else {
                    &&& final(self).categories@.len() == old(self).categories@.len() + 1
                    &&& final(self).categories@[old(self).categories@.len() as int]@ == cat
                    &&& (forall|i: int|
                        0 <= i < old(self).categories@.len() ==> final(self).categories@[i] == old(
                            self,
                        ).categories@[i])
                })
            }),
            old(self).inv() ==> final(self).inv(),
    {
        let cat_chars = to_lower(&str_chars(page.category.as_str()));
        let cat = chars_string(&cat_chars);
        let mut path = page.output_path.clone();
        path.append("/");
        path.append(page.filename.as_str());
        path.append(".html");
        let is_draft = vec_eq(&cat_chars, &str_chars("draft"));
        let reserved = vec_eq(&cat_chars, &str_chars("home")) || vec_eq(
            &cat_chars,
            &str_chars("index"),
        ) || is_draft || cat_chars.len() == 0;
        if !reserved && !contains_string(&self.categories, &cat) {
            self.categories.push(cat);
        }
        if is_draft {
            self.drafts.push(page);
        } else {
            self.pages.push(page);
            self.directory.push(path);
        }
        proof {
            if old(self).inv() {
                crate::text::lemma_lower_idempotent(page@.category);
                assert forall|i: int, j: int|
                    0 <= i < j < self.categories@.len() implies #[trigger] self.categories@[i]@
                    != #[trigger] self.categories@[j]@ by {
                    if j == self.categories@.len() - 1
                        && self.categories@.len() == old(self).categories@.len() + 1 {
                        assert(!has_cat(old(self).categories@, self.categories@[j]@));
                    }
                };
            }
        }
    }
}

// ---------------------------------------------------------------------------
// The total order on pages: date first, then the remaining fields in
// declaration order, each compared lexicographically
// ---------------------------------------------------------------------------

pub open spec fn page_key(p: PageView) -> Seq<Seq<char>> {
    seq![
        p.date,
        p.title,
        p.category,
        p.description,
        p.content,
        p.filepath,
        p.filename,
        p.output_path,
    ]
}

pub open spec fn page_le(a: PageView, b: PageView) -> bool {
    crate::text::lex2_le(page_key(a), page_key(b))
}

pub proof fn lemma_page_le_total(a: PageView, b: PageView)
    ensures
        page_le(a, b) || page_le(b, a),
{
    crate::text::lemma_lex2_le_total(page_key(a), page_key(b));
}

pub proof fn lemma_page_le_trans(a: PageView, b: PageView, c: PageView)
    requires
        page_le(a, b),
        page_le(b, c),
    ensures
        page_le(a, c),
{
    crate::text::lemma_lex2_le_trans(page_key(a), page_key(b), page_key(c));
}

fn page_key_vec(p: &Page) -> (k: Vec<Vec<char>>)
    ensures
        crate::text::vecs_views(k@) == page_key(p@),
{
    let mut k: Vec<Vec<char>> = Vec::new();
    k.push(str_chars(p.date.as_str()));
    k.push(str_chars(p.title.as_str()));
    k.push(str_chars(p.category.as_str()));
    k.push(str_chars(p.description.as_str()));
    k.push(str_chars(p.content.as_str()));
    k.push(str_chars(p.filepath.as_str()));
    k.push(str_chars(p.filename.as_str()));
    k.push(str_chars(p.output_path.as_str()));
    proof {
        assert(crate::text::vecs_views(k@) =~= page_key(p@));
    }
    k
}

fn page_le_exec(a: &Page, b: &Page) -> (r: bool)
    ensures
        r == page_le(a@, b@),
{
    let ka = page_key_vec(a);
    let kb = page_key_vec(b);
    crate::text::lex2_le_vec(&ka, &kb)
}

/// Descending in the page order: every earlier page is at least every
/// later one.
pub open spec fn sorted_desc(ps: Seq<PageView>) -> bool {
    forall|i: int, j: int| 0 <= i < j < ps.len() ==> page_le(#[trigger] ps[j], #[trigger] ps[i])
}

fn max_page_index(v: &Vec<Page>) -> (m: usize)
    requires
        v@.len() > 0,
    ensures
        m < v@.len(),
        forall|k: int|
            0 <= k < v@.len() ==> page_le(#[trigger] page_views(v@)[k], page_views(v@)[m as int]),
{
    let mut m: usize = 0;
    let mut k: usize = 1;
    proof {
        lemma_page_le_total(page_views(v@)[0], page_views(v@)[0]);
    }
    while k < v.len()
        invariant
            m < k <= v@.len(),
            forall|t: int|
                0 <= t < k ==> page_le(#[trigger] page_views(v@)[t], page_views(v@)[m as int]),
        decreases v@.len() - k,
    {
        if page_le_exec(&v[m], &v[k]) {
            proof {
                assert forall|t: int| 0 <= t < k + 1 implies page_le(
                    #[trigger] page_views(v@)[t],
                    page_views(v@)[k as int],
                ) by {
                    if t < k {
                        lemma_page_le_trans(
                            page_views(v@)[t],
                            page_views(v@)[m as int],
                            page_views(v@)[k as int],
                        );
                    } else {
                        lemma_page_le_total(page_views(v@)[t], page_views(v@)[t]);
                    }
                };
            }
            m = k;
        } else {
            proof {
                lemma_page_le_total(page_views(v@)[k as int], page_views(v@)[m as int]);
            }
        }
        k += 1;
    }
    m
}

/// A copy of the pages, sorted descending in the page order.
fn sorted_pages_desc(v: &Vec<Page>) -> (r: Vec<Page>)
    ensures
        page_views(r@).to_multiset() == page_views(v@).to_multiset(),
        sorted_desc(page_views(r@)),
{
    let mut rest: Vec<Page> = Vec::new();
    let mut i: usize = 0;
    while i < v.len()
        invariant
            i <= v@.len(),
            rest@ =~= v@.subrange(0, i as int),
        decreases v@.len() - i,
    {
        rest.push(v[i].clone());
        proof {
            assert(rest@ =~= v@.subrange(0, i + 1));
        }
        i += 1;
    }
    proof {
        assert(rest@ =~= v@);
    }
    let mut out: Vec<Page> = Vec::new();
    proof {
        assert(page_views(out@).to_multiset().add(page_views(rest@).to_multiset()) =~= page_views(
            v@,
        ).to_multiset());
    }
    while rest.len() > 0
        invariant
            page_views(out@).to_multiset().add(page_views(rest@).to_multiset()) == page_views(
                v@,
            ).to_multiset(),
            sorted_desc(page_views(out@)),
            forall|x: int, y: int|
                0 <= x < out@.len() && 0 <= y < rest@.len() ==> page_le(
                    #[trigger] page_views(rest@)[y],
                    #[trigger] page_views(out@)[x],
                ),
        decreases rest@.len(),
    {
        let m = max_page_index(&rest);
        let ghost rest0 = rest@;
        let ghost out0 = out@;
        let x = rest.remove(m);
        let ghost xv = x@;
        proof {
            assert(page_views(rest@) =~= page_views(rest0).remove(m as int));
            assert(page_views(rest0).contains(xv)) by {
                assert(page_views(rest0)[m as int] == xv);
            };
        }
        out.push(x);
        proof {
            assert(page_views(out@) =~= page_views(out0).push(xv));
            let mo = page_views(out0).to_multiset();
            let mr = page_views(rest0).to_multiset();
            assert(page_views(out@).to_multiset() =~= mo.insert(xv));
            assert(page_views(rest@).to_multiset() =~= mr.remove(xv));
            assert(mr.count(xv) > 0);
            assert(mo.insert(xv).add(mr.remove(xv)) =~= mo.add(mr));
            assert forall|p: int, q: int| 0 <= p < q < page_views(out@).len() implies page_le(
                #[trigger] page_views(out@)[q],
                #[trigger] page_views(out@)[p],
            ) by {
                if q == page_views(out@).len() - 1 {
                    assert(page_views(out@)[q] == xv);
                    assert(page_le(page_views(rest0)[m as int], page_views(out0)[p]));
                }
            };
            assert forall|p: int, y: int|
                0 <= p < out@.len() && 0 <= y < rest@.len() implies page_le(
                #[trigger] page_views(rest@)[y],
                #[trigger] page_views(out@)[p],
            ) by {
                let y0: int = if y < m { y } else { y + 1 };
                assert(page_views(rest@)[y] == page_views(rest0)[y0]);
                if p == out@.len() - 1 {
                    assert(page_views(out@)[p] == xv);
                    assert(page_le(page_views(rest0)[y0], page_views(rest0)[m as int]));
                } else {
                    assert(page_le(page_views(rest0)[y0], page_views(out0)[p]));
                }
            };
        }
    }
    proof {
        assert(page_views(rest@) =~= Seq::<PageView>::empty());
        assert(page_views(rest@).to_multiset() =~= Multiset::<PageView>::empty());
        assert(page_views(out@).to_multiset().add(Multiset::<PageView>::empty())
            =~= page_views(out@).to_multiset());
    }
    out
}

// ---------------------------------------------------------------------------
// Category sorting for navigation
// ---------------------------------------------------------------------------

/// Ascending in code-point order.
pub open spec fn sorted_lex(s: Seq<Seq<char>>) -> bool {
    forall|i: int, j: int| 0 <= i < j < s.len() ==> lex_le(#[trigger] s[i], #[trigger] s[j])
}

fn str_lex_le(a: &String, b: &String) -> (r: bool)
    ensures
        r == lex_le(a@, b@),
{
    let ac = str_chars(a.as_str());
    let bc = str_chars(b.as_str());
    lex_le_vec(&ac, &bc)
}

fn min_string_index(v: &Vec<String>) -> (m: usize)
    requires
        v@.len() > 0,
    ensures
        m < v@.len(),
        forall|k: int| 0 <= k < v@.len() ==> lex_le(v@[m as int]@, #[trigger] v@[k]@),
{
    let mut m: usize = 0;
    let mut k: usize = 1;
    proof {
        lemma_lex_le_total(v@[0]@, v@[0]@);
    }
    while k < v.len()
        invariant
            m < k <= v@.len(),
            forall|t: int| 0 <= t < k ==> lex_le(v@[m as int]@, #[trigger] v@[t]@),
        decreases v@.len() - k,
    {
        if str_lex_le(&v[k], &v[m]) {
            proof {
                assert forall|t: int| 0 <= t < k + 1 implies lex_le(
                    v@[k as int]@,
                    #[trigger] v@[t]@,
                ) by {
                    if t < k {
                        lemma_lex_le_trans(v@[k as int]@, v@[m as int]@, v@[t]@);
                    } else {
                        lemma_lex_le_total(v@[t]@, v@[t]@);
                    }
                };
            }
            m = k;
        } else {
            proof {
                lemma_lex_le_total(v@[m as int]@, v@[k as int]@);
            }
        }
        k += 1;
    }
    m
}

/// A copy of the strings, sorted ascending in code-point order.
fn sorted_strings(v: &Vec<String>) -> (r: Vec<String>)
    ensures
        str_views(r@).to_multiset() == str_views(v@).to_multiset(),
        sorted_lex(str_views(r@)),
{
    let mut rest: Vec<String> = Vec::new();
    let mut i: usize = 0;
    while i < v.len()
        invariant
            i <= v@.len(),
            rest@ =~= v@.subrange(0, i as int),
        decreases v@.len() - i,
    {
        rest.push(v[i].clone());
        proof {
            assert(rest@ =~= v@.subrange(0, i + 1));
        }
        i += 1;
    }
    proof {
        assert(rest@ =~= v@);
    }
    let mut out: Vec<String> = Vec::new();
    proof {
        assert(str_views(out@).to_multiset().add(str_views(rest@).to_multiset()) =~= str_views(
            v@,
        ).to_multiset());
    }
    while rest.len() > 0
        invariant
            str_views(out@).to_multiset().add(str_views(rest@).to_multiset()) == str_views(
                v@,
            ).to_multiset(),
            sorted_lex(str_views(out@)),
            forall|x: int, y: int|
                0 <= x < out@.len() && 0 <= y < rest@.len() ==> lex_le(
                    #[trigger] str_views(out@)[x],
                    #[trigger] str_views(rest@)[y],
                ),
        decreases rest@.len(),
    {
        let m = min_string_index(&rest);
        let ghost rest0 = rest@;
        let ghost out0 = out@;
        let x = rest.remove(m);
        let ghost xv = x@;
        proof {
            assert(str_views(rest@) =~= str_views(rest0).remove(m as int));
            assert(str_views(rest0).contains(xv)) by {
                assert(str_views(rest0)[m as int] == xv);
            };
        }
        out.push(x);
        proof {
            assert(str_views(out@) =~= str_views(out0).push(xv));
            let mo = str_views(out0).to_multiset();
            let mr = str_views(rest0).to_multiset();
            assert(str_views(out@).to_multiset() =~= mo.insert(xv));
            assert(str_views(rest@).to_multiset() =~= mr.remove(xv));
            assert(mr.count(xv) > 0);
            assert(mo.insert(xv).add(mr.remove(xv)) =~= mo.add(mr));
            assert forall|p: int, q: int| 0 <= p < q < str_views(out@).len() implies lex_le(
                #[trigger] str_views(out@)[p],
                #[trigger] str_views(out@)[q],
            ) by {
                if q == str_views(out@).len() - 1 {
                    assert(str_views(out@)[q] == xv);
                    assert(lex_le(str_views(out0)[p], str_views(rest0)[m as int]));
                }
            };
            assert forall|p: int, y: int|
                0 <= p < out@.len() && 0 <= y < rest@.len() implies lex_le(
                #[trigger] str_views(out@)[p],
                #[trigger] str_views(rest@)[y],
            ) by {
                let y0: int = if y < m { y } else { y + 1 };
                assert(str_views(rest@)[y] == str_views(rest0)[y0]);
                if p == out@.len() - 1 {
                    assert(str_views(out@)[p] == xv);
                    assert(lex_le(str_views(rest0)[m as int], str_views(rest0)[y0]));
                } else {
                    assert(lex_le(str_views(out0)[p], str_views(rest0)[y0]));
                }
            };
        }
    }
    proof {
        assert(str_views(rest@) =~= Seq::<Seq<char>>::empty());
        assert(str_views(rest@).to_multiset() =~= Multiset::<Seq<char>>::empty());
        assert(str_views(out@).to_multiset().add(Multiset::<Seq<char>>::empty()) =~= str_views(
            out@,
        ).to_multiset());
    }
    out
}

// ---------------------------------------------------------------------------
// Navigation and per-category listings
// ---------------------------------------------------------------------------

/// One navigation link per category, in the given order.
pub open spec fn spec_nav_items(cats: Seq<Seq<char>>) -> Seq<char>
    decreases cats.len(),
{
    if cats.len() == 0 {
        Seq::empty()
    } else {
        "<li><a href='/"@ + cats[0] + "/index.html'>"@ + cats[0] + "</a></li>\n"@
            + spec_nav_items(cats.drop_first())
    }
}

/// One listing entry: link to the page's output file, showing its display
/// date and title.
pub open spec fn listing_item(p: PageView) -> Seq<char> {
    "<li><a href='"@ + p.output_path + "/"@ + p.filename + ".html'>"@ + spec_display_date(p.date)
        + " - "@ + p.title + "</a></li>\n"@
}

/// The listing body for one category over a page sequence, in order: every
/// page of the category except index files themselves.
pub open spec fn spec_listing(ps: Seq<PageView>, cat: Seq<char>) -> Seq<char>
    decreases ps.len(),
{
    if ps.len() == 0 {
        Seq::empty()
    } else {
        (if ps[0].category == cat && !ends_with(ps[0].filepath, "index.md"@) {
            listing_item(ps[0])
        } else {
            Seq::<char>::empty()
        }) + spec_listing(ps.drop_first(), cat)
    }
}

/// Renders the listing body for `category` over the pages as they stand.
fn render_listing(ps: &Vec<Page>, category: &str) -> (r: String)
    ensures
        r@ == spec_listing(page_views(ps@), category@),
{
    let cat_chars = str_chars(category);
    let idx_md = str_chars("index.md");
    proof {
        reveal_strlit("index.md");
    }
    let mut out = String::new();
    let ghost pv = page_views(ps@);
    let ghost mut built: Seq<char> = Seq::empty();
    let mut i: usize = 0;
    proof {
        assert(pv.skip(0) =~= pv);
        assert(Seq::<char>::empty() + spec_listing(pv, category@) =~= spec_listing(pv, category@));
    }
    while i < ps.len()
        invariant
            pv == page_views(ps@),
            i <= pv.len(),
            ps@.len() == pv.len(),
            idx_md@ == "index.md"@,
            cat_chars@ == category@,
            out@ == built,
            spec_listing(pv, category@) == built + spec_listing(pv.skip(i as int), category@),
        decreases pv.len() - i,
    {
        let ghost rest = pv.skip(i as int);
        proof {
            assert(rest[0] == pv[i as int]);
            assert(rest.drop_first() =~= pv.skip(i as int + 1));
        }
        let p = &ps[i];
        let pcat = str_chars(p.category.as_str());
        let fpath = str_chars(p.filepath.as_str());
        if vec_eq(&pcat, &cat_chars) && !has_suffix(&fpath, &idx_md) {
            out.append("<li><a href='");
            out.append(p.output_path.as_str());
            out.append("/");
            out.append(p.filename.as_str());
            out.append(".html'>");
            let d = convert_datetime(p.date.as_str());
            out.append(d.as_str());
            out.append(" - ");
            out.append(p.title.as_str());
            out.append("</a></li>\n");
            proof {
                built = built + listing_item(pv[i as int]);
                assert(out@ =~= built);
                assert(spec_listing(rest, category@) == listing_item(rest[0]) + spec_listing(
                    rest.drop_first(),
                    category@,
                ));
                assert(built + spec_listing(pv.skip(i as int + 1), category@) =~= spec_listing(
                    pv,
                    category@,
                ));
            }
        } else {
            proof {
                assert(spec_listing(rest, category@) == Seq::<char>::empty() + spec_listing(
                    rest.drop_first(),
                    category@,
                ));
                assert(Seq::<char>::empty() + spec_listing(rest.drop_first(), category@)
                    =~= spec_listing(rest.drop_first(), category@));
            }
        }
        i += 1;
    }
    proof {
        assert(pv.skip(pv.len() as int) =~= Seq::<PageView>::empty());
        assert(built + Seq::<char>::empty() =~= built);
    }
    out
}

/// `r` is the navigation fragment for the given categories: a fixed Home
/// link first, then one link per category, in code-point order.
pub open spec fn is_nav_of(cat_views: Seq<Seq<char>>, r: Seq<char>) -> bool {
    exists|sorted: Seq<Seq<char>>|
        sorted.to_multiset() == cat_views.to_multiset() && sorted_lex(sorted) && r
            == "<nav>\n<ul>\n<li><a href='/index.html'>Home</a></li>\n"@
            + #[trigger] spec_nav_items(sorted) + "</ul>\n</nav>\n"@
}

impl Site {
    /// The site-wide navigation fragment: a fixed Home link first, then
    /// one link per category, in code-point order.
    pub fn create_category_links(&mut self) -> (r: String)
        ensures
            *final(self) == *old(self),
            is_nav_of(str_views(old(self).categories@), r@),
    {
        let sorted = sorted_strings(&self.categories);
        let ghost sv = str_views(sorted@);
        let ghost head = "<nav>\n<ul>\n<li><a href='/index.html'>Home</a></li>\n"@;
        let mut out = String::from_str("<nav>\n<ul>\n<li><a href='/index.html'>Home</a></li>\n");
        let ghost mut built: Seq<char> = Seq::empty();
        let mut i: usize = 0;
        proof {
            assert(sv.skip(0) =~= sv);
            assert(head + Seq::<char>::empty() =~= head);
            assert(Seq::<char>::empty() + spec_nav_items(sv) =~= spec_nav_items(sv));
        }
        while i < sorted.len()
            invariant
                sv == str_views(sorted@),
                i <= sv.len(),
                sorted@.len() == sv.len(),
                out@ == head + built,
                spec_nav_items(sv) == built + spec_nav_items(sv.skip(i as int)),
            decreases sv.len() - i,
        {
            let ghost rest = sv.skip(i as int);
            proof {
                assert(rest[0] == sv[i as int]);
                assert(rest.drop_first() =~= sv.skip(i as int + 1));
            }
            let c = &sorted[i];
            out.append("<li><a href='/");
            out.append(c.as_str());
            out.append("/index.html'>");
            out.append(c.as_str());
            out.append("</a></li>\n");
            proof {
                let item = "<li><a href='/"@ + sv[i as int] + "/index.html'>"@ + sv[i as int]
                    + "</a></li>\n"@;
                built = built + item;
                assert(out@ =~= head + built);
                assert(spec_nav_items(rest) == item + spec_nav_items(rest.drop_first()));
                assert(built + spec_nav_items(sv.skip(i as int + 1)) =~= spec_nav_items(sv));
            }
            i += 1;
        }
        out.append("</ul>\n</nav>\n");
        proof {
            assert(sv.skip(sv.len() as int) =~= Seq::<Seq<char>>::empty());
            assert(built + Seq::<char>::empty() =~= built);
            assert(out@ == head + spec_nav_items(sv) + "</ul>\n</nav>\n"@);
        }
        out
    }

    /// Sorts the build's pages descending in the page order — the same
    /// order every later call reuses, so repeated builds are stable — and
    /// renders the listing for one category.
    pub fn create_category_index(&mut self, category: &str) -> (r: String)
        ensures
            final(self).drafts == old(self).drafts,
            final(self).directory == old(self).directory,
            final(self).categories == old(self).categories,
            final(self).site_name == old(self).site_name,
            final(self).static_url == old(self).static_url,
            final(self).template_url == old(self).template_url,
            final(self).template_path == old(self).template_path,
            final(self).dithering == old(self).dithering,
            final(self).base_url == old(self).base_url,
            page_views(final(self).pages@).to_multiset() == page_views(
                old(self).pages@,
            ).to_multiset(),
            sorted_desc(page_views(final(self).pages@)),
            old(self).inv() ==> final(self).inv(),
            r@ == "<ul>\n"@ + spec_listing(page_views(final(self).pages@), category@)
                + "</ul>\n"@,
    {
        let sorted = sorted_pages_desc(&self.pages);
        let ghost old_views = page_views(old(self).pages@);
        self.pages = sorted;
        proof {
            if old(self).inv() {
                assert forall|i: int| 0 <= i < old_views.len() implies spec_lower(
                    #[trigger] old_views[i].category,
                ) != "draft"@ by {
                    assert(old_views[i] == old(self).pages@[i]@);
                };
                lemma_permutation_keeps_nondraft(old_views, page_views(self.pages@));
                assert forall|i: int| 0 <= i < self.pages@.len() implies spec_lower(
                    #[trigger] self.pages@[i]@.category,
                ) != "draft"@ by {
                    assert(page_views(self.pages@)[i] == self.pages@[i]@);
                };
            }
        }
        let body = render_listing(&self.pages, category);
        let mut out = String::from_str("<ul>\n");
        out.append(body.as_str());
        out.append("</ul>\n");
        out
    }
}

/// Equal keys mean equal pages: the key lists every field.
proof fn lemma_page_key_injective(a: PageView, b: PageView)
    requires
        page_key(a) == page_key(b),
    ensures
        a == b,
{
    assert(a.date == page_key(a)[0] && b.date == page_key(b)[0]);
    assert(a.title == page_key(a)[1] && b.title == page_key(b)[1]);
    assert(a.category == page_key(a)[2] && b.category == page_key(b)[2]);
    assert(a.description == page_key(a)[3] && b.description == page_key(b)[3]);
    assert(a.content == page_key(a)[4] && b.content == page_key(b)[4]);
    assert(a.filepath == page_key(a)[5] && b.filepath == page_key(b)[5]);
    assert(a.filename == page_key(a)[6] && b.filename == page_key(b)[6]);
    assert(a.output_path == page_key(a)[7] && b.output_path == page_key(b)[7]);
}

pub proof fn lemma_page_le_antisym(a: PageView, b: PageView)
    requires
        page_le(a, b),
        page_le(b, a),
    ensures
        a == b,
{
    crate::text::lemma_lex2_le_antisym(page_key(a), page_key(b));
    lemma_page_key_injective(a, b);
}

/// A multiset of pages has exactly one descending arrangement: whatever
/// order the documents were discovered in, sorting settles them the same
/// way, so repeated builds list them identically.
pub proof fn lemma_sorted_desc_unique(a: Seq<PageView>, b: Seq<PageView>)
    requires
        sorted_desc(a),
        sorted_desc(b),
        a.to_multiset() == b.to_multiset(),
    ensures
        a == b,
    decreases a.len(),
{
    assert(a.to_multiset().len() == a.len());
    assert(b.to_multiset().len() == b.len());
    if a.len() == 0 {
        assert(a =~= b);
    } else {
        assert(a.contains(a[0]));
        assert(a.to_multiset().count(a[0]) > 0);
        assert(b.contains(a[0]));
        let j = choose|j: int| 0 <= j < b.len() && b[j] == a[0];
        if j > 0 {
            assert(page_le(b[j], b[0]));
        } else {
            lemma_page_le_total(b[0], b[0]);
        }
        assert(page_le(a[0], b[0]));
        assert(b.contains(b[0]));
        assert(b.to_multiset().count(b[0]) > 0);
        assert(a.contains(b[0]));
        let i = choose|i: int| 0 <= i < a.len() && a[i] == b[0];
        if i > 0 {
            assert(page_le(a[i], a[0]));
        } else {
            lemma_page_le_total(a[0], a[0]);
        }
        assert(page_le(b[0], a[0]));
        lemma_page_le_antisym(a[0], b[0]);
        assert(a.drop_first() =~= a.remove(0));
        assert(b.drop_first() =~= b.remove(0));
        assert(a.drop_first().to_multiset() =~= b.drop_first().to_multiset());
        assert forall|p: int, q: int| 0 <= p < q < a.drop_first().len() implies page_le(
            #[trigger] a.drop_first()[q],
            #[trigger] a.drop_first()[p],
        ) by {
            assert(a.drop_first()[q] == a[q + 1] && a.drop_first()[p] == a[p + 1]);
        };
        assert forall|p: int, q: int| 0 <= p < q < b.drop_first().len() implies page_le(
            #[trigger] b.drop_first()[q],
            #[trigger] b.drop_first()[p],
        ) by {
            assert(b.drop_first()[q] == b[q + 1] && b.drop_first()[p] == b[p + 1]);
        };
        lemma_sorted_desc_unique(a.drop_first(), b.drop_first());
        assert forall|k: int| 0 <= k < a.len() implies a[k] == b[k] by {
            if k > 0 {
                assert(a[k] == a.drop_first()[k - 1]);
                assert(b[k] == b.drop_first()[k - 1]);
            }
        };
        assert(a =~= b);
    }
}

/// Any two sorted page sequences drawn from the same documents carry the
/// same listing for every category.
pub proof fn lemma_listing_deterministic(ps1: Seq<PageView>, ps2: Seq<PageView>, cat: Seq<char>)
    requires
        sorted_desc(ps1),
        sorted_desc(ps2),
        ps1.to_multiset() == ps2.to_multiset(),
    ensures
        spec_listing(ps1, cat) == spec_listing(ps2, cat),
{
    lemma_sorted_desc_unique(ps1, ps2);
}

/// A multiset of category names has exactly one ascending arrangement.
pub proof fn lemma_sorted_lex_unique(a: Seq<Seq<char>>, b: Seq<Seq<char>>)
    requires
        sorted_lex(a),
        sorted_lex(b),
        a.to_multiset() == b.to_multiset(),
    ensures
        a == b,
    decreases a.len(),
{
    assert(a.to_multiset().len() == a.len());
    assert(b.to_multiset().len() == b.len());
    if a.len() == 0 {
        assert(a =~= b);
    } else {
        assert(a.contains(a[0]));
        assert(a.to_multiset().count(a[0]) > 0);
        assert(b.contains(a[0]));
        let j = choose|j: int| 0 <= j < b.len() && b[j] == a[0];
        if j > 0 {
            assert(lex_le(b[0], b[j]));
        } else {
            lemma_lex_le_total(b[0], b[0]);
        }
        assert(lex_le(b[0], a[0]));
        assert(b.contains(b[0]));
        assert(b.to_multiset().count(b[0]) > 0);
        assert(a.contains(b[0]));
        let i = choose|i: int| 0 <= i < a.len() && a[i] == b[0];
        if i > 0 {
            assert(lex_le(a[0], a[i]));
        } else {
            lemma_lex_le_total(a[0], a[0]);
        }
        assert(lex_le(a[0], b[0]));
        crate::text::lemma_lex_le_antisym(a[0], b[0]);
        assert(a.drop_first() =~= a.remove(0));
        assert(b.drop_first() =~= b.remove(0));
        assert(a.drop_first().to_multiset() =~= b.drop_first().to_multiset());
        assert forall|p: int, q: int| 0 <= p < q < a.drop_first().len() implies lex_le(
            #[trigger] a.drop_first()[p],
            #[trigger] a.drop_first()[q],
        ) by {
            assert(a.drop_first()[q] == a[q + 1] && a.drop_first()[p] == a[p + 1]);
        };
        assert forall|p: int, q: int| 0 <= p < q < b.drop_first().len() implies lex_le(
            #[trigger] b.drop_first()[p],
            #[trigger] b.drop_first()[q],
        ) by {
            assert(b.drop_first()[q] == b[q + 1] && b.drop_first()[p] == b[p + 1]);
        };
        lemma_sorted_lex_unique(a.drop_first(), b.drop_first());
        assert forall|k: int| 0 <= k < a.len() implies a[k] == b[k] by {
            if k > 0 {
                assert(a[k] == a.drop_first()[k - 1]);
                assert(b[k] == b.drop_first()[k - 1]);
            }
        };
        assert(a =~= b);
    }
}

/// The navigation fragment is a function of the category multiset: any
/// two fragments built from the same categories are byte-identical.
pub proof fn lemma_navigation_deterministic(cat_views: Seq<Seq<char>>, r1: Seq<char>, r2: Seq<char>)
    requires
        is_nav_of(cat_views, r1),
        is_nav_of(cat_views, r2),
    ensures
        r1 == r2,
{
    let s1 = choose|sorted: Seq<Seq<char>>|
        sorted.to_multiset() == cat_views.to_multiset() && sorted_lex(sorted) && r1
            == "<nav>\n<ul>\n<li><a href='/index.html'>Home</a></li>\n"@ + #[trigger] spec_nav_items(
            sorted,
        ) + "</ul>\n</nav>\n"@;
    let s2 = choose|sorted: Seq<Seq<char>>|
        sorted.to_multiset() == cat_views.to_multiset() && sorted_lex(sorted) && r2
            == "<nav>\n<ul>\n<li><a href='/index.html'>Home</a></li>\n"@ + #[trigger] spec_nav_items(
            sorted,
        ) + "</ul>\n</nav>\n"@;
    lemma_sorted_lex_unique(s1, s2);
}

/// A permutation of draft-free pages is draft-free.
proof fn lemma_permutation_keeps_nondraft(a: Seq<PageView>, b: Seq<PageView>)
    requires
        a.to_multiset() == b.to_multiset(),
        forall|i: int| 0 <= i < a.len() ==> spec_lower(#[trigger] a[i].category) != "draft"@,
    ensures
        forall|i: int| 0 <= i < b.len() ==> spec_lower(#[trigger] b[i].category) != "draft"@,
{
    assert forall|i: int| 0 <= i < b.len() implies spec_lower(#[trigger] b[i].category)
        != "draft"@ by {
        let pv = b[i];
        assert(b.contains(pv));
        assert(b.to_multiset().count(pv) > 0);
        assert(a.contains(pv));
        let j = choose|j: int| 0 <= j < a.len() && a[j] == pv;
        assert(spec_lower(a[j].category) != "draft"@);
    };
}

// ---------------------------------------------------------------------------
// The site-wide second pass over one page's rendered content
// ---------------------------------------------------------------------------

/// The content after substituting, for each category in turn, that
/// category's freshly rendered listing for its listing-container marker,
/// wherever the marker occurs.
pub open spec fn spec_index_chain(
    content: Seq<char>,
    cats: Seq<Seq<char>>,
    ps: Seq<PageView>,
) -> Seq<char>
    decreases cats.len(),
{
    if cats.len() == 0 {
        content
    } else {
        let marker = "<div id='index' class='"@ + cats[0] + "'>"@;
        let next = if occurs(content, marker) {
            spec_replace(content, marker, "<ul>\n"@ + spec_listing(ps, cats[0]) + "</ul>\n"@)
        } else {
            content
        };
        spec_index_chain(next, cats.drop_first(), ps)
    }
}

impl Page {
    /// The aggregation pass over one page: sorts the site's pages once,
    /// then substitutes each category's listing for its listing-container
    /// marker in this page's content.
    pub fn replace_index(&mut self, site: &mut Site)
        ensures
            final(site).drafts == old(site).drafts,
            final(site).directory == old(site).directory,
            final(site).categories == old(site).categories,
            final(site).site_name == old(site).site_name,
            final(site).static_url == old(site).static_url,
            final(site).template_url == old(site).template_url,
            final(site).template_path == old(site).template_path,
            final(site).dithering == old(site).dithering,
            final(site).base_url == old(site).base_url,
            page_views(final(site).pages@).to_multiset() == page_views(
                old(site).pages@,
            ).to_multiset(),
            sorted_desc(page_views(final(site).pages@)),
            old(site).inv() ==> final(site).inv(),
            final(self)@ == (PageView {
                content: spec_index_chain(
                    old(self)@.content,
                    str_views(old(site).categories@),
                    page_views(final(site).pages@),
                ),
                ..old(self)@
            }),
    {
        let sorted = sorted_pages_desc(&site.pages);
        let ghost old_views = page_views(old(site).pages@);
        site.pages = sorted;
        proof {
            if old(site).inv() {
                assert forall|i: int| 0 <= i < old_views.len() implies spec_lower(
                    #[trigger] old_views[i].category,
                ) != "draft"@ by {
                    assert(old_views[i] == old(site).pages@[i]@);
                };
                lemma_permutation_keeps_nondraft(old_views, page_views(site.pages@));
                assert forall|i: int| 0 <= i < site.pages@.len() implies spec_lower(
                    #[trigger] site.pages@[i]@.category,
                ) != "draft"@ by {
                    assert(page_views(site.pages@)[i] == site.pages@[i]@);
                };
            }
        }
        let ghost ps = page_views(site.pages@);
        let ghost cats = str_views(site.categories@);
        let mut content = str_chars(self.content.as_str());
        let ghost c0 = content@;
        let mut i: usize = 0;
        proof {
            reveal_strlit("<div id='index' class='");
            assert(cats.skip(0) =~= cats);
        }
        while i < site.categories.len()
            invariant
                ps == page_views(site.pages@),
                cats == str_views(site.categories@),
                site.categories@.len() == cats.len(),
                i <= cats.len(),
                spec_index_chain(content@, cats.skip(i as int), ps) == spec_index_chain(
                    c0,
                    cats,
                    ps,
                ),
            decreases cats.len() - i,
        {
            let ghost rest = cats.skip(i as int);
            proof {
                reveal_strlit("<div id='index' class='");
                assert(rest[0] == cats[i as int]);
                assert(rest.drop_first() =~= cats.skip(i as int + 1));
            }
            let cref = &site.categories[i];
            let mut mk = str_chars("<div id='index' class='");
            let cat_chars = str_chars(cref.as_str());
            push_all(&mut mk, &cat_chars);
            let close = str_chars("'>");
            push_all(&mut mk, &close);
            proof {
                assert(mk@ =~= "<div id='index' class='"@ + cats[i as int] + "'>"@);
                assert(mk@.len() > 0);
            }
            if contains_sub(&content, &mk) {
                let listing = render_listing(&site.pages, cref.as_str());
                let mut rep = str_chars("<ul>\n");
                let listing_chars = str_chars(listing.as_str());
                push_all(&mut rep, &listing_chars);
                let tail = str_chars("</ul>\n");
                push_all(&mut rep, &tail);
                proof {
                    assert(rep@ =~= "<ul>\n"@ + spec_listing(ps, cats[i as int]) + "</ul>\n"@);
                }
                let newc = replace_all(&content, &mk, &rep);
                content = newc;
            }
            i += 1;
        }
        proof {
            assert(cats.skip(cats.len() as int) =~= Seq::<Seq<char>>::empty());
        }
        self.content = chars_string(&content);
    }
}

// ---------------------------------------------------------------------------
// Drafts are invisible to the aggregation layer
// ---------------------------------------------------------------------------

/// Over draft-free pages, a category that folds to `draft` lists nothing.
proof fn lemma_nondraft_listing(ps: Seq<PageView>, cat: Seq<char>)
    requires
        forall|i: int| 0 <= i < ps.len() ==> spec_lower(#[trigger] ps[i].category) != "draft"@,
        spec_lower(cat) == "draft"@,
    ensures
        spec_listing(ps, cat) == Seq::<char>::empty(),
    decreases ps.len(),
{
    if ps.len() > 0 {
        assert(ps[0].category != cat);
        assert(forall|i: int|
            0 <= i < ps.drop_first().len() ==> spec_lower(
                #[trigger] ps.drop_first()[i].category,
            ) != "draft"@);
        lemma_nondraft_listing(ps.drop_first(), cat);
        assert(Seq::<char>::empty() + Seq::<char>::empty() =~= Seq::<char>::empty());
    }
}

/// A draft document never reaches the aggregation output: a site that
/// keeps its invariant has no draft page to list — any category that folds
/// to `draft` yields an empty listing — and no navigation link carries it,
/// since `draft` never enters the category set.
pub proof fn lemma_draft_invisible(site: Site, cat: Seq<char>)
    requires
        site.inv(),
        spec_lower(cat) == "draft"@,
    ensures
        spec_listing(page_views(site.pages@), cat) == Seq::<char>::empty(),
        forall|i: int| 0 <= i < site.categories@.len() ==> #[trigger] site.categories@[i]@ != cat,
{
    assert forall|i: int| 0 <= i < page_views(site.pages@).len() implies spec_lower(
        #[trigger] page_views(site.pages@)[i].category,
    ) != "draft"@ by {
        assert(page_views(site.pages@)[i] == site.pages@[i]@);
    };
    lemma_nondraft_listing(page_views(site.pages@), cat);
    assert forall|i: int| 0 <= i < site.categories@.len() implies #[trigger] site.categories@[i]@
        != cat by {
        if site.categories@[i]@ == cat {
            assert(spec_lower(site.categories@[i]@) == site.categories@[i]@);
            assert(is_reserved(site.categories@[i]@));
        }
    };
}

} // verus!
