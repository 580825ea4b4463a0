use md_puppy::dates::convert_datetime;
use md_puppy::page::Page;
use md_puppy::site::Site;

fn page_in(category: &str, title: &str, date: &str, stem: &str) -> Page {
    let mut page = Page::new();
    page.category = String::from(category);
    page.title = String::from(title);
    page.date = String::from(date);
    page.filepath = format!("content/{}/{}.md", category, stem);
    page.filename = String::from(stem);
    page.output_path = format!("/{}", category);
    page
}

#[test]
fn convert_datetime_test() {
    let input = "2022-02-08T15:16:19-07:00";
    let output = "February  8, 2022 |  3:16 pm".to_string();
    assert_eq!(convert_datetime(input), output);
}

#[test]
fn convert_datetime_keeps_unparsable_values() {
    assert_eq!(convert_datetime("not a date"), "not a date");
}

#[test]
fn site_new_has_default_configuration() {
    let site = Site::new();
    assert_eq!(site.site_name, "md_puppy site");
    assert_eq!(site.base_url, "https://www.example.com");
    assert_eq!(site.template_path, "template/boilerplate.html");
    assert!(!site.dithering);
    assert!(site.pages.is_empty());
    assert!(site.categories.is_empty());
}

#[test]
fn add_page_collects_categories_once() {
    let mut site = Site::new();
    site.add_page(page_in("blog", "A", "2022-01-01T00:00:00-07:00", "a"));
    site.add_page(page_in("blog", "B", "2022-02-01T00:00:00-07:00", "b"));
    site.add_page(page_in("notes", "C", "2022-03-01T00:00:00-07:00", "c"));
    assert_eq!(site.categories.len(), 2);
    assert_eq!(site.pages.len(), 3);
    assert_eq!(site.directory.len(), 3);
    assert!(site.directory.contains(&String::from("/blog/a.html")));
}

#[test]
fn reserved_categories_stay_out_of_the_category_set() {
    let mut site = Site::new();
    site.add_page(page_in("home", "H", "2022-01-01T00:00:00-07:00", "h"));
    site.add_page(page_in("Index", "I", "2022-01-01T00:00:00-07:00", "i"));
    site.add_page(page_in("", "E", "2022-01-01T00:00:00-07:00", "e"));
    assert!(site.categories.is_empty());
    assert_eq!(site.pages.len(), 3);
}

#[test]
fn navigation_lists_home_then_sorted_categories() {
    let mut site = Site::new();
    site.add_page(page_in("zebra", "Z", "2022-01-01T00:00:00-07:00", "z"));
    site.add_page(page_in("alpha", "A", "2022-01-01T00:00:00-07:00", "a"));
    let nav = site.create_category_links();
    assert_eq!(
        nav,
        "<nav>\n<ul>\n<li><a href='/index.html'>Home</a></li>\n\
         <li><a href='/alpha/index.html'>alpha</a></li>\n\
         <li><a href='/zebra/index.html'>zebra</a></li>\n\
         </ul>\n</nav>\n"
    );
}

#[test]
fn category_listing_is_date_descending() {
    let mut site = Site::new();
    site.add_page(page_in("blog", "January Post", "2022-01-01T00:00:00-07:00", "jan"));
    site.add_page(page_in("blog", "March Post", "2022-03-01T00:00:00-07:00", "mar"));
    site.add_page(page_in("blog", "February Post", "2022-02-01T00:00:00-07:00", "feb"));
    let listing = site.create_category_index("blog");
    let march = listing.find("March Post").expect("March entry");
    let february = listing.find("February Post").expect("February entry");
    let january = listing.find("January Post").expect("January entry");
    assert!(march < february);
    assert!(february < january);
}

#[test]
fn category_listing_skips_index_files() {
    let mut site = Site::new();
    site.add_page(page_in("blog", "Real Post", "2022-01-01T00:00:00-07:00", "post"));
    let mut index_page = page_in("blog", "blog Index", "2022-01-02T00:00:00-07:00", "index");
    index_page.filepath = String::from("content/blog/index.md");
    site.add_page(index_page);
    let listing = site.create_category_index("blog");
    assert!(listing.contains("Real Post"));
    assert!(!listing.contains("blog Index"));
    // the listing links to where the write pass puts the file
    assert!(listing.contains("<a href='/blog/post.html'>"));
}

#[test]
fn draft_documents_are_invisible_to_aggregation() {
    let mut site = Site::new();
    site.add_page(page_in("blog", "Visible", "2022-01-01T00:00:00-07:00", "v"));
    site.add_page(page_in("draft", "Hidden One", "2022-02-01T00:00:00-07:00", "h1"));
    site.add_page(page_in("Draft", "Hidden Two", "2022-03-01T00:00:00-07:00", "h2"));
    let nav = site.create_category_links();
    assert!(!nav.contains("draft"));
    assert!(!nav.contains("Draft"));
    let blog = site.create_category_index("blog");
    assert!(blog.contains("Visible"));
    assert!(!blog.contains("Hidden"));
    let drafts = site.create_category_index("draft");
    assert_eq!(drafts, "<ul>\n</ul>\n");
    assert_eq!(site.pages.len(), 1);
    // the draft pages are kept aside for the write pass
    assert_eq!(site.drafts.len(), 2);
}

#[test]
fn replace_index_fills_listing_containers() {
    let mut site = Site::new();
    site.add_page(page_in("blog", "Post", "2022-01-01T00:00:00-07:00", "post"));
    let mut page = Page::new();
    page.content = String::from("before <div id='index' class='blog'> after");
    page.replace_index(&mut site);
    assert!(page.content.starts_with("before <ul>\n"));
    assert!(page.content.contains("Post"));
    assert!(page.content.ends_with("</ul>\n after"));
}
