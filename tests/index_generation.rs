use sitegen::index_page::{generate_index_page, group_posts_by_year, post_year};
use sitegen::template::TemplateError;
use sitegen::variables::{ContentCollection, Variables};

fn vars(pairs: &[(&str, &str)]) -> Variables {
    let mut v = Variables::new();
    for (k, val) in pairs {
        v.insert(k.to_string(), val.to_string());
    }
    v
}

fn post(date: &str, title: &str) -> Variables {
    vars(&[("date", date), ("title", title)])
}

fn store() -> Variables {
    vars(&[
        ("list_item.liquid", "<li>{{ title }}</li>"),
        ("year_section.liquid", "<h2>{{ year_include }}</h2><ul>{{ content }}</ul>"),
        ("index_intro.liquid", "<p>{{ site_name }} / {{ tagline }}</p>{{ content }}"),
        ("2024.liquid", "Y24"),
        ("foot.liquid", "<footer>{{ site_name }}</footer>"),
    ])
}

#[test]
fn posts_grouped_by_year_newest_first() {
    let posts: ContentCollection = vec![
        post("2023-01-01", "p1"),
        post("2024-05-05", "p2"),
        post("2023-12-31", "p3"),
    ];
    let groups = group_posts_by_year(&posts);
    assert_eq!(groups.len(), 2);
    assert_eq!(groups[0].year, "2024");
    assert_eq!(groups[0].posts, vec![1]);
    assert_eq!(groups[1].year, "2023");
    assert_eq!(groups[1].posts, vec![0, 2]);
}

#[test]
fn undated_posts_are_in_no_group() {
    let posts: ContentCollection = vec![
        vars(&[("title", "nodate")]),
        post("2022-02-02", "a"),
        post("20", "short"),
        vars(&[("title", "nodate2")]),
    ];
    let groups = group_posts_by_year(&posts);
    assert_eq!(groups.len(), 1);
    assert_eq!(groups[0].year, "2022");
    assert_eq!(groups[0].posts, vec![1]);
}

#[test]
fn post_year_takes_four_characters() {
    assert_eq!(post_year(&post("1999-12-31", "t")), Some("1999".to_string()));
    assert_eq!(post_year(&post("abc", "t")), None);
    assert_eq!(post_year(&vars(&[("title", "t")])), None);
}

#[test]
fn index_page_renders_years_in_order() {
    let posts: ContentCollection = vec![
        post("2023-01-01", "p1"),
        post("2024-05-05", "p2"),
        post("2023-12-31", "p3"),
        vars(&[("title", "hidden")]),
    ];
    let global = vars(&[("tagline", "notes")]);
    let layout = format!("<html>{{{{BODY}}}}{{% include foot.liquid %}}</html>");
    let page = generate_index_page("Site", &posts, &store(), &layout, &global).unwrap();
    assert_eq!(page.path, "out/index.html");
    assert_eq!(
        page.html,
        "<html><p>Site / notes</p><h2>Y24</h2><ul><li>p2</li></ul><h2></h2><ul><li>p1</li><li>p3</li></ul><footer>Site</footer></html>"
    );
    assert!(!page.html.contains("hidden"));
}

#[test]
fn empty_collection_still_renders_page() {
    let posts: ContentCollection = Vec::new();
    let global = vars(&[("tagline", "notes"), ("index_filename", "home.html")]);
    let page = generate_index_page("Site", &posts, &store(), "<main>{{BODY}}</main>", &global).unwrap();
    assert_eq!(page.path, "out/home.html");
    assert_eq!(page.html, "<main><p>Site / notes</p></main>");
}

#[test]
fn bad_layout_fails_page() {
    let posts: ContentCollection = vec![post("2023-01-01", "p1")];
    let global = Variables::new();
    assert_eq!(
        generate_index_page("Site", &posts, &store(), "<main></main>", &global).err(),
        Some(TemplateError::CompositionTargetError)
    );
}

#[test]
fn malformed_fragment_fails_page() {
    let posts: ContentCollection = vec![post("2023-01-01", "p1")];
    let mut s = store();
    s.insert("list_item.liquid".to_string(), "<li>{{ title".to_string());
    assert_eq!(
        generate_index_page("Site", &posts, &s, "{{BODY}}", &Variables::new()).err(),
        Some(TemplateError::MalformedTemplate)
    );
}
