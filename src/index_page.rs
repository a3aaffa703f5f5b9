//! The index page: posts grouped by the year of their date, newest year
//! first, rendered through the list-item and year-section fragments, put in
//! the main layout and expanded once more with all fragments.
use crate::layout::{insert_body_into_layout, spliced};
use crate::template::{
    agrees, join, lemma_join_ok, process_template_tags, render, TemplateError, DEFAULT_DEPTH_LIMIT,
};
use crate::text::{chars_lt, lemma_lex_total, lemma_lex_transitive, lex_lt, to_chars};
use crate::variables::{value_or_empty, ContentCollection, TemplateIncludes, Variables};
use vstd::prelude::*;

verus! {

/// The posts as maps.
pub open spec fn collection_view(posts: Seq<Variables>) -> Seq<Map<Seq<char>, Seq<char>>> {
    posts.map_values(|p: Variables| p@)
}

/// The year of a post: the first four characters of its date, where it has
/// a date of at least four characters.
pub open spec fn year_of(post: Map<Seq<char>, Seq<char>>) -> Option<Seq<char>> {
    if post.contains_key("date"@) && post["date"@].len() >= 4 {
        Some(post["date"@].subrange(0, 4))
    } else {
        None
    }
}

/// Some post among the first `n` has year `y`.
pub open spec fn year_seen(posts: Seq<Map<Seq<char>, Seq<char>>>, y: Seq<char>, n: int) -> bool {
    exists|k: int| 0 <= k < n && year_of(#[trigger] posts[k]) == Some(y)
}

/// The positions, ascending, of the posts among the first `n` with year `y`.
pub open spec fn indices_with_year(posts: Seq<Map<Seq<char>, Seq<char>>>, y: Seq<char>, n: int) -> Seq<
    usize,
>
    decreases n,
{
    if n <= 0 {
        Seq::empty()
    } else if year_of(posts[n - 1]) == Some(y) {
        indices_with_year(posts, y, n - 1).push((n - 1) as usize)
    } else {
        indices_with_year(posts, y, n - 1)
    }
}

/// Each year comes after every later one.
pub open spec fn strictly_descending(ys: Seq<Seq<char>>) -> bool {
    forall|i: int, j: int| 0 <= i < j < ys.len() ==> lex_lt(#[trigger] ys[j], #[trigger] ys[i])
}

/// `ys` lists each year of the dated posts once, newest first.
pub open spec fn is_year_order(ys: Seq<Seq<char>>, posts: Seq<Map<Seq<char>, Seq<char>>>) -> bool {
    &&& strictly_descending(ys)
    &&& forall|y: Seq<char>| #[trigger] ys.contains(y) <==> year_seen(posts, y, posts.len() as int)
}

pub open spec fn texts(s: Seq<String>) -> Seq<Seq<char>> {
    s.map_values(|x: String| x@)
}

/// The posts of one year, by their positions in the collection.
pub struct YearGroup {
    pub year: String,
    pub posts: Vec<usize>,
}

pub open spec fn group_years(groups: Seq<YearGroup>) -> Seq<Seq<char>> {
    groups.map_values(|g: YearGroup| g.year@)
}

/// The year of a post, as `year_of` gives it.
pub fn post_year(post: &Variables) -> (r: Option<String>)
    ensures
        match year_of(post@) {
            Some(y) => r is Some && r->0@ == y,
            None => r is None,
        },
{
    match post.get("date") {
        None => None,
        Some(d) => {
            let ds = d.as_str();
            if ds.unicode_len() >= 4 {
                Some(ds.substring_char(0, 4).to_owned())
            } else {
                None
            }
        },
    }
}

/// Adds `y` to a strictly descending list of years, where it is not there yet.
fn insert_year(years: &mut Vec<String>, y: String)
    requires
        strictly_descending(texts(old(years)@)),
    ensures
        strictly_descending(texts(final(years)@)),
        forall|z: Seq<char>| #[trigger]
            texts(final(years)@).contains(z) <==> texts(old(years)@).contains(z) || z == y@,
{
    let ghost old_ys = texts(years@);
    let yc = to_chars(y.as_str());
    let mut p: usize = 0;
    while p < years.len() && chars_lt(&yc, &to_chars(years[p].as_str()))
        invariant
            p <= years.len(),
            yc@ == y@,
            old_ys == texts(years@),
            forall|i: int| 0 <= i < p ==> lex_lt(y@, #[trigger] old_ys[i]),
        decreases years.len() - p,
    {
        p = p + 1;
    }
    if p < years.len() && years[p] == y {
        assert(old_ys[p as int] == y@);
        return;
    }
    years.insert(p, y);
    let ghost new_ys = texts(years@);
    assert(new_ys =~= old_ys.insert(p as int, y@));
    proof {
        if p < old_ys.len() {
            lemma_lex_total(old_ys[p as int], y@);
        }
        assert forall|i: int, j: int| 0 <= i < j < new_ys.len() implies lex_lt(
            #[trigger] new_ys[j],
            #[trigger] new_ys[i],
        ) by {
            if j == p {
            } else if i == p {
                if j - 1 > p {
                    lemma_lex_transitive(old_ys[j - 1], old_ys[p as int], y@);
                }
            } else if i < p && j > p {
                assert(lex_lt(old_ys[j - 1], y@)) by {
                    if j - 1 > p {
                        lemma_lex_transitive(old_ys[j - 1], old_ys[p as int], y@);
                    }
                }
                lemma_lex_transitive(old_ys[j - 1], y@, old_ys[i]);
            } else if i < p {
                assert(new_ys[j] == old_ys[j]);
            } else {
                assert(new_ys[j] == old_ys[j - 1] && new_ys[i] == old_ys[i - 1]);
            }
        }
        assert forall|z: Seq<char>| #[trigger]
            new_ys.contains(z) <==> old_ys.contains(z) || z == y@ by {
            if old_ys.contains(z) {
                let i = choose|i: int| 0 <= i < old_ys.len() && old_ys[i] == z;
                if i < p {
                    assert(new_ys[i] == z);
                } else {
                    assert(new_ys[i + 1] == z);
                }
            }
            if z == y@ {
                assert(new_ys[p as int] == z);
            }
            if new_ys.contains(z) {
                let i = choose|i: int| 0 <= i < new_ys.len() && new_ys[i] == z;
                if i < p {
                    assert(old_ys[i] == z);
                } else if i > p {
                    assert(old_ys[i - 1] == z);
                }
            }
        }
    }
}

/// The years of the dated posts, each once, newest first.
fn sorted_years(posts: &ContentCollection) -> (r: Vec<String>)
    ensures
        is_year_order(texts(r@), collection_view(posts@)),
{
    let ghost cv = collection_view(posts@);
    let mut years: Vec<String> = Vec::new();
    let mut k: usize = 0;
    assert(texts(years@) =~= Seq::<Seq<char>>::empty());
    while k < posts.len()
        invariant
            k <= posts.len(),
            cv == collection_view(posts@),
            strictly_descending(texts(years@)),
            forall|y: Seq<char>| #[trigger] texts(years@).contains(y) <==> year_seen(cv, y, k as int),
        decreases posts.len() - k,
    {
        let ghost before = texts(years@);
        let found = post_year(&posts[k]);
        assert(cv[k as int] == posts@[k as int]@);
        match found {
            None => {},
            Some(y) => {
                insert_year(&mut years, y);
            },
        }
        assert forall|y: Seq<char>| #[trigger]
            texts(years@).contains(y) <==> year_seen(cv, y, k + 1) by {
            if year_seen(cv, y, k + 1) && !year_seen(cv, y, k as int) {
                let w = choose|w: int| 0 <= w < k + 1 && year_of(#[trigger] cv[w]) == Some(y);
                assert(w == k);
            }
            if year_seen(cv, y, k as int) {
                let w = choose|w: int| 0 <= w < k && year_of(#[trigger] cv[w]) == Some(y);
                assert(year_seen(cv, y, k + 1));
            }
            if year_of(cv[k as int]) == Some(y) {
                assert(year_seen(cv, y, k + 1));
            }
        }
        k = k + 1;
    }
    years
}

proof fn lemma_indices_bounded(posts: Seq<Map<Seq<char>, Seq<char>>>, y: Seq<char>, n: int)
    ensures
        forall|m: int|
            0 <= m < indices_with_year(posts, y, n).len() ==> #[trigger] indices_with_year(
                posts,
                y,
                n,
            )[m] < n,
    decreases n,
{
    if n > 0 {
        lemma_indices_bounded(posts, y, n - 1);
        let prev = indices_with_year(posts, y, n - 1);
        let cur = indices_with_year(posts, y, n);
        assert forall|m: int| 0 <= m < cur.len() implies #[trigger] cur[m] < n by {
            if m < prev.len() {
                assert(cur[m] == prev[m]);
            }
        }
    }
}

/// Groups the dated posts by year: one group per year, newest year first,
/// each holding the positions of its posts in collection order. Posts
/// without a usable date are in no group.
pub fn group_posts_by_year(posts: &ContentCollection) -> (r: Vec<YearGroup>)
    ensures
        is_year_order(group_years(r@), collection_view(posts@)),
        forall|g: int|
            0 <= g < r@.len() ==> (#[trigger] r@[g]).posts@ == indices_with_year(
                collection_view(posts@),
                r@[g].year@,
                posts@.len() as int,
            ),
{
    let ghost cv = collection_view(posts@);
    let years = sorted_years(posts);
    let mut groups: Vec<YearGroup> = Vec::new();
    let mut g: usize = 0;
    while g < years.len()
        invariant
            g <= years.len(),
            cv == collection_view(posts@),
            groups@.len() == g,
            forall|m: int| 0 <= m < g ==> (#[trigger] groups@[m]).year@ == years@[m]@,
            forall|m: int|
                0 <= m < g ==> (#[trigger] groups@[m]).posts@ == indices_with_year(
                    cv,
                    groups@[m].year@,
                    posts@.len() as int,
                ),
        decreases years.len() - g,
    {
        let year = years[g].clone();
        let mut members: Vec<usize> = Vec::new();
        let mut k: usize = 0;
        while k < posts.len()
            invariant
                k <= posts.len(),
                cv == collection_view(posts@),
                members@ == indices_with_year(cv, year@, k as int),
            decreases posts.len() - k,
        {
            assert(cv[k as int] == posts@[k as int]@);
            match post_year(&posts[k]) {
                Some(y) => {
                    if y == year {
                        members.push(k);
                    }
                },
                None => {},
            }
            k = k + 1;
        }
        groups.push(YearGroup { year, posts: members });
        g = g + 1;
    }
    assert(group_years(groups@) =~= texts(years@));
    groups
}

/// The list-item fragment applied to each post at `idx`, concatenated.
pub open spec fn item_list(
    tpl: Seq<char>,
    posts: Seq<Map<Seq<char>, Seq<char>>>,
    idx: Seq<usize>,
) -> Result<Seq<char>, TemplateError>
    decreases idx.len(),
{
    if idx.len() == 0 {
        Ok(Seq::empty())
    } else {
        join(
            render(tpl, posts[idx[0] as int], None, DEFAULT_DEPTH_LIMIT as nat),
            item_list(tpl, posts, idx.drop_first()),
        )
    }
}

/// The variables of one year section.
pub open spec fn year_context(
    items: Seq<char>,
    y: Seq<char>,
    store: Map<Seq<char>, Seq<char>>,
) -> Map<Seq<char>, Seq<char>> {
    Map::empty().insert("content"@, items).insert(
        "year_include"@,
        value_or_empty(store, y + ".liquid"@),
    )
}

/// The rendered section of year `y`.
pub open spec fn year_section(
    y: Seq<char>,
    posts: Seq<Map<Seq<char>, Seq<char>>>,
    store: Map<Seq<char>, Seq<char>>,
) -> Result<Seq<char>, TemplateError> {
    match item_list(
        value_or_empty(store, "list_item.liquid"@),
        posts,
        indices_with_year(posts, y, posts.len() as int),
    ) {
        Err(e) => Err(e),
        Ok(items) => render(
            value_or_empty(store, "year_section.liquid"@),
            year_context(items, y, store),
            None,
            DEFAULT_DEPTH_LIMIT as nat,
        ),
    }
}

/// The sections of the years `ys`, in that order.
pub open spec fn year_sections(
    ys: Seq<Seq<char>>,
    posts: Seq<Map<Seq<char>, Seq<char>>>,
    store: Map<Seq<char>, Seq<char>>,
) -> Result<Seq<char>, TemplateError>
    decreases ys.len(),
{
    if ys.len() == 0 {
        Ok(Seq::empty())
    } else {
        join(year_section(ys[0], posts, store), year_sections(ys.drop_first(), posts, store))
    }
}

/// The global variables with the page content and the site name set.
pub open spec fn page_context(
    global: Map<Seq<char>, Seq<char>>,
    site_name: Seq<char>,
    content: Seq<char>,
) -> Map<Seq<char>, Seq<char>> {
    global.insert("content"@, content).insert("site_name"@, site_name)
}

/// The page around a rendered content section: the intro fragment rendered
/// with the page variables, put in the layout, then processed with all
/// fragments.
pub open spec fn page_html(
    content: Seq<char>,
    site_name: Seq<char>,
    store: Map<Seq<char>, Seq<char>>,
    layout: Seq<char>,
    global: Map<Seq<char>, Seq<char>>,
) -> Result<Seq<char>, TemplateError> {
    let vars = page_context(global, site_name, content);
    match render(value_or_empty(store, "index_intro.liquid"@), vars, None, DEFAULT_DEPTH_LIMIT as nat) {
        Err(e) => Err(e),
        Ok(intro) => match spliced(layout, intro) {
            None => Err(TemplateError::CompositionTargetError),
            Some(page) => render(page, vars, Some(store), DEFAULT_DEPTH_LIMIT as nat),
        },
    }
}

/// The index page's HTML, with the years in the order `ys`.
pub open spec fn index_html(
    ys: Seq<Seq<char>>,
    site_name: Seq<char>,
    posts: Seq<Map<Seq<char>, Seq<char>>>,
    store: Map<Seq<char>, Seq<char>>,
    layout: Seq<char>,
    global: Map<Seq<char>, Seq<char>>,
) -> Result<Seq<char>, TemplateError> {
    match year_sections(ys, posts, store) {
        Err(e) => Err(e),
        Ok(content) => page_html(content, site_name, store, layout, global),
    }
}

/// Where the index page goes: `out/` and the `index_filename` variable, or
/// `index.html` where that is not set.
pub open spec fn output_path(global: Map<Seq<char>, Seq<char>>) -> Seq<char> {
    "out/"@ + value_or_default(global, "index_filename"@, "index.html"@)
}

pub open spec fn value_or_default(
    m: Map<Seq<char>, Seq<char>>,
    k: Seq<char>,
    default: Seq<char>,
) -> Seq<char> {
    if m.contains_key(k) {
        m[k]
    } else {
        default
    }
}

/// A finished page and the relative path it is to be written to.
pub struct IndexPage {
    pub path: String,
    pub html: String,
}

/// The HTML of a year's posts through the list-item fragment.
fn render_items(
    tpl: &String,
    posts: &ContentCollection,
    idx: &Vec<usize>,
) -> (r: Result<String, TemplateError>)
    requires
        forall|m: int| 0 <= m < idx@.len() ==> #[trigger] idx@[m] < posts@.len(),
    ensures
        agrees(r, item_list(tpl@, collection_view(posts@), idx@)),
{
    let ghost cv = collection_view(posts@);
    let ghost full = item_list(tpl@, cv, idx@);
    let mut out = String::new();
    let mut m: usize = 0;
    assert(idx@.subrange(0, idx@.len() as int) =~= idx@);
    assert(full == join(Ok(out@), full)) by {
        if let Ok(x) = full {
            assert(Seq::<char>::empty() + x =~= x);
        }
    }
    while m < idx.len()
        invariant
            m <= idx@.len(),
            cv == collection_view(posts@),
            forall|q: int| 0 <= q < idx@.len() ==> #[trigger] idx@[q] < posts@.len(),
            full == item_list(tpl@, cv, idx@),
            full == join(Ok(out@), item_list(tpl@, cv, idx@.subrange(m as int, idx@.len() as int))),
        decreases idx.len() - m,
    {
        let ghost rest = idx@.subrange(m as int, idx@.len() as int);
        assert(rest[0] == idx@[m as int]);
        assert(rest.drop_first() =~= idx@.subrange(m + 1, idx@.len() as int));
        let i = idx[m];
        assert(cv[i as int] == posts@[i as int]@);
        match process_template_tags(tpl.as_str(), &posts[i], None, None) {
            Err(e) => {
                return Err(e);
            },
            Ok(s) => {
                proof {
                    lemma_join_ok(out@, s@, item_list(tpl@, cv, rest.drop_first()));
                }
                out.append(s.as_str());
            },
        }
        m = m + 1;
    }
    assert(full == Ok::<Seq<char>, TemplateError>(out@)) by {
        assert(out@ + Seq::<char>::empty() =~= out@);
    }
    Ok(out)
}

/// Renders the index page. The dated posts are grouped by year, newest
/// first; each post goes through the `list_item.liquid` fragment and each
/// year through `year_section.liquid`, which sees the year's items as
/// `content` and the fragment `<year>.liquid` as `year_include`. The
/// sections, as `content`, and the site name, as `site_name`, are added to
/// the global variables; with them `index_intro.liquid` is rendered, put in
/// `main_layout`, and the result is processed with all fragments. The page
/// goes to `out/` under the `index_filename` variable (`index.html` by
/// default).
pub fn generate_index_page(
    site_name: &str,
    posts: &ContentCollection,
    fragments: &TemplateIncludes,
    main_layout: &str,
    global_variables: &Variables,
) -> (r: Result<IndexPage, TemplateError>)
    ensures
        exists|ys: Seq<Seq<char>>|
            {
                &&& is_year_order(ys, collection_view(posts@))
                &&& match index_html(
                    ys,
                    site_name@,
                    collection_view(posts@),
                    fragments@,
                    main_layout@,
                    global_variables@,
                ) {
                    Ok(h) => r is Ok && r->Ok_0.html@ == h && r->Ok_0.path@ == output_path(
                        global_variables@,
                    ),
                    Err(e) => r == Err::<IndexPage, TemplateError>(e),
                }
            },
{
    let ghost cv = collection_view(posts@);
    let ghost st = fragments@;
    let groups = group_posts_by_year(posts);
    let ghost ys = group_years(groups@);
    assert(is_year_order(ys, cv));
    let list_tpl = fragments.get_or_empty("list_item.liquid");
    let year_tpl = fragments.get_or_empty("year_section.liquid");
    let ghost full = year_sections(ys, cv, st);
    let mut html_list = String::new();
    let mut g: usize = 0;
    assert(ys.subrange(0, ys.len() as int) =~= ys);
    assert(full == join(Ok(html_list@), full)) by {
        if let Ok(x) = full {
            assert(Seq::<char>::empty() + x =~= x);
        }
    }
    while g < groups.len()
        invariant
            g <= groups@.len(),
            ys == group_years(groups@),
            is_year_order(ys, cv),
            cv == collection_view(posts@),
            st == fragments@,
            list_tpl@ == value_or_empty(st, "list_item.liquid"@),
            year_tpl@ == value_or_empty(st, "year_section.liquid"@),
            forall|q: int|
                0 <= q < groups@.len() ==> (#[trigger] groups@[q]).posts@ == indices_with_year(
                    cv,
                    groups@[q].year@,
                    posts@.len() as int,
                ),
            full == year_sections(ys, cv, st),
            full == join(Ok(html_list@), year_sections(ys.subrange(g as int, ys.len() as int), cv, st)),
        decreases groups.len() - g,
    {
        let ghost rest = ys.subrange(g as int, ys.len() as int);
        assert(rest[0] == groups@[g as int].year@);
        assert(rest.drop_first() =~= ys.subrange(g + 1, ys.len() as int));
        let group = &groups[g];
        proof {
            lemma_indices_bounded(cv, group.year@, posts@.len() as int);
        }
        let items = render_items(&list_tpl, posts, &group.posts);
        let year_content = match items {
            Err(e) => {
                assert(index_html(ys, site_name@, cv, st, main_layout@, global_variables@) == Err::<Seq<char>, TemplateError>(e));
                return Err(e);
            },
            Ok(s) => s,
        };
        let mut year_variables = Variables::new();
        year_variables.insert("content".to_owned(), year_content);
        let mut overlay_name = group.year.clone();
        overlay_name.append(".liquid");
        year_variables.insert("year_include".to_owned(), fragments.get_or_empty(overlay_name.as_str()));
        match process_template_tags(year_tpl.as_str(), &year_variables, None, None) {
            Err(e) => {
                assert(index_html(ys, site_name@, cv, st, main_layout@, global_variables@) == Err::<Seq<char>, TemplateError>(e));
                return Err(e);
            },
            Ok(s) => {
                proof {
                    lemma_join_ok(html_list@, s@, year_sections(rest.drop_first(), cv, st));
                }
                html_list.append(s.as_str());
            },
        }
        g = g + 1;
    }
    assert(full == Ok::<Seq<char>, TemplateError>(html_list@)) by {
        assert(html_list@ + Seq::<char>::empty() =~= html_list@);
    }
    let mut variables = global_variables.duplicate();
    variables.insert("content".to_owned(), html_list);
    variables.insert("site_name".to_owned(), site_name.to_owned());
    let intro_tpl = fragments.get_or_empty("index_intro.liquid");
    let processed_content = match process_template_tags(intro_tpl.as_str(), &variables, None, None) {
        Err(e) => {
            assert(index_html(ys, site_name@, cv, st, main_layout@, global_variables@) == Err::<Seq<char>, TemplateError>(e));
            return Err(e);
        },
        Ok(s) => s,
    };
    let combined_content = match insert_body_into_layout(main_layout, processed_content.as_str()) {
        Err(e) => {
            assert(index_html(ys, site_name@, cv, st, main_layout@, global_variables@) == Err::<Seq<char>, TemplateError>(e));
            return Err(e);
        },
        Ok(s) => s,
    };
    let html = match process_template_tags(combined_content.as_str(), &variables, Some(fragments), None) {
        Err(e) => {
            assert(index_html(ys, site_name@, cv, st, main_layout@, global_variables@) == Err::<Seq<char>, TemplateError>(e));
            return Err(e);
        },
        Ok(s) => s,
    };
    let mut path = "out/".to_owned();
    match global_variables.get("index_filename") {
        Some(name) => path.append(name.as_str()),
        None => path.append("index.html"),
    }
    assert(index_html(ys, site_name@, cv, st, main_layout@, global_variables@) == Ok::<Seq<char>, TemplateError>(html@));
    assert(path@ == output_path(global_variables@));
    Ok(IndexPage { path, html })
}

proof fn lemma_descending_same_elements(a: Seq<Seq<char>>, b: Seq<Seq<char>>)
    requires
        strictly_descending(a),
        strictly_descending(b),
        forall|y: Seq<char>| a.contains(y) <==> b.contains(y),
    ensures
        a == b,
    decreases a.len(),
{
    if a.len() == 0 {
        if b.len() > 0 {
            assert(b.contains(b[0]));
        }
        assert(a =~= b);
    } else {
        assert(a.contains(a[0]));
        let j = choose|j: int| 0 <= j < b.len() && b[j] == a[0];
        assert(b.contains(b[0]));
        let i = choose|i: int| 0 <= i < a.len() && a[i] == b[0];
        if j > 0 {
            if i > 0 {
                lemma_lex_total(a[0], a[i]);
            } else {
                crate::text::lemma_lex_irreflexive(b[0]);
            }
        }
        assert(a[0] == b[0]);
        let a1 = a.drop_first();
        let b1 = b.drop_first();
        assert forall|y: Seq<char>| a1.contains(y) <==> b1.contains(y) by {
            if a1.contains(y) {
                let k = choose|k: int| 0 <= k < a1.len() && a1[k] == y;
                assert(a.contains(y) && a[k + 1] == y);
                crate::text::lemma_lex_irreflexive(y);
                let m = choose|m: int| 0 <= m < b.len() && b[m] == y;
                assert(m != 0);
                assert(b1[m - 1] == y);
            }
            if b1.contains(y) {
                let k = choose|k: int| 0 <= k < b1.len() && b1[k] == y;
                assert(b.contains(y) && b[k + 1] == y);
                crate::text::lemma_lex_irreflexive(y);
                let m = choose|m: int| 0 <= m < a.len() && a[m] == y;
                assert(m != 0);
                assert(a1[m - 1] == y);
            }
        }
        assert forall|p: int, q: int| 0 <= p < q < a1.len() implies lex_lt(
            #[trigger] a1[q],
            #[trigger] a1[p],
        ) by {
            assert(a1[q] == a[q + 1] && a1[p] == a[p + 1]);
        }
        assert forall|p: int, q: int| 0 <= p < q < b1.len() implies lex_lt(
            #[trigger] b1[q],
            #[trigger] b1[p],
        ) by {
            assert(b1[q] == b[q + 1] && b1[p] == b[p + 1]);
        }
        lemma_descending_same_elements(a1, b1);
        assert(a =~= seq![a[0]] + a1);
        assert(b =~= seq![b[0]] + b1);
    }
}

/// The order in which the index page lists years is determined by the
/// posts: two lists that each name every dated post's year once, newest
/// first, are the same list.
pub proof fn lemma_year_order_unique(
    ys1: Seq<Seq<char>>,
    ys2: Seq<Seq<char>>,
    posts: Seq<Map<Seq<char>, Seq<char>>>,
)
    requires
        is_year_order(ys1, posts),
        is_year_order(ys2, posts),
    ensures
        ys1 == ys2,
{
    assert forall|y: Seq<char>| ys1.contains(y) <==> ys2.contains(y) by {
        assert(ys1.contains(y) <==> year_seen(posts, y, posts.len() as int));
        assert(ys2.contains(y) <==> year_seen(posts, y, posts.len() as int));
    }
    lemma_descending_same_elements(ys1, ys2);
}

proof fn lemma_members_have_year(posts: Seq<Map<Seq<char>, Seq<char>>>, y: Seq<char>, n: int)
    requires
        n <= posts.len() <= usize::MAX,
    ensures
        forall|m: int|
            0 <= m < indices_with_year(posts, y, n).len() ==> year_of(
                posts[#[trigger] indices_with_year(posts, y, n)[m] as int],
            ) == Some(y),
    decreases n,
{
    if n > 0 {
        lemma_members_have_year(posts, y, n - 1);
        let prev = indices_with_year(posts, y, n - 1);
        let cur = indices_with_year(posts, y, n);
        assert forall|m: int| 0 <= m < cur.len() implies year_of(
            posts[#[trigger] cur[m] as int],
        ) == Some(y) by {
            if m < prev.len() {
                assert(cur[m] == prev[m]);
            }
        }
    }
}

/// A post without a date belongs to no year group, so none of the fragments
/// that make the page content ever sees it.
pub proof fn lemma_undated_post_excluded(
    posts: Seq<Map<Seq<char>, Seq<char>>>,
    k: int,
    y: Seq<char>,
)
    requires
        posts.len() <= usize::MAX,
        0 <= k < posts.len(),
        !posts[k].contains_key("date"@),
    ensures
        !indices_with_year(posts, y, posts.len() as int).contains(k as usize),
{
    lemma_members_have_year(posts, y, posts.len() as int);
    let idx = indices_with_year(posts, y, posts.len() as int);
    if idx.contains(k as usize) {
        let m = choose|m: int| 0 <= m < idx.len() && idx[m] == k as usize;
        assert(year_of(posts[idx[m] as int]) == Some(y));
    }
}

/// With no posts there are no years and the content section is empty; the
/// page is still the intro fragment, rendered with the global variables, in
/// the layout.
pub proof fn lemma_empty_collection(
    ys: Seq<Seq<char>>,
    site_name: Seq<char>,
    store: Map<Seq<char>, Seq<char>>,
    layout: Seq<char>,
    global: Map<Seq<char>, Seq<char>>,
)
    requires
        is_year_order(ys, Seq::empty()),
    ensures
        ys.len() == 0,
        year_sections(ys, Seq::empty(), store) == Ok::<Seq<char>, TemplateError>(Seq::empty()),
        index_html(ys, site_name, Seq::empty(), store, layout, global) == page_html(
            Seq::empty(),
            site_name,
            store,
            layout,
            global,
        ),
{
    if ys.len() > 0 {
        assert(ys.contains(ys[0]));
    }
}

} // verus!
