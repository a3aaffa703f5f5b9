//! The layout composer: puts a page body in the place that a layout marks
//! for it, leaving every other tag of the layout for a later pass.
use crate::template::TemplateError;
use crate::text::{find_from, lemma_find_from_bounds, occurs_at, starts_at, to_chars};
use vstd::prelude::*;

verus! {

/// The placeholder that marks where a layout takes its body.
pub open spec fn body_marker() -> Seq<char> {
    seq!['{', '{', 'B', 'O', 'D', 'Y', '}', '}']
}

/// How many times the body marker occurs in `l` at or after `i`.
pub open spec fn marker_count(l: Seq<char>, i: int) -> nat
    decreases l.len() + 1 - i,
{
    if i < 0 || i > l.len() {
        0
    } else {
        (if starts_at(l, i, body_marker()) {
            1nat
        } else {
            0nat
        }) + marker_count(l, i + 1)
    }
}

/// `layout` with its one body marker replaced by `body`; none where the
/// marker is missing or occurs more than once.
pub open spec fn spliced(layout: Seq<char>, body: Seq<char>) -> Option<Seq<char>> {
    if marker_count(layout, 0) == 1 {
        let p = find_from(layout, 0, body_marker())->0;
        Some(layout.subrange(0, p) + body + layout.subrange(p + 8, layout.len() as int))
    } else {
        None
    }
}

/// Replaces the single `{{BODY}}` marker of `layout` by `body`. Fails with
/// `CompositionTargetError` where the layout has no marker or several.
pub fn insert_body_into_layout(layout: &str, body: &str) -> (r: Result<String, TemplateError>)
    ensures
        match spliced(layout@, body@) {
            Some(s) => r is Ok && r->Ok_0@ == s,
            None => r == Err::<String, TemplateError>(TemplateError::CompositionTargetError),
        },
{
    let cs = to_chars(layout);
    let marker = to_chars("{{BODY}}");
    proof {
        reveal_strlit("{{BODY}}");
        assert(marker@ =~= body_marker());
    }
    let mut count: usize = 0;
    let mut first: usize = 0;
    let mut i: usize = 0;
    while i < cs.len()
        invariant
            i <= cs.len(),
            cs@ == layout@,
            marker@ == body_marker(),
            count <= i,
            marker_count(layout@, 0) == count + marker_count(layout@, i as int),
            count == 0 ==> find_from(layout@, 0, body_marker()) == find_from(layout@, i as int, body_marker()),
            count > 0 ==> find_from(layout@, 0, body_marker()) == Some(first as int),
        decreases cs.len() - i,
    {
        if occurs_at(&cs, i, &marker) {
            if count == 0 {
                first = i;
            }
            count = count + 1;
        }
        i = i + 1;
    }
    assert(marker_count(layout@, i as int) == 0) by {
        assert(marker_count(layout@, i + 1) == 0);
    }
    assert(find_from(layout@, i as int, body_marker()) is None);
    if count != 1 {
        return Err(TemplateError::CompositionTargetError);
    }
    proof {
        lemma_find_from_bounds(layout@, 0, body_marker());
    }
    let mut out = String::new();
    out.append(layout.substring_char(0, first));
    out.append(body);
    out.append(layout.substring_char(first + 8, cs.len()));
    Ok(out)
}

} // verus!
