//! The tag processor: `{{ name }}` is replaced by a variable's value, and a
//! fragment directive `{% <word> name %}` by the named fragment, itself
//! expanded against the same variables.
//!
//! Fragment directives are expanded only when a fragment store is supplied.
//! Without one, every `{% ... %}` tag is copied to the output unchanged, so
//! that a later pass with the store can expand it. With a store, a `{% ... %}`
//! tag that is not a fragment directive is copied unchanged as well.
use crate::text::{
    find_at_or_after, find_from, is_space, lemma_find_from_bounds, occurs_at, starts_at, to_chars,
    trim, trim_bounds, trim_end, trim_start,
};
use crate::variables::{value_or_empty, TemplateIncludes, Variables};
use vstd::prelude::*;

verus! {

/// Why a template could not be processed.
#[derive(Clone, Copy, Debug, PartialEq, Eq, Structural)]
pub enum TemplateError {
    /// A tag was opened and never closed.
    MalformedTemplate,
    /// Fragment expansion went deeper than the depth limit (cyclic chains end here).
    RecursionLimitExceeded,
    /// A layout holds no body placeholder, or more than one.
    CompositionTargetError,
}

/// How deep fragment expansion may go when the caller sets no limit.
pub const DEFAULT_DEPTH_LIMIT: usize = 16;

pub open spec fn open_var() -> Seq<char> {
    seq!['{', '{']
}

pub open spec fn close_var() -> Seq<char> {
    seq!['}', '}']
}

pub open spec fn open_directive() -> Seq<char> {
    seq!['{', '%']
}

pub open spec fn close_directive() -> Seq<char> {
    seq!['%', '}']
}

/// The word that opens a fragment directive.
pub open spec fn directive_word() -> Seq<char> {
    seq!['i', 'n', 'c', 'l', 'u', 'd', 'e']
}

/// The fragment name that the inside of a `{% ... %}` tag refers to, if the
/// tag is a fragment directive: the word, whitespace, then the name.
pub open spec fn directive_target(inner: Seq<char>) -> Option<Seq<char>> {
    let w = trim(inner);
    if w.len() > 7 && w.subrange(0, 7) == directive_word() && is_space(w[7]) {
        Some(trim(w.subrange(7, w.len() as int)))
    } else {
        None
    }
}

/// Concatenation of two outcomes; the first error wins.
pub open spec fn join(
    a: Result<Seq<char>, TemplateError>,
    b: Result<Seq<char>, TemplateError>,
) -> Result<Seq<char>, TemplateError> {
    match a {
        Err(e) => Err(e),
        Ok(x) => match b {
            Err(e) => Err(e),
            Ok(y) => Ok(x + y),
        },
    }
}

/// The expansion of `t` from position `i` on, with `fuel` levels of fragment
/// expansion left.
pub open spec fn expand_at(
    t: Seq<char>,
    i: int,
    vars: Map<Seq<char>, Seq<char>>,
    store: Option<Map<Seq<char>, Seq<char>>>,
    fuel: nat,
) -> Result<Seq<char>, TemplateError>
    decreases fuel, t.len() - i,
    via expand_at_decreases
{
    if i < 0 || i >= t.len() {
        Ok(Seq::empty())
    } else if starts_at(t, i, open_var()) {
        match find_from(t, i + 2, close_var()) {
            None => Err(TemplateError::MalformedTemplate),
            Some(j) => join(
                Ok(value_or_empty(vars, trim(t.subrange(i + 2, j)))),
                expand_at(t, j + 2, vars, store, fuel),
            ),
        }
    } else if starts_at(t, i, open_directive()) {
        match find_from(t, i + 2, close_directive()) {
            None => Err(TemplateError::MalformedTemplate),
            Some(j) => {
                let piece = match store {
                    None => Ok(t.subrange(i, j + 2)),
                    Some(st) => match directive_target(t.subrange(i + 2, j)) {
                        None => Ok(t.subrange(i, j + 2)),
                        Some(name) => if !st.contains_key(name) {
                            Ok(Seq::empty())
                        } else if fuel == 0 {
                            Err(TemplateError::RecursionLimitExceeded)
                        } else {
                            expand_at(st[name], 0, vars, store, (fuel - 1) as nat)
                        },
                    },
                };
                join(piece, expand_at(t, j + 2, vars, store, fuel))
            },
        }
    } else {
        join(Ok(seq![t[i]]), expand_at(t, i + 1, vars, store, fuel))
    }
}

#[via_fn]
proof fn expand_at_decreases(
    t: Seq<char>,
    i: int,
    vars: Map<Seq<char>, Seq<char>>,
    store: Option<Map<Seq<char>, Seq<char>>>,
    fuel: nat,
) {
    lemma_find_from_bounds(t, i + 2, close_var());
    lemma_find_from_bounds(t, i + 2, close_directive());
}

/// What processing `t` yields, with fragment expansion `limit` levels deep.
pub open spec fn render(
    t: Seq<char>,
    vars: Map<Seq<char>, Seq<char>>,
    store: Option<Map<Seq<char>, Seq<char>>>,
    limit: nat,
) -> Result<Seq<char>, TemplateError> {
    expand_at(t, 0, vars, store, limit)
}

/// The fragments as a map, where a store is given.
pub open spec fn store_view(s: Option<&TemplateIncludes>) -> Option<Map<Seq<char>, Seq<char>>> {
    match s {
        Some(m) => Some(m@),
        None => None,
    }
}

/// The depth limit that an optional override stands for.
pub open spec fn depth_of(limit: Option<usize>) -> nat {
    match limit {
        Some(d) => d as nat,
        None => DEFAULT_DEPTH_LIMIT as nat,
    }
}

/// `r` is the executable form of the outcome `s`.
pub open spec fn agrees(r: Result<String, TemplateError>, s: Result<Seq<char>, TemplateError>) -> bool {
    match s {
        Ok(v) => r is Ok && r->Ok_0@ == v,
        Err(e) => r == Err::<String, TemplateError>(e),
    }
}

pub(crate) proof fn lemma_join_ok(a: Seq<char>, b: Seq<char>, r: Result<Seq<char>, TemplateError>)
    ensures
        join(Ok(a), join(Ok(b), r)) == join(Ok(a + b), r),
{
    if let Ok(x) = r {
        assert((a + b) + x =~= a + (b + x));
    }
}

fn pair(a: char, b: char) -> (r: Vec<char>)
    ensures
        r@ == seq![a, b],
{
    let mut v: Vec<char> = Vec::new();
    v.push(a);
    v.push(b);
    assert(v@ =~= seq![a, b]);
    v
}

fn is_space_char(c: char) -> (r: bool)
    ensures
        r == is_space(c),
{
    c == ' ' || c == '\t' || c == '\n' || c == '\r'
}

/// Whether the directive word stands in `t` at `a`.
fn word_at(t: &Vec<char>, a: usize) -> (r: bool)
    requires
        a + 7 <= t.len(),
    ensures
        r == (t@.subrange(a as int, a + 7) == directive_word()),
{
    let r = t[a] == 'i' && t[a + 1] == 'n' && t[a + 2] == 'c' && t[a + 3] == 'l' && t[a + 4]
        == 'u' && t[a + 5] == 'd' && t[a + 6] == 'e';
    if r {
        assert(t@.subrange(a as int, a + 7) =~= directive_word());
    } else {
        assert(t@.subrange(a as int, a + 7) != directive_word()) by {
            let s = t@.subrange(a as int, a + 7);
            assert(s[0] == t@[a as int] && s[1] == t@[a + 1] && s[2] == t@[a + 2]);
            assert(s[3] == t@[a + 3] && s[4] == t@[a + 4] && s[5] == t@[a + 5]);
            assert(s[6] == t@[a + 6]);
        }
    }
    r
}

fn expand(t: &str, vars: &Variables, store: Option<&TemplateIncludes>, fuel: usize) -> (r: Result<
    String,
    TemplateError,
>)
    ensures
        agrees(r, expand_at(t@, 0, vars@, store_view(store), fuel as nat)),
    decreases fuel,
{
    let ghost sv = store_view(store);
    let ghost full = expand_at(t@, 0, vars@, sv, fuel as nat);
    let cs = to_chars(t);
    let ov = pair('{', '{');
    let cv = pair('}', '}');
    let od = pair('{', '%');
    let cd = pair('%', '}');
    let mut out = String::new();
    let mut lit: usize = 0;
    let mut i: usize = 0;
    assert(out@ + t@.subrange(0, 0) =~= Seq::<char>::empty());
    assert(full == join(Ok(out@ + t@.subrange(0, 0)), full)) by {
        if let Ok(x) = full {
            assert(Seq::<char>::empty() + x =~= x);
        }
    }
    while i < cs.len()
        invariant
            lit <= i <= cs.len(),
            cs@ == t@,
            ov@ == open_var(),
            cv@ == close_var(),
            od@ == open_directive(),
            cd@ == close_directive(),
            sv == store_view(store),
            full == expand_at(t@, 0, vars@, sv, fuel as nat),
            full == join(Ok(out@ + t@.subrange(lit as int, i as int)), expand_at(t@, i as int, vars@, sv, fuel as nat)),
        decreases cs.len() - i,
    {
        let ghost before = out@ + t@.subrange(lit as int, i as int);
        if occurs_at(&cs, i, &ov) {
            match find_at_or_after(&cs, i + 2, &cv) {
                None => {
                    return Err(TemplateError::MalformedTemplate);
                },
                Some(j) => {
                    proof {
                        lemma_find_from_bounds(t@, i + 2, close_var());
                    }
                    out.append(t.substring_char(lit, i));
                    let (a, b) = trim_bounds(&cs, i + 2, j);
                    let name = t.substring_char(a, b);
                    let value = vars.get_or_empty(name);
                    out.append(value.as_str());
                    proof {
                        lemma_join_ok(before, value@, expand_at(t@, j + 2, vars@, sv, fuel as nat));
                    }
                    i = j + 2;
                    lit = i;
                    assert(out@ + t@.subrange(lit as int, i as int) =~= before + value@);
                },
            }
        } else if occurs_at(&cs, i, &od) {
            match find_at_or_after(&cs, i + 2, &cd) {
                None => {
                    return Err(TemplateError::MalformedTemplate);
                },
                Some(j) => {
                    proof {
                        lemma_find_from_bounds(t@, i + 2, close_directive());
                    }
                    out.append(t.substring_char(lit, i));
                    let ghost piece = match sv {
                        None => Ok(t@.subrange(i as int, j + 2)),
                        Some(st) => match directive_target(t@.subrange(i + 2, j as int)) {
                            None => Ok(t@.subrange(i as int, j + 2)),
                            Some(name) => if !st.contains_key(name) {
                                Ok(Seq::empty())
                            } else if fuel == 0 {
                                Err(TemplateError::RecursionLimitExceeded)
                            } else {
                                expand_at(st[name], 0, vars@, sv, (fuel - 1) as nat)
                            },
                        },
                    };
                    let mut handled = false;
                    let mut text = String::new();
                    if let Some(st) = store {
                        let (a, b) = trim_bounds(&cs, i + 2, j);
                        let ghost w = t@.subrange(a as int, b as int);
                        if b - a > 7 && word_at(&cs, a) && is_space_char(cs[a + 7]) {
                            assert(w.subrange(0, 7) =~= t@.subrange(a as int, a + 7));
                            let (na, nb) = trim_bounds(&cs, a + 7, b);
                            assert(w.subrange(7, w.len() as int) =~= t@.subrange(a + 7, b as int));
                            let name = t.substring_char(na, nb);
                            match st.get(name) {
                                None => {},
                                Some(frag) => {
                                    if fuel == 0 {
                                        return Err(TemplateError::RecursionLimitExceeded);
                                    }
                                    match expand(frag.as_str(), vars, store, fuel - 1) {
                                        Err(e) => {
                                            return Err(e);
                                        },
                                        Ok(s) => {
                                            text = s;
                                        },
                                    }
                                },
                            }
                            handled = true;
                        } else {
                            assert(directive_target(t@.subrange(i + 2, j as int)) is None) by {
                                if w.len() > 7 && w.subrange(0, 7) == directive_word() {
                                    assert(w.subrange(0, 7) =~= t@.subrange(a as int, a + 7));
                                }
                            }
                        }
                    }
                    if !handled {
                        text.append(t.substring_char(i, j + 2));
                    }
                    assert(piece == Ok::<Seq<char>, TemplateError>(text@));
                    out.append(text.as_str());
                    proof {
                        lemma_join_ok(before, text@, expand_at(t@, j + 2, vars@, sv, fuel as nat));
                    }
                    i = j + 2;
                    lit = i;
                    assert(out@ + t@.subrange(lit as int, i as int) =~= before + text@);
                },
            }
        } else {
            proof {
                lemma_join_ok(before, seq![t@[i as int]], expand_at(t@, i + 1, vars@, sv, fuel as nat));
                assert(before + seq![t@[i as int]] =~= out@ + t@.subrange(lit as int, i + 1));
            }
            i = i + 1;
        }
    }
    out.append(t.substring_char(lit, i));
    assert(full == Ok::<Seq<char>, TemplateError>(out@)) by {
        assert(out@ + Seq::<char>::empty() =~= out@);
    }
    Ok(out)
}

/// Processes the tags of `template`: each `{{ name }}` becomes the value of
/// `name` in `variables`, or nothing where it has none. Where `fragments` is
/// given, each fragment directive becomes the named fragment, expanded in
/// turn against the same variables; a missing fragment becomes nothing.
/// Expansion goes at most `depth_limit` levels deep (by default
/// `DEFAULT_DEPTH_LIMIT`); deeper, as on a cycle, it fails.
pub fn process_template_tags(
    template: &str,
    variables: &Variables,
    fragments: Option<&TemplateIncludes>,
    depth_limit: Option<usize>,
) -> (r: Result<String, TemplateError>)
    ensures
        agrees(r, render(template@, variables@, store_view(fragments), depth_of(depth_limit))),
{
    let fuel = match depth_limit {
        Some(d) => d,
        None => DEFAULT_DEPTH_LIMIT,
    };
    expand(template, variables, fragments, fuel)
}

/// `t` holds no tag opening: neither `{{` nor `{%` occurs in it.
pub open spec fn has_no_tags(t: Seq<char>) -> bool {
    forall|i: int| !starts_at(t, i, open_var()) && !starts_at(t, i, open_directive())
}

proof fn lemma_plain_from(
    t: Seq<char>,
    i: int,
    vars: Map<Seq<char>, Seq<char>>,
    store: Option<Map<Seq<char>, Seq<char>>>,
    fuel: nat,
)
    requires
        has_no_tags(t),
        0 <= i <= t.len(),
    ensures
        expand_at(t, i, vars, store, fuel) == Ok::<Seq<char>, TemplateError>(
            t.subrange(i, t.len() as int),
        ),
    decreases t.len() - i,
{
    if i < t.len() {
        lemma_plain_from(t, i + 1, vars, store, fuel);
        assert(seq![t[i]] + t.subrange(i + 1, t.len() as int) =~= t.subrange(i, t.len() as int));
    } else {
        assert(t.subrange(i, t.len() as int) =~= Seq::<char>::empty());
    }
}

/// A template without tags comes out of processing unchanged, whatever the
/// variables, fragments and depth limit.
pub proof fn lemma_no_tags_unchanged(
    t: Seq<char>,
    vars: Map<Seq<char>, Seq<char>>,
    store: Option<Map<Seq<char>, Seq<char>>>,
    limit: nat,
)
    requires
        has_no_tags(t),
    ensures
        render(t, vars, store, limit) == Ok::<Seq<char>, TemplateError>(t),
{
    lemma_plain_from(t, 0, vars, store, limit);
    assert(t.subrange(0, t.len() as int) =~= t);
}

proof fn lemma_find_skips(t: Seq<char>, i: int, p: Seq<char>, j: int)
    requires
        0 <= i <= j,
        starts_at(t, j, p),
        forall|k: int| i <= k < j ==> !starts_at(t, k, p),
    ensures
        find_from(t, i, p) == Some(j),
    decreases j - i,
{
    if i < j {
        lemma_find_skips(t, i + 1, p, j);
    }
}

/// The interpolation tag of `name`.
pub open spec fn variable_tag(name: Seq<char>) -> Seq<char> {
    open_var() + name + close_var()
}

/// The interpolation tag of a name that the variables do not hold becomes
/// the empty text; it is no error.
pub proof fn lemma_missing_variable_is_empty(
    name: Seq<char>,
    vars: Map<Seq<char>, Seq<char>>,
    store: Option<Map<Seq<char>, Seq<char>>>,
    limit: nat,
)
    requires
        forall|k: int| 0 <= k < name.len() ==> name[k] != '}',
        !vars.contains_key(trim(name)),
    ensures
        render(variable_tag(name), vars, store, limit) == Ok::<Seq<char>, TemplateError>(
            Seq::empty(),
        ),
{
    let t = variable_tag(name);
    let n = name.len() as int;
    assert(t.subrange(0, 2) =~= open_var());
    assert(t.subrange(n + 2, n + 4) =~= close_var());
    assert forall|k: int| 2 <= k < n + 2 implies !starts_at(t, k, close_var()) by {
        assert(t.subrange(k, k + 2)[0] == t[k]);
        assert(t[k] == name[k - 2]);
    }
    lemma_find_skips(t, 2, close_var(), n + 2);
    assert(t.subrange(2, n + 2) =~= name);
    assert(value_or_empty(vars, trim(t.subrange(2, n + 2))) == Seq::<char>::empty());
    assert(expand_at(t, n + 4, vars, store, limit) == Ok::<Seq<char>, TemplateError>(Seq::empty()));
    assert(Seq::<char>::empty() + Seq::<char>::empty() =~= Seq::<char>::empty());
}

/// The fragment directive that names `name`: `{% <word> name %}`.
pub open spec fn fragment_directive(name: Seq<char>) -> Seq<char> {
    open_directive() + seq![' '] + directive_word() + seq![' '] + name + seq![' '] + close_directive()
}

/// A name that a directive can carry: not empty, without whitespace and
/// without `%`.
pub open spec fn is_plain_name(name: Seq<char>) -> bool {
    &&& name.len() > 0
    &&& forall|k: int| 0 <= k < name.len() ==> !is_space(#[trigger] name[k]) && name[k] != '%'
}

/// What a directive naming `name` expands to with `fuel` levels left.
pub open spec fn directive_expansion(
    name: Seq<char>,
    vars: Map<Seq<char>, Seq<char>>,
    st: Map<Seq<char>, Seq<char>>,
    fuel: nat,
) -> Result<Seq<char>, TemplateError> {
    if !st.contains_key(name) {
        Ok(Seq::empty())
    } else if fuel == 0 {
        Err(TemplateError::RecursionLimitExceeded)
    } else {
        render(st[name], vars, Some(st), (fuel - 1) as nat)
    }
}

/// With fragments given, a fragment directive becomes the named fragment,
/// itself expanded one level deeper against the same variables: the same
/// text as putting the expanded fragment in the directive's place. A
/// missing fragment becomes the empty text; no levels left is an error.
pub proof fn lemma_directive_expands(
    name: Seq<char>,
    vars: Map<Seq<char>, Seq<char>>,
    st: Map<Seq<char>, Seq<char>>,
    fuel: nat,
)
    requires
        is_plain_name(name),
    ensures
        render(fragment_directive(name), vars, Some(st), fuel) == directive_expansion(
            name,
            vars,
            st,
            fuel,
        ),
{
    let t = fragment_directive(name);
    let n = name.len() as int;
    let len = t.len() as int;
    assert(len == n + 14);
    assert(t.subrange(0, 2) =~= open_directive());
    assert(t.subrange(len - 2, len) =~= close_directive());
    assert forall|k: int| 2 <= k < len - 2 implies !starts_at(t, k, close_directive()) by {
        assert(t.subrange(k, k + 2)[0] == t[k]);
        if 11 <= k < 11 + n {
            assert(t[k] == name[k - 11]);
        }
    }
    lemma_find_skips(t, 2, close_directive(), len - 2);
    let inner = t.subrange(2, len - 2);
    let body = directive_word() + seq![' '] + name;
    let padded = body + seq![' '];
    assert(inner.drop_first() =~= padded);
    assert(inner[0] == ' ');
    assert(padded[0] == 'i');
    assert(trim_start(padded) == padded);
    assert(trim_start(inner) == padded);
    assert(padded.drop_last() =~= body);
    assert(padded.last() == ' ');
    assert(trim_end(padded) == trim_end(body));
    assert(body.last() == name[n - 1]);
    assert(!is_space(body.last()));
    assert(trim_end(body) == body);
    assert(trim(inner) == body);
    assert(body.subrange(0, 7) =~= directive_word());
    assert(body[7] == ' ');
    let rest = body.subrange(7, body.len() as int);
    assert(rest.drop_first() =~= name);
    assert(trim_start(name) == name);
    assert(trim_end(name) == name);
    assert(trim(rest) == name);
    assert(directive_target(inner) == Some(name));
    assert(expand_at(t, len, vars, Some(st), fuel) == Ok::<Seq<char>, TemplateError>(Seq::empty()));
    if let Ok(x) = directive_expansion(name, vars, st, fuel) {
        assert(x + Seq::<char>::empty() =~= x);
    }
}

/// Two fragments that name each other never finish expanding: processing
/// either directive fails with `RecursionLimitExceeded`, at any depth limit.
pub proof fn lemma_cycle_is_rejected(
    a: Seq<char>,
    b: Seq<char>,
    vars: Map<Seq<char>, Seq<char>>,
    st: Map<Seq<char>, Seq<char>>,
    limit: nat,
)
    requires
        is_plain_name(a),
        is_plain_name(b),
        st.contains_key(a) && st[a] == fragment_directive(b),
        st.contains_key(b) && st[b] == fragment_directive(a),
    ensures
        render(fragment_directive(a), vars, Some(st), limit) == Err::<Seq<char>, TemplateError>(
            TemplateError::RecursionLimitExceeded,
        ),
    decreases limit,
{
    lemma_directive_expands(a, vars, st, limit);
    if limit > 0 {
        lemma_cycle_is_rejected(b, a, vars, st, (limit - 1) as nat);
    }
}

} // verus!
