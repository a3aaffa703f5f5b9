use sitegen::template::{process_template_tags, TemplateError, DEFAULT_DEPTH_LIMIT};
use sitegen::variables::{TemplateIncludes, Variables};

fn vars(pairs: &[(&str, &str)]) -> Variables {
    let mut v = Variables::new();
    for (k, val) in pairs {
        v.insert(k.to_string(), val.to_string());
    }
    v
}

fn directive(name: &str) -> String {
    format!("{{% include {} %}}", name)
}

#[test]
fn plain_text_is_unchanged() {
    let v = vars(&[("a", "1")]);
    let store = vars(&[("x.liquid", "X")]);
    let t = "<p>Hello, world! { single } braces % and }} closers</p>";
    assert_eq!(process_template_tags(t, &v, None, None), Ok(t.to_string()));
    assert_eq!(process_template_tags(t, &v, Some(&store), None), Ok(t.to_string()));
    assert_eq!(process_template_tags("", &v, None, None), Ok(String::new()));
}

#[test]
fn variable_is_substituted() {
    let v = vars(&[("title", "Hi"), ("name", "Ann")]);
    assert_eq!(
        process_template_tags("<h1>{{ title }}</h1>{{name}}!", &v, None, None),
        Ok("<h1>Hi</h1>Ann!".to_string())
    );
}

#[test]
fn later_insert_replaces_value() {
    let mut v = Variables::new();
    v.insert("k".to_string(), "old".to_string());
    v.insert("k".to_string(), "new".to_string());
    assert_eq!(v.get("k"), Some(&"new".to_string()));
    assert_eq!(process_template_tags("{{k}}", &v, None, None), Ok("new".to_string()));
}

#[test]
fn missing_variable_is_empty() {
    let v = vars(&[("a", "1")]);
    assert_eq!(process_template_tags("[{{ missing }}]", &v, None, None), Ok("[]".to_string()));
    assert_eq!(process_template_tags("{{nothing}}", &Variables::new(), None, None), Ok(String::new()));
}

#[test]
fn unterminated_variable_tag_is_malformed() {
    let v = vars(&[("a", "1")]);
    assert_eq!(
        process_template_tags("x {{ a ", &v, None, None),
        Err(TemplateError::MalformedTemplate)
    );
}

#[test]
fn unterminated_directive_is_malformed() {
    let v = Variables::new();
    let store = Variables::new();
    assert_eq!(
        process_template_tags("x {% include a.liquid", &v, None, None),
        Err(TemplateError::MalformedTemplate)
    );
    assert_eq!(
        process_template_tags("x {% include a.liquid", &v, Some(&store), None),
        Err(TemplateError::MalformedTemplate)
    );
}

#[test]
fn directive_left_as_is_without_fragments() {
    let v = vars(&[("a", "1")]);
    let t = format!("a{}b{{{{a}}}}", directive("head.liquid"));
    assert_eq!(
        process_template_tags(&t, &v, None, None),
        Ok(format!("a{}b1", directive("head.liquid")))
    );
}

#[test]
fn directive_expands_fragment() {
    let v = vars(&[("who", "me")]);
    let store: TemplateIncludes = vars(&[("head.liquid", "<h>{{who}}</h>")]);
    let t = format!("[{}]", directive("head.liquid"));
    assert_eq!(process_template_tags(&t, &v, Some(&store), None), Ok("[<h>me</h>]".to_string()));
}

#[test]
fn nested_fragments_expand_recursively() {
    let v = vars(&[("x", "7")]);
    let outer = format!("<o>{}</o>", directive("inner.liquid"));
    let store = vars(&[("outer.liquid", outer.as_str()), ("inner.liquid", "<i>{{ x }}</i>")]);
    let t = format!("{}|{}", directive("outer.liquid"), directive("inner.liquid"));
    assert_eq!(
        process_template_tags(&t, &v, Some(&store), None),
        Ok("<o><i>7</i></o>|<i>7</i>".to_string())
    );
}

#[test]
fn missing_fragment_is_empty() {
    let v = Variables::new();
    let store = vars(&[("a.liquid", "A")]);
    let t = format!("<{}>", directive("nope.liquid"));
    assert_eq!(process_template_tags(&t, &v, Some(&store), None), Ok("<>".to_string()));
}

#[test]
fn other_directives_are_kept() {
    let v = Variables::new();
    let store = vars(&[("a.liquid", "A")]);
    let t = "{% if x %}y{% endif %}";
    assert_eq!(process_template_tags(t, &v, Some(&store), None), Ok(t.to_string()));
}

#[test]
fn cyclic_fragments_are_rejected() {
    let v = Variables::new();
    let a = directive("b.liquid");
    let b = directive("a.liquid");
    let store = vars(&[("a.liquid", a.as_str()), ("b.liquid", b.as_str())]);
    assert_eq!(
        process_template_tags(&directive("a.liquid"), &v, Some(&store), None),
        Err(TemplateError::RecursionLimitExceeded)
    );
}

#[test]
fn self_reference_is_rejected() {
    let v = Variables::new();
    let s = format!("x{}", directive("s.liquid"));
    let store = vars(&[("s.liquid", s.as_str())]);
    assert_eq!(
        process_template_tags(&directive("s.liquid"), &v, Some(&store), Some(3)),
        Err(TemplateError::RecursionLimitExceeded)
    );
}

#[test]
fn depth_limit_counts_levels() {
    let v = Variables::new();
    let one = directive("two.liquid");
    let store = vars(&[("one.liquid", one.as_str()), ("two.liquid", "leaf")]);
    let t = directive("one.liquid");
    assert_eq!(process_template_tags(&t, &v, Some(&store), Some(2)), Ok("leaf".to_string()));
    assert_eq!(
        process_template_tags(&t, &v, Some(&store), Some(1)),
        Err(TemplateError::RecursionLimitExceeded)
    );
    assert_eq!(
        process_template_tags(&t, &v, Some(&store), Some(0)),
        Err(TemplateError::RecursionLimitExceeded)
    );
    assert!(DEFAULT_DEPTH_LIMIT >= 2);
}

#[test]
fn get_or_empty_and_duplicate() {
    let v = vars(&[("a", "1"), ("b", "2")]);
    assert_eq!(v.get_or_empty("a"), "1");
    assert_eq!(v.get_or_empty("zz"), "");
    let d = v.duplicate();
    assert_eq!(d.get("b"), Some(&"2".to_string()));
    assert_eq!(d.get("c"), None);
}
