use sitegen::layout::insert_body_into_layout;
use sitegen::template::TemplateError;

#[test]
fn body_replaces_marker() {
    assert_eq!(
        insert_body_into_layout("<html>{{BODY}}</html>", "hello"),
        Ok("<html>hello</html>".to_string())
    );
}

#[test]
fn other_tags_stay_for_later() {
    assert_eq!(
        insert_body_into_layout("<t>{{ title }}</t>{{BODY}}{% x %}", "b{{y}}"),
        Ok("<t>{{ title }}</t>b{{y}}{% x %}".to_string())
    );
}

#[test]
fn missing_marker_is_rejected() {
    assert_eq!(
        insert_body_into_layout("<html></html>", "hello"),
        Err(TemplateError::CompositionTargetError)
    );
    assert_eq!(
        insert_body_into_layout("<html>{{ BODY }}</html>", "hello"),
        Err(TemplateError::CompositionTargetError)
    );
}

#[test]
fn duplicate_marker_is_rejected() {
    assert_eq!(
        insert_body_into_layout("{{BODY}}<hr>{{BODY}}", "hello"),
        Err(TemplateError::CompositionTargetError)
    );
}
