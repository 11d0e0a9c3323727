use hkask_templates::json::{bind_parameters, copy_json, lookup_field, resolve_dot_path, Json};
use hkask_templates::ports::SkillFinding;

fn text(s: &str) -> Json {
    Json::Text(s.to_string())
}

fn object(fields: Vec<(&str, Json)>) -> Json {
    Json::Object(fields.into_iter().map(|(k, v)| (k.to_string(), v)).collect())
}

fn reference(path: &str) -> Json {
    object(vec![("$ref", text(path))])
}

fn context() -> Vec<(String, Json)> {
    vec![
        ("name".to_string(), text("ada")),
        (
            "step_1_result".to_string(),
            object(vec![("score", Json::Number("0.25".to_string())), ("inner", object(vec![("deep", Json::Bool(true))]))]),
        ),
    ]
}

fn field<'a>(j: &'a Json, k: &str) -> &'a Json {
    match j {
        Json::Object(fs) => lookup_field(fs, k).unwrap(),
        other => panic!("not an object: {:?}", other),
    }
}

#[test]
fn dot_paths_walk_into_objects() {
    let ctx = context();
    assert!(matches!(resolve_dot_path("name", &ctx), Some(Json::Text(t)) if t == "ada"));
    assert!(matches!(resolve_dot_path("step_1_result.score", &ctx), Some(Json::Number(n)) if n == "0.25"));
    assert!(matches!(resolve_dot_path("step_1_result.inner.deep", &ctx), Some(Json::Bool(true))));
    assert!(resolve_dot_path("step_1_result.missing", &ctx).is_none());
    assert!(resolve_dot_path("name.anything", &ctx).is_none());
    assert!(resolve_dot_path("nobody", &ctx).is_none());
    assert!(resolve_dot_path("", &ctx).is_none());
}

#[test]
fn references_bind_from_the_context() {
    let ctx = context();
    let mapping = object(vec![
        ("who", reference("name")),
        ("score", reference("step_1_result.score")),
        ("literal", Json::Number("3".to_string())),
        ("nested", object(vec![("flag", reference("step_1_result.inner.deep"))])),
        ("dangling", reference("nowhere")),
    ]);
    let bound = bind_parameters(&mapping, &ctx);
    assert!(matches!(field(&bound, "who"), Json::Text(t) if t == "ada"));
    assert!(matches!(field(&bound, "score"), Json::Number(n) if n == "0.25"));
    assert!(matches!(field(&bound, "literal"), Json::Number(n) if n == "3"));
    assert!(matches!(field(field(&bound, "nested"), "flag"), Json::Bool(true)));
    // An unresolved reference stays an object, its fields bound in turn.
    assert!(matches!(field(field(&bound, "dangling"), "$ref"), Json::Text(t) if t == "nowhere"));
}

#[test]
fn non_object_mappings_pass_through() {
    let ctx = context();
    let list = Json::Array(vec![reference("name"), Json::Null]);
    match bind_parameters(&list, &ctx) {
        Json::Array(items) => {
            assert_eq!(items.len(), 2);
            assert!(matches!(field(&items[0], "$ref"), Json::Text(t) if t == "name"));
            assert!(matches!(items[1], Json::Null));
        }
        other => panic!("unexpected {:?}", other),
    }
    assert!(matches!(copy_json(&text("x")), Json::Text(t) if t == "x"));
}

#[test]
fn skill_findings_render_as_row_and_json() {
    let f = SkillFinding { skill_id: "s1".to_string(), code: "HKASK-SKILL-001", detail: "add a manifest".to_string() };
    assert_eq!(f.row(), "[HKASK-SKILL-001] s1: add a manifest");
    let j = f.json();
    assert!(matches!(field(&j, "skill_id"), Json::Text(t) if t == "s1"));
    assert!(matches!(field(&j, "code"), Json::Text(t) if t == "HKASK-SKILL-001"));
    assert!(matches!(field(&j, "detail"), Json::Text(t) if t == "add a manifest"));
}
