use hkask_templates::engine::TemplateRegistry;

#[test]
fn registry_gives_back_what_was_added() {
    let mut reg = TemplateRegistry::new();
    assert!(reg.get("a").is_none());
    reg.add("a", "Alpha", "Say {{x}}");
    reg.add("b", "Beta", "Do {{y}}");
    let a = reg.get("a").unwrap();
    assert_eq!(a.id, "a");
    assert_eq!(a.name, "Alpha");
    assert_eq!(a.prompt_template, "Say {{x}}");
    assert_eq!(reg.list().len(), 2);
}

#[test]
fn adding_an_id_again_replaces_it() {
    let mut reg = TemplateRegistry::default();
    reg.add("a", "Alpha", "one");
    reg.add("a", "Alpha 2", "two");
    assert_eq!(reg.list().len(), 1);
    let a = reg.get("a").unwrap();
    assert_eq!(a.name, "Alpha 2");
    assert_eq!(a.prompt_template, "two");
}
