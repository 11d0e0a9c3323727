use hkask_templates::lexicon::{parse_markdown_catalog, regenerate_workspace_yaml, render_workspace_yaml, TemplateType};

#[test]
fn parse_catalog_extracts_terms() {
    let markdown = "\
        ## Domain 1: WordAct — Prompting Language (34 terms)\n\
        ### 1.1 Directive Acts\n\
        | Term | Definition | Example Usage |\n\
        |------|------------|---------------|\n\
        | `query` | Ask for information | \"Query: What is...\" |\n\
        | `request` | Ask for action | \"Request: Summarize...\" |\n\
        \n\
        ## Domain 2: FlowDef — Process Flow Language (42 terms)\n\
        ### 2.1 Control Flow\n\
        | Term | Definition | Example Usage |\n\
        |------|------------|---------------|\n\
        | `sequence` | Linear ordering | \"sequence: A then B\" |\n\
        | `parallel` | Concurrent execution | \"parallel: A and B\" |\n\
        \n\
        ## Domain 3: KnowAct — Cognition Language (66 terms)\n\
        ### 3.1 Recognition\n\
        | Term | Definition | Example Usage |\n\
        |------|------------|---------------|\n\
        | `recognize` | Identify pattern | \"recognize: forecastable\" |\n\
    ";

    let catalog = parse_markdown_catalog(markdown).unwrap();

    assert_eq!(catalog.len(), 5);
    assert_eq!(catalog[0], ("query".into(), "Ask for information".into(), TemplateType::WordAct));
    assert_eq!(catalog[1], ("request".into(), "Ask for action".into(), TemplateType::WordAct));
    assert_eq!(catalog[2], ("sequence".into(), "Linear ordering".into(), TemplateType::FlowDef));
    assert_eq!(catalog[3], ("parallel".into(), "Concurrent execution".into(), TemplateType::FlowDef));
    assert_eq!(catalog[4], ("recognize".into(), "Identify pattern".into(), TemplateType::KnowAct));
}

#[test]
fn parse_catalog_skips_non_term_rows() {
    let markdown = "\
        ## Domain 1: WordAct\n\
        Some prose text here.\n\
        | Term | Definition |\n\
        |------|------------|\n\
        | `query` | Ask |\n\
        | Non-backtick cell | Not a term |\n\
    ";

    let catalog = parse_markdown_catalog(markdown).unwrap();
    assert_eq!(catalog.len(), 1);
    assert_eq!(catalog[0].0, "query");
}

#[test]
fn parse_catalog_empty_input_returns_error() {
    let result = parse_markdown_catalog("No tables here");
    assert!(result.is_err());
}

#[test]
fn regenerate_workspace_yaml_produces_valid_yaml() {
    let markdown = "\
        ## Domain 1: WordAct\n\
        | Term | Definition |\n\
        |------|------------|\n\
        | `query` | Ask for information |\n\
        \n\
        ## Domain 2: FlowDef\n\
        | Term | Definition |\n\
        |------|------------|\n\
        | `sequence` | Linear ordering |\n\
        ## Cross-Domain Composition Patterns\n\
        (rest of doc...)  \
    ";

    let yaml = regenerate_workspace_yaml(markdown).unwrap();

    assert!(yaml.starts_with("# hLexicon Workspace Registry"));
    assert!(yaml.contains("term: query"));
    assert!(yaml.contains("term: sequence"));
    assert!(yaml.contains("definition: \"Ask for information\""));
}

#[test]
fn rendering_sorts_terms_and_escapes_definitions() {
    let terms = vec![
        ("request".to_string(), "Ask \"nicely\"".to_string(), TemplateType::WordAct),
        ("query".to_string(), "a\\b".to_string(), TemplateType::WordAct),
        ("recognize".to_string(), "Identify pattern".to_string(), TemplateType::KnowAct),
    ];
    let yaml = render_workspace_yaml(&terms).unwrap();
    let body = yaml.split("hlexicon:\n").nth(1).unwrap();
    assert_eq!(
        body,
        "  wordact:\n    - term: query\n      definition: \"a\\\\b\"\n    - term: request\n      definition: \"Ask \\\"nicely\\\"\"\n  flowdef:\n  knowact:\n    - term: recognize\n      definition: \"Identify pattern\"\n"
    );
}

#[test]
fn terms_after_the_cross_domain_section_are_ignored() {
    let markdown = "## Domain 3: KnowAct\n| `a` | first |\r\n## Cross-Domain\n## Domain 1: WordAct\n| `b` | later |\n";
    let catalog = parse_markdown_catalog(markdown).unwrap();
    assert_eq!(catalog, vec![("a".to_string(), "first".to_string(), TemplateType::KnowAct)]);
}

#[test]
fn render_yaml_round_trips() {
    let terms = vec![
        ("query".to_string(), "Ask for information".to_string(), TemplateType::WordAct),
        ("request".to_string(), "Ask for action".to_string(), TemplateType::WordAct),
        ("sequence".to_string(), "Linear ordering".to_string(), TemplateType::FlowDef),
        ("recognize".to_string(), "Identify pattern".to_string(), TemplateType::KnowAct),
    ];
    let yaml = render_workspace_yaml(&terms).unwrap();
    assert!(yaml.contains("hlexicon:"));
    assert!(yaml.contains("wordact:"));
    assert!(yaml.contains("flowdef:"));
    assert!(yaml.contains("knowact:"));
    // Parse it back and read the terms of each domain.
    let doc: serde_yaml::Value = serde_yaml::from_str(&yaml).unwrap();
    let mut lexicon: Vec<String> = Vec::new();
    for domain in ["wordact", "flowdef", "knowact"] {
        if let Some(list) = doc["hlexicon"][domain].as_sequence() {
            for t in list {
                lexicon.push(t["term"].as_str().unwrap().to_string());
            }
        }
    }
    assert_eq!(lexicon.len(), 4);
    assert!(lexicon.contains(&"query".to_string()));
    assert!(lexicon.contains(&"sequence".to_string()));
    assert!(lexicon.contains(&"recognize".to_string()));
}
