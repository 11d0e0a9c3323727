use hkask_templates::prompt_strategy::PromptStrategy;

#[test]
fn from_input_question_mark() {
    assert_eq!(
        PromptStrategy::from_input("What is rust?"),
        PromptStrategy::Answer
    );
}

#[test]
fn from_input_how() {
    assert_eq!(
        PromptStrategy::from_input("how do I bake bread"),
        PromptStrategy::Answer
    );
}

#[test]
fn from_input_what() {
    assert_eq!(
        PromptStrategy::from_input("what is the time"),
        PromptStrategy::Answer
    );
}

#[test]
fn from_input_create() {
    assert_eq!(
        PromptStrategy::from_input("create a new project"),
        PromptStrategy::Instruct
    );
}

#[test]
fn from_input_make() {
    assert_eq!(
        PromptStrategy::from_input("make it so"),
        PromptStrategy::Instruct
    );
}

#[test]
fn from_input_build() {
    assert_eq!(
        PromptStrategy::from_input("build a house"),
        PromptStrategy::Instruct
    );
}

#[test]
fn from_input_default() {
    assert_eq!(
        PromptStrategy::from_input("hello there"),
        PromptStrategy::Assist
    );
}

#[test]
fn from_input_question_mark_beats_create() {
    // '?' triggers Answer even if 'create' is also present
    assert_eq!(
        PromptStrategy::from_input("how to create?"),
        PromptStrategy::Answer
    );
}

#[test]
fn name_variants() {
    assert_eq!(PromptStrategy::Answer.name(), "answer");
    assert_eq!(PromptStrategy::Instruct.name(), "instruct");
    assert_eq!(PromptStrategy::Assist.name(), "assist");
}

#[test]
fn from_input_empty_string() {
    assert_eq!(PromptStrategy::from_input(""), PromptStrategy::Assist);
}

#[test]
fn from_input_is_case_sensitive() {
    assert_eq!(PromptStrategy::from_input("What time"), PromptStrategy::Assist);
    assert_eq!(PromptStrategy::from_input("Build it"), PromptStrategy::Assist);
}
