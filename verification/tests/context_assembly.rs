use hkask_templates::context_assembly::{
    assemble_by_priority, estimate_tokens, AddResult, ContextAssembler, ContextFragment, FragmentSource,
};

fn frag(s: &str, source: FragmentSource) -> ContextFragment {
    ContextFragment::new(s.to_string(), source)
}

#[test]
fn token_estimate_is_four_characters_per_token_rounded_up() {
    assert_eq!(estimate_tokens(""), 0);
    assert_eq!(estimate_tokens("abcd"), 1);
    assert_eq!(estimate_tokens("abcde"), 2);
    assert_eq!(estimate_tokens("first episodic memory fragment"), 8);
}

#[test]
fn exact_duplicates_are_refused() {
    let mut a = ContextAssembler::new(4096);
    assert_eq!(a.add(frag("You are helpful.", FragmentSource::System)), AddResult::Accepted);
    assert_eq!(a.add(frag("You are helpful.", FragmentSource::User)), AddResult::DuplicateExact);
    assert_eq!(a.len(), 1);
    let s = a.stats();
    assert_eq!(s.fragments_offered, 2);
    assert_eq!(s.duplicates_exact, 1);
    assert_eq!(s.fragments_accepted, 1);
}

#[test]
fn the_budget_is_never_exceeded() {
    let mut a = ContextAssembler::new(10);
    let results = a.add_many(vec![
        frag("first episodic memory fragment", FragmentSource::EpisodicMemory),
        frag("second episodic memory fragment", FragmentSource::EpisodicMemory),
        frag("tiny", FragmentSource::ToolResult),
    ]);
    assert_eq!(results, vec![AddResult::Accepted, AddResult::BudgetExceeded, AddResult::Accepted]);
    assert_eq!(a.stats().tokens_used, 9);
    assert_eq!(a.tokens_remaining(), 1);
    assert_eq!(a.stats().budget_rejected, 1);
}

#[test]
fn rendering_tags_each_fragment() {
    let mut a = ContextAssembler::new(100);
    a.add(frag("be brief", FragmentSource::System));
    a.add(frag("hi", FragmentSource::User));
    a.add(frag("paris is in france", FragmentSource::SemanticMemory));
    assert_eq!(a.render(), "[SYSTEM] be brief\n[USER] hi\n[MEMORY] paris is in france\n");
    assert_eq!(a.render_plain(), "be brief\nhi\nparis is in france");
    a.clear();
    assert!(a.is_empty());
    assert_eq!(a.stats().fragments_offered, 0);
    assert_eq!(a.tokens_remaining(), 100);
}

#[test]
fn assembly_by_priority_filters_sorts_and_keeps_order_among_equals() {
    let fragments = vec![
        frag("old memory", FragmentSource::EpisodicMemory).with_priority(5),
        frag("system", FragmentSource::System),
        frag("recent memory", FragmentSource::EpisodicMemory).with_priority(1),
        frag("middle memory", FragmentSource::EpisodicMemory).with_priority(3),
        frag("also recent", FragmentSource::EpisodicMemory).with_priority(1),
    ];
    let a = assemble_by_priority(fragments, FragmentSource::EpisodicMemory, 4096, None);
    assert_eq!(a.render_plain(), "recent memory\nalso recent\nmiddle memory\nold memory");
}

#[test]
fn assembly_by_priority_drops_fragments_above_the_bound() {
    let fragments = vec![
        frag("high confidence", FragmentSource::SemanticMemory).with_priority(0),
        frag("medium confidence", FragmentSource::SemanticMemory).with_priority(50),
        frag("low confidence", FragmentSource::SemanticMemory).with_priority(200),
    ];
    let a = assemble_by_priority(fragments, FragmentSource::SemanticMemory, 4096, Some(127));
    assert_eq!(a.render_plain(), "high confidence\nmedium confidence");
}
