use agni::ingest_riftbound::{dedupe, ids_from_list, ids_from_pool, pool_line_id};

#[test]
fn pool_lines_yield_their_ids_and_nothing_else() {
    let text = "# Master Yi (Akame)\n\n- **Master Yi - Wuju Bladesman** (ogs-019-024; Legend; Calm/Body; ): While a friendly unit defends alone, it gets +2.\n- **Blade Dance** (UNL-047-219; Spell; Body; 2): text\nnot a card line\n- **Broken** (): nothing\n";
    assert_eq!(
        ids_from_pool(text),
        vec!["ogs-019-024".to_string(), "unl-047-219".to_string()]
    );
}

#[test]
fn id_lists_skip_comments_and_blank_lines() {
    let text = "ven-192-166 # Nasus\n\n# whole comment\nOGS-019-024\n";
    assert_eq!(
        ids_from_list(text),
        vec!["ven-192-166".to_string(), "ogs-019-024".to_string()]
    );
}

#[test]
fn a_pool_line_needs_a_dashed_id() {
    assert_eq!(
        pool_line_id("  - **Blade Dance** ( UNL-047-219 ; Spell)").as_deref(),
        Some("UNL-047-219")
    );
    assert_eq!(pool_line_id("- **Broken** (nodash; Spell)"), None);
    assert_eq!(pool_line_id("- Blade Dance (UNL-047-219; Spell)"), None);
}

#[test]
fn repeated_ids_keep_their_first_place() {
    let ids = vec![
        "ven-192-166".to_string(),
        "ogs-019-024".to_string(),
        "ven-192-166".to_string(),
    ];
    assert_eq!(
        dedupe(ids),
        vec!["ven-192-166".to_string(), "ogs-019-024".to_string()]
    );
}
