use quill::rewrite_target;

#[test]
fn a_plain_link_is_repointed() {
    assert_eq!(
        rewrite_target("See [[Old]] today.", "Old", "New").as_deref(),
        Some("See [[New]] today.")
    );
}

#[test]
fn display_text_belongs_to_the_person_who_wrote_it() {
    assert_eq!(
        rewrite_target("See [[Old|the old thing]].", "Old", "New").as_deref(),
        Some("See [[New|the old thing]].")
    );
}

#[test]
fn several_links_on_several_lines_are_all_rewritten() {
    assert_eq!(
        rewrite_target("[[Old]] and [[Old]]\nand [[Old|x]]", "Old", "New").as_deref(),
        Some("[[New]] and [[New]]\nand [[New|x]]")
    );
}

#[test]
fn a_path_form_link_still_points_here() {
    assert_eq!(
        rewrite_target("See [[Meetings/Old]].", "Old", "New").as_deref(),
        Some("See [[New]].")
    );
}

#[test]
fn embeds_are_rewritten_and_keep_their_size_hint() {
    assert_eq!(
        rewrite_target("![[old.png|300]]", "old.png", "new.png").as_deref(),
        Some("![[new.png|300]]")
    );
}

#[test]
fn a_note_with_nothing_to_change_is_left_entirely_alone() {
    // So a rename does not produce a diff full of no-op rewrites.
    assert_eq!(rewrite_target("See [[Other]].", "Old", "New"), None);
    assert_eq!(rewrite_target("no links here", "Old", "New"), None);
    assert_eq!(rewrite_target("`[[Old]]` in code", "Old", "New"), None);
}

#[test]
fn rewriting_is_multibyte_safe() {
    assert_eq!(
        rewrite_target("🎉 See [[Café]] 🎉", "Café", "Tearoom").as_deref(),
        Some("🎉 See [[Tearoom]] 🎉")
    );
}
