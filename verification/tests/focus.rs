use postio_ui::focus::{next_pane, Returns};
use postio_ui::model::Context;

#[test]
fn tab_walks_sidebar_list_reader_and_comes_back_round() {
    assert_eq!(next_pane(Context::Sidebar, true), Some(Context::List));
    assert_eq!(next_pane(Context::List, true), Some(Context::Reader));
    assert_eq!(
        next_pane(Context::Reader, true),
        Some(Context::Sidebar),
        "the cycle has to come back round"
    );
}

#[test]
fn shift_tab_walks_the_other_way() {
    assert_eq!(next_pane(Context::Sidebar, false), Some(Context::Reader));
    assert_eq!(next_pane(Context::Reader, false), Some(Context::List));
    assert_eq!(next_pane(Context::List, false), Some(Context::Sidebar));
}

#[test]
fn the_conversation_holds_the_lists_place_in_the_cycle() {
    assert_eq!(
        next_pane(Context::Conversation, true),
        Some(Context::Reader)
    );
    assert_eq!(
        next_pane(Context::Conversation, false),
        Some(Context::Sidebar)
    );
}

#[test]
fn a_context_that_is_not_a_pane_has_no_next_pane() {
    for context in [
        Context::Composer,
        Context::Search,
        Context::Palette,
        Context::Parts,
        Context::Accounts,
        Context::Keys,
    ] {
        assert_eq!(next_pane(context, true), None, "{context:?}");
        assert_eq!(next_pane(context, false), None, "{context:?}");
    }
}

#[test]
fn entering_a_surface_records_the_way_back() {
    let mut returns = Returns::default();
    assert_eq!(
        returns.enter(Context::Sidebar, Context::Reader),
        Some(Context::Sidebar)
    );
    assert_eq!(
        returns.leave(Context::Sidebar, Context::Sidebar),
        Some(Context::Reader),
        "Esc puts the keyboard back where it was, not in the list by default"
    );
}

#[test]
fn entering_the_surface_you_are_already_in_changes_nothing() {
    let mut returns = Returns::default();
    returns.enter(Context::Sidebar, Context::Reader);
    assert_eq!(
        returns.enter(Context::Sidebar, Context::Sidebar),
        None,
        "a focus controller firing for a child widget is not a second entry"
    );
    assert_eq!(
        returns.leave(Context::Sidebar, Context::Sidebar),
        Some(Context::Reader),
        "and it must not have overwritten the real way back"
    );
}

#[test]
fn leaving_a_surface_the_keyboard_is_not_in_changes_nothing() {
    let mut returns = Returns::default();
    returns.enter(Context::Sidebar, Context::Reader);
    assert_eq!(returns.leave(Context::Parts, Context::Sidebar), None);
    assert_eq!(
        returns.leave(Context::Sidebar, Context::List),
        None,
        "the keyboard has already moved on; a late leave event is not a restore"
    );
}

#[test]
fn leaving_a_surface_nothing_recorded_falls_back_to_the_list() {
    let mut returns = Returns::default();
    assert_eq!(
        returns.leave(Context::Parts, Context::Parts),
        Some(Context::List)
    );
}

#[test]
fn nested_surfaces_unwind_one_at_a_time() {
    let mut returns = Returns::default();
    returns.enter(Context::Parts, Context::List);
    returns.enter(Context::Sidebar, Context::Parts);
    assert_eq!(
        returns.leave(Context::Sidebar, Context::Sidebar),
        Some(Context::Parts)
    );
    assert_eq!(
        returns.leave(Context::Parts, Context::Parts),
        Some(Context::List)
    );
}

#[test]
fn re_entering_a_surface_from_somewhere_else_records_the_newer_way_back() {
    let mut returns = Returns::default();
    returns.enter(Context::Sidebar, Context::Reader);
    returns.leave(Context::Sidebar, Context::Sidebar);
    returns.enter(Context::Sidebar, Context::List);
    assert_eq!(
        returns.leave(Context::Sidebar, Context::Sidebar),
        Some(Context::List)
    );
}
