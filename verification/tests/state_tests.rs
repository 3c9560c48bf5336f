use format_buffer::element::FormatElement;
use format_buffer::state::FormatState;

#[test]
fn interned_subtrees_get_consecutive_ids_and_keep_their_content() {
    let mut state = FormatState::new();
    assert_eq!(state.interns_len(), 0);
    let a = state.intern(vec![FormatElement::Text(1)]);
    let b = state.intern(vec![FormatElement::Text(2), FormatElement::Space]);
    assert_eq!(a, 0);
    assert_eq!(b, 1);
    assert_eq!(state.interns_len(), 2);
    assert_eq!(state.interned(a).as_slice(), &[FormatElement::Text(1)]);
    assert_eq!(
        state.interned(b).as_slice(),
        &[FormatElement::Text(2), FormatElement::Space]
    );
}

#[test]
fn best_fitting_lists_are_registered_in_order() {
    let mut state = FormatState::new();
    let a = state.intern(vec![FormatElement::Text(1)]);
    let b = state.intern(vec![FormatElement::Text(2)]);
    let group = state.register_best_fitting(vec![a, b]);
    assert_eq!(group, 0);
    assert_eq!(state.best_fitting_variants(group).as_slice(), &[a, b]);
}
