use format_buffer::buffer::Buffer;
use format_buffer::buffer::VecBuffer;
use format_buffer::element::Condition;
use format_buffer::extensions::BufferExtensions;
use format_buffer::element::FormatElement;
use format_buffer::element::LineMode;
use format_buffer::element::PrintMode;
use format_buffer::element::Tag;
use format_buffer::remove_soft_lines::RemoveSoftLinesBuffer;
use format_buffer::state::FormatState;

fn start(mode: PrintMode) -> FormatElement {
    FormatElement::Tag(Tag::StartConditionalContent(Condition { mode }))
}

fn end() -> FormatElement {
    FormatElement::Tag(Tag::EndConditionalContent)
}

#[test]
fn soft_breaks_are_resolved_toward_one_line() {
    let mut state = FormatState::new();
    let mut buffer = RemoveSoftLinesBuffer::new(VecBuffer::new());
    for element in [
        FormatElement::Text(1),
        FormatElement::Line(LineMode::SoftOrSpace),
        FormatElement::Text(2),
        FormatElement::Line(LineMode::Soft),
        FormatElement::Text(3),
    ] {
        buffer.write_element(&mut state, element).unwrap();
    }
    assert_eq!(
        buffer.into_inner().into_vec(),
        vec![
            FormatElement::Text(1),
            FormatElement::Space,
            FormatElement::Text(2),
            FormatElement::Text(3)
        ]
    );
}

#[test]
fn hard_lines_pass_through_unchanged() {
    let mut state = FormatState::new();
    let mut buffer = RemoveSoftLinesBuffer::new(VecBuffer::new());
    buffer.write_element(&mut state, FormatElement::Line(LineMode::Hard)).unwrap();
    assert_eq!(
        buffer.into_inner().into_vec(),
        vec![FormatElement::Line(LineMode::Hard)]
    );
}

#[test]
fn expanded_conditional_content_is_dropped() {
    let mut state = FormatState::new();
    let mut buffer = RemoveSoftLinesBuffer::new(VecBuffer::new());
    for element in [
        FormatElement::Text(1),
        start(PrintMode::Expanded),
        FormatElement::Text(2),
        FormatElement::Space,
        end(),
        FormatElement::Text(3),
    ] {
        buffer.write_element(&mut state, element).unwrap();
    }
    assert_eq!(
        buffer.into_inner().into_vec(),
        vec![FormatElement::Text(1), FormatElement::Text(3)]
    );
}

#[test]
fn compact_conditional_content_is_retained() {
    let mut state = FormatState::new();
    let mut buffer = RemoveSoftLinesBuffer::new(VecBuffer::new());
    for element in [
        start(PrintMode::Flat),
        FormatElement::Text(2),
        FormatElement::Space,
        end(),
    ] {
        buffer.write_element(&mut state, element).unwrap();
    }
    assert_eq!(
        buffer.into_inner().into_vec(),
        vec![FormatElement::Text(2), FormatElement::Space]
    );
}

#[test]
fn best_fitting_group_resolves_to_its_most_compact_variant() {
    let mut state = FormatState::new();
    // Alternatives ordered most compact first: "long form" first, per
    // the producer convention; its own soft breaks resolve further.
    let long_form = state.intern(vec![
        FormatElement::Text(10),
        FormatElement::Line(LineMode::SoftOrSpace),
        FormatElement::Text(11),
    ]);
    let medium_form = state.intern(vec![FormatElement::Text(20)]);
    let short_form = state.intern(vec![FormatElement::Text(30)]);
    let group = state.register_best_fitting(vec![long_form, medium_form, short_form]);
    let mut buffer = RemoveSoftLinesBuffer::new(VecBuffer::new());
    buffer.write_element(&mut state, FormatElement::BestFitting(group)).unwrap();
    assert_eq!(
        buffer.into_inner().into_vec(),
        vec![
            FormatElement::Text(10),
            FormatElement::Space,
            FormatElement::Text(11)
        ]
    );
}

#[test]
fn canonical_subtree_is_returned_by_identity() {
    let mut state = FormatState::new();
    let id = state.intern(vec![FormatElement::Text(1), FormatElement::Space]);
    let mut buffer = RemoveSoftLinesBuffer::new(VecBuffer::new());
    buffer.write_element(&mut state, FormatElement::Interned(id)).unwrap();
    // The original handle survives: no new subtree was registered.
    assert_eq!(
        buffer.into_inner().into_vec(),
        vec![FormatElement::Interned(id)]
    );
    assert_eq!(state.interns_len(), 1);
}

#[test]
fn subtree_with_soft_breaks_is_rewritten() {
    let mut state = FormatState::new();
    let inner = state.intern(vec![FormatElement::Text(9), FormatElement::Line(LineMode::Soft)]);
    let outer = state.intern(vec![
        FormatElement::Text(1),
        FormatElement::Interned(inner),
        FormatElement::Line(LineMode::SoftOrSpace),
        FormatElement::Text(2),
    ]);
    let mut buffer = RemoveSoftLinesBuffer::new(VecBuffer::new());
    buffer.write_element(&mut state, FormatElement::Interned(outer)).unwrap();
    let written = buffer.into_inner().into_vec();
    assert_eq!(written.len(), 1);
    let rewritten = match written[0] {
        FormatElement::Interned(id) => id,
        _ => panic!("a subtree reference should be forwarded"),
    };
    assert_ne!(rewritten, outer);
    let rewritten_inner = match state.interned(rewritten)[1] {
        FormatElement::Interned(id) => id,
        _ => panic!("the nested subtree should stay a reference"),
    };
    assert_eq!(
        state.interned(rewritten).as_slice(),
        &[
            FormatElement::Text(1),
            FormatElement::Interned(rewritten_inner),
            FormatElement::Space,
            FormatElement::Text(2)
        ]
    );
    assert_eq!(state.interned(rewritten_inner).as_slice(), &[FormatElement::Text(9)]);
}

#[test]
fn repeated_subtree_references_are_not_rescanned() {
    let mut state = FormatState::new();
    let id = state.intern(vec![
        FormatElement::Text(1),
        FormatElement::Line(LineMode::Soft),
    ]);
    let mut buffer = RemoveSoftLinesBuffer::new(VecBuffer::new());
    assert_eq!(buffer.scan_count(), 0);
    buffer.write_element(&mut state, FormatElement::Interned(id)).unwrap();
    let scans_after_first = buffer.scan_count();
    assert_eq!(scans_after_first, 1);
    buffer.write_element(&mut state, FormatElement::Interned(id)).unwrap();
    assert_eq!(buffer.scan_count(), scans_after_first);
    let written = buffer.into_inner().into_vec();
    assert_eq!(written.len(), 2);
    // Both occurrences resolve to one and the same rewritten subtree.
    assert_eq!(written[0], written[1]);
}

#[test]
fn equal_content_under_distinct_identities_is_cached_separately() {
    let mut state = FormatState::new();
    let first = state.intern(vec![FormatElement::Line(LineMode::Soft)]);
    let second = state.intern(vec![FormatElement::Line(LineMode::Soft)]);
    assert_ne!(first, second);
    let mut buffer = RemoveSoftLinesBuffer::new(VecBuffer::new());
    buffer.write_element(&mut state, FormatElement::Interned(first)).unwrap();
    buffer.write_element(&mut state, FormatElement::Interned(second)).unwrap();
    // Identity, not content, keys the cache: the second subtree is
    // scanned on its own.
    assert_eq!(buffer.scan_count(), 2);
}

#[test]
fn snapshot_and_restore_pass_through_the_canonicalizer() {
    let mut state = FormatState::new();
    let mut buffer = RemoveSoftLinesBuffer::new(VecBuffer::new());
    buffer.write_element(&mut state, FormatElement::Text(1)).unwrap();
    let snapshot = buffer.snapshot();
    buffer.write_element(&mut state, FormatElement::Text(2)).unwrap();
    buffer.restore_snapshot(snapshot);
    assert_eq!(buffer.into_inner().into_vec(), vec![FormatElement::Text(1)]);
}

#[test]
fn best_fitting_group_inside_expanded_content_is_dropped() {
    let mut state = FormatState::new();
    let variant = state.intern(vec![FormatElement::Text(5)]);
    let group = state.register_best_fitting(vec![variant]);
    let mut buffer = RemoveSoftLinesBuffer::new(VecBuffer::new());
    for element in [
        start(PrintMode::Expanded),
        FormatElement::BestFitting(group),
        end(),
    ] {
        buffer.write_element(&mut state, element).unwrap();
    }
    assert!(buffer.into_inner().into_vec().is_empty());
}

#[test]
fn write_fmt_through_the_canonicalizer_resolves_each_element() {
    let mut state = FormatState::new();
    let mut buffer = RemoveSoftLinesBuffer::new(VecBuffer::new());
    buffer
        .write_fmt(
            &mut state,
            vec![
                FormatElement::Text(1),
                FormatElement::Line(LineMode::SoftOrSpace),
                FormatElement::Text(2),
            ],
        )
        .unwrap();
    assert_eq!(
        buffer.into_inner().into_vec(),
        vec![
            FormatElement::Text(1),
            FormatElement::Space,
            FormatElement::Text(2)
        ]
    );
}
