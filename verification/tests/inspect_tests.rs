use format_buffer::buffer::Buffer;
use format_buffer::buffer::VecBuffer;
use format_buffer::element::FormatElement;
use format_buffer::extensions::BufferExtensions;
use format_buffer::inspect::CollectingInspector;
use format_buffer::state::FormatState;

#[test]
fn inspector_sees_every_element_and_forwarding_is_unchanged() {
    let mut state = FormatState::new();
    let buffer = VecBuffer::new();
    let mut decorated = buffer.inspect(CollectingInspector::new());
    decorated.write_element(&mut state, FormatElement::Text(1)).unwrap();
    decorated.write_element(&mut state, FormatElement::Space).unwrap();
    let (inner, inspector) = decorated.into_parts();
    assert_eq!(
        inspector.into_vec(),
        vec![FormatElement::Text(1), FormatElement::Space]
    );
    assert_eq!(
        inner.into_vec(),
        vec![FormatElement::Text(1), FormatElement::Space]
    );
}

#[test]
fn inspect_passes_snapshots_through() {
    let mut state = FormatState::new();
    let buffer = VecBuffer::new();
    let mut decorated = buffer.inspect(CollectingInspector::new());
    let snapshot = decorated.snapshot();
    decorated.write_element(&mut state, FormatElement::Text(1)).unwrap();
    decorated.restore_snapshot(snapshot);
    let (inner, inspector) = decorated.into_parts();
    assert!(inner.elements().is_empty());
    // The observer is an observation point, not part of the rewindable
    // sink state: it keeps what it saw.
    assert_eq!(inspector.seen().as_slice(), &[FormatElement::Text(1)]);
}
