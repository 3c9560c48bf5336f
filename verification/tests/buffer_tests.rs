use format_buffer::buffer::Buffer;
use format_buffer::buffer::VecBuffer;
use format_buffer::element::FormatElement;
use format_buffer::extensions::BufferExtensions;
use format_buffer::element::LineMode;
use format_buffer::snapshot::BufferSnapshot;
use format_buffer::state::FormatState;

#[test]
fn vec_buffer_appends_in_order() {
    let mut state = FormatState::new();
    let mut buffer = VecBuffer::new();
    buffer.write_element(&mut state, FormatElement::Text(1)).unwrap();
    buffer.write_element(&mut state, FormatElement::Space).unwrap();
    buffer.write_element(&mut state, FormatElement::Line(LineMode::Hard)).unwrap();
    assert_eq!(
        buffer.into_vec(),
        vec![
            FormatElement::Text(1),
            FormatElement::Space,
            FormatElement::Line(LineMode::Hard)
        ]
    );
}

#[test]
fn vec_buffer_new_with_vec_keeps_contents() {
    let existing = vec![FormatElement::Text(7)];
    let buffer = VecBuffer::new_with_vec(existing.clone());
    assert_eq!(buffer.elements().as_slice(), existing.as_slice());
}

#[test]
fn vec_buffer_with_capacity_starts_empty() {
    let buffer = VecBuffer::with_capacity(16);
    assert!(buffer.elements().is_empty());
}

#[test]
fn vec_buffer_take_vec_leaves_buffer_usable() {
    let mut state = FormatState::new();
    let mut buffer = VecBuffer::new();
    buffer.write_element(&mut state, FormatElement::Text(3)).unwrap();
    let taken = buffer.take_vec();
    assert_eq!(taken, vec![FormatElement::Text(3)]);
    assert!(buffer.elements().is_empty());
    buffer.write_element(&mut state, FormatElement::Space).unwrap();
    assert_eq!(buffer.elements().as_slice(), &[FormatElement::Space]);
}

#[test]
fn snapshot_then_restore_without_writes_changes_nothing() {
    let mut state = FormatState::new();
    let mut buffer = VecBuffer::new();
    buffer.write_element(&mut state, FormatElement::Text(1)).unwrap();
    let snapshot = buffer.snapshot();
    buffer.restore_snapshot(snapshot);
    assert_eq!(buffer.elements().as_slice(), &[FormatElement::Text(1)]);
}

#[test]
fn snapshot_restores_contents_before_writes() {
    let mut state = FormatState::new();
    let mut buffer = VecBuffer::new();
    buffer.write_element(&mut state, FormatElement::Text(1)).unwrap();
    let snapshot = buffer.snapshot();
    buffer.write_element(&mut state, FormatElement::Text(2)).unwrap();
    buffer.write_element(&mut state, FormatElement::Text(3)).unwrap();
    assert_eq!(buffer.elements().len(), 3);
    buffer.restore_snapshot(snapshot);
    assert_eq!(buffer.elements().as_slice(), &[FormatElement::Text(1)]);
}

#[test]
fn position_snapshot_unwraps_to_its_cursor() {
    let snapshot = BufferSnapshot::position(5);
    assert_eq!(snapshot.unwrap_position(), 5);
}

#[test]
fn vec_buffer_snapshot_is_a_position() {
    let mut state = FormatState::new();
    let mut buffer = VecBuffer::new();
    buffer.write_element(&mut state, FormatElement::Space).unwrap();
    buffer.write_element(&mut state, FormatElement::Space).unwrap();
    let snapshot = buffer.snapshot();
    assert_eq!(snapshot.unwrap_position(), 2);
}

#[test]
fn write_fmt_writes_every_element_in_order() {
    let mut state = FormatState::new();
    let mut buffer = VecBuffer::new();
    buffer
        .write_fmt(
            &mut state,
            vec![FormatElement::Text(1), FormatElement::Text(2)],
        )
        .unwrap();
    assert_eq!(
        buffer.elements().as_slice(),
        &[FormatElement::Text(1), FormatElement::Text(2)]
    );
}
