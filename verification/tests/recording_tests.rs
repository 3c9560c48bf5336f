use format_buffer::buffer::Buffer;
use format_buffer::buffer::VecBuffer;
use format_buffer::element::FormatElement;
use format_buffer::extensions::BufferExtensions;
use format_buffer::state::FormatState;

#[test]
fn recording_captures_writes_in_order() {
    let mut state = FormatState::new();
    let mut buffer = VecBuffer::new();
    let recording = buffer.start_recording();
    recording.write_element(&mut buffer, &mut state, FormatElement::Text(1)).unwrap();
    recording.write_element(&mut buffer, &mut state, FormatElement::Text(2)).unwrap();
    recording
        .write_fmt(
            &mut buffer,
            &mut state,
            vec![FormatElement::Text(3), FormatElement::Text(4)],
        )
        .unwrap();
    let recorded = recording.stop(&buffer);
    assert_eq!(
        recorded.into_vec(),
        vec![
            FormatElement::Text(1),
            FormatElement::Text(2),
            FormatElement::Text(3),
            FormatElement::Text(4)
        ]
    );
}

#[test]
fn recording_started_after_content_only_captures_later_writes() {
    let mut state = FormatState::new();
    let mut buffer = VecBuffer::new();
    buffer.write_element(&mut state, FormatElement::Text(1)).unwrap();
    let recording = buffer.start_recording();
    recording.write_element(&mut buffer, &mut state, FormatElement::Text(2)).unwrap();
    let recorded = recording.stop(&buffer);
    assert_eq!(recorded.elements().as_slice(), &[FormatElement::Text(2)]);
}

#[test]
fn recording_degrades_to_empty_when_rewound_across_its_start() {
    let mut state = FormatState::new();
    let mut buffer = VecBuffer::new();
    let snapshot = buffer.snapshot();
    buffer.write_element(&mut state, FormatElement::Text(1)).unwrap();
    let recording = buffer.start_recording();
    buffer.restore_snapshot(snapshot);
    let recorded = recording.stop(&buffer);
    assert!(recorded.elements().is_empty());
}

#[test]
fn write_elements_forwards_everything() {
    let mut state = FormatState::new();
    let mut buffer = VecBuffer::new();
    buffer
        .write_elements(
            &mut state,
            vec![FormatElement::Space, FormatElement::Text(9)],
        )
        .unwrap();
    assert_eq!(
        buffer.elements().as_slice(),
        &[FormatElement::Space, FormatElement::Text(9)]
    );
}
