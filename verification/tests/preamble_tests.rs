use format_buffer::buffer::Buffer;
use format_buffer::buffer::VecBuffer;
use format_buffer::element::FormatElement;
use format_buffer::element::LineMode;
use format_buffer::preamble::PreambleBuffer;
use format_buffer::state::FormatState;

fn heading() -> Vec<FormatElement> {
    vec![FormatElement::Text(100), FormatElement::Line(LineMode::Hard)]
}

#[test]
fn preamble_not_emitted_when_nothing_is_written() {
    let inner = VecBuffer::new();
    let decorated = PreambleBuffer::new(inner, heading());
    assert!(!decorated.did_write_preamble());
    let inner = decorated.into_inner();
    assert!(inner.elements().is_empty());
}

#[test]
fn preamble_emitted_once_before_first_element() {
    let mut state = FormatState::new();
    let inner = VecBuffer::new();
    let mut decorated = PreambleBuffer::new(inner, heading());
    decorated.write_element(&mut state, FormatElement::Text(1)).unwrap();
    assert!(decorated.did_write_preamble());
    decorated.write_element(&mut state, FormatElement::Text(2)).unwrap();
    decorated.write_element(&mut state, FormatElement::Text(3)).unwrap();
    let inner = decorated.into_inner();
    assert_eq!(
        inner.into_vec(),
        vec![
            FormatElement::Text(100),
            FormatElement::Line(LineMode::Hard),
            FormatElement::Text(1),
            FormatElement::Text(2),
            FormatElement::Text(3)
        ]
    );
}

#[test]
fn empty_preamble_adds_nothing() {
    let mut state = FormatState::new();
    let inner = VecBuffer::new();
    let mut decorated = PreambleBuffer::new(inner, Vec::new());
    decorated.write_element(&mut state, FormatElement::Text(1)).unwrap();
    assert!(decorated.did_write_preamble());
    assert_eq!(decorated.into_inner().into_vec(), vec![FormatElement::Text(1)]);
}

#[test]
fn preamble_snapshot_rolls_back_the_flag_with_the_content() {
    let mut state = FormatState::new();
    let inner = VecBuffer::new();
    let mut decorated = PreambleBuffer::new(inner, heading());
    let snapshot = decorated.snapshot();
    decorated.write_element(&mut state, FormatElement::Text(1)).unwrap();
    assert!(decorated.did_write_preamble());
    decorated.restore_snapshot(snapshot);
    assert!(!decorated.did_write_preamble());
    let inner = decorated.into_inner();
    assert!(inner.elements().is_empty());
}

#[test]
fn composite_snapshot_unwraps_to_its_parts() {
    let inner = VecBuffer::new();
    let decorated = PreambleBuffer::new(inner, heading());
    let snapshot = decorated.snapshot();
    let payload = snapshot.unwrap_any();
    assert!(payload.empty);
    assert_eq!(payload.inner.unwrap_position(), 0);
}
