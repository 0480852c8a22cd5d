use unit_render::records::{stamp_field, LINE_COUNT_FIELD, LINE_RECORD_LEN};

#[test]
fn stamps_count_into_every_line_record() {
    let mut buf: Vec<f32> = vec![
        0.1, 0.2, 0.3, 0.4, 0.0, 0.0, //
        0.5, 0.6, 0.7, 0.8, 1.0, 0.0,
    ];
    stamp_field(&mut buf, LINE_RECORD_LEN, LINE_COUNT_FIELD, 2.0f32);
    assert_eq!(
        buf,
        vec![0.1, 0.2, 0.3, 0.4, 0.0, 2.0, 0.5, 0.6, 0.7, 0.8, 1.0, 2.0]
    );
}

#[test]
fn stamping_an_empty_buffer_changes_nothing() {
    let mut buf: Vec<f32> = vec![];
    stamp_field(&mut buf, LINE_RECORD_LEN, LINE_COUNT_FIELD, 0.0f32);
    assert!(buf.is_empty());
}

#[test]
fn stamps_partial_last_record_when_it_holds_the_field() {
    let mut buf: Vec<u32> = vec![0, 0, 0, 0, 0, 0, 0];
    stamp_field(&mut buf, 3, 0, 9);
    assert_eq!(buf, vec![9, 0, 0, 9, 0, 0, 9]);
}
