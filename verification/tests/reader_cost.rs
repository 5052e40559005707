use postio_ui::reader::cost::{note_document, note_render, note_surface_created, note_surface_released, Cost};

#[test]
fn a_frontends_reports_reach_the_counters() {
    let mut cost = Cost::default();
    note_render(&mut cost);
    note_surface_created(&mut cost);
    note_surface_created(&mut cost);
    note_surface_released(&mut cost);
    assert_eq!(cost.renders, 1);
    assert_eq!(cost.surfaces_created, 2);
    assert_eq!(
        cost.surfaces_created - cost.surfaces_released,
        1,
        "held is created minus released: a conversation that never lets go \
         shows up here even while every individual render looks cheap"
    );
}

#[test]
fn assembling_a_document_is_counted_with_its_size() {
    let mut cost = Cost::default();
    note_document(&mut cost, 512);
    note_document(&mut cost, 16);
    assert_eq!(cost.documents, 2);
    assert_eq!(cost.document_bytes, 528);
    assert_eq!(cost.largest_document, 512);
    assert_eq!(cost.renders, 0);
}

#[test]
fn a_counter_stops_at_its_end() {
    let mut cost = Cost { document_bytes: u64::MAX - 1, ..Cost::default() };
    note_document(&mut cost, 512);
    assert_eq!(cost.document_bytes, u64::MAX);
}
