use postio_ui::model::EgressEvent;
use postio_ui::privacy::{connection, read_receipts};

#[test]
fn the_read_receipt_count_says_none_were_sent() {
    assert_eq!(
        read_receipts(0),
        "No messages have requested a read receipt."
    );
    assert!(read_receipts(1).starts_with("1 message has"));
    assert!(read_receipts(3).starts_with("3 messages have"));
    assert!(read_receipts(3).ends_with("none have been sent automatically."));
}


#[test]
fn a_connection_names_who_opened_it_and_where_it_went() {
    let event = EgressEvent {
        subsystem: "imap".to_owned(),
        host: "imap.example.com".to_owned(),
        port: 993,
    };
    assert_eq!(connection(&event), "imap · imap.example.com:993");
}
