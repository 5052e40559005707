use postio_ui::sending::{join_with_and, send_concerns, ALREADY_QUEUED, NO_RECIPIENTS};

#[test]
fn almost_no_message_is_odd() {
    assert_eq!(send_concerns("Dinner", false), Vec::<String>::new());
}

#[test]
fn what_is_odd_is_said_in_one_sentence() {
    let concerns = send_concerns("  ", true);
    assert_eq!(
        join_with_and(&concerns),
        "this message has no subject and it mentions an attachment and does not carry one"
    );
    assert_eq!(send_concerns("Dinner", true), ["it mentions an attachment and does not carry one"]);
    assert_eq!(send_concerns("", false), ["this message has no subject"]);
}

#[test]
fn a_list_is_joined_as_it_is_said() {
    let parts = |n: usize| -> Vec<String> { ["a", "b", "c"][..n].iter().map(|s| (*s).to_owned()).collect() };
    assert_eq!(join_with_and(&parts(0)), "");
    assert_eq!(join_with_and(&parts(1)), "a");
    assert_eq!(join_with_and(&parts(2)), "a and b");
    assert_eq!(join_with_and(&parts(3)), "a, b and c");
}

#[test]
fn a_refusal_says_what_to_do() {
    assert!(NO_RECIPIENTS.contains("add a recipient"));
    assert!(ALREADY_QUEUED.contains("already on its way"));
}
