use postio_ui::allowlist::AllowList;

#[test]
fn nobody_is_allowed_to_begin_with() {
    assert!(!AllowList::new().is_allowed("ada@example.com"));
}

#[test]
fn an_allowed_address_is_matched_however_it_is_capitalised() {
    let mut list = AllowList::new();
    list.allow("Ada@Example.com");
    assert!(list.is_allowed("ada@example.com"));
    assert!(list.is_allowed("  ADA@EXAMPLE.COM "));
}

#[test]
fn a_domain_grant_covers_the_addresses_under_it() {
    let mut list = AllowList::new();
    list.allow_domain("notices-3a7f@relay.example.net");
    assert!(list.is_allowed("notices-9c21@relay.example.net"));
    assert!(
        !list.is_allowed("someone@example.net"),
        "and not its parent"
    );
}

#[test]
fn a_domain_grant_does_not_reach_into_subdomains() {
    let mut list = AllowList::new();
    list.allow_domain("example.com");
    assert!(!list.is_allowed("someone@mail.example.com"));
}

#[test]
fn an_address_grant_does_not_leak_to_the_rest_of_the_domain() {
    let mut list = AllowList::new();
    list.allow("ada@example.com");
    assert!(!list.is_allowed("someone-else@example.com"));
}

#[test]
fn a_grant_survives_being_written_and_read_back() {
    let mut list = AllowList::new();
    list.allow("ada@example.com");
    list.allow_domain("relay.example.net");

    let read = AllowList::parse(&list.render());

    assert_eq!(read, list);
    assert!(read.is_allowed("ada@example.com"));
    assert!(read.is_allowed("anything@relay.example.net"));
}

#[test]
fn a_corrupt_file_allows_nobody_rather_than_everybody() {
    let list = AllowList::parse("this is not the file you are looking for\n\0\u{1}");
    assert!(list.is_empty());
    assert!(!list.is_allowed("ada@example.com"));
}

#[test]
fn a_line_before_any_heading_belongs_to_nothing() {
    let list = AllowList::parse("ada@example.com\n\n[domains]\nrelay.example.net\n");
    assert!(!list.is_allowed("ada@example.com"));
    assert!(list.is_allowed("someone@relay.example.net"));
}

#[test]
fn taking_a_grant_back_takes_it_back() {
    let mut list = AllowList::new();
    list.allow("ada@example.com");
    list.revoke("ada@example.com");
    assert!(!list.is_allowed("ada@example.com"));
}


#[test]
fn the_file_lists_what_is_allowed_in_order() {
    let mut list = AllowList::new();
    list.allow("grace@example.com");
    list.allow("ada@example.com");
    list.allow("ADA@example.com");
    list.allow_domain("relay.example.net");
    assert_eq!(list.addresses(), ["ada@example.com", "grace@example.com"]);
    assert_eq!(list.domains(), ["relay.example.net"]);
    assert_eq!(
        list.render(),
        "# Senders whose remote images Postio loads without asking.\n\
         # Written by Postio; every line here was a deliberate choice.\n\
         \n[addresses]\nada@example.com\ngrace@example.com\n\
         \n[domains]\nrelay.example.net\n"
    );
}

#[test]
fn capitals_beyond_ascii_are_one_sender_too() {
    let mut list = AllowList::new();
    list.allow("ÉMILE@EXAMPLE.COM");
    assert!(list.is_allowed("émile@example.com"));
    assert_eq!(list.addresses(), ["émile@example.com"]);
}

#[test]
fn a_blank_line_or_a_comment_allows_nobody() {
    let list = AllowList::parse("[addresses]\r\n\n  \n# ada@example.com\n Grace@Example.com \r\n");
    assert_eq!(list.addresses(), ["grace@example.com"]);
    assert!(!list.is_allowed(""));
    assert!(!list.is_allowed("   "));
}

#[test]
fn an_address_with_nothing_after_its_at_is_taken_for_a_domain() {
    let mut list = AllowList::new();
    list.allow_domain("user@");
    assert_eq!(list.domains(), ["user@"]);
    list.revoke("user@");
    assert!(list.is_empty());
}

#[test]
fn a_file_of_another_system_gives_the_same_grants() {
    let mut list = AllowList::new();
    list.allow(" Zoe@Example.com");
    list.allow("ada@example.com");
    list.allow_domain("News.Example.org");
    let read = AllowList::parse(&list.render());
    assert_eq!(read, list);
    let returned = list.render().replace('\n', "\r\n");
    assert_eq!(AllowList::parse(&returned), list);
}

#[test]
fn a_list_is_in_order_with_nothing_twice() {
    let mut list = AllowList::new();
    for address in ["zoe@example.com", "ADA@example.com", "  grace@example.com ", "ada@example.com"] {
        list.allow(address);
    }
    list.allow_domain("ada@Relay.example.net");
    list.allow_domain("example.org");
    list.allow_domain("relay.example.net");
    assert_eq!(list.addresses(), ["ada@example.com", "grace@example.com", "zoe@example.com"]);
    assert_eq!(list.domains(), ["example.org", "relay.example.net"]);
    assert_eq!(list.clone(), list);
    list.revoke("GRACE@example.com");
    assert_eq!(AllowList::parse(&list.render()), list);
    assert_eq!(AllowList::parse(&list.render()).addresses(), ["ada@example.com", "zoe@example.com"]);
}
