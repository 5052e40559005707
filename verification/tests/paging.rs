use postio_ui::list::PAGE_SIZE;
use postio_ui::model::{AccountId, Arrival, ListScope, MailboxId, MessageId, Reaction};
use postio_ui::paging::{Event, Fetch, PageRequest, Paging, Plan};

fn ids(range: std::ops::Range<i64>) -> Vec<MessageId> {
    range.map(MessageId::new).collect()
}

const ACCOUNT: AccountId = AccountId(1);
const INBOX: MailboxId = MailboxId(10);
const ARCHIVE: MailboxId = MailboxId(11);

fn inbox() -> Paging {
    let mut paging = Paging::default();
    paging.open(ListScope::Mailbox(INBOX));
    paging
}

fn new_mail(mailbox: MailboxId, count: i64) -> Event {
    Event::NewMail {
        account: ACCOUNT,
        mailbox,
        messages: ids(100..100 + count),
    }
}

fn changed(messages: Vec<MessageId>) -> Event {
    Event::MessagesChanged {
        account: ACCOUNT,
        messages,
    }
}

fn removed(mailbox: MailboxId) -> Event {
    Event::MessagesRemoved {
        account: ACCOUNT,
        mailbox,
        messages: ids(1..3),
    }
}

fn list_changed(mailbox: MailboxId) -> Event {
    Event::MessageListChanged {
        account: ACCOUNT,
        mailbox,
    }
}

#[test]
fn a_page_of_a_scope_is_an_offset_read_of_it() {
    assert_eq!(
        inbox().fetch_for(2),
        Some(Fetch::Scope(PageRequest {
            scope: ListScope::Mailbox(INBOX),
            page: 2,
            offset: 2 * PAGE_SIZE,
            limit: PAGE_SIZE,
        }))
    );
}

#[test]
fn nothing_open_has_nothing_to_read() {
    assert_eq!(Paging::default().fetch_for(0), None);
}

#[test]
fn a_page_of_a_result_set_names_its_ids_in_ranking_order() {
    let mut paging = inbox();
    let total = paging.show_results(ids(1..(PAGE_SIZE as i64 + 4)));
    assert_eq!(total, PAGE_SIZE + 3);
    assert_eq!(
        paging.fetch_for(0),
        Some(Fetch::Hits {
            page: 0,
            ids: ids(1..(PAGE_SIZE as i64 + 1)),
        })
    );
    assert_eq!(
        paging.fetch_for(1),
        Some(Fetch::Hits {
            page: 1,
            ids: ids((PAGE_SIZE as i64 + 1)..(PAGE_SIZE as i64 + 4)),
        }),
        "the last page is short, and asks only for the ids it has"
    );
    assert_eq!(
        paging.fetch_for(2),
        None,
        "past the end of the ranking there is nothing to ask for"
    );
}

#[test]
fn leaving_a_result_set_pages_the_scope_again() {
    let mut paging = inbox();
    paging.show_results(ids(1..4));
    assert!(paging.showing_results());
    assert!(paging.close_results());
    assert!(!paging.showing_results());
    assert!(matches!(paging.fetch_for(0), Some(Fetch::Scope(_))));
    assert!(
        !paging.close_results(),
        "there were no results left to leave"
    );
}

#[test]
fn opening_a_scope_leaves_the_result_set() {
    let mut paging = inbox();
    paging.show_results(ids(1..4));
    paging.open(ListScope::Mailbox(ARCHIVE));
    assert!(!paging.showing_results());
    assert_eq!(paging.mailbox(), Some(ARCHIVE));
}

#[test]
fn a_smart_folder_is_not_a_mailbox() {
    let mut paging = Paging::default();
    paging.open(ListScope::Flagged(ACCOUNT));
    assert_eq!(paging.scope(), Some(ListScope::Flagged(ACCOUNT)));
    assert_eq!(paging.mailbox(), None);
}

#[test]
fn unified_ignores_a_folder_it_has_been_told_is_not_an_inbox() {
    let mut paging = Paging::default();
    paging.open(ListScope::Unified);
    assert_eq!(
        paging.plan(&new_mail(ARCHIVE, 2)),
        Plan::Reload,
        "not told yet"
    );

    paging.set_folders(&[(INBOX, true), (ARCHIVE, false)]);
    assert_eq!(paging.plan(&new_mail(ARCHIVE, 2)), Plan::Ignore);
    assert_eq!(paging.plan(&list_changed(ARCHIVE)), Plan::Ignore);
    assert_eq!(paging.plan(&removed(ARCHIVE)), Plan::Ignore);
    assert_eq!(paging.plan(&new_mail(INBOX, 2)), Plan::Reload);
    assert_eq!(paging.plan(&removed(INBOX)), Plan::Reload);
    assert_eq!(
        paging.plan(&new_mail(MailboxId::new(12), 1)),
        Plan::Reload,
        "a folder it cannot place"
    );
}

#[test]
fn mail_landing_in_the_open_mailbox_is_inserted_at_the_top() {
    assert_eq!(inbox().plan(&new_mail(INBOX, 3)), Plan::InsertAtTop(3));
}

#[test]
fn mail_landing_elsewhere_is_ignored() {
    assert_eq!(inbox().plan(&new_mail(ARCHIVE, 3)), Plan::Ignore);
}

#[test]
fn changed_messages_refetch_the_pages_holding_them() {
    let event = changed(ids(5..8));
    assert_eq!(inbox().plan(&event), Plan::Refetch(&ids(5..8)));
}

#[test]
fn rows_leaving_the_open_mailbox_reload_it() {
    assert_eq!(inbox().plan(&removed(INBOX)), Plan::Reload);
    assert_eq!(inbox().plan(&removed(ARCHIVE)), Plan::Ignore);
}

#[test]
fn a_resync_of_the_open_mailbox_reloads_it() {
    assert_eq!(inbox().plan(&list_changed(INBOX)), Plan::Reload);
    assert_eq!(inbox().plan(&list_changed(ARCHIVE)), Plan::Ignore);
}

#[test]
fn a_flagged_view_reloads_on_a_flag_change_because_the_flag_is_its_membership() {
    let mut paging = Paging::default();
    paging.open(ListScope::Flagged(ACCOUNT));
    assert_eq!(paging.plan(&changed(ids(5..8))), Plan::Reload);
    assert_eq!(
        paging.plan(&new_mail(INBOX, 3)),
        Plan::Ignore,
        "a delivery is neither flagged nor snoozed"
    );
    assert_eq!(paging.plan(&removed(INBOX)), Plan::Reload);
}

#[test]
fn a_result_set_only_refetches() {
    let mut paging = inbox();
    paging.show_results(ids(1..4));
    assert_eq!(
        paging.plan(&new_mail(INBOX, 3)),
        Plan::Ignore,
        "membership is the query's, not delivery order's"
    );
    assert_eq!(paging.plan(&removed(INBOX)), Plan::Ignore);
    assert_eq!(paging.plan(&list_changed(INBOX)), Plan::Ignore);
    let event = changed(ids(2..3));
    assert_eq!(paging.plan(&event), Plan::Refetch(&ids(2..3)));
}

#[test]
fn nothing_open_ignores_everything() {
    let paging = Paging::default();
    assert_eq!(paging.plan(&new_mail(INBOX, 3)), Plan::Ignore);
    assert_eq!(paging.plan(&changed(ids(1..2))), Plan::Ignore);
    assert_eq!(paging.plan(&list_changed(INBOX)), Plan::Ignore);
}

#[test]
fn events_the_list_is_not_about_are_ignored() {
    assert_eq!(
        inbox().plan(&Event::Other),
        Plan::Ignore
    );
}

#[test]
fn a_failed_page_is_asked_for_again_a_bounded_number_of_times() {
    let mut paging = inbox();
    assert!(paging.retry(2));
    assert!(paging.retry(2));
    assert!(paging.retry(2));
    assert!(!paging.retry(2), "out of attempts: now it is worth saying");
    assert!(paging.retry(3), "another page's attempts are its own");
}

#[test]
fn opening_another_scope_forgets_the_failed_pages() {
    let mut paging = inbox();
    for _ in 0..3 {
        paging.retry(2);
    }
    paging.open(ListScope::Mailbox(ARCHIVE));
    assert!(
        paging.retry(2),
        "page 2 of the folder just left is not page 2 of this one"
    );
}

#[test]
fn an_account_takes_its_own_mail_wherever_it_lands() {
    let mut paging = Paging::default();
    paging.open(ListScope::Account(ACCOUNT));
    assert_eq!(paging.plan(&new_mail(ARCHIVE, 2)), Plan::InsertAtTop(2));
    assert_eq!(paging.plan(&removed(ARCHIVE)), Plan::Reload);
    paging.open(ListScope::Account(AccountId(2)));
    assert_eq!(paging.plan(&new_mail(ARCHIVE, 2)), Plan::Ignore);
    assert_eq!(paging.plan(&list_changed(ARCHIVE)), Plan::Ignore);
}

#[test]
fn a_snoozed_view_is_about_its_own_account() {
    let snoozed = ListScope::Snoozed(AccountId(2));
    for arrival in [Arrival::MessagesChanged, Arrival::MessagesRemoved, Arrival::MessageListChanged] {
        assert_eq!(snoozed.reaction(arrival, ACCOUNT, None, None), Reaction::Ignore);
        assert_eq!(snoozed.reaction(arrival, AccountId(2), None, None), Reaction::Reload);
    }
    assert_eq!(snoozed.reaction(Arrival::NewMail, AccountId(2), None, None), Reaction::Ignore);
}

#[test]
fn the_last_word_on_a_folder_counts() {
    let mut paging = Paging::default();
    paging.open(ListScope::Unified);
    paging.set_folders(&[(ARCHIVE, false), (ARCHIVE, true)]);
    assert_eq!(paging.plan(&new_mail(ARCHIVE, 1)), Plan::Reload);
    paging.set_folders(&[]);
    assert_eq!(paging.plan(&new_mail(ARCHIVE, 1)), Plan::Reload, "what it said before is gone");
}
