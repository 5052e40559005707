use postio_ui::account::{badge, repair, Repair, TokenStanding};
use postio_ui::model::{Account, AuthMethod, Backend, Moment};

fn account(backend: Backend, auth: AuthMethod) -> Account {
    Account { backend, auth, client_id: None }
}

fn with_own_client(mut account: Account) -> Account {
    account.client_id = Some("a-client-the-user-registered".to_owned());
    account
}

/// A fixed clock, so the day arithmetic is not a race against the second
/// boundary it is measured across.
fn noon() -> Moment {
    Moment { secs: 1_700_000_000, nanos: 0 }
}

fn after(seconds: i64) -> Moment {
    Moment { secs: 1_700_000_000 + seconds, nanos: 0 }
}





#[test]
fn a_badge_names_the_backend_and_how_it_signs_in() {
    assert_eq!(
        badge(&account(Backend::Imap, AuthMethod::Password)),
        "IMAP · password"
    );
    assert_eq!(
        badge(&account(Backend::Gmail, AuthMethod::OAuth2)),
        "Gmail · OAuth 2"
    );
    assert_eq!(
        badge(&account(Backend::Imap, AuthMethod::AppPassword)),
        "IMAP · app password"
    );
}

#[test]
fn a_local_maildir_reads_as_mail_that_is_already_here() {
    assert_eq!(
        badge(&account(
            Backend::Maildir,
            AuthMethod::Password
        )),
        "Local mail · password"
    );
}

#[test]
fn both_oauth_spellings_read_the_same_to_a_person() {
    assert_eq!(
        badge(&account(Backend::Imap, AuthMethod::XOAuth2)),
        badge(&account(Backend::Imap, AuthMethod::OAuth2))
    );
}

#[test]
fn a_token_whose_moment_has_passed_is_expired_and_says_what_to_do() {
    let standing = TokenStanding::of(Some(after(-60)), noon());
    assert_eq!(standing, TokenStanding::Expired);
    assert!(standing.is_expired());
    assert_eq!(
        standing.line().as_deref(),
        Some("token expired — re-authorization needed"),
        "the line has to name the repair: 'expired' alone is a dead end"
    );
}

#[test]
fn a_token_with_days_left_counts_the_whole_ones() {
    let standing = TokenStanding::of(
        Some(after(41 * 24 * 60 * 60 + 3600)),
        noon(),
    );
    assert_eq!(standing, TokenStanding::Valid { days: 41 });
    assert_eq!(standing.line().as_deref(), Some("token valid 41d"));
    assert!(!standing.is_expired());
}

#[test]
fn a_token_good_for_hours_says_so_in_words_rather_than_zero_days() {
    let standing = TokenStanding::of(Some(after(3 * 3600)), noon());
    assert_eq!(standing, TokenStanding::Valid { days: 0 });
    assert_eq!(
        standing.line().as_deref(),
        Some("token valid less than a day")
    );
    assert!(!standing.is_expired());
}

#[test]
fn nothing_on_file_puts_nothing_on_the_row() {
    let standing = TokenStanding::of(None, noon());
    assert_eq!(standing, TokenStanding::Unknown);
    assert_eq!(standing.line(), None);
    assert!(!standing.is_expired());
}

#[test]
fn an_account_that_signs_in_with_a_token_is_repaired_in_the_browser() {
    assert_eq!(
        repair(&with_own_client(account(
            Backend::Imap,
            AuthMethod::XOAuth2
        ))),
        Repair::Browser
    );
    assert_eq!(
        repair(&with_own_client(account(
            Backend::Gmail,
            AuthMethod::OAuth2
        ))),
        Repair::Browser
    );
}

#[test]
fn a_token_account_whose_credential_a_broker_owns_offers_no_repair_here() {
    assert_eq!(
        repair(&account(Backend::Imap, AuthMethod::XOAuth2)),
        Repair::Nothing
    );
}

#[test]
fn a_token_account_whose_client_id_is_blank_offers_no_repair_either() {
    let mut blank = with_own_client(account(Backend::Imap, AuthMethod::XOAuth2));
    blank.client_id = Some("   ".to_owned());
    assert_eq!(repair(&blank), Repair::Nothing);
}

#[test]
fn an_account_that_signs_in_with_a_password_is_repaired_by_typing_one() {
    assert_eq!(
        repair(&account(Backend::Imap, AuthMethod::Password)),
        Repair::Password
    );
    assert_eq!(
        repair(&account(Backend::Imap, AuthMethod::AppPassword)),
        Repair::Password
    );
}

#[test]
fn a_local_mail_store_has_no_credential_to_repair() {
    assert_eq!(
        repair(&account(
            Backend::Maildir,
            AuthMethod::Password
        )),
        Repair::Nothing
    );
}

#[test]
fn a_token_is_expired_the_moment_it_runs_out() {
    assert_eq!(TokenStanding::of(Some(noon()), noon()), TokenStanding::Valid { days: 0 });
    let a_little_before = Moment { secs: 1_699_999_999, nanos: 999_999_999 };
    assert_eq!(TokenStanding::of(Some(a_little_before), noon()), TokenStanding::Expired);
    assert_eq!(TokenStanding::of(Some(after(86_399)), noon()), TokenStanding::Valid { days: 0 });
    assert_eq!(TokenStanding::of(Some(after(86_400)), noon()), TokenStanding::Valid { days: 1 });
}
