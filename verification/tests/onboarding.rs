use postio_ui::onboarding::{domain_of, looks_like_an_address, plain_scope, step_of, Server, Settings};
use postio_ui::onboarding::{BrowserSignIn, Status, SyncWindow, TransportSecurity};

fn server(host: &str, port: u16, security: TransportSecurity) -> Server {
    Server { host: host.to_owned(), port, security }
}

fn settings() -> Settings {
    Settings {
        imap: server("imap.example.com", 993, TransportSecurity::Tls),
        smtp: server("smtp.example.com", 587, TransportSecurity::StartTls),
        login: "ada@example.com".to_owned(),
        requires_app_password: false,
        note: None,
        help_url: None,
        source: "autoconfig".to_owned(),
        oauth_sign_in: false,
    }
}

#[test]
fn a_server_reads_as_one_line() {
    assert_eq!(settings().imap.line(), "imap.example.com:993 · TLS");
    assert_eq!(settings().smtp.line(), "smtp.example.com:587 · STARTTLS");
    assert_eq!(
        server("mail.local", 143, TransportSecurity::Plaintext).line(),
        "mail.local:143 · unencrypted"
    );
}

#[test]
fn a_scope_is_said_in_words() {
    assert_eq!(plain_scope("https://outlook.office.com/IMAP.AccessAsUser.All"), "Read and change your mail");
    assert_eq!(plain_scope("https://mail.google.com/"), "Read and change your mail");
    assert_eq!(plain_scope("https://outlook.office.com/SMTP.Send"), "Send mail as you");
    assert_eq!(plain_scope("https://www.googleapis.com/auth/gmail.send"), "Send mail as you");
    assert_eq!(plain_scope("offline_access"), "Stay signed in without asking again");
    assert_eq!(plain_scope("OpenID"), "Know which address you signed in as");
    assert_eq!(plain_scope("Calendars.Read"), "Calendars.Read", "shown rather than dropped");
}

#[test]
fn a_status_knows_its_step() {
    for status in [Status::Idle, Status::Probing, Status::Found(settings()), Status::Manual { suggestion: None }] {
        assert_eq!(step_of(&status), "1 / 3", "{status:?}");
    }
    for status in [
        Status::Connecting,
        Status::WaitingForBrowser,
        Status::Failed("no".to_owned()),
        Status::Reauthenticate(settings()),
    ] {
        assert_eq!(step_of(&status), "2 / 3", "{status:?}");
    }
    assert_eq!(step_of(&Status::SyncWindow), "3 / 3");
    assert_eq!(step_of(&Status::Saved), "3 / 3");
}

#[test]
fn a_busy_screen_is_one_that_waits_on_something() {
    assert!(Status::Probing.is_busy());
    assert!(Status::Connecting.is_busy());
    assert!(Status::WaitingForBrowser.is_busy());
    assert!(!Status::default().is_busy());
    assert!(!Status::SyncWindow.is_busy());
}

#[test]
fn only_a_state_that_owes_a_sentence_has_one() {
    assert_eq!(Status::Failed("Wrong password.".to_owned()).message(), Some("Wrong password."));
    assert!(Status::Reauthenticate(settings()).message().is_some());
    assert!(Status::WaitingForBrowser.message().is_some());
    assert_eq!(Status::Idle.message(), None);
    assert_eq!(Status::Saved.message(), None);
}

#[test]
fn a_window_says_what_it_will_cost() {
    assert_eq!(SyncWindow::default(), SyncWindow::LastYear);
    let read: Vec<(&str, u32)> = SyncWindow::ALL.iter().map(|w| (w.label(), w.message_count())).collect();
    assert_eq!(read, [("Last 30 days", 500), ("Last year", 5_000), ("Everything", u32::MAX)]);
    assert_eq!(SyncWindow::LastMonth.estimate(), "About 36 MB, 5 minutes to sync");
    assert_eq!(SyncWindow::LastYear.estimate(), "About 366 MB, 42 minutes to sync");
    assert_eq!(
        SyncWindow::Everything.estimate(),
        "Downloads everything the server has — size and time depend on the mailbox."
    );
}

#[test]
fn a_domain_is_what_stands_after_the_last_at() {
    assert_eq!(domain_of("ada@Example.COM "), "example.com");
    assert_eq!(domain_of("\"a@b\"@example.org"), "example.org");
    assert_eq!(domain_of("nobody"), "");
}

#[test]
fn an_address_is_worth_asking_about_once_it_has_a_dotted_domain() {
    assert!(looks_like_an_address(" ada@example.com "));
    for not_yet in ["", "ada", "ada@", "@example.com", "ada@example", "ada@.com", "ada@example."] {
        assert!(!looks_like_an_address(not_yet), "{not_yet}");
    }
}

#[test]
fn a_sign_in_starts_out_blank() {
    let blank = BrowserSignIn::default();
    assert_eq!(blank.provider, "");
    assert!(blank.scopes.is_empty());
    assert_eq!(blank.redirect_uri, "");
    assert_eq!(blank.authorize_url, "");
}
