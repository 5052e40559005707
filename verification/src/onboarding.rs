//! The first-run screen's model: what the servers are, what was submitted, and
//! which state the screen is in.
use vstd::prelude::*;
use crate::text::{ascii_lower, chars_of, contains_text, decimal, decimal_of, find_char, first_index};
use crate::text::{has_text, last_index, rfind_char, same_text, str_opt, text_of, to_ascii_lower};
use crate::text::{lemma_decimal_digits, lemma_first_and_last, trim, trimmed};

verus! {

/// How a connection is secured.
#[derive(Clone, Copy, Debug, PartialEq, Eq, Structural)]
pub enum TransportSecurity {
    /// TLS from the first byte.
    Tls,
    /// Upgraded to TLS.
    StartTls,
    /// Not at all.
    Plaintext,
}

/// What a browser sign-in is asking for, so the screen can say so.
///
/// Consent happens in the real browser, against the real domain. What this
/// screen can offer instead is an honest account of what is happening while
/// the browser is open.
#[derive(Clone, Debug, PartialEq, Eq)]
pub struct BrowserSignIn {
    /// Whose consent screen the browser was sent to.
    pub provider: String,
    /// The scopes the request asks for, in the provider's own spelling.
    /// Rendered through [`plain_scope`], never raw.
    pub scopes: Vec<String>,
    /// Where the browser will be sent back to.
    pub redirect_uri: String,
    /// The consent URL itself, for `Copy URL` and for opening it again.
    pub authorize_url: String,
}

impl Default for BrowserSignIn {
    fn default() -> (out: Self)
        ensures
            out.provider@.len() == 0,
            out.scopes@.len() == 0,
            out.redirect_uri@.len() == 0,
            out.authorize_url@.len() == 0,
    {
        BrowserSignIn {
            provider: String::new(),
            scopes: Vec::new(),
            redirect_uri: String::new(),
            authorize_url: String::new(),
        }
    }
}

/// A scope that reads mail.
pub open spec fn reads_mail(folded: Seq<char>) -> bool {
    has_text(folded, "imap"@) || folded == "https://mail.google.com/"@
}

/// A scope that sends mail.
pub open spec fn sends_mail(folded: Seq<char>) -> bool {
    has_text(folded, "smtp"@) || has_text(folded, "gmail.send"@)
}

/// What a scope allows, in words.
pub open spec fn scope_words(scope: Seq<char>) -> Seq<char> {
    let folded = ascii_lower(scope);
    if reads_mail(folded) {
        "Read and change your mail"@
    } else if sends_mail(folded) {
        "Send mail as you"@
    } else if folded == "offline_access"@ {
        "Stay signed in without asking again"@
    } else if folded == "openid"@ || folded == "email"@ || folded == "profile"@ {
        "Know which address you signed in as"@
    } else {
        scope
    }
}

/// What a scope lets the application do, in words rather than in a URL.
///
/// Anything unrecognised falls through verbatim rather than being dropped: an
/// unfamiliar scope is exactly the one worth showing.
pub fn plain_scope(scope: &str) -> (out: String)
    ensures
        out@ == scope_words(scope@),
{
    let folded = to_ascii_lower(scope);
    if contains_text(folded.as_str(), "imap") || same_text(
        folded.as_str(),
        "https://mail.google.com/",
    ) {
        return "Read and change your mail".to_owned();
    }
    if contains_text(folded.as_str(), "smtp") || contains_text(folded.as_str(), "gmail.send") {
        return "Send mail as you".to_owned();
    }
    if same_text(folded.as_str(), "offline_access") {
        return "Stay signed in without asking again".to_owned();
    }
    if same_text(folded.as_str(), "openid") || same_text(folded.as_str(), "email") || same_text(
        folded.as_str(),
        "profile",
    ) {
        return "Know which address you signed in as".to_owned();
    }
    scope.to_owned()
}

/// One server, as the screen shows it.
#[derive(Clone, Debug, PartialEq, Eq)]
pub struct Server {
    /// Hostname.
    pub host: String,
    /// Port.
    pub port: u16,
    /// Connection security. Carried losslessly from discovery.
    pub security: TransportSecurity,
}

/// How a connection is secured, in words.
pub open spec fn security_words(security: TransportSecurity) -> Seq<char> {
    match security {
        TransportSecurity::Tls => "TLS"@,
        TransportSecurity::StartTls => "STARTTLS"@,
        TransportSecurity::Plaintext => "unencrypted"@,
    }
}

impl Server {
    /// `imap.fastmail.com:993 · TLS`.
    pub fn line(&self) -> (out: String)
        ensures
            out@ == self.host@ + ":"@ + decimal(self.port as nat) + " · "@ + security_words(
                self.security,
            ),
    {
        let mut out = self.host.clone();
        out.append(":");
        out.append(decimal_of(self.port as u64).as_str());
        out.append(" · ");
        match self.security {
            TransportSecurity::Tls => out.append("TLS"),
            TransportSecurity::StartTls => out.append("STARTTLS"),
            TransportSecurity::Plaintext => out.append("unencrypted"),
        }
        out
    }
}

/// What was found, or what the user typed in instead.
#[derive(Clone, Debug, PartialEq, Eq)]
pub struct Settings {
    /// Where mail is read from.
    pub imap: Server,
    /// Where mail is sent through.
    pub smtp: Server,
    /// The login name, which is not always the address.
    pub login: String,
    /// Whether this provider refuses ordinary account passwords.
    pub requires_app_password: bool,
    /// A sentence to show the user, from the provider table.
    pub note: Option<String>,
    /// Where to go and make an app-specific password.
    pub help_url: Option<String>,
    /// Where the settings came from, for the card's heading.
    pub source: String,
    /// Whether the provider prefers a browser sign-in.
    pub oauth_sign_in: bool,
}

/// Everything needed to create the account. It has no way to be printed: the
/// password is on its way to the keyring and nowhere else.
#[derive(Clone, PartialEq, Eq)]
pub struct Submission {
    /// The address mail arrives at.
    pub address: String,
    /// What to show instead of the bare address. Empty means unset.
    pub name: String,
    /// The password. Empty on an OAuth submission.
    pub password: String,
    /// The servers to use.
    pub settings: Settings,
    /// The OAuth client the user supplied, when the provider's door is the
    /// browser sign-in.
    pub oauth_client: Option<OAuthClientSubmission>,
}

/// The user's own OAuth client: what the sign-in flow presents to the
/// provider.
#[derive(Clone, PartialEq, Eq)]
pub struct OAuthClientSubmission {
    /// The client id, public by definition on a native app.
    pub client_id: String,
    /// The client secret, when the provider issued one -- on its way to the
    /// keyring and nowhere else.
    pub client_secret: Option<String>,
}

/// Where the screen is.
#[derive(Clone, Debug, PartialEq, Eq)]
pub enum Status {
    /// Nothing typed yet.
    Idle,
    /// The probe is out.
    Probing,
    /// The probe answered with something authoritative.
    Found(Settings),
    /// The probe found nothing. The server fields open.
    Manual {
        /// An unverified guess to prefill with, if there was one.
        suggestion: Option<Settings>,
    },
    /// Testing the credentials against the real server.
    Connecting,
    /// The consent screen is open in the user's browser.
    WaitingForBrowser,
    /// It did not work, and this says why in words the user can act on.
    Failed(String),
    /// The account is configured; its password is not. The screen arrives
    /// filled in and asks for the one thing missing.
    Reauthenticate(Settings),
    /// The account is saved; the last question is how far back the first sync
    /// reaches.
    SyncWindow,
    /// The account exists and the password is in the keyring.
    Saved,
}

impl Default for Status {
    fn default() -> (out: Self)
        ensures
            out is Idle,
    {
        Status::Idle
    }
}

/// The step a status is in: naming the account, proving you own it, saying how
/// much of it to fetch.
pub open spec fn step_number(status: Status) -> nat {
    match status {
        Status::Idle => 1,
        Status::Probing => 1,
        Status::Found(_) => 1,
        Status::Manual { .. } => 1,
        Status::Connecting => 2,
        Status::WaitingForBrowser => 2,
        Status::Failed(_) => 2,
        Status::Reauthenticate(_) => 2,
        Status::SyncWindow => 3,
        Status::Saved => 3,
    }
}

/// Which of the three steps a status is in -- `1 / 3`.
pub fn step_of(status: &Status) -> (out: &'static str)
    ensures
        step_number(*status) == 1 ==> out@ == "1 / 3"@,
        step_number(*status) == 2 ==> out@ == "2 / 3"@,
        step_number(*status) == 3 ==> out@ == "3 / 3"@,
{
    match status {
        Status::Idle | Status::Probing | Status::Found(_) | Status::Manual { .. } => "1 / 3",
        Status::Connecting | Status::WaitingForBrowser | Status::Failed(_)
        | Status::Reauthenticate(_) => "2 / 3",
        Status::SyncWindow | Status::Saved => "3 / 3",
    }
}

/// The sentence under the form.
pub open spec fn message_of(status: Status) -> Option<Seq<char>> {
    match status {
        Status::Failed(reason) => Some(reason@),
        Status::Reauthenticate(_) => Some(
            "Postio has no password for this account. Sign in again and it will go back into the keyring."@,
        ),
        Status::WaitingForBrowser => Some(
            "Finish signing in in your browser. Postio is waiting for the redirect — cancel any time."@,
        ),
        _ => None,
    }
}

impl Status {
    /// Whether the screen is waiting on something and should not be touched.
    pub fn is_busy(&self) -> (out: bool)
        ensures
            out == (*self is Probing || *self is Connecting || *self is WaitingForBrowser),
    {
        match self {
            Status::Probing | Status::Connecting | Status::WaitingForBrowser => true,
            _ => false,
        }
    }

    /// The sentence under the form, when this state owes the user one.
    pub fn message(&self) -> (out: Option<&str>)
        ensures
            str_opt(out) == message_of(*self),
    {
        match self {
            Status::Failed(reason) => Some(reason.as_str()),
            Status::Reauthenticate(_) => Some(
                "Postio has no password for this account. Sign in again and it will go back into the keyring.",
            ),
            Status::WaitingForBrowser => Some(
                "Finish signing in in your browser. Postio is waiting for the redirect — cancel any time.",
            ),
            _ => None,
        }
    }
}

/// How far back the first sync reaches, chosen once per account.
///
/// A person thinks in a window of time, not a message count, so each choice
/// maps to a fixed count.
#[derive(Debug, Clone, Copy, PartialEq, Eq, Structural)]
pub enum SyncWindow {
    /// Roughly a month of ordinary mail.
    LastMonth,
    /// A year -- the depth a fresh install already has.
    LastYear,
    /// No cap: the highest count the field can hold.
    Everything,
}

impl Default for SyncWindow {
    fn default() -> (out: Self)
        ensures
            out is LastYear,
    {
        SyncWindow::LastYear
    }
}

/// How many messages a choice fetches.
pub open spec fn window_count(window: SyncWindow) -> nat {
    match window {
        SyncWindow::LastMonth => 500,
        SyncWindow::LastYear => 5_000,
        SyncWindow::Everything => u32::MAX as nat,
    }
}

/// What one message is taken to weigh: mostly headers and text.
pub const AVERAGE_MESSAGE_BYTES: u64 = 76_800;

/// How many messages a minute are taken to fetch.
pub const MESSAGES_PER_MINUTE: u64 = 120;

/// A rough size and time.
pub open spec fn estimate_text(window: SyncWindow) -> Seq<char> {
    if window is Everything {
        "Downloads everything the server has — size and time depend on the mailbox."@
    } else {
        let count = window_count(window);
        let megabytes = (count * AVERAGE_MESSAGE_BYTES as nat) / 1_048_576;
        let minutes = (count + MESSAGES_PER_MINUTE as nat - 1) as nat / MESSAGES_PER_MINUTE as nat;
        "About "@ + decimal(megabytes) + " MB, "@ + decimal(minutes) + " minute"@ + (if minutes
            == 1 {
            Seq::empty()
        } else {
            "s"@
        }) + " to sync"@
    }
}

impl SyncWindow {
    /// Every choice, in the order the picker offers them.
    pub const ALL: [SyncWindow; 3] = [
        SyncWindow::LastMonth,
        SyncWindow::LastYear,
        SyncWindow::Everything,
    ];

    /// How many messages this fetches at first.
    pub fn message_count(self) -> (out: u32)
        ensures
            out == window_count(self),
    {
        match self {
            SyncWindow::LastMonth => 500,
            SyncWindow::LastYear => 5_000,
            SyncWindow::Everything => u32::MAX,
        }
    }

    /// The picker's own label for this choice.
    pub fn label(self) -> (out: &'static str)
        ensures
            out@ == (match self {
                SyncWindow::LastMonth => "Last 30 days"@,
                SyncWindow::LastYear => "Last year"@,
                SyncWindow::Everything => "Everything"@,
            }),
    {
        match self {
            SyncWindow::LastMonth => "Last 30 days",
            SyncWindow::LastYear => "Last year",
            SyncWindow::Everything => "Everything",
        }
    }

    /// A rough size and time readout under the picker, from a flat weight per
    /// message and a flat fetch rate: nothing has synced yet to measure.
    pub fn estimate(self) -> (out: String)
        ensures
            out@ == estimate_text(self),
    {
        match self {
            SyncWindow::Everything => {
                return "Downloads everything the server has — size and time depend on the mailbox.".to_owned();
            },
            _ => {},
        }
        let count: u64 = self.message_count() as u64;
        let megabytes: u64 = (count * AVERAGE_MESSAGE_BYTES) / 1_048_576;
        let minutes: u64 = (count + MESSAGES_PER_MINUTE - 1) / MESSAGES_PER_MINUTE;
        let mut out = "About ".to_owned();
        out.append(decimal_of(megabytes).as_str());
        out.append(" MB, ");
        out.append(decimal_of(minutes).as_str());
        out.append(" minute");
        if minutes != 1 {
            out.append("s");
        }
        out.append(" to sync");
        assert(out@ =~= estimate_text(self));
        out
    }
}

/// The domain of an address.
pub open spec fn domain_text(address: Seq<char>) -> Seq<char> {
    match last_index(address, '@') {
        Some(at) => ascii_lower(trimmed(address.skip(at + 1))),
        None => Seq::empty(),
    }
}

/// The domain of an address, for the card's heading.
pub fn domain_of(address: &str) -> (out: String)
    ensures
        out@ == domain_text(address@),
{
    let chars = chars_of(address);
    match rfind_char(&chars, '@') {
        Some(at) => {
            let domain = text_of(&chars, at + 1, chars.len());
            assert(domain@ =~= address@.skip(at + 1));
            to_ascii_lower(trim(domain.as_str()).as_str())
        },
        None => {
            let none = String::new();
            assert(none@ =~= Seq::<char>::empty());
            none
        },
    }
}

/// Something before the first `@`, and after it a dotted name that neither
/// starts nor ends with a dot.
pub open spec fn address_shaped(address: Seq<char>) -> bool {
    match first_index(address, '@') {
        Some(at) => {
            let domain = address.skip(at + 1);
            at > 0 && domain.contains('.') && domain[0] != '.' && domain.last() != '.'
        },
        None => false,
    }
}

/// Whether there is enough of an address to be worth probing.
///
/// Deliberately loose: this decides whether to *ask*, and the probe itself
/// decides whether the address is real.
pub fn looks_like_an_address(address: &str) -> (out: bool)
    ensures
        out == address_shaped(trimmed(address@)),
{
    let address = trim(address);
    let chars = chars_of(address.as_str());
    assert(chars@.skip(0) =~= chars@);
    match find_char(&chars, '@', 0) {
        Some(at) => {
            let ghost domain = address@.skip(at + 1);
            assert(domain =~= chars@.subrange(at + 1, chars@.len() as int));
            if at == 0 || at + 1 == chars.len() {
                assert(at + 1 == chars.len() ==> domain.len() == 0);
                return false;
            }
            let dotted = match find_char(&chars, '.', at + 1) {
                Some(dot) => true,
                None => false,
            };
            proof {
                assert(chars@.skip(at + 1) =~= domain);
                lemma_first_index_contains(domain, '.');
            }
            dotted && chars[at + 1] != '.' && chars[chars.len() - 1] != '.'
        },
        None => false,
    }
}

proof fn lemma_first_index_contains(s: Seq<char>, c: char)
    ensures
        first_index(s, c) is Some <==> s.contains(c),
    decreases s.len(),
{
    if s.len() > 0 {
        if s[0] == c {
            assert(s.contains(c));
        } else {
            lemma_first_index_contains(s.skip(1), c);
            if s.contains(c) {
                let i = choose|i: int| 0 <= i < s.len() && s[i] == c;
                assert(s.skip(1)[i - 1] == c);
            }
            if s.skip(1).contains(c) {
                let i = choose|i: int| 0 <= i < s.skip(1).len() && s.skip(1)[i] == c;
                assert(s[i + 1] == c);
            }
        }
    }
}

/// An unfamiliar scope is never hidden behind words for another one.
pub proof fn lemma_unknown_scope_is_shown(scope: Seq<char>)
    requires
        !reads_mail(ascii_lower(scope)),
        !sends_mail(ascii_lower(scope)),
        ascii_lower(scope) != "offline_access"@,
        ascii_lower(scope) != "openid"@,
        ascii_lower(scope) != "email"@,
        ascii_lower(scope) != "profile"@,
    ensures
        scope_words(scope) == scope,
{
}

/// What a scope is called goes by what it asks for, however it is spelt:
/// reading outranks sending, and case makes no difference to what is known.
pub proof fn lemma_scope_in_words(scope: Seq<char>, other: Seq<char>)
    ensures
        has_text(ascii_lower(scope), "imap"@) ==> scope_words(scope) == "Read and change your mail"@,
        (has_text(ascii_lower(scope), "smtp"@) || has_text(ascii_lower(scope), "gmail.send"@))
            && !has_text(ascii_lower(scope), "imap"@) && ascii_lower(scope)
            != "https://mail.google.com/"@ ==> scope_words(scope) == "Send mail as you"@,
        ascii_lower(scope) == ascii_lower(other) ==> scope_words(scope) == scope_words(other) || (
        scope_words(scope) == scope && scope_words(other) == other),
{
}

/// The screen goes forward: naming the account comes before proving it is
/// yours, and that before saying how much of it to fetch.
pub proof fn lemma_steps_in_order(status: Status)
    ensures
        step_number(status) == 3 <==> status is SyncWindow || status is Saved,
        step_number(status) == 2 <==> status is Connecting || status is WaitingForBrowser
            || status is Failed || status is Reauthenticate,
        step_number(status) == 1 <==> status is Idle || status is Probing || status is Found
            || status is Manual,
{
}

/// A sentence is owed exactly when something went wrong, has to be done again
/// or is being waited for elsewhere; and what went wrong is said as it was.
pub proof fn lemma_when_a_sentence_is_owed(status: Status)
    ensures
        message_of(status) is Some <==> status is Failed || status is Reauthenticate
            || status is WaitingForBrowser,
        status matches Status::Failed(reason) ==> message_of(status) == Some(reason@),
        message_of(status) is Some && !(status is Failed) ==> message_of(status)->0.len() > 0,
{
    reveal_strlit(
        "Postio has no password for this account. Sign in again and it will go back into the keyring.",
    );
    reveal_strlit(
        "Finish signing in in your browser. Postio is waiting for the redirect — cancel any time.",
    );
}

/// A longer window fetches more, ten times as much for a year as for a month,
/// and everything is as much as can be counted.
pub proof fn lemma_longer_windows_fetch_more()
    ensures
        0 < window_count(SyncWindow::LastMonth),
        window_count(SyncWindow::LastYear) == 10 * window_count(SyncWindow::LastMonth),
        window_count(SyncWindow::LastYear) < window_count(SyncWindow::Everything),
        window_count(SyncWindow::Everything) == u32::MAX,
{
}

/// The estimate says whole megabytes, of 75 kilobytes a message, rounded down,
/// and whole minutes, of 120 messages each, rounded up: never too few minutes
/// and never one too many.
pub proof fn lemma_estimate(window: SyncWindow)
    requires
        !(window is Everything),
    ensures
        exists|megabytes: nat, minutes: nat|
            {
                &&& megabytes * 1024 * 1024 <= window_count(window) * 75 * 1024 < (megabytes + 1)
                    * 1024 * 1024
                &&& (minutes - 1) * 120 < window_count(window) <= minutes * 120
                &&& estimate_text(window) == "About "@ + decimal(megabytes) + " MB, "@
                    + #[trigger] minutes_text(minutes) + " to sync"@
                &&& #[trigger] decimal(megabytes).len() > 0
            },
{
    let count = window_count(window);
    let megabytes = (count * 76_800) / 1_048_576;
    let minutes = (count + 119) as nat / 120;
    lemma_decimal_digits(megabytes);
    assert(estimate_text(window) =~= "About "@ + decimal(megabytes) + " MB, "@ + minutes_text(
        minutes,
    ) + " to sync"@);
    assert(decimal(megabytes).len() > 0);
}

/// So many minutes, one of them as one.
pub open spec fn minutes_text(minutes: nat) -> Seq<char> {
    decimal(minutes) + " minute"@ + (if minutes == 1 {
        Seq::empty()
    } else {
        "s"@
    })
}

/// The domain is what follows the last `@`, lowered and without white space
/// around it; there is none without an `@`.
pub proof fn lemma_domain(local: Seq<char>, domain: Seq<char>)
    requires
        !domain.contains('@'),
    ensures
        domain_text(local + seq!['@'] + domain) == ascii_lower(trimmed(domain)),
        domain_text(domain).len() == 0,
{
    let address = local + seq!['@'] + domain;
    lemma_first_and_last(address, '@');
    lemma_first_and_last(domain, '@');
    assert(address[local.len() as int] == '@');
    assert forall|i: int| local.len() < i < address.len() implies #[trigger] address[i] != '@' by {
        assert(domain[i - local.len() - 1] == address[i]);
    }
    assert(last_index(address, '@') == Some(local.len() as int));
    assert(address.skip(local.len() as int + 1) =~= domain);
}

/// An address is worth asking about when there is somebody before its first
/// `@` and after it a name with a dot inside; without an `@` it never is.
pub proof fn lemma_what_is_worth_asking_about(local: Seq<char>, domain: Seq<char>)
    requires
        !local.contains('@'),
    ensures
        address_shaped(local + seq!['@'] + domain) <==> local.len() > 0 && domain.len() > 0
            && domain[0] != '.' && domain.last() != '.' && domain.contains('.'),
        !address_shaped(local),
{
    let address = local + seq!['@'] + domain;
    lemma_first_and_last(address, '@');
    lemma_first_and_last(local, '@');
    assert(address[local.len() as int] == '@');
    assert forall|i: int| 0 <= i < local.len() implies #[trigger] address[i] != '@' by {
        assert(local[i] == address[i]);
    }
    assert(first_index(address, '@') == Some(local.len() as int));
    assert(address.skip(local.len() as int + 1) =~= domain);
}

/// No two ways to secure a connection are said alike.
pub proof fn lemma_security_is_told_apart(a: TransportSecurity, b: TransportSecurity)
    requires
        security_words(a) == security_words(b),
    ensures
        a == b,
{
    reveal_strlit("TLS");
    reveal_strlit("STARTTLS");
    reveal_strlit("unencrypted");
    assert(security_words(TransportSecurity::Tls).len() == 3);
    assert(security_words(TransportSecurity::StartTls).len() == 8);
    assert(security_words(TransportSecurity::Plaintext).len() == 11);
    match a {
        TransportSecurity::Tls => {},
        TransportSecurity::StartTls => {},
        TransportSecurity::Plaintext => {},
    }
    match b {
        TransportSecurity::Tls => {},
        TransportSecurity::StartTls => {},
        TransportSecurity::Plaintext => {},
    }
}

} // verus!
