//! What an account is, said the same way in every settings pane.
use vstd::prelude::*;
use crate::model::{Account, AuthMethod, Backend, Moment};
use crate::text::{decimal, decimal_of, is_blank, lemma_decimal_differs, lemma_decimal_digits, lemma_trimmed};
use crate::text::{text_opt, trimmed, white_space};

verus! {

/// What kind of account this is to somebody who has one.
pub open spec fn backend_name(backend: Backend) -> Seq<char> {
    match backend {
        Backend::Imap => "IMAP"@,
        Backend::Jmap => "JMAP"@,
        Backend::Gmail => "Gmail"@,
        Backend::Maildir => "Local mail"@,
    }
}

/// How an account signs in, in words.
pub open spec fn auth_name(auth: AuthMethod) -> Seq<char> {
    match auth {
        AuthMethod::Password => "password"@,
        AuthMethod::AppPassword => "app password"@,
        AuthMethod::OAuth2 | AuthMethod::XOAuth2 => "OAuth 2"@,
    }
}

/// An account row's connection-type and auth-method badge — "IMAP ·
/// password", "Gmail · OAuth 2".
pub fn badge(account: &Account) -> (out: String)
    ensures
        out@ == backend_name(account.backend) + " · "@ + auth_name(account.auth),
{
    let mut out = match account.backend {
        Backend::Imap => "IMAP".to_owned(),
        Backend::Jmap => "JMAP".to_owned(),
        Backend::Gmail => "Gmail".to_owned(),
        // Not "Maildir": what is true of it is that the mail is already here.
        Backend::Maildir => "Local mail".to_owned(),
    };
    out.append(" · ");
    out.append(
        match account.auth {
            AuthMethod::Password => "password",
            AuthMethod::AppPassword => "app password",
            AuthMethod::OAuth2 => "OAuth 2",
            AuthMethod::XOAuth2 => "OAuth 2",
        },
    );
    out
}

/// How an OAuth account's access token stands right now.
///
/// A *state*, not a string, because two surfaces want different halves of
/// it: the fact line wants the wording, and the row wants to know whether
/// this is a problem.
#[derive(Debug, Clone, Copy, PartialEq, Eq, Structural)]
pub enum TokenStanding {
    /// Nothing to say, and that is a real answer rather than a failure: a
    /// password account has no token.
    Unknown,
    /// Good for a while yet.
    Valid {
        /// Whole days remaining — `0` meaning less than one, which is said
        /// in words rather than as a number nobody would trust.
        days: u64,
    },
    /// Past its stated expiry. The one state on an account row that is a
    /// problem rather than a fact.
    Expired,
}

/// `a` is `b` or later.
pub open spec fn not_before(a: Moment, b: Moment) -> bool {
    a.secs > b.secs || (a.secs == b.secs && a.nanos >= b.nanos)
}

/// The whole seconds from `a` to the later `b`.
pub open spec fn seconds_between(a: Moment, b: Moment) -> int {
    b.secs - a.secs - (if b.nanos < a.nanos {
        1int
    } else {
        0int
    })
}

/// Where `expiry` leaves an account as of `now`.
pub open spec fn standing(expiry: Option<Moment>, now: Moment) -> TokenStanding {
    match expiry {
        None => TokenStanding::Unknown,
        Some(at) => if not_before(at, now) {
            TokenStanding::Valid { days: (seconds_between(now, at) / 86400) as u64 }
        } else {
            TokenStanding::Expired
        },
    }
}

/// The line a standing puts on the row's fact line.
pub open spec fn standing_line(standing: TokenStanding) -> Option<Seq<char>> {
    match standing {
        TokenStanding::Unknown => None,
        TokenStanding::Valid { days } => if days == 0 {
            Some("token valid less than a day"@)
        } else {
            Some("token valid "@ + decimal(days as nat) + "d"@)
        },
        TokenStanding::Expired => Some("token expired — re-authorization needed"@),
    }
}

impl TokenStanding {
    /// Where `expiry` leaves this account as of `now`.
    pub fn of(expiry: Option<Moment>, now: Moment) -> (out: Self)
        ensures
            out == standing(expiry, now),
    {
        let at = match expiry {
            Some(at) => at,
            None => {
                return TokenStanding::Unknown;
            },
        };
        if at.secs > now.secs || (at.secs == now.secs && at.nanos >= now.nanos) {
            let borrow: i128 = if at.nanos < now.nanos {
                1
            } else {
                0
            };
            let remaining: i128 = at.secs as i128 - now.secs as i128 - borrow;
            TokenStanding::Valid { days: remaining as u64 / 86400 }
        } else {
            TokenStanding::Expired
        }
    }

    /// The line this standing puts on the row's `·`-joined fact line, or
    /// `None` when there is nothing to say.
    ///
    /// The expired wording names the repair rather than only the fault.
    pub fn line(self) -> (out: Option<String>)
        ensures
            text_opt(out) == standing_line(self),
    {
        match self {
            TokenStanding::Unknown => None,
            TokenStanding::Valid { days } => {
                if days == 0 {
                    return Some("token valid less than a day".to_owned());
                }
                let mut line = "token valid ".to_owned();
                line.append(decimal_of(days).as_str());
                line.append("d");
                Some(line)
            },
            TokenStanding::Expired => Some("token expired — re-authorization needed".to_owned()),
        }
    }

    /// Whether this is the state that calls for a warning mark and a repair.
    pub fn is_expired(self) -> (out: bool)
        ensures
            out == (self is Expired),
    {
        match self {
            TokenStanding::Expired => true,
            _ => false,
        }
    }
}

/// What putting an account's credential right would actually take.
///
/// The two routes are not interchangeable: an expired OAuth grant is
/// re-consented in a browser and cannot be typed, and a rotated app password
/// is typed and cannot be re-consented.
#[derive(Debug, Clone, Copy, PartialEq, Eq, Structural)]
pub enum Repair {
    /// There is nothing this pane can repair.
    Nothing,
    /// A new password for the keyring.
    Password,
    /// Sign in again through the system browser.
    Browser,
}

/// Which repair route an account takes. A browser round trip needs the OAuth
/// client the account signed in through; a blank client id is none.
pub open spec fn repair_for(account: Account) -> Repair {
    if account.backend is Maildir {
        Repair::Nothing
    } else {
        match account.auth {
            AuthMethod::OAuth2 | AuthMethod::XOAuth2 => match text_opt(account.client_id) {
                Some(client) => if trimmed(client).len() == 0 {
                    Repair::Nothing
                } else {
                    Repair::Browser
                },
                None => Repair::Nothing,
            },
            AuthMethod::Password | AuthMethod::AppPassword => Repair::Password,
        }
    }
}

/// Which repair route `account` takes.
pub fn repair(account: &Account) -> (out: Repair)
    ensures
        out == repair_for(*account),
{
    match account.backend {
        Backend::Maildir => {
            return Repair::Nothing;
        },
        _ => {},
    }
    match account.auth {
        AuthMethod::OAuth2 | AuthMethod::XOAuth2 => match &account.client_id {
            Some(client) => if is_blank(client.as_str()) {
                Repair::Nothing
            } else {
                Repair::Browser
            },
            None => Repair::Nothing,
        },
        AuthMethod::Password | AuthMethod::AppPassword => Repair::Password,
    }
}

// ---------------------------------------------------------------------------
// Laws
// ---------------------------------------------------------------------------

/// A badge tells every kind of account from every other, and every way to sign
/// in but the two that are the same to somebody who uses them.
pub proof fn lemma_badges_tell_accounts_apart(
    backend: Backend,
    other: Backend,
    auth: AuthMethod,
    otherwise: AuthMethod,
)
    ensures
        backend_name(backend) == backend_name(other) ==> backend == other,
        auth_name(auth) == auth_name(otherwise) <==> auth == otherwise || ((auth is OAuth2
            || auth is XOAuth2) && (otherwise is OAuth2 || otherwise is XOAuth2)),
{
    reveal_strlit("IMAP");
    reveal_strlit("JMAP");
    reveal_strlit("Gmail");
    reveal_strlit("Local mail");
    reveal_strlit("password");
    reveal_strlit("app password");
    reveal_strlit("OAuth 2");
    if backend_name(backend) == backend_name(other) {
        assert(backend_name(backend)[0] == backend_name(other)[0]);
    }
    if auth_name(auth) == auth_name(otherwise) {
        assert(auth_name(auth)[0] == auth_name(otherwise)[0]);
    }
}

/// How many nanoseconds lie between two moments.
pub open spec fn nanos_between(from: Moment, to: Moment) -> int {
    (to.secs - from.secs) * 1_000_000_000 + to.nanos - from.nanos
}

/// A token is expired from the first nanosecond past its expiry on, and not at
/// its expiry; until then the days said are those it has left in full. Without
/// an expiry nothing is known.
pub proof fn lemma_days_left(expiry: Moment, now: Moment)
    requires
        expiry.nanos < 1_000_000_000,
        now.nanos < 1_000_000_000,
    ensures
        standing(None, now) is Unknown,
        standing(Some(expiry), now) is Expired <==> nanos_between(now, expiry) < 0,
        nanos_between(now, expiry) >= 0 ==> (standing(Some(expiry), now) matches TokenStanding::Valid {
            days,
        } && days * 86_400_000_000_000 <= nanos_between(now, expiry) < (days + 1)
            * 86_400_000_000_000),
{
}

/// What is said of a token is nothing only when nothing is known, never the
/// same for two counts of days, and never what is said of an expired one.
pub proof fn lemma_standings_are_told_apart(a: TokenStanding, b: TokenStanding)
    ensures
        standing_line(a) is None <==> a is Unknown,
        standing_line(a) == standing_line(b) ==> a == b,
{
    reveal_strlit("token valid less than a day");
    reveal_strlit("token valid ");
    reveal_strlit("d");
    reveal_strlit("token expired — re-authorization needed");
    if standing_line(a) == standing_line(b) && a is Valid && b is Valid {
        let one = standing_line(a)->0;
        let two = standing_line(b)->0;
        lemma_decimal_digits(a->days as nat);
        lemma_decimal_digits(b->days as nat);
        assert('0' <= decimal(a->days as nat)[0] && decimal(a->days as nat)[0] <= '9');
        assert('0' <= decimal(b->days as nat)[0] && decimal(b->days as nat)[0] <= '9');
        assert(one[12] == two[12]);
        if a->days > 0 && b->days > 0 {
            assert(one.subrange(12, one.len() - 1) =~= decimal(a->days as nat));
            assert(two.subrange(12, two.len() - 1) =~= decimal(b->days as nat));
            lemma_decimal_differs(a->days as nat, b->days as nat);
        }
    } else if standing_line(a) == standing_line(b) && a is Valid && b is Expired {
        assert(standing_line(a)->0[6] == standing_line(b)->0[6]);
    } else if standing_line(a) == standing_line(b) && a is Expired && b is Valid {
        assert(standing_line(a)->0[6] == standing_line(b)->0[6]);
    }
}

/// The browser repairs exactly the accounts that signed in through it and know
/// the client they did so with; a password exactly those that have one; and
/// mail that is already here has nothing to repair.
pub proof fn lemma_which_repair(account: Account)
    ensures
        repair_for(account) is Browser <==> !(account.backend is Maildir) && (account.auth is OAuth2
            || account.auth is XOAuth2) && (account.client_id is Some && exists|i: int|
            0 <= i < account.client_id->0@.len() && !white_space(
                #[trigger] account.client_id->0@[i],
            )),
        repair_for(account) is Password <==> !(account.backend is Maildir) && (
        account.auth is Password || account.auth is AppPassword),
        account.backend is Maildir ==> repair_for(account) is Nothing,
{
    if let Some(client) = account.client_id {
        lemma_trimmed(client@);
        let (from, to) = choose|from: int, to: int|
            {
                &&& 0 <= from <= to <= client@.len()
                &&& trimmed(client@) == #[trigger] client@.subrange(from, to)
                &&& forall|i: int| 0 <= i < from ==> white_space(#[trigger] client@[i])
                &&& forall|i: int| to <= i < client@.len() ==> white_space(#[trigger] client@[i])
            };
        if trimmed(client@).len() > 0 {
            assert(client@[from] == trimmed(client@)[0]);
            assert(!white_space(client@[from]));
        }
    }
}

} // verus!
