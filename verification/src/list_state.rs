//! The list pane's state machine: what to say when there are no rows to show,
//! or when the rows on screen cannot be vouched for.
//!
//! Six named states -- inbox zero, offline, sync failure, no matches, a
//! partial aggregate, and the store still opening. The state is **derived, not
//! stored**: [`derive`] and [`derive_aggregate`] are functions of what the
//! pane knows right now, so there is no second state to fall out of step with
//! the first.
use vstd::prelude::*;
use crate::model::{ConnectionState, SyncStatus};
use crate::text::{str_opt, text_opt, texts};

verus! {

/// What a start that has not finished is actually waiting on.
#[derive(Debug, Clone, Copy, PartialEq, Eq, Structural)]
pub enum Waiting {
    /// The store key is being read out of the OS keyring.
    Keyring,
    /// The encrypted database is being opened.
    Store,
    /// Schema migrations are being applied.
    Migrating,
    /// The local search index is being built or rebuilt.
    Indexing,
}

impl Waiting {
    /// Every wait, in the order a start meets them.
    pub const ALL: [Waiting; 4] = [
        Waiting::Keyring,
        Waiting::Store,
        Waiting::Migrating,
        Waiting::Indexing,
    ];
}

/// What the list pane shows in place of rows.
///
/// `None` from [`derive`] means there are rows to show and the widget should
/// stay out of the way.
#[derive(Debug, Clone, PartialEq, Eq)]
pub enum State {
    /// Nothing left to triage in the mailbox in view.
    InboxZero {
        /// When the last sync completed; `None` before the first one.
        last_sync: Option<u64>,
        /// Messages still in the local store, elsewhere, and searchable.
        stored: u64,
    },
    /// No connection right now; local mail is still fully usable.
    Offline {
        /// Local writes waiting to reach the server.
        queued: u64,
    },
    /// The sync engine cannot reach the server.
    Failing {
        /// The actual error, phrased for the user. Never a shrug.
        reason: String,
    },
    /// A search matched nothing. The mailbox is not empty -- the query is.
    NoMatches {
        /// What was searched for, shown back so what to widen is visible.
        query: String,
        /// Accounts that could not be reached, and so could not be fully
        /// searched: "nothing matched" is a claim about the whole corpus.
        incomplete: Vec<String>,
    },
    /// An aggregate view is showing what it has, and it is not everything:
    /// the rows of a named account are not missing, they are unrefreshed.
    Partial {
        /// The accounts that did not answer, in the order the sidebar draws
        /// them.
        accounts: Vec<String>,
    },
    /// The window is up and the store is not open yet.
    Opening {
        /// What is being waited on.
        waiting: Waiting,
    },
}

/// A state, its texts as sequences.
pub enum StateView {
    /// Nothing left to triage.
    InboxZero {
        /// When the last sync completed.
        last_sync: Option<u64>,
        /// Messages in the local store.
        stored: u64,
    },
    /// No connection.
    Offline {
        /// Local writes waiting.
        queued: u64,
    },
    /// The server cannot be reached.
    Failing {
        /// Why.
        reason: Seq<char>,
    },
    /// A search matched nothing.
    NoMatches {
        /// What was searched for.
        query: Seq<char>,
        /// Accounts that could not be fully searched.
        incomplete: Seq<Seq<char>>,
    },
    /// Not every account answered.
    Partial {
        /// Those that did not.
        accounts: Seq<Seq<char>>,
    },
    /// The store is not open yet.
    Opening {
        /// What is being waited on.
        waiting: Waiting,
    },
}

impl View for State {
    type V = StateView;

    open spec fn view(&self) -> StateView {
        match *self {
            State::InboxZero { last_sync, stored } => StateView::InboxZero { last_sync, stored },
            State::Offline { queued } => StateView::Offline { queued },
            State::Failing { reason } => StateView::Failing { reason: reason@ },
            State::NoMatches { query, incomplete } => StateView::NoMatches {
                query: query@,
                incomplete: texts(incomplete@),
            },
            State::Partial { accounts } => StateView::Partial { accounts: texts(accounts@) },
            State::Opening { waiting } => StateView::Opening { waiting },
        }
    }
}

/// A state that may not be there.
pub open spec fn state_opt(state: Option<State>) -> Option<StateView> {
    match state {
        Some(state) => Some(state@),
        None => None,
    }
}

/// How long a start may take before it is worth saying anything, in
/// milliseconds: twice the budget of a start, so it cannot fire on a healthy
/// one.
pub const OPENING_THRESHOLD: u64 = 1_000;

/// What the list pane shows while the store is still opening, if anything.
/// `waited` is in milliseconds.
///
/// `None` below the threshold: the ordinary start draws its first frame and
/// then fills it, with nothing in between to be removed.
pub fn derive_opening(waiting: Waiting, waited: u64) -> (out: Option<State>)
    ensures
        state_opt(out) == (if waited >= OPENING_THRESHOLD {
            Some(StateView::Opening { waiting })
        } else {
            None
        }),
{
    if waited >= OPENING_THRESHOLD {
        Some(State::Opening { waiting })
    } else {
        None
    }
}

/// The heading for one wait.
pub open spec fn wait_heading(waiting: Waiting) -> Seq<char> {
    match waiting {
        Waiting::Keyring => "Opening your mailbox"@,
        Waiting::Store => "Opening your mailbox"@,
        Waiting::Migrating => "Updating your mailbox\u{2019}s storage"@,
        Waiting::Indexing => "Rebuilding the search index"@,
    }
}

/// The line under it.
pub open spec fn wait_line(waiting: Waiting) -> Seq<char> {
    match waiting {
        Waiting::Keyring => "Waiting for the keyring to unlock the local store."@,
        Waiting::Store => "Reading the local store from disk."@,
        Waiting::Migrating => "This happens once after an update, and the mail is not touched."@,
        Waiting::Indexing => "Your mail is all here; searching it will be ready in a moment."@,
    }
}

/// The heading and the line under it for one wait.
///
/// The keyring is named as itself, because what to *do* about it is somewhere
/// else entirely. A migration is a different promise: it changes the store
/// rather than reading it, and is once per upgrade.
pub fn describe_wait(waiting: Waiting) -> (out: (&'static str, &'static str))
    ensures
        out.0@ == wait_heading(waiting),
        out.1@ == wait_line(waiting),
{
    match waiting {
        Waiting::Keyring => (
            "Opening your mailbox",
            "Waiting for the keyring to unlock the local store.",
        ),
        Waiting::Store => ("Opening your mailbox", "Reading the local store from disk."),
        Waiting::Migrating => (
            "Updating your mailbox\u{2019}s storage",
            "This happens once after an update, and the mail is not touched.",
        ),
        Waiting::Indexing => (
            "Rebuilding the search index",
            "Your mail is all here; searching it will be ready in a moment.",
        ),
    }
}

/// How much of the pane a [`State`] takes.
#[derive(Debug, Clone, Copy, PartialEq, Eq, Structural)]
pub enum Placement {
    /// Opaque, filling the pane. Correct only when there is nothing under it.
    Full,
    /// A strip over the top of the rows, which stay visible and scrollable
    /// underneath.
    Banner,
}

/// A state that may arrive with rows loaded underneath.
pub open spec fn may_cover_rows(state: StateView) -> bool {
    state is Offline || state is Failing || state is Partial
}

impl State {
    /// Whether this state may share the pane with rows, or has to fill it.
    ///
    /// `item_count` is the same count [`derive`] was given: `Offline` and
    /// `Failing` can arrive with a full mailbox loaded underneath, and that is
    /// exactly the mail the banner exists to keep visible.
    pub fn placement(&self, item_count: u64) -> (out: Placement)
        ensures
            out is Banner <==> may_cover_rows(self@) && item_count > 0,
    {
        match self {
            // Nothing has been read, so there is nothing underneath to
            // protect: the plate is the pane.
            State::Opening { .. } => Placement::Full,
            State::InboxZero { .. } | State::NoMatches { .. } => Placement::Full,
            State::Offline { .. } | State::Failing { .. } | State::Partial { .. } => {
                if item_count == 0 {
                    Placement::Full
                } else {
                    Placement::Banner
                }
            },
        }
    }
}

/// What a failing connection says when the server gave no reason.
pub const NO_REASON: &'static str = "the server did not say why";

/// The state of one account's list.
pub open spec fn derived(
    status: SyncStatus,
    item_count: u64,
    stored: u64,
    queued: u64,
    searching: Option<Seq<char>>,
) -> Option<StateView> {
    if searching is Some && item_count == 0 {
        Some(StateView::NoMatches { query: searching->0, incomplete: Seq::empty() })
    } else {
        match status.state {
            ConnectionState::Failing => Some(
                StateView::Failing {
                    reason: match text_opt(status.detail) {
                        Some(detail) => detail,
                        None => NO_REASON@,
                    },
                },
            ),
            ConnectionState::Offline | ConnectionState::Connecting => Some(
                StateView::Offline { queued },
            ),
            ConnectionState::Online => if item_count == 0 {
                Some(StateView::InboxZero { last_sync: status.last_sync, stored })
            } else {
                None
            },
        }
    }
}

/// Which state the list pane shows, from what it knows right now.
///
/// `item_count` is what the loaded page reports for the mailbox in view;
/// `stored` and `queued` come from the local store. `searching` is the query
/// the list is showing results for, or `None` when it is showing a mailbox.
///
/// A search answers for itself, ahead of the connection: the index is local
/// and it answered completely. A search that *did* match still gets the
/// connection's banner over its rows. Connecting reads as offline: from the
/// user's chair both mean "not connected right now, local mail still works".
pub fn derive(
    status: &SyncStatus,
    item_count: u64,
    stored: u64,
    queued: u64,
    searching: Option<&str>,
) -> (out: Option<State>)
    ensures
        state_opt(out) == derived(*status, item_count, stored, queued, str_opt(searching)),
{
    if let Some(query) = searching {
        if item_count == 0 {
            let incomplete: Vec<String> = Vec::new();
            assert(texts(incomplete@) =~= Seq::<Seq<char>>::empty());
            return Some(State::NoMatches { query: query.to_owned(), incomplete });
        }
    }
    match status.state {
        ConnectionState::Failing => Some(
            State::Failing {
                reason: match &status.detail {
                    Some(detail) => detail.clone(),
                    None => NO_REASON.to_owned(),
                },
            },
        ),
        ConnectionState::Offline | ConnectionState::Connecting => Some(State::Offline { queued }),
        ConnectionState::Online => if item_count == 0 {
            Some(State::InboxZero { last_sync: status.last_sync, stored })
        } else {
            None
        },
    }
}

/// The account can be vouched for.
pub open spec fn current(status: SyncStatus) -> bool {
    status.state is Online || status.state is Connecting
}

/// Whether an account's contribution to an aggregate can be vouched for.
///
/// Also what a whole-view selection is scoped by: two spellings of "reachable"
/// would let the banner and the selection disagree. Connecting is deliberately
/// *not* a reason to name an account: a banner that appears for the two
/// seconds an account takes to connect is how people learn to stop reading
/// banners.
pub fn is_current(status: &SyncStatus) -> (out: bool)
    ensures
        out == current(*status),
{
    match status.state {
        ConnectionState::Online | ConnectionState::Connecting => true,
        ConnectionState::Offline | ConnectionState::Failing => false,
    }
}

/// The names of the accounts that cannot be vouched for, in order.
pub open spec fn absent(accounts: Seq<(String, SyncStatus)>) -> Seq<Seq<char>>
    decreases accounts.len(),
{
    if accounts.len() == 0 {
        Seq::empty()
    } else {
        let rest = absent(accounts.drop_last());
        if current(accounts.last().1) {
            rest
        } else {
            rest.push(accounts.last().0@)
        }
    }
}

/// The oldest of the accounts' last syncs: none when one of them has never
/// synced.
pub open spec fn oldest_sync(accounts: Seq<(String, SyncStatus)>) -> Option<u64>
    decreases accounts.len(),
{
    if accounts.len() == 0 {
        None
    } else if accounts.len() == 1 {
        accounts[0].1.last_sync
    } else {
        match (oldest_sync(accounts.drop_last()), accounts.last().1.last_sync) {
            (Some(a), Some(b)) => if a <= b {
                Some(a)
            } else {
                Some(b)
            },
            _ => None,
        }
    }
}

/// The state of a list across accounts.
pub open spec fn derived_aggregate(
    accounts: Seq<(String, SyncStatus)>,
    item_count: u64,
    stored: u64,
    searching: Option<Seq<char>>,
) -> Option<StateView> {
    if searching is Some && item_count == 0 {
        Some(StateView::NoMatches { query: searching->0, incomplete: absent(accounts) })
    } else if absent(accounts).len() > 0 {
        Some(StateView::Partial { accounts: absent(accounts) })
    } else if item_count == 0 && accounts.len() > 0 {
        Some(StateView::InboxZero { last_sync: oldest_sync(accounts), stored })
    } else {
        None
    }
}

/// Which state an *aggregate* view shows -- the unified list, across accounts.
///
/// **A view that cannot include an account says so, names the account, and
/// stays usable.** `accounts` carries one entry per **enabled** account, in
/// the sidebar's own order; one disabled by the user is not in it.
///
/// A search that matched nothing answers first, and carries the accounts it
/// could not reach. An account that did not answer outranks everything else,
/// inbox zero too: "nothing left to triage" is a claim about every account.
/// The oldest last sync is the one given, because the freshest would overstate
/// how current the view is.
pub fn derive_aggregate(
    accounts: &[(String, SyncStatus)],
    item_count: u64,
    stored: u64,
    searching: Option<&str>,
) -> (out: Option<State>)
    ensures
        state_opt(out) == derived_aggregate(accounts@, item_count, stored, str_opt(searching)),
{
    let mut away: Vec<String> = Vec::new();
    let mut oldest: Option<u64> = None;
    let mut i: usize = 0;
    assert(texts(away@) =~= absent(accounts@.take(0)));
    while i < accounts.len()
        invariant
            i <= accounts@.len(),
            texts(away@) == absent(accounts@.take(i as int)),
            oldest == oldest_sync(accounts@.take(i as int)),
        decreases accounts@.len() - i,
    {
        let ghost named = texts(away@);
        let ghost seen = accounts@.take(i + 1);
        proof {
            assert(seen.drop_last() =~= accounts@.take(i as int));
            assert(seen.last() == accounts@[i as int]);
        }
        if !is_current(&accounts[i].1) {
            away.push(accounts[i].0.clone());
            assert(texts(away@) =~= named.push(accounts@[i as int].0@));
        }
        let synced = accounts[i].1.last_sync;
        if i == 0 {
            oldest = synced;
        } else {
            oldest = match (oldest, synced) {
                (Some(a), Some(b)) => if a <= b {
                    Some(a)
                } else {
                    Some(b)
                },
                _ => None,
            };
        }
        i += 1;
    }
    assert(accounts@.take(accounts@.len() as int) =~= accounts@);
    if let Some(query) = searching {
        if item_count == 0 {
            return Some(State::NoMatches { query: query.to_owned(), incomplete: away });
        }
    }
    assert(texts(away@).len() == away@.len());
    if away.len() > 0 {
        return Some(State::Partial { accounts: away });
    }
    if item_count == 0 && accounts.len() > 0 {
        return Some(State::InboxZero { last_sync: oldest, stored });
    }
    None
}

// ---------------------------------------------------------------------------
// Laws
// ---------------------------------------------------------------------------

/// The accounts named are exactly those that cannot be vouched for, in the
/// order given.
pub proof fn lemma_absent_accounts(accounts: Seq<(String, SyncStatus)>, name: Seq<char>)
    ensures
        absent(accounts).contains(name) <==> exists|i: int|
            0 <= i < accounts.len() && !current((#[trigger] accounts[i]).1) && accounts[i].0@
                == name,
        absent(accounts).len() <= accounts.len(),
    decreases accounts.len(),
{
    if accounts.len() > 0 {
        let rest = accounts.drop_last();
        lemma_absent_accounts(rest, name);
        let now = absent(accounts);
        let before = absent(rest);
        if now.contains(name) {
            let k = choose|k: int| 0 <= k < now.len() && now[k] == name;
            if k < before.len() {
                assert(before[k] == name);
                let i = choose|i: int|
                    0 <= i < rest.len() && !current((#[trigger] rest[i]).1) && rest[i].0@ == name;
                assert(accounts[i] == rest[i]);
            } else {
                assert(accounts[accounts.len() - 1].0@ == name);
            }
        }
        if exists|i: int|
            0 <= i < accounts.len() && !current((#[trigger] accounts[i]).1) && accounts[i].0@
                == name {
            let i = choose|i: int|
                0 <= i < accounts.len() && !current((#[trigger] accounts[i]).1) && accounts[i].0@
                    == name;
            if i < rest.len() {
                assert(rest[i] == accounts[i]);
                let k = choose|k: int| 0 <= k < before.len() && before[k] == name;
                assert(now[k] == name);
            } else {
                assert(now[before.len() as int] == name);
            }
        }
    }
}

/// The oldest sync is none exactly when some account has never synced, and is
/// otherwise no later than any of them.
pub proof fn lemma_oldest_sync(accounts: Seq<(String, SyncStatus)>)
    requires
        accounts.len() > 0,
    ensures
        match oldest_sync(accounts) {
            Some(oldest) => (forall|i: int|
                0 <= i < accounts.len() ==> (#[trigger] accounts[i]).1.last_sync is Some
                    && accounts[i].1.last_sync->0 >= oldest) && (exists|i: int|
                0 <= i < accounts.len() && (#[trigger] accounts[i]).1.last_sync == Some(oldest)),
            None => exists|i: int|
                0 <= i < accounts.len() && (#[trigger] accounts[i]).1.last_sync is None,
        },
    decreases accounts.len(),
{
    if accounts.len() == 1 {
        assert(accounts[0].1.last_sync == oldest_sync(accounts));
    } else {
        let rest = accounts.drop_last();
        let last = accounts.last().1.last_sync;
        lemma_oldest_sync(rest);
        assert(accounts[accounts.len() - 1].1.last_sync == last);
        match oldest_sync(rest) {
            Some(oldest) => {
                let i = choose|i: int|
                    0 <= i < rest.len() && (#[trigger] rest[i]).1.last_sync == Some(oldest);
                assert(accounts[i] == rest[i]);
                assert forall|k: int| 0 <= k < rest.len() implies (
                #[trigger] accounts[k]).1.last_sync is Some && accounts[k].1.last_sync->0
                    >= oldest by {
                    assert(accounts[k] == rest[k]);
                }
            },
            None => {
                let i = choose|i: int|
                    0 <= i < rest.len() && (#[trigger] rest[i]).1.last_sync is None;
                assert(accounts[i] == rest[i]);
            },
        }
    }
}

/// Nothing is a dead end: with rows loaded, no state an account or an
/// aggregate can be in covers them.
pub proof fn lemma_rows_stay_readable(
    status: SyncStatus,
    accounts: Seq<(String, SyncStatus)>,
    item_count: u64,
    stored: u64,
    queued: u64,
    searching: Option<Seq<char>>,
)
    requires
        item_count > 0,
    ensures
        derived(status, item_count, stored, queued, searching) matches Some(state)
            ==> may_cover_rows(state),
        derived_aggregate(accounts, item_count, stored, searching) matches Some(state)
            ==> may_cover_rows(state),
{
}

/// A search that matched nothing is never told that there is nothing left to
/// triage, whatever the connection is doing.
pub proof fn lemma_search_answers_for_itself(
    status: SyncStatus,
    accounts: Seq<(String, SyncStatus)>,
    stored: u64,
    queued: u64,
    query: Seq<char>,
)
    ensures
        derived(status, 0, stored, queued, Some(query)) is Some,
        derived(status, 0, stored, queued, Some(query))->0 is NoMatches,
        derived_aggregate(accounts, 0, stored, Some(query)) is Some,
        derived_aggregate(accounts, 0, stored, Some(query))->0 is NoMatches,
{
}

/// One account's list says nothing exactly when it is online and has rows; is
/// done exactly when it is online, empty and not a search; and otherwise says
/// what is the matter, with the server's own reason where it gave one.
pub proof fn lemma_what_a_list_says(
    status: SyncStatus,
    item_count: u64,
    stored: u64,
    queued: u64,
    searching: Option<Seq<char>>,
)
    ensures
        ({
            let out = derived(status, item_count, stored, queued, searching);
            let unmatched = item_count == 0 && searching is Some;
            &&& out is None <==> status.state is Online && item_count > 0
            &&& out == Some(StateView::InboxZero { last_sync: status.last_sync, stored })
                <==> status.state is Online && item_count == 0 && searching is None
            &&& out == Some(StateView::Offline { queued }) <==> !unmatched && (
            status.state is Offline || status.state is Connecting)
            &&& (out is Some && out->0 is Failing) <==> !unmatched && status.state is Failing
            &&& out is Some && out->0 is Failing ==> (status.detail matches Some(detail)
                ==> out->0->reason == detail@)
            &&& out is Some && out->0 is Failing ==> (status.detail is None ==> out->0->reason.len()
                > 0)
            &&& unmatched ==> out == Some(
                StateView::NoMatches { query: searching->0, incomplete: Seq::empty() },
            )
        }),
{
    reveal_strlit("the server did not say why");
}

/// An aggregate names an account exactly when it is offline or failing,
/// outranking everything but a search that found nothing, which names it too;
/// and is done only when every account answered.
pub proof fn lemma_what_an_aggregate_says(
    accounts: Seq<(String, SyncStatus)>,
    item_count: u64,
    stored: u64,
    searching: Option<Seq<char>>,
)
    ensures
        ({
            let out = derived_aggregate(accounts, item_count, stored, searching);
            let away = accounts.filter(
                |account: (String, SyncStatus)|
                    account.1.state is Offline || account.1.state is Failing,
            ).map_values(|account: (String, SyncStatus)| account.0@);
            if item_count == 0 && searching is Some {
                out == Some(StateView::NoMatches { query: searching->0, incomplete: away })
            } else if away.len() > 0 {
                out == Some(StateView::Partial { accounts: away })
            } else if item_count == 0 && accounts.len() > 0 {
                out is Some && out->0 is InboxZero && out->0->stored == stored
            } else {
                out is None
            }
        }),
{
    lemma_absent_is_filtered(accounts);
}

proof fn lemma_absent_is_filtered(accounts: Seq<(String, SyncStatus)>)
    ensures
        absent(accounts) == accounts.filter(
            |account: (String, SyncStatus)|
                account.1.state is Offline || account.1.state is Failing,
        ).map_values(|account: (String, SyncStatus)| account.0@),
    decreases accounts.len(),
{
    let away = |account: (String, SyncStatus)|
        account.1.state is Offline || account.1.state is Failing;
    let name = |account: (String, SyncStatus)| account.0@;
    reveal(Seq::filter);
    if accounts.len() > 0 {
        lemma_absent_is_filtered(accounts.drop_last());
        let before = accounts.drop_last().filter(away);
        assert(before.push(accounts.last()).map_values(name) =~= before.map_values(name).push(
            accounts.last().0@,
        ));
    }
    assert(absent(accounts) =~= accounts.filter(away).map_values(name));
}

/// What is said of one account is what is said of the aggregate of it alone,
/// when it is online: the two do not disagree.
pub proof fn lemma_one_account_is_no_exception(
    name: String,
    status: SyncStatus,
    item_count: u64,
    stored: u64,
    queued: u64,
    searching: Option<Seq<char>>,
)
    requires
        status.state is Online,
    ensures
        derived(status, item_count, stored, queued, searching) == derived_aggregate(
            seq![(name, status)],
            item_count,
            stored,
            searching,
        ),
{
    let alone = seq![(name, status)];
    assert(alone.drop_last() =~= Seq::<(String, SyncStatus)>::empty());
    assert(absent(alone.drop_last()) =~= Seq::<Seq<char>>::empty());
    assert(alone.last() == (name, status));
    assert(absent(alone) =~= Seq::<Seq<char>>::empty());
}

/// What answers for a whole view takes the pane; what only qualifies rows that
/// are there leaves them readable.
pub proof fn lemma_what_takes_the_pane(state: StateView)
    ensures
        may_cover_rows(state) <==> !(state is InboxZero || state is NoMatches || state is Opening),
{
}

/// No two waits are described in the same line.
pub proof fn lemma_waits_are_told_apart(a: Waiting, b: Waiting)
    requires
        wait_line(a) == wait_line(b),
    ensures
        a == b,
{
    reveal_strlit("Waiting for the keyring to unlock the local store.");
    reveal_strlit("Reading the local store from disk.");
    reveal_strlit("This happens once after an update, and the mail is not touched.");
    reveal_strlit("Your mail is all here; searching it will be ready in a moment.");
    assert(wait_line(Waiting::Keyring)[0] == 'W');
    assert(wait_line(Waiting::Store)[0] == 'R');
    assert(wait_line(Waiting::Migrating)[0] == 'T');
    assert(wait_line(Waiting::Indexing)[0] == 'Y');
    assert(wait_line(a)[0] == wait_line(b)[0]);
    match a {
        Waiting::Keyring => {},
        Waiting::Store => {},
        Waiting::Migrating => {},
        Waiting::Indexing => {},
    }
    match b {
        Waiting::Keyring => {},
        Waiting::Store => {},
        Waiting::Migrating => {},
        Waiting::Indexing => {},
    }
}

} // verus!
