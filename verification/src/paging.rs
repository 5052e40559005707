//! What a windowed list asks for, and what it does when the mail moves -- the
//! policy behind every message list, with no toolkit and no store in it.
//!
//! # Driving the list from events
//!
//! A list reacts to an event only when the event can change its own membership
//! or order, and it inserts at the top only when its own order guarantees the
//! new rows belong there. Everything else reloads.
//!
//! | Scope | new mail | messages removed | list changed | messages changed |
//! |---|---|---|---|---|
//! | `Mailbox` | insert at top when the mailbox matches | reload when the mailbox matches | reload when the mailbox matches | refetch resident pages holding them |
//! | `Account` | insert at top when the account matches | reload when the account matches | reload when the account matches | refetch resident pages holding them |
//! | `Flagged` / `Snoozed` | ignore | reload when the account matches | reload when the account matches | **reload** when the account matches |
//! | `Unified` | reload unless the folder is no inbox | reload unless the folder is no inbox | reload unless the folder is no inbox | refetch resident pages holding them |
//! | a result set | ignore | ignore | ignore | refetch resident pages holding them |
//!
//! For `Flagged` and `Snoozed` the flag or the snooze *is* the membership
//! predicate, so a change can remove a row; only a reload can express that.
//! They are gated on the *account*, not the mailbox, because they span every
//! folder in one. Nothing opened yet ignores everything.
use vstd::prelude::*;
use std::collections::HashMap;
use crate::list::PAGE_SIZE;
use crate::model::{AccountId, Arrival, ListScope, MailboxId, MessageId, Reaction};

verus! {

broadcast use vstd::std_specs::hash::group_hash_axioms;

/// One page of a scope, as the store answered it.
#[derive(Clone, Debug, PartialEq, Eq)]
pub struct Page<T> {
    /// How many rows the scope has in total, as of this read. The count and
    /// the rows have to come from one read, or the list can be told about a
    /// total that no page will ever fill.
    pub total: u32,
    /// The rows themselves, in list order.
    pub rows: Vec<T>,
}

/// Which rows of a scope are wanted.
#[derive(Clone, Copy, Debug, PartialEq, Eq, Structural)]
pub struct PageRequest {
    /// The messages being listed.
    pub scope: ListScope,
    /// The page index, for the reply to be matched against.
    pub page: u32,
    /// The first row wanted, counted from the newest.
    pub offset: u32,
    /// How many rows to read.
    pub limit: u32,
}

/// What to read for one page of the list.
#[derive(Clone, Debug, PartialEq, Eq)]
pub enum Fetch {
    /// A page of the scope in view, by offset.
    Scope(PageRequest),
    /// A page of the result set: these ids, in this order. Search hits are
    /// ranked, not sorted, so each page names the ids it wants.
    Hits {
        /// The page index, for the reply to be matched against.
        page: u32,
        /// The ids on it, most relevant first.
        ids: Vec<MessageId>,
    },
}

/// Something that happened in the application.
#[derive(Clone, Debug, PartialEq, Eq)]
pub enum Event {
    /// Messages were delivered to a folder.
    NewMail {
        /// Whose.
        account: AccountId,
        /// Which folder.
        mailbox: MailboxId,
        /// The messages.
        messages: Vec<MessageId>,
    },
    /// Messages changed in place.
    MessagesChanged {
        /// Whose.
        account: AccountId,
        /// The messages.
        messages: Vec<MessageId>,
    },
    /// Messages left a folder.
    MessagesRemoved {
        /// Whose.
        account: AccountId,
        /// Which folder.
        mailbox: MailboxId,
        /// The messages.
        messages: Vec<MessageId>,
    },
    /// A folder was synced anew.
    MessageListChanged {
        /// Whose.
        account: AccountId,
        /// Which folder.
        mailbox: MailboxId,
    },
    /// Anything a list is not about.
    Other,
}

/// What the list does about one runtime event.
#[derive(Clone, Copy, Debug, PartialEq, Eq)]
pub enum Plan<'a> {
    /// Nothing about this list changes.
    Ignore,
    /// This many new rows belong at the top, in the arrival's own order.
    InsertAtTop(u32),
    /// The same rows in the same order; re-read the resident pages holding
    /// these, so the row objects are updated in place.
    Refetch(&'a [MessageId]),
    /// The membership or the order moved: drop everything cached and ask
    /// again, keeping the scroll position.
    Reload,
}

/// How many times one page may be re-asked for after a failed read. Bounded
/// because the repair has to be a repair and not a spin.
pub const FAILED_PAGE_ATTEMPTS: u8 = 3;

// ---------------------------------------------------------------------------
// The table
// ---------------------------------------------------------------------------

/// What a scope does with an arrival in `mailbox` of `account`; `inbox` says
/// whether that folder is an inbox, when it is known.
pub open spec fn scope_reaction(
    scope: ListScope,
    arrival: Arrival,
    account: AccountId,
    mailbox: Option<MailboxId>,
    inbox: Option<bool>,
) -> Reaction {
    match scope {
        ListScope::Mailbox(own) => if arrival is MessagesChanged {
            Reaction::Refetch
        } else if mailbox != Some(own) {
            Reaction::Ignore
        } else if arrival is NewMail {
            Reaction::InsertAtTop
        } else {
            Reaction::Reload
        },
        ListScope::Account(own) => if arrival is MessagesChanged {
            Reaction::Refetch
        } else if account != own {
            Reaction::Ignore
        } else if arrival is NewMail {
            Reaction::InsertAtTop
        } else {
            Reaction::Reload
        },
        ListScope::Flagged(own) | ListScope::Snoozed(own) => if arrival is NewMail || account
            != own {
            Reaction::Ignore
        } else {
            Reaction::Reload
        },
        ListScope::Unified => if arrival is MessagesChanged {
            Reaction::Refetch
        } else if inbox == Some(false) {
            Reaction::Ignore
        } else {
            Reaction::Reload
        },
    }
}

impl ListScope {
    /// What this scope does with an arrival, by the table in the module's
    /// documentation.
    pub fn reaction(
        self,
        arrival: Arrival,
        account: AccountId,
        mailbox: Option<MailboxId>,
        inbox: Option<bool>,
    ) -> (out: Reaction)
        ensures
            out == scope_reaction(self, arrival, account, mailbox, inbox),
    {
        let (ours, first) = match self {
            ListScope::Mailbox(own) => (
                match mailbox {
                    Some(mailbox) => mailbox.0 == own.0,
                    None => false,
                },
                Reaction::InsertAtTop,
            ),
            ListScope::Account(own) => (account.0 == own.0, Reaction::InsertAtTop),
            ListScope::Flagged(own) | ListScope::Snoozed(own) => (
                account.0 == own.0,
                Reaction::Ignore,
            ),
            ListScope::Unified => (
                match inbox {
                    Some(inbox) => inbox,
                    None => true,
                },
                Reaction::Reload,
            ),
        };
        match arrival {
            Arrival::MessagesChanged => match self {
                ListScope::Flagged(_) | ListScope::Snoozed(_) => if ours {
                    Reaction::Reload
                } else {
                    Reaction::Ignore
                },
                _ => Reaction::Refetch,
            },
            Arrival::NewMail => if ours {
                first
            } else {
                Reaction::Ignore
            },
            Arrival::MessagesRemoved | Arrival::MessageListChanged => if ours {
                Reaction::Reload
            } else {
                Reaction::Ignore
            },
        }
    }

    /// The folder in view, if the scope is one: a role-scoped query is not a
    /// mailbox an action can be aimed at.
    pub fn mailbox(self) -> (out: Option<MailboxId>)
        ensures
            out == (match self {
                ListScope::Mailbox(mailbox) => Some(mailbox),
                _ => None,
            }),
    {
        match self {
            ListScope::Mailbox(mailbox) => Some(mailbox),
            _ => None,
        }
    }
}

// ---------------------------------------------------------------------------
// Paging
// ---------------------------------------------------------------------------

/// What a [`Paging`] knows.
#[verifier::ext_equal]
pub struct PagingView {
    /// What the list is showing.
    pub scope: Option<ListScope>,
    /// The hits in view, ranked.
    pub results: Option<Seq<MessageId>>,
    /// Pages whose read failed, and how often they have been re-asked.
    pub failed: Map<u32, u8>,
    /// Which folders are known, and whether each is an inbox.
    pub inboxes: Map<i64, bool>,
}

impl PagingView {
    /// What the list does with one arrival, result set or scope alike.
    pub open spec fn reaction(
        self,
        arrival: Arrival,
        account: AccountId,
        mailbox: Option<MailboxId>,
    ) -> Reaction {
        if self.results is Some {
            if arrival is MessagesChanged {
                Reaction::Refetch
            } else {
                Reaction::Ignore
            }
        } else {
            match self.scope {
                Some(scope) => scope_reaction(
                    scope,
                    arrival,
                    account,
                    mailbox,
                    match mailbox {
                        Some(mailbox) => if self.inboxes.contains_key(mailbox.0) {
                            Some(self.inboxes[mailbox.0])
                        } else {
                            None
                        },
                        None => None,
                    },
                ),
                None => Reaction::Ignore,
            }
        }
    }

    /// How often `page` has been re-asked.
    pub open spec fn attempts(self, page: u32) -> u8 {
        if self.failed.contains_key(page) {
            self.failed[page]
        } else {
            0
        }
    }
}

/// `plan` carries `reaction` out for `messages`.
pub open spec fn carries_out(
    plan: Plan<'_>,
    reaction: Reaction,
    messages: Seq<MessageId>,
) -> bool {
    match reaction {
        Reaction::Ignore => plan is Ignore,
        Reaction::InsertAtTop => plan == Plan::InsertAtTop(messages.len() as u32),
        Reaction::Refetch => plan matches Plan::Refetch(ids) && ids@ == messages,
        Reaction::Reload => plan is Reload,
    }
}

/// The ids on one page of a ranking; nothing past its end.
pub open spec fn page_of(results: Seq<MessageId>, page: u32) -> Option<Seq<MessageId>> {
    let start = page * PAGE_SIZE;
    if start >= results.len() {
        None
    } else {
        let end = if start + PAGE_SIZE < results.len() {
            start + PAGE_SIZE
        } else {
            results.len() as int
        };
        Some(results.subrange(start, end))
    }
}

/// What the folders say: the last word on each one counts.
pub open spec fn folders_map(folders: Seq<(MailboxId, bool)>) -> Map<i64, bool>
    decreases folders.len(),
{
    if folders.len() == 0 {
        Map::empty()
    } else {
        folders_map(folders.drop_last()).insert(folders.last().0.0, folders.last().1)
    }
}

/// The policy around a windowed list: what is in view, what a page of it
/// means, and what an event does to it.
#[derive(Clone, Debug, PartialEq, Eq)]
pub struct Paging {
    /// What the list is showing: one folder, or a role-scoped query.
    scope: Option<ListScope>,
    /// The hits in view, ranked, or `None` when the scope is in view.
    results: Option<Vec<MessageId>>,
    /// Pages whose read failed, and how often they have been re-asked.
    failed: HashMap<u32, u8>,
    /// Which folders the frontend has placed, and whether each is an inbox.
    inboxes: HashMap<i64, bool>,
}

impl View for Paging {
    type V = PagingView;

    closed spec fn view(&self) -> PagingView {
        PagingView {
            scope: self.scope,
            results: match self.results {
                Some(ids) => Some(ids@),
                None => None,
            },
            failed: self.failed@,
            inboxes: self.inboxes@,
        }
    }
}

impl Default for Paging {
    fn default() -> (out: Self)
        ensures
            out@ == (PagingView {
                scope: None,
                results: None,
                failed: Map::empty(),
                inboxes: Map::empty(),
            }),
    {
        let out = Paging {
            scope: None,
            results: None,
            failed: HashMap::new(),
            inboxes: HashMap::new(),
        };
        assert(out.failed@ =~= Map::<u32, u8>::empty());
        assert(out.inboxes@ =~= Map::<i64, bool>::empty());
        out
    }
}

impl Paging {
    /// Say which folders are inboxes: every folder the frontend knows,
    /// replacing what it said before.
    pub fn set_folders(&mut self, folders: &[(MailboxId, bool)])
        ensures
            final(self)@ == (PagingView { inboxes: folders_map(folders@), ..old(self)@ }),
    {
        let mut inboxes: HashMap<i64, bool> = HashMap::new();
        let mut i: usize = 0;
        assert(inboxes@ =~= folders_map(folders@.take(0)));
        while i < folders.len()
            invariant
                i <= folders@.len(),
                inboxes@ == folders_map(folders@.take(i as int)),
            decreases folders@.len() - i,
        {
            assert(folders@.take(i + 1).drop_last() =~= folders@.take(i as int));
            inboxes.insert(folders[i].0.0, folders[i].1);
            i += 1;
        }
        assert(folders@.take(folders@.len() as int) =~= folders@);
        self.inboxes = inboxes;
    }

    /// Show `scope`, leaving any result set: the sidebar is a way out of a
    /// search as much as `Esc` is.
    pub fn open(&mut self, scope: ListScope)
        ensures
            final(self)@ == (PagingView {
                scope: Some(scope),
                results: None,
                failed: Map::empty(),
                ..old(self)@
            }),
    {
        self.scope = Some(scope);
        self.results = None;
        self.failed.clear();
        assert(self.failed@ =~= Map::<u32, u8>::empty());
    }

    /// What the list is showing, folder or query -- `None` before anything is
    /// open. Set aside, not forgotten, while a result set is in view.
    pub fn scope(&self) -> (out: Option<ListScope>)
        ensures
            out == self@.scope,
    {
        self.scope
    }

    /// The mailbox in view, if the scope is one.
    pub fn mailbox(&self) -> (out: Option<MailboxId>)
        ensures
            out == (match self@.scope {
                Some(ListScope::Mailbox(mailbox)) => Some(mailbox),
                _ => None,
            }),
    {
        match self.scope {
            Some(scope) => scope.mailbox(),
            None => None,
        }
    }

    /// Show `ids` -- the hits, most relevant first -- instead of the scope, and
    /// answer how many there are. The scope is remembered, not left.
    pub fn show_results(&mut self, ids: Vec<MessageId>) -> (total: u32)
        ensures
            total == ids@.len() as u32,
            final(self)@ == (PagingView {
                results: Some(ids@),
                failed: Map::empty(),
                ..old(self)@
            }),
    {
        let total: u32 = ids.len() as u32;
        self.results = Some(ids);
        self.failed.clear();
        assert(self.failed@ =~= Map::<u32, u8>::empty());
        total
    }

    /// Put the scope back. Returns whether there were results to leave.
    pub fn close_results(&mut self) -> (out: bool)
        ensures
            out == (old(self)@.results is Some),
            final(self)@ == (PagingView { results: None, failed: Map::empty(), ..old(self)@ }),
    {
        let had = self.results.is_some();
        self.failed.clear();
        self.results = None;
        assert(self.failed@ =~= Map::<u32, u8>::empty());
        had
    }

    /// Whether the list is showing search hits rather than the scope.
    pub fn showing_results(&self) -> (out: bool)
        ensures
            out == (self@.results is Some),
    {
        self.results.is_some()
    }

    /// What to read for `page`, or `None` when there is nothing to read:
    /// nothing is open, or the page is past the end of the result set.
    pub fn fetch_for(&self, page: u32) -> (out: Option<Fetch>)
        requires
            self@.results is Some || self@.scope is Some ==> page * PAGE_SIZE <= u32::MAX,
        ensures
            match (self@.results, self@.scope) {
                (Some(results), _) => match page_of(results, page) {
                    Some(ids) => out matches Some(Fetch::Hits { page: of, ids: found }) && of == page
                        && found@ == ids,
                    None => out is None,
                },
                (None, Some(scope)) => out == Some(
                    Fetch::Scope(
                        PageRequest {
                            scope,
                            page,
                            offset: (page * PAGE_SIZE) as u32,
                            limit: PAGE_SIZE,
                        },
                    ),
                ),
                (None, None) => out is None,
            },
    {
        if let Some(results) = &self.results {
            let start: usize = (page * PAGE_SIZE) as usize;
            if start >= results.len() {
                return None;
            }
            let left: usize = results.len() - start;
            let size: usize = PAGE_SIZE as usize;
            let end: usize = if size < left {
                start + size
            } else {
                results.len()
            };
            let mut ids: Vec<MessageId> = Vec::new();
            let mut i: usize = start;
            while i < end
                invariant
                    start <= i <= end <= results@.len(),
                    ids@ == results@.subrange(start as int, i as int),
                decreases end - i,
            {
                ids.push(results[i]);
                i += 1;
            }
            return Some(Fetch::Hits { page, ids });
        }
        match self.scope {
            Some(scope) => Some(
                Fetch::Scope(
                    PageRequest { scope, page, offset: page * PAGE_SIZE, limit: PAGE_SIZE },
                ),
            ),
            None => None,
        }
    }

    /// What the list does about `event`, by the table in the module's
    /// documentation.
    ///
    /// Everything it does not recognise is ignored: the event stream carries
    /// the whole application, and a list that reacted to all of it would
    /// repaint on every keystroke in the composer.
    pub fn plan<'a>(&self, event: &'a Event) -> (out: Plan<'a>)
        ensures
            match *event {
                Event::NewMail { account, mailbox, messages } => carries_out(
                    out,
                    self@.reaction(Arrival::NewMail, account, Some(mailbox)),
                    messages@,
                ),
                Event::MessagesChanged { account, messages } => carries_out(
                    out,
                    self@.reaction(Arrival::MessagesChanged, account, None),
                    messages@,
                ),
                Event::MessagesRemoved { account, mailbox, .. } => carries_out(
                    out,
                    self@.reaction(Arrival::MessagesRemoved, account, Some(mailbox)),
                    Seq::empty(),
                ),
                Event::MessageListChanged { account, mailbox } => carries_out(
                    out,
                    self@.reaction(Arrival::MessageListChanged, account, Some(mailbox)),
                    Seq::empty(),
                ),
                Event::Other => out is Ignore,
            },
    {
        match event {
            Event::NewMail { account, mailbox, messages } => match self.reaction(
                Arrival::NewMail,
                *account,
                Some(*mailbox),
            ) {
                Reaction::Ignore => Plan::Ignore,
                Reaction::InsertAtTop => Plan::InsertAtTop(messages.len() as u32),
                Reaction::Refetch => Plan::Refetch(messages.as_slice()),
                Reaction::Reload => Plan::Reload,
            },
            Event::MessagesChanged { account, messages } => match self.reaction(
                Arrival::MessagesChanged,
                *account,
                None,
            ) {
                Reaction::Ignore => Plan::Ignore,
                Reaction::InsertAtTop => Plan::InsertAtTop(messages.len() as u32),
                Reaction::Refetch => Plan::Refetch(messages.as_slice()),
                Reaction::Reload => Plan::Reload,
            },
            // Neither of these names a row to keep: rows left, or the list
            // is not the one it was.
            Event::MessagesRemoved { account, mailbox, .. } => match self.reaction(
                Arrival::MessagesRemoved,
                *account,
                Some(*mailbox),
            ) {
                Reaction::Reload => Plan::Reload,
                _ => Plan::Ignore,
            },
            Event::MessageListChanged { account, mailbox } => match self.reaction(
                Arrival::MessageListChanged,
                *account,
                Some(*mailbox),
            ) {
                Reaction::Reload => Plan::Reload,
                _ => Plan::Ignore,
            },
            Event::Other => Plan::Ignore,
        }
    }

    /// A read of `page` failed. Whether to ask for it again.
    ///
    /// `true` while the page is within [`FAILED_PAGE_ATTEMPTS`]: the caller
    /// abandons the page and asks once more, quietly. `false` once it is out
    /// of attempts, which is when the failure is worth saying.
    pub fn retry(&mut self, page: u32) -> (out: bool)
        requires
            old(self)@.attempts(page) < u8::MAX,
        ensures
            out == (old(self)@.attempts(page) < FAILED_PAGE_ATTEMPTS),
            final(self)@ == (PagingView {
                failed: old(self)@.failed.insert(page, (old(self)@.attempts(page) + 1) as u8),
                ..old(self)@
            }),
    {
        let before: u8 = match self.failed.get(&page) {
            Some(attempts) => *attempts,
            None => 0,
        };
        let attempts: u8 = before + 1;
        self.failed.insert(page, attempts);
        attempts <= FAILED_PAGE_ATTEMPTS
    }

    /// What the list does with one arrival, result set or scope alike.
    fn reaction(
        &self,
        arrival: Arrival,
        account: AccountId,
        mailbox: Option<MailboxId>,
    ) -> (out: Reaction)
        ensures
            out == self@.reaction(arrival, account, mailbox),
    {
        if self.results.is_some() {
            return match arrival {
                Arrival::MessagesChanged => Reaction::Refetch,
                _ => Reaction::Ignore,
            };
        }
        let inbox = match mailbox {
            Some(mailbox) => match self.inboxes.get(&mailbox.0) {
                Some(inbox) => Some(*inbox),
                None => None,
            },
            None => None,
        };
        match self.scope {
            Some(scope) => scope.reaction(arrival, account, mailbox, inbox),
            None => Reaction::Ignore,
        }
    }
}

// ---------------------------------------------------------------------------
// Laws
// ---------------------------------------------------------------------------

/// A result set only ever refetches: its membership is decided by the query.
pub proof fn lemma_results_only_refetch(
    paging: PagingView,
    arrival: Arrival,
    account: AccountId,
    mailbox: Option<MailboxId>,
)
    requires
        paging.results is Some,
    ensures
        paging.reaction(arrival, account, mailbox) == (if arrival is MessagesChanged {
            Reaction::Refetch
        } else {
            Reaction::Ignore
        }),
{
}

/// Rows leaving are never repainted over: no scope answers a removal or a
/// resync by refetching, nor by putting rows at the top.
pub proof fn lemma_leaving_rows_reload(
    scope: ListScope,
    arrival: Arrival,
    account: AccountId,
    mailbox: Option<MailboxId>,
    inbox: Option<bool>,
)
    requires
        arrival is MessagesRemoved || arrival is MessageListChanged,
    ensures
        scope_reaction(scope, arrival, account, mailbox, inbox) is Reload || scope_reaction(
            scope,
            arrival,
            account,
            mailbox,
            inbox,
        ) is Ignore,
{
}

/// The pages of a ranking are the ranking, in order: page after page, each
/// starts where the last one ended, and no id is left out.
pub proof fn lemma_pages_are_the_ranking(results: Seq<MessageId>, at: int)
    requires
        0 <= at < results.len(),
        results.len() <= u32::MAX,
    ensures
        ({
            let page = (at / PAGE_SIZE as int) as u32;
            page_of(results, page) matches Some(ids) && 0 <= at - page * PAGE_SIZE < ids.len()
                && ids[at - page * PAGE_SIZE] == results[at]
        }),
{
    let size = PAGE_SIZE as int;
    let page = at / size;
    assert(size > 0);
    assert(0 <= page * size <= at < page * size + size) by (nonlinear_arith)
        requires
            page == at / size,
            size > 0,
            at >= 0,
    ;
    assert(page <= at) by (nonlinear_arith)
        requires
            page == at / size,
            size > 0,
            at >= 0,
    ;
    assert(page * size == (page as u32) * PAGE_SIZE);
}

/// A failing page is asked for again a bounded number of times.
pub proof fn lemma_retries_are_bounded(before: PagingView, after: PagingView, page: u32)
    requires
        before.attempts(page) < u8::MAX,
        after == (PagingView {
            failed: before.failed.insert(page, (before.attempts(page) + 1) as u8),
            ..before
        }),
    ensures
        after.attempts(page) == before.attempts(page) + 1,
        forall|other: u32| other != page ==> #[trigger] after.attempts(other) == before.attempts(
            other,
        ),
{
}

/// Rows that changed in place are read again wherever a row stays where it is:
/// with a folder, an account or every inbox in view, or with results, a change
/// to some messages is always answered by reading exactly those messages again.
pub proof fn lemma_changed_rows_are_read_again(
    paging: PagingView,
    account: AccountId,
    messages: Seq<MessageId>,
    plan: Plan<'_>,
)
    requires
        carries_out(plan, paging.reaction(Arrival::MessagesChanged, account, None), messages),
        paging.results is Some || (paging.scope matches Some(scope) && (scope is Mailbox
            || scope is Account || scope is Unified)),
    ensures
        plan matches Plan::Refetch(ids) && ids@ == messages,
{
}

/// New mail goes on top of the folder it was delivered to and of the account it
/// was delivered to -- as many rows as there are messages -- and of no other
/// list.
pub proof fn lemma_new_mail_goes_on_top(
    paging: PagingView,
    account: AccountId,
    mailbox: MailboxId,
    messages: Seq<MessageId>,
    plan: Plan<'_>,
)
    requires
        carries_out(plan, paging.reaction(Arrival::NewMail, account, Some(mailbox)), messages),
        messages.len() <= u32::MAX,
    ensures
        plan matches Plan::InsertAtTop(count) ==> count == messages.len(),
        plan is InsertAtTop <==> paging.results is None && (paging.scope == Some(
            ListScope::Mailbox(mailbox),
        ) || paging.scope == Some(ListScope::Account(account))),
        !(plan is Refetch),
        plan is Reload <==> paging.results is None && paging.scope == Some(ListScope::Unified)
            && !(paging.inboxes.contains_key(mailbox.0) && !paging.inboxes[mailbox.0]),
{
}

/// Rows leaving a folder, or a folder synced anew, reload every list they could
/// have been in and no other: that folder's, its account's, the account's
/// flagged and snoozed messages, and every inbox unless the folder is known to
/// be none.
pub proof fn lemma_a_list_reloads_when_its_rows_could_move(
    paging: PagingView,
    arrival: Arrival,
    account: AccountId,
    mailbox: MailboxId,
    plan: Plan<'_>,
)
    requires
        arrival is MessagesRemoved || arrival is MessageListChanged,
        carries_out(plan, paging.reaction(arrival, account, Some(mailbox)), Seq::empty()),
    ensures
        plan is Reload || plan is Ignore,
        plan is Reload <==> paging.results is None && {
            ||| paging.scope == Some(ListScope::Mailbox(mailbox))
            ||| paging.scope == Some(ListScope::Account(account))
            ||| paging.scope == Some(ListScope::Flagged(account))
            ||| paging.scope == Some(ListScope::Snoozed(account))
            ||| paging.scope == Some(ListScope::Unified) && (paging.inboxes.contains_key(mailbox.0)
                ==> paging.inboxes[mailbox.0])
        },
{
}

/// Where being flagged or snoozed is what puts a row in the list, a change to a
/// message of that account reloads it, and one of another account does nothing.
pub proof fn lemma_membership_by_flag_reloads(
    paging: PagingView,
    account: AccountId,
    own: AccountId,
    messages: Seq<MessageId>,
    plan: Plan<'_>,
)
    requires
        paging.results is None,
        paging.scope == Some(ListScope::Flagged(own)) || paging.scope == Some(
            ListScope::Snoozed(own),
        ),
        carries_out(plan, paging.reaction(Arrival::MessagesChanged, account, None), messages),
    ensures
        plan is Reload <==> account == own,
        plan is Ignore <==> account != own,
{
}

/// Before anything is open nothing is done about anything.
pub proof fn lemma_nothing_open_ignores_everything(
    paging: PagingView,
    arrival: Arrival,
    account: AccountId,
    mailbox: Option<MailboxId>,
    messages: Seq<MessageId>,
    plan: Plan<'_>,
)
    requires
        paging.results is None,
        paging.scope is None,
        carries_out(plan, paging.reaction(arrival, account, mailbox), messages),
    ensures
        plan is Ignore,
{
}

/// A page of a ranking holds the ids from its first place on, fifty of them or
/// as many as are left; there is no page past the end, and none without an id.
pub proof fn lemma_a_page_of_a_ranking(results: Seq<MessageId>, page: u32)
    ensures
        page_of(results, page) is None <==> results.len() <= page * PAGE_SIZE,
        page_of(results, page) matches Some(ids) ==> {
            &&& 0 < ids.len() <= PAGE_SIZE
            &&& ids.len() == PAGE_SIZE || page * PAGE_SIZE + ids.len() == results.len()
            &&& forall|k: int| 0 <= k < ids.len() ==> #[trigger] ids[k] == results[page * PAGE_SIZE + k]
        },
{
}

/// What is known of a folder is the last thing that was said of it.
pub proof fn lemma_last_word_counts(folders: Seq<(MailboxId, bool)>, i: int)
    requires
        0 <= i < folders.len(),
        forall|j: int| i < j < folders.len() ==> (#[trigger] folders[j]).0 != folders[i].0,
    ensures
        folders_map(folders).contains_key(folders[i].0.0),
        folders_map(folders)[folders[i].0.0] == folders[i].1,
    decreases folders.len(),
{
    if i < folders.len() - 1 {
        let rest = folders.drop_last();
        assert forall|j: int| i < j < rest.len() implies (#[trigger] rest[j]).0 != rest[i].0 by {
            assert(folders[j].0 != folders[i].0);
        }
        lemma_last_word_counts(rest, i);
        assert(folders[folders.len() - 1].0 != folders[i].0);
    }
}

/// Nothing is known of a folder nobody spoke of.
pub proof fn lemma_unsaid_is_unknown(folders: Seq<(MailboxId, bool)>, mailbox: MailboxId)
    requires
        forall|j: int| 0 <= j < folders.len() ==> (#[trigger] folders[j]).0 != mailbox,
    ensures
        !folders_map(folders).contains_key(mailbox.0),
    decreases folders.len(),
{
    if folders.len() > 0 {
        let rest = folders.drop_last();
        assert forall|j: int| 0 <= j < rest.len() implies (#[trigger] rest[j]).0 != mailbox by {
            assert(folders[j].0 != mailbox);
        }
        lemma_unsaid_is_unknown(rest, mailbox);
        assert(folders[folders.len() - 1].0 != mailbox);
    }
}

} // verus!
