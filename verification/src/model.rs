//! The vocabulary the screens share: ids, addresses, accounts, contexts and
//! the other plain values a frontend hands in.
use vstd::prelude::*;
use crate::text::same_text;

verus! {

/// A message's database id.
#[derive(Debug, Clone, Copy, PartialEq, Eq, PartialOrd, Ord, Hash, Structural)]
pub struct MessageId(pub i64);

/// A conversation's database id.
#[derive(Debug, Clone, Copy, PartialEq, Eq, PartialOrd, Ord, Hash, Structural)]
pub struct ThreadId(pub i64);

/// Which surface has the keyboard.
#[derive(Debug, Clone, Copy, PartialEq, Eq, PartialOrd, Ord, Hash, Structural)]
pub enum Context {
    /// The message list.
    List,
    /// The conversation pane.
    Conversation,
    /// The reading pane.
    Reader,
    /// The composer.
    Composer,
    /// The search bar.
    Search,
    /// The command palette.
    Palette,
    /// The folder list.
    Sidebar,
    /// The parts panel.
    Parts,
    /// The account list in settings.
    Accounts,
    /// The keybinding list in settings.
    Keys,
}

/// One command of the registry with the bindings in force for it.
#[derive(Debug, Clone, PartialEq, Eq)]
pub struct BoundAction {
    /// The command's stable id.
    pub id: String,
    /// Whether it is reachable in every context.
    pub anywhere: bool,
    /// The contexts it is reachable in.
    pub contexts: Vec<Context>,
    /// The bindings in force, first one first.
    pub bindings: Vec<String>,
}

/// Whose mail is on show.
#[derive(Debug, Clone, Copy, PartialEq, Eq, Structural)]
pub enum Scope {
    /// Every account's, together.
    Unified,
    /// One account's own.
    Account(AccountId),
}

/// A command of the registry, and where it is of use.
#[derive(Debug, Clone, PartialEq, Eq)]
pub struct CommandSpec {
    /// Its stable id.
    pub id: String,
    /// Its title, as the registry gives it.
    pub title: String,
    /// Its binding in force, or `None` when it has none.
    pub binding: Option<String>,
    /// Whether it is reachable in every context.
    pub anywhere: bool,
    /// The contexts it is reachable in.
    pub contexts: Vec<Context>,
    /// Whether it acts within one account, and so needs one on show.
    pub needs_account: bool,
}

/// A label's database id.
#[derive(Debug, Clone, Copy, PartialEq, Eq, PartialOrd, Ord, Hash, Structural)]
pub struct LabelId(pub i64);

impl LabelId {
    /// The id `value`.
    pub fn new(value: i64) -> (out: Self)
        ensures
            out == LabelId(value),
    {
        LabelId(value)
    }
}

/// A label.
#[derive(Debug, Clone, PartialEq, Eq)]
pub struct Label {
    /// Its id.
    pub id: LabelId,
    /// Its name, which is also what travels as a keyword.
    pub name: String,
}

/// A mail address, with the name it was seen under.
#[derive(Debug, Clone, PartialEq, Eq)]
pub struct Address {
    /// The display name.
    pub name: Option<String>,
    /// The addr-spec.
    pub address: String,
}

/// A correspondent.
#[derive(Debug, Clone, PartialEq, Eq)]
pub struct Contact {
    /// The name the user set.
    pub name: Option<String>,
    /// The address, with the last name seen on it.
    pub address: Address,
    /// How many messages the address has been seen on.
    pub times_seen: u32,
}

/// A mailbox's database id.
#[derive(Debug, Clone, Copy, PartialEq, Eq, PartialOrd, Ord, Hash, Structural)]
pub struct MailboxId(pub i64);

impl MailboxId {
    /// The id `value`.
    pub fn new(value: i64) -> (out: Self)
        ensures
            out == MailboxId(value),
    {
        MailboxId(value)
    }

    /// The number behind the id.
    pub fn get(self) -> (out: i64)
        ensures
            out == self.0,
    {
        self.0
    }
}

/// What the configuration says about new mail.
#[derive(Debug, Clone, PartialEq, Eq)]
pub struct SyncConfig {
    /// Whether arrivals are notified at all.
    pub notify: bool,
    /// The roles of the folders whose arrivals are, by name.
    pub notify_roles: Vec<String>,
}

/// What one account's mail weighs.
#[derive(Debug, Clone, Copy, PartialEq, Eq, Structural)]
pub struct MailFootprint {
    /// Bytes already on this machine.
    pub local_bytes: u64,
    /// Bytes in all.
    pub total_bytes: u64,
    /// Bytes of the payloads that are not fetched.
    pub attachment_bytes: u64,
    /// Whether everything has been counted; every total is a lower bound
    /// until it has.
    pub complete: bool,
}

/// One connection opened.
#[derive(Debug, Clone, PartialEq, Eq)]
pub struct EgressEvent {
    /// What opened it, by name.
    pub subsystem: String,
    /// To where.
    pub host: String,
    /// On which port.
    pub port: u16,
}

/// How much room the message list gives a row.
#[derive(Debug, Clone, Copy, PartialEq, Eq, Structural)]
pub enum Density {
    /// The most.
    Airy,
    /// Less.
    Comfortable,
    /// The least.
    Compact,
}

/// What an account is served by.
#[derive(Debug, Clone, Copy, PartialEq, Eq, Structural)]
pub enum Backend {
    /// An IMAP server.
    Imap,
    /// A JMAP server.
    Jmap,
    /// Gmail's own interface.
    Gmail,
    /// A local mail store.
    Maildir,
}

/// How an account signs in.
#[derive(Debug, Clone, Copy, PartialEq, Eq, Structural)]
pub enum AuthMethod {
    /// A password.
    Password,
    /// A password made for this application.
    AppPassword,
    /// OAuth 2.
    OAuth2,
    /// OAuth 2 over SASL.
    XOAuth2,
}

/// One account, as far as its row needs it.
#[derive(Debug, Clone, PartialEq, Eq)]
pub struct Account {
    /// What serves it.
    pub backend: Backend,
    /// How it signs in.
    pub auth: AuthMethod,
    /// The id of the OAuth client it signed in through, if it carries one.
    pub client_id: Option<String>,
}

/// A moment: seconds since an epoch, and nanoseconds into the second.
#[derive(Debug, Clone, Copy, PartialEq, Eq, Structural)]
pub struct Moment {
    /// Seconds since the epoch.
    pub secs: i64,
    /// Nanoseconds into the second.
    pub nanos: u32,
}

/// A person in a conversation.
#[derive(Debug, Clone, PartialEq, Eq)]
pub struct Participant {
    /// What they are displayed as.
    pub display: String,
    /// The part of their address before the `@`, if it has one.
    pub local_part: Option<String>,
}

/// Where a person in the address book came from.
#[derive(Debug, Clone, Copy, PartialEq, Eq, Structural)]
pub enum ContactSource {
    /// Mail they were on.
    Mail,
    /// The user made them.
    User,
    /// They were imported.
    Import,
}

/// What recipient completion can offer.
#[derive(Debug, Clone, PartialEq, Eq)]
pub enum RecipientCandidate {
    /// One address, as it is written into the field.
    Contact(String),
    /// A group.
    Group {
        /// What it is called.
        name: String,
        /// Its members, as they are written into the field.
        members: Vec<String>,
    },
}

/// The command registry with the user's bindings resolved onto it.
#[derive(Debug, Clone, PartialEq, Eq)]
pub struct CommandKeymap {
    /// Every command, in registry order.
    pub actions: Vec<BoundAction>,
    /// What could not be honoured, as sentences.
    pub problems: Vec<String>,
}

/// What kind of row a message has in a list.
#[derive(Debug, Clone, Copy, PartialEq, Eq, Structural)]
pub enum RowKind {
    /// No row for it is held, so nothing can be said.
    Missing,
    /// A row for the message itself.
    Message,
    /// A row for the conversation it belongs to.
    Thread(ThreadId),
}

impl MessageId {
    /// The id `value`.
    pub fn new(value: i64) -> (out: Self)
        ensures
            out == MessageId(value),
    {
        MessageId(value)
    }

    /// The number behind the id.
    pub fn get(self) -> (out: i64)
        ensures
            out == self.0,
    {
        self.0
    }
}

impl ThreadId {
    /// The id `value`.
    pub fn new(value: i64) -> (out: Self)
        ensures
            out == ThreadId(value),
    {
        ThreadId(value)
    }
}

impl CommandKeymap {
    /// The bindings of the command `id`, first one first; none for a command
    /// the registry does not have.
    pub open spec fn bindings_of(self, id: Seq<char>) -> Seq<String> {
        bindings_from(self.actions@, id, 0)
    }

    /// The bindings of the command `id`, first one first.
    pub fn bindings(&self, id: &str) -> (out: Vec<&String>)
        ensures
            out@.len() == self.bindings_of(id@).len(),
            forall|i: int|
                0 <= i < out@.len() ==> (#[trigger] out@[i])@ == self.bindings_of(id@)[i]@,
    {
        let mut out: Vec<&String> = Vec::new();
        let mut i: usize = 0;
        while i < self.actions.len()
            invariant
                i <= self.actions@.len(),
                out@.len() == 0,
                self.bindings_of(id@) == bindings_from(self.actions@, id@, i as int),
            decreases self.actions@.len() - i,
        {
            let action = &self.actions[i];
            if same_text(action.id.as_str(), id) {
                let mut k: usize = 0;
                while k < action.bindings.len()
                    invariant
                        k <= action.bindings@.len(),
                        out@.len() == k,
                        forall|j: int|
                            0 <= j < k ==> (#[trigger] out@[j])@ == action.bindings@[j]@,
                    decreases action.bindings@.len() - k,
                {
                    out.push(&action.bindings[k]);
                    k += 1;
                }
                return out;
            }
            i += 1;
        }
        out
    }
}

/// The bindings of the first of `actions` from `from` on that is called `id`.
pub open spec fn bindings_from(actions: Seq<BoundAction>, id: Seq<char>, from: int) -> Seq<String>
    decreases actions.len() - from,
{
    if from < 0 || from >= actions.len() {
        Seq::empty()
    } else if actions[from].id@ == id {
        actions[from].bindings@
    } else {
        bindings_from(actions, id, from + 1)
    }
}

/// An attachment's database id.
#[derive(Debug, Clone, Copy, PartialEq, Eq, PartialOrd, Ord, Hash, Structural)]
pub struct AttachmentId(pub i64);

/// How a part asks to be presented.
#[derive(Debug, Clone, Copy, PartialEq, Eq, Structural)]
pub enum Disposition {
    /// Shown in place.
    Inline,
    /// Offered as a file.
    Attachment,
}

/// One part of a message, as the server described it.
#[derive(Debug, Clone, PartialEq, Eq)]
pub struct Attachment {
    /// Its database id.
    pub id: AttachmentId,
    /// Its part id, a path such as `2.1`.
    pub part_id: Option<String>,
    /// Its declared type.
    pub mime_type: String,
    /// The name the sender gave it.
    pub filename: Option<String>,
    /// Its declared size in bytes.
    pub size: u64,
    /// Whether its bytes are in the blob store.
    pub downloaded: bool,
    /// The `Content-ID` the body may reference it by.
    pub content_id: Option<String>,
    /// How it asks to be presented.
    pub disposition: Disposition,
}

/// The two forms a message's body may come in.
#[derive(Debug, Clone, PartialEq, Eq)]
pub struct MessageBody {
    /// The plain text.
    pub text: Option<String>,
    /// The HTML.
    pub html: Option<String>,
}

/// An account's database id.
#[derive(Debug, Clone, Copy, PartialEq, Eq, PartialOrd, Ord, Hash, Structural)]
pub struct AccountId(pub i64);

impl AccountId {
    /// The id `value`.
    pub fn new(value: i64) -> (out: Self)
        ensures
            out == AccountId(value),
    {
        AccountId(value)
    }
}

/// Where a connection is.
#[derive(Debug, Clone, Copy, PartialEq, Eq, Structural)]
pub enum ConnectionState {
    /// Connected.
    Online,
    /// Not connected.
    Offline,
    /// On the way to being connected.
    Connecting,
    /// The server cannot be reached, or refuses.
    Failing,
}

/// What is known of one account's sync.
#[derive(Debug, Clone, PartialEq, Eq)]
pub struct SyncStatus {
    /// Where the connection is.
    pub state: ConnectionState,
    /// What the server said, phrased for the user.
    pub detail: Option<String>,
    /// When the last sync completed, on the process's own clock.
    pub last_sync: Option<u64>,
}

/// Which messages a list shows.
#[derive(Debug, Clone, Copy, PartialEq, Eq, Structural)]
pub enum ListScope {
    /// One folder.
    Mailbox(MailboxId),
    /// Every folder of one account.
    Account(AccountId),
    /// The flagged messages of one account.
    Flagged(AccountId),
    /// The snoozed messages of one account.
    Snoozed(AccountId),
    /// The inboxes of every account.
    Unified,
}

/// What happened to the mail.
#[derive(Debug, Clone, Copy, PartialEq, Eq, Structural)]
pub enum Arrival {
    /// Messages were delivered to a folder.
    NewMail,
    /// Messages changed in place.
    MessagesChanged,
    /// Messages left a folder.
    MessagesRemoved,
    /// A folder was synced anew.
    MessageListChanged,
}

/// What a list does about it.
#[derive(Debug, Clone, Copy, PartialEq, Eq, Structural)]
pub enum Reaction {
    /// Nothing.
    Ignore,
    /// Puts the new rows at the top.
    InsertAtTop,
    /// Reads the resident pages holding the messages again.
    Refetch,
    /// Drops everything cached and asks again.
    Reload,
}

/// A command has the bindings of the first entry under its id, and none where
/// there is no such entry.
pub proof fn lemma_bindings_of(keymap: CommandKeymap, id: Seq<char>, i: int)
    ensures
        0 <= i < keymap.actions@.len() && keymap.actions@[i].id@ == id && (forall|j: int|
            0 <= j < i ==> (#[trigger] keymap.actions@[j]).id@ != id) ==> keymap.bindings_of(id)
            == keymap.actions@[i].bindings@,
        (forall|j: int|
            0 <= j < keymap.actions@.len() ==> (#[trigger] keymap.actions@[j]).id@ != id)
            ==> keymap.bindings_of(id).len() == 0,
{
    if 0 <= i < keymap.actions@.len() && keymap.actions@[i].id@ == id && (forall|j: int|
        0 <= j < i ==> (#[trigger] keymap.actions@[j]).id@ != id) {
        lemma_bindings_found(keymap.actions@, id, 0, i);
    }
    if forall|j: int| 0 <= j < keymap.actions@.len() ==> (#[trigger] keymap.actions@[j]).id@ != id {
        lemma_no_bindings(keymap.actions@, id, 0);
    }
}

proof fn lemma_bindings_found(actions: Seq<BoundAction>, id: Seq<char>, from: int, i: int)
    requires
        0 <= from <= i < actions.len(),
        actions[i].id@ == id,
        forall|j: int| 0 <= j < i ==> (#[trigger] actions[j]).id@ != id,
    ensures
        bindings_from(actions, id, from) == actions[i].bindings@,
    decreases i - from,
{
    if from < i {
        lemma_bindings_found(actions, id, from + 1, i);
    }
}

proof fn lemma_no_bindings(actions: Seq<BoundAction>, id: Seq<char>, from: int)
    requires
        0 <= from,
        forall|j: int| 0 <= j < actions.len() ==> (#[trigger] actions[j]).id@ != id,
    ensures
        bindings_from(actions, id, from).len() == 0,
    decreases actions.len() - from,
{
    if from < actions.len() {
        lemma_no_bindings(actions, id, from + 1);
    }
}

} // verus!
