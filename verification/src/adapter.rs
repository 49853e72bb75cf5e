//! The log on a shared store of entries and typed links.
//!
//! The store itself is out of reach of this library: whoever holds it makes
//! the calls. This module decides which calls to make. Committing an item is
//! a short conversation with the store, which `Authoring` leads; finding the
//! peer's newest item is a search of the peer's own log.
use vstd::prelude::*;
use hdk::prelude::{hash_entry, AppEntryBytes, Entry, SerializedBytes, UnsafeBytes};
use crate::address::{texts, Address};
use crate::dag::{EdgeKind, Predecessor, PredecessorView, StoredEdge};
use crate::error::StoreError;
use crate::graph::Node;

verus! {

/// The name under which the store keeps the items of the log.
pub const DAG_ITEM_ENTRY: &'static str = "dag_entry_item";

/// An item of the log as the store keeps it.
#[derive(Debug)]
pub struct DagItem {
    prev_authored: Address,
    prev_foreign: Address,
    pub content: String,
    table: String,
}

/// An item of the log, with each of its parts as a text.
pub struct DagItemView {
    pub prev_authored: Node,
    pub prev_foreign: Node,
    pub content: Seq<char>,
    pub table: Seq<char>,
}

impl View for DagItem {
    type V = DagItemView;

    closed spec fn view(&self) -> DagItemView {
        DagItemView {
            prev_authored: self.prev_authored@,
            prev_foreign: self.prev_foreign@,
            content: self.content@,
            table: self.table@,
        }
    }
}

impl DagItem {
    /// The item with this content and these predecessors in a stream.
    pub fn new(table: &str, content: &str, prev_authored: Address, prev_foreign: Address) -> (item:
        DagItem)
        ensures
            item@ == (DagItemView {
                prev_authored: prev_authored@,
                prev_foreign: prev_foreign@,
                content: content@,
                table: table@,
            }),
    {
        DagItem { prev_authored, prev_foreign, content: content.to_owned(), table: table.to_owned() }
    }

    /// The item that its author appended before this one, or the author's
    /// root.
    pub fn prev_authored(&self) -> (address: &Address)
        ensures
            address@ == self@.prev_authored,
    {
        &self.prev_authored
    }

    /// The newest item that the author had seen, or the stream's root.
    pub fn prev_foreign(&self) -> (address: &Address)
        ensures
            address@ == self@.prev_foreign,
    {
        &self.prev_foreign
    }

    /// The stream that the item belongs to.
    pub fn table(&self) -> (table: &str)
        ensures
            table@ == self@.table,
    {
        self.table.as_str()
    }

    /// The content of the item.
    pub fn content(&self) -> (content: &str)
        ensures
            content@ == self@.content,
    {
        self.content.as_str()
    }
}

impl EdgeKind {
    /// The name of the kind in the store.
    pub fn link_type(&self) -> (name: &'static str)
        ensures
            name@ == link_type_of(*self),
    {
        match self {
            EdgeKind::Next => "dag/next",
            EdgeKind::AuthorRoot => "dag/author_root",
            EdgeKind::ForeignRoot => "dag/foreign_root",
        }
    }
}

/// The name of a kind of edge in the store.
pub open spec fn link_type_of(kind: EdgeKind) -> Seq<char> {
    match kind {
        EdgeKind::Next => "dag/next"@,
        EdgeKind::AuthorRoot => "dag/author_root"@,
        EdgeKind::ForeignRoot => "dag/foreign_root"@,
    }
}

/// The address that the store gives to an app entry that holds `bytes`: the
/// hash of the entry, written as the store writes hashes.
pub uninterp spec fn app_entry_hash(bytes: Seq<u8>) -> Seq<char>;

/// Calls `hdk::prelude::hash_entry` on an app entry that holds `bytes`, and
/// writes the hash with its `Display`. The hash is computed from the entry
/// alone, here and on every peer, so the text is a function of the bytes. The
/// entry is hashed in a form that writes its length in 32 bits, which is why
/// longer entries are left out. The function as it stands returns no error.
#[verifier::external_body]
fn hash_app_entry(bytes: &Vec<u8>) -> (text: String)
    requires
        bytes.len() <= 0xFFFF_FFFF,
    ensures
        text@ == app_entry_hash(bytes@),
{
    let body = SerializedBytes::from(UnsafeBytes::from(bytes.clone()));
    match hash_entry(Entry::App(AppEntryBytes(body))) {
        Ok(hash) => hash.to_string(),
        Err(_) => String::new(),
    }
}

/// The address under which the store keeps an app entry that holds `bytes`.
pub fn entry_address(bytes: &Vec<u8>) -> (address: Address)
    requires
        bytes.len() <= 0xFFFF_FFFF,
    ensures
        address@ == app_entry_hash(bytes@),
{
    let text = hash_app_entry(bytes);
    Address::new(text.as_str())
}

/// A call that the store is to take.
#[derive(Debug)]
pub enum StoreCall {
    /// Put an app entry that holds these bytes.
    Commit(Vec<u8>),
    /// Create an edge of a kind, tagged with the stream.
    Link { from: Address, to: Address, kind: EdgeKind, table: String },
}

/// Where the commit of an item stands: the call that the store has been
/// handed and has not answered yet.
#[derive(Debug, Clone, Copy, PartialEq, Eq, Structural)]
pub enum Stage {
    /// The item itself.
    Committing,
    /// The edge from the authored predecessor.
    LinkingAuthored,
    /// The edge from the foreign predecessor.
    LinkingForeign,
}

/// The commit of one item, under way.
#[derive(Debug)]
pub struct Authoring {
    table: String,
    prev_authored: Predecessor,
    prev_foreign: Predecessor,
    stage: Stage,
    address: Address,
}

/// The commit of one item, with each of its parts as a text.
pub struct AuthoringView {
    pub table: Seq<char>,
    pub prev_authored: PredecessorView,
    pub prev_foreign: PredecessorView,
    pub stage: Stage,
    pub address: Node,
}

impl View for Authoring {
    type V = AuthoringView;

    closed spec fn view(&self) -> AuthoringView {
        AuthoringView {
            table: self.table@,
            prev_authored: self.prev_authored@,
            prev_foreign: self.prev_foreign@,
            stage: self.stage,
            address: self.address@,
        }
    }
}

/// How the commit of an item goes on after the store has answered.
#[derive(Debug)]
pub enum Progress {
    /// The store is to take another call.
    Call(Authoring, StoreCall),
    /// The item is committed and linked, under this address.
    Done(Address),
    /// The store failed, and the commit with it.
    Failed(StoreError),
}

/// The stage that follows when the store has done what it was asked, unless
/// the commit is complete then.
pub open spec fn stage_after_success(stage: Stage) -> Option<Stage> {
    match stage {
        Stage::Committing => Some(Stage::LinkingAuthored),
        Stage::LinkingAuthored => Some(Stage::LinkingForeign),
        Stage::LinkingForeign => None,
    }
}

/// The edge that a commit asks for at a linking stage: from the predecessor
/// of that stage to the item, tagged with the stream. Its kind goes by what
/// the predecessor is: an edge between items from an item, an author-root edge
/// from the root that the item was authored after, a foreign-root edge from
/// the root that stands for what the author had in sight.
pub open spec fn link_of(stage: Stage, commit: AuthoringView) -> StoredEdge {
    if stage == Stage::LinkingForeign {
        StoredEdge {
            from: commit.prev_foreign.address(),
            to: commit.address,
            kind: commit.prev_foreign.foreign_kind(),
        }
    } else {
        StoredEdge {
            from: commit.prev_authored.address(),
            to: commit.address,
            kind: commit.prev_authored.authored_kind(),
        }
    }
}

/// Whether `call` asks for the edge of a linking stage of a commit.
pub open spec fn is_link_of(call: StoreCall, stage: Stage, commit: AuthoringView) -> bool {
    match call {
        StoreCall::Commit(_) => false,
        StoreCall::Link { from, to, kind, table } => {
            &&& stage != Stage::Committing
            &&& table@ == commit.table
            &&& (StoredEdge { from: from@, to: to@, kind }) == link_of(stage, commit)
        },
    }
}

impl Authoring {
    /// Begins the commit of an item whose entry holds `entry`: the store is to
    /// put the entry first. The item's address is the hash of that entry.
    pub fn begin(
        table: &str,
        entry: Vec<u8>,
        prev_authored: Predecessor,
        prev_foreign: Predecessor,
    ) -> (first: (Authoring, StoreCall))
        requires
            entry.len() <= 0xFFFF_FFFF,
        ensures
            first.0@ == (AuthoringView {
                table: table@,
                prev_authored: prev_authored@,
                prev_foreign: prev_foreign@,
                stage: Stage::Committing,
                address: app_entry_hash(entry@),
            }),
            first.1 == StoreCall::Commit(entry),
    {
        let address = entry_address(&entry);
        let commit = Authoring {
            table: table.to_owned(),
            prev_authored,
            prev_foreign,
            stage: Stage::Committing,
            address,
        };
        (commit, StoreCall::Commit(entry))
    }

    /// The address of the item.
    pub fn address(&self) -> (address: &Address)
        ensures
            address@ == self@.address,
    {
        &self.address
    }

    /// Goes on to a linking stage, with the call of that stage.
    fn proceed(self, stage: Stage) -> (progress: Progress)
        requires
            stage != Stage::Committing,
        ensures
            progress matches Progress::Call(commit, call) && commit@ == (AuthoringView {
                stage,
                ..self@
            }) && is_link_of(call, stage, commit@),
    {
        let (from, kind) = match stage {
            Stage::LinkingForeign => (
                self.prev_foreign.address().clone(),
                self.prev_foreign.foreign_kind(),
            ),
            _ => (self.prev_authored.address().clone(), self.prev_authored.authored_kind()),
        };
        let call = StoreCall::Link { from, to: self.address.clone(), kind, table: self.table.clone() };
        let commit = Authoring {
            table: self.table,
            prev_authored: self.prev_authored,
            prev_foreign: self.prev_foreign,
            stage,
            address: self.address,
        };
        Progress::Call(commit, call)
    }

    /// Takes the store's answer to the last call and says how the commit goes
    /// on. After the entry come the edge from the authored predecessor and
    /// then the edge from the foreign one, each once and of the kind that its
    /// predecessor calls for. A failure of the store ends the commit with that
    /// failure, whatever was asked; the second edge done ends it with the
    /// item's address.
    pub fn advance(self, reply: Result<(), StoreError>) -> (progress: Progress)
        ensures
            match reply {
                Ok(_) => match stage_after_success(self@.stage) {
                    Some(stage) => {
                        &&& progress matches Progress::Call(commit, call)
                        &&& commit@ == (AuthoringView { stage, ..self@ })
                        &&& is_link_of(call, stage, commit@)
                    },
                    None => progress matches Progress::Done(address) && address@ == self@.address,
                },
                Err(failure) => progress == Progress::Failed(failure),
            },
    {
        let stage = self.stage;
        match reply {
            Ok(_) => match stage {
                Stage::Committing => self.proceed(Stage::LinkingAuthored),
                Stage::LinkingAuthored => self.proceed(Stage::LinkingForeign),
                Stage::LinkingForeign => Progress::Done(self.address),
            },
            Err(failure) => Progress::Failed(failure),
        }
    }
}

/// How a commit stands after some answers of the store.
pub enum Standing {
    /// The store has been handed a call and has not answered it.
    Waiting,
    /// The commit is complete.
    Complete,
    /// The commit has failed.
    Broken,
}

/// What a commit has had from the store: the edges that the store made, in
/// the order in which it made them, and how the commit stands.
pub struct Tally {
    pub made: Seq<StoredEdge>,
    pub standing: Standing,
}

/// The course of a commit from the stage at which it stands, while the store
/// answers its calls in turn, `true` for done and `false` for failed. Answers
/// that come after the end of the commit count for nothing.
pub open spec fn course(commit: AuthoringView, answers: Seq<bool>) -> Tally
    decreases answers.len(),
{
    if answers.len() == 0 {
        Tally { made: Seq::empty(), standing: Standing::Waiting }
    } else if !answers[0] {
        Tally { made: Seq::empty(), standing: Standing::Broken }
    } else {
        let made = if commit.stage == Stage::Committing {
            Seq::<StoredEdge>::empty()
        } else {
            seq![link_of(commit.stage, commit)]
        };
        match stage_after_success(commit.stage) {
            Some(next) => {
                let rest = course(AuthoringView { stage: next, ..commit }, answers.skip(1));
                Tally { made: made + rest.made, standing: rest.standing }
            },
            None => Tally { made, standing: Standing::Complete },
        }
    }
}

/// A commit that completes has had exactly two edges made: the one from the
/// authored predecessor and then the one from the foreign predecessor, each
/// of the kind that its predecessor calls for. A commit that fails or is
/// under way has had a beginning of these two made, and no edge else.
pub proof fn lemma_one_edge_from_each(commit: AuthoringView, answers: Seq<bool>)
    requires
        commit.stage == Stage::Committing,
    ensures
        ({
            let both = seq![
                link_of(Stage::LinkingAuthored, commit),
                link_of(Stage::LinkingForeign, commit),
            ];
            let tally = course(commit, answers);
            &&& tally.standing is Complete ==> tally.made == both
            &&& tally.made.len() <= 2
            &&& tally.made == both.subrange(0, tally.made.len() as int)
        }),
{
    let both = seq![
        link_of(Stage::LinkingAuthored, commit),
        link_of(Stage::LinkingForeign, commit),
    ];
    let linking = AuthoringView { stage: Stage::LinkingAuthored, ..commit };
    let closing = AuthoringView { stage: Stage::LinkingForeign, ..commit };
    let tally = course(commit, answers);
    reveal_with_fuel(course, 4);
    if answers.len() > 0 && answers[0] {
        let second = answers.skip(1);
        assert(tally.made =~= course(linking, second).made);
        if second.len() > 0 && second[0] {
            let third = second.skip(1);
            assert(link_of(Stage::LinkingAuthored, linking) == both[0]);
            assert(link_of(Stage::LinkingForeign, closing) == both[1]);
            if third.len() > 0 && third[0] {
                assert(course(closing, third).made =~= seq![both[1]]);
                assert(tally.made =~= both);
            } else {
                assert(course(closing, third).made =~= Seq::<StoredEdge>::empty());
                assert(tally.made =~= seq![both[0]]);
            }
        } else {
            assert(tally.made =~= Seq::<StoredEdge>::empty());
        }
    } else {
        assert(tally.made =~= Seq::<StoredEdge>::empty());
    }
    assert(tally.made =~= both.subrange(0, tally.made.len() as int));
}

/// An entry of the peer's own log: its address and, where the entry is an
/// item of the log, the item.
#[derive(Debug)]
pub struct LogEntry {
    pub address: Address,
    pub item: Option<DagItem>,
}

/// Whether an entry of the peer's log is an item of a stream.
pub open spec fn is_in_stream(entry: LogEntry, table: Seq<char>) -> bool {
    entry.item matches Some(item) && item@.table == table
}

/// The address of the item that the peer appended last to a stream: the last
/// entry of its own log, which is in the order of appending, that is an item
/// of that stream.
pub fn most_recent_in_stream(log: &Vec<LogEntry>, table: &str) -> (found: Option<Address>)
    ensures
        match found {
            Some(address) => exists|i: int|
                0 <= i < log.len() && is_in_stream(#[trigger] log[i], table@) && log[i].address@
                    == address@ && forall|j: int|
                    i < j < log.len() ==> !is_in_stream(#[trigger] log[j], table@),
            None => forall|i: int| 0 <= i < log.len() ==> !is_in_stream(#[trigger] log[i], table@),
        },
{
    let wanted = table.to_owned();
    let mut left: usize = log.len();
    while left > 0
        invariant
            left <= log.len(),
            wanted@ == table@,
            forall|j: int| left <= j < log.len() ==> !is_in_stream(#[trigger] log[j], table@),
        decreases left,
    {
        left = left - 1;
        let entry = &log[left];
        match &entry.item {
            Some(item) => {
                if item.table == wanted {
                    assert(is_in_stream(log[left as int], table@));
                    return Some(entry.address.clone());
                }
            },
            None => {},
        }
    }
    None
}

/// The far end of an edge, with the tag that the edge carries.
#[derive(Debug)]
pub struct TaggedLink {
    pub tag: String,
    pub target: Address,
}

/// The targets of the links that carry exactly the tag `table`, in the order
/// of the links.
pub open spec fn targets_tagged(links: Seq<TaggedLink>, table: Seq<char>) -> Seq<Node>
    decreases links.len(),
{
    if links.len() == 0 {
        Seq::empty()
    } else {
        let earlier = targets_tagged(links.drop_last(), table);
        if links.last().tag@ == table {
            earlier.push(links.last().target@)
        } else {
            earlier
        }
    }
}

/// The successors of a node in a stream, from the edges that leave the node:
/// the store finds edges by the beginning of their tag, and the stream has
/// those whose whole tag is its name.
pub fn links_tagged(links: &Vec<TaggedLink>, table: &str) -> (next: Vec<Address>)
    ensures
        texts(next@) == targets_tagged(links@, table@),
{
    let wanted = table.to_owned();
    let mut next: Vec<Address> = Vec::new();
    let mut i: usize = 0;
    while i < links.len()
        invariant
            i <= links.len(),
            wanted@ == table@,
            texts(next@) == targets_tagged(links@.subrange(0, i as int), table@),
        decreases links.len() - i,
    {
        assert(links@.subrange(0, i + 1).drop_last() == links@.subrange(0, i as int));
        if links[i].tag == wanted {
            let ghost listed = texts(next@);
            next.push(links[i].target.clone());
            assert(texts(next@) =~= listed.push(links[i as int].target@));
        }
        i = i + 1;
    }
    assert(links@.subrange(0, i as int) == links@);
    next
}

} // verus!
