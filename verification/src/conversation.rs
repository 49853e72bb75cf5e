//! What a conversation decides about its members, its listing and the word
//! it sends round.
use vstd::prelude::*;
use crate::address::Address;
use crate::message::Message;

verus! {

/// The kind of link from a conversation to each of its members.
pub const PUBLIC_STREAM_LINK_TYPE_TO: &'static str = "has_member";

/// The signal that tells of a new message in a conversation.
pub const CHANNEL_MESSAGE_SIGNAL_TYPE: &'static str = "new_convo_message";

/// The signal that tells of a new member of a conversation.
pub const JOIN_CHANNEL_SIGNAL_TYPE: &'static str = "join_convo_message";

/// An entry that was found over a link, with its address.
#[derive(Debug)]
pub struct GetLinksLoadResult<T> {
    pub entry: T,
    pub address: Address,
}

/// The values that are there, in their order.
pub open spec fn present<T>(found: Seq<Option<T>>) -> Seq<T>
    decreases found.len(),
{
    if found.len() == 0 {
        Seq::empty()
    } else {
        let earlier = present(found.drop_last());
        match found.last() {
            Some(value) => earlier.push(value),
            None => earlier,
        }
    }
}

/// `items`, first to last becoming last to first.
fn turned<T>(items: Vec<T>) -> (backwards: Vec<T>)
    ensures
        backwards@ == items@.reverse(),
{
    let mut items = items;
    let ghost all = items@;
    let mut backwards: Vec<T> = Vec::new();
    loop
        invariant
            items.len() <= all.len(),
            items@ == all.subrange(0, items.len() as int),
            backwards.len() == all.len() - items.len(),
            forall|j: int| 0 <= j < backwards.len() ==> backwards[j] == all[all.len() - 1 - j],
        ensures
            items.len() == 0,
        decreases items.len(),
    {
        match items.pop() {
            Some(item) => {
                backwards.push(item);
            },
            None => {
                break ;
            },
        }
    }
    assert(backwards@ =~= all.reverse());
    backwards
}

/// Keeps of the entries behind a set of links those that could be loaded and
/// read as the type asked for, in their order; the others are dropped.
pub fn get_links_and_load_type<R>(loaded: Vec<Option<GetLinksLoadResult<R>>>) -> (kept: Vec<
    GetLinksLoadResult<R>,
>)
    ensures
        kept@ == present(loaded@),
{
    let ghost all = loaded@;
    let mut rest = turned(loaded);
    let mut kept: Vec<GetLinksLoadResult<R>> = Vec::new();
    let ghost mut taken: int = 0;
    loop
        invariant
            0 <= taken <= all.len(),
            rest.len() == all.len() - taken,
            rest@ == all.reverse().subrange(0, rest.len() as int),
            kept@ == present(all.subrange(0, taken)),
        ensures
            rest.len() == 0,
        decreases rest.len(),
    {
        match rest.pop() {
            Some(next) => {
                proof {
                    assert(next == all[taken]);
                    assert(all.subrange(0, taken + 1).drop_last() == all.subrange(0, taken));
                    assert(all.subrange(0, taken + 1).last() == all[taken]);
                    taken = taken + 1;
                }
                match next {
                    Some(found) => {
                        kept.push(found);
                    },
                    None => {},
                }
            },
            None => {
                break ;
            },
        }
    }
    assert(all.subrange(0, taken) == all);
    kept
}

/// Whether an address is that of one of the `count` first results.
pub open spec fn listed_before<T>(
    results: Seq<GetLinksLoadResult<T>>,
    count: int,
    address: Seq<char>,
) -> bool {
    exists|j: int| 0 <= j < count && j < results.len() && (#[trigger] results[j]).address@ == address
}

/// The results without those whose address came before, in their order.
pub open spec fn first_of_each<T>(results: Seq<GetLinksLoadResult<T>>) -> Seq<GetLinksLoadResult<T>>
    decreases results.len(),
{
    if results.len() == 0 {
        Seq::empty()
    } else {
        let earlier = first_of_each(results.drop_last());
        if listed_before(results, results.len() - 1, results.last().address@) {
            earlier
        } else {
            earlier.push(results.last())
        }
    }
}

/// Whether an address is that of one of the results.
fn is_listed<T>(results: &Vec<GetLinksLoadResult<T>>, address: &Address) -> (listed: bool)
    ensures
        listed == listed_before(results@, results.len() as int, address@),
{
    let mut i: usize = 0;
    while i < results.len()
        invariant
            i <= results.len(),
            !listed_before(results@, i as int, address@),
        decreases results.len() - i,
    {
        if results[i].address.same_as(address) {
            return true;
        }
        i = i + 1;
    }
    false
}

/// What `first_of_each` keeps has the addresses of what it was given.
proof fn lemma_first_of_each_lists<T>(results: Seq<GetLinksLoadResult<T>>, address: Seq<char>)
    ensures
        listed_before(first_of_each(results), first_of_each(results).len() as int, address)
            <==> listed_before(results, results.len() as int, address),
    decreases results.len(),
{
    let kept = first_of_each(results);
    if results.len() > 0 {
        let front = results.drop_last();
        let earlier = first_of_each(front);
        lemma_first_of_each_lists(front, address);
        lemma_first_of_each_lists(front, results.last().address@);
        if listed_before(kept, kept.len() as int, address) {
            let j = choose|j: int|
                0 <= j < kept.len() && j < kept.len() && (#[trigger] kept[j]).address@ == address;
            if j < earlier.len() {
                assert(earlier[j].address@ == address);
                let k = choose|k: int|
                    0 <= k < front.len() && k < front.len() && (#[trigger] front[k]).address@
                        == address;
                assert(results[k].address@ == address);
            } else {
                assert(results[results.len() - 1].address@ == address);
            }
        }
        if listed_before(results, results.len() as int, address) {
            let k = choose|k: int|
                0 <= k < results.len() && k < results.len() && (#[trigger] results[k]).address@
                    == address;
            if k < front.len() {
                assert(front[k].address@ == address);
                let j = choose|j: int|
                    0 <= j < earlier.len() && j < earlier.len() && (#[trigger] earlier[j]).address@
                        == address;
                assert(kept[j].address@ == address);
            } else if listed_before(results, results.len() - 1, results.last().address@) {
                let m = choose|m: int|
                    0 <= m < results.len() - 1 && m < results.len() && (
                    #[trigger] results[m]).address@ == results.last().address@;
                assert(front[m].address@ == address);
                let j = choose|j: int|
                    0 <= j < earlier.len() && j < earlier.len() && (#[trigger] earlier[j]).address@
                        == address;
                assert(kept[j].address@ == address);
            } else {
                assert(kept[kept.len() - 1].address@ == address);
            }
        }
    }
}

/// Drops from a listing every result whose address came before in it, so
/// that each address is listed once, where it came first.
pub fn unique_by_address<T>(results: Vec<GetLinksLoadResult<T>>) -> (unique: Vec<
    GetLinksLoadResult<T>,
>)
    ensures
        unique@ == first_of_each(results@),
{
    let ghost all = results@;
    let mut rest = turned(results);
    let mut unique: Vec<GetLinksLoadResult<T>> = Vec::new();
    let ghost mut taken: int = 0;
    loop
        invariant
            0 <= taken <= all.len(),
            rest.len() == all.len() - taken,
            rest@ == all.reverse().subrange(0, rest.len() as int),
            unique@ == first_of_each(all.subrange(0, taken)),
        ensures
            rest.len() == 0,
        decreases rest.len(),
    {
        match rest.pop() {
            Some(next) => {
                let ghost seen = all.subrange(0, taken);
                let ghost grown = all.subrange(0, taken + 1);
                proof {
                    assert(next == all[taken]);
                    assert(grown.drop_last() == seen);
                    assert(grown.last() == all[taken]);
                    lemma_first_of_each_lists(seen, next.address@);
                    if listed_before(grown, grown.len() - 1, next.address@) {
                        let j = choose|j: int|
                            0 <= j < grown.len() - 1 && j < grown.len() && (
                            #[trigger] grown[j]).address@ == next.address@;
                        assert(seen[j].address@ == next.address@);
                    }
                    if listed_before(seen, seen.len() as int, next.address@) {
                        let j = choose|j: int|
                            0 <= j < seen.len() && j < seen.len() && (#[trigger] seen[j]).address@
                                == next.address@;
                        assert(grown[j].address@ == next.address@);
                    }
                    taken = taken + 1;
                }
                if !is_listed(&unique, &next.address) {
                    unique.push(next);
                }
            },
            None => {
                break ;
            },
        }
    }
    assert(all.subrange(0, taken) == all);
    unique
}

/// No address is listed twice in what `first_of_each` keeps.
pub proof fn lemma_first_of_each_is_unique<T>(results: Seq<GetLinksLoadResult<T>>)
    ensures
        forall|i: int, j: int|
            0 <= i < j < first_of_each(results).len() ==> (#[trigger] first_of_each(
                results,
            )[i]).address@ != (#[trigger] first_of_each(results)[j]).address@,
    decreases results.len(),
{
    let kept = first_of_each(results);
    if results.len() > 0 {
        let front = results.drop_last();
        let earlier = first_of_each(front);
        lemma_first_of_each_is_unique(front);
        lemma_first_of_each_lists(front, results.last().address@);
        assert forall|i: int, j: int| 0 <= i < j < kept.len() implies (#[trigger] kept[i]).address@ != (
        #[trigger] kept[j]).address@ by {
            if j < earlier.len() {
                assert(kept[i] == earlier[i] && kept[j] == earlier[j]);
            } else if kept[i].address@ == kept[j].address@ {
                assert(earlier[i].address@ == results.last().address@);
                assert(listed_before(earlier, earlier.len() as int, results.last().address@));
                let k = choose|k: int|
                    0 <= k < front.len() && k < front.len() && (#[trigger] front[k]).address@
                        == results.last().address@;
                assert(results[k].address@ == results.last().address@);
            }
        }
    }
}

/// Whether a link record adds a link or takes one back.
#[derive(Debug, Clone, Copy, PartialEq, Eq, Structural)]
pub enum LinkActionKind {
    ADD,
    REMOVE,
}

/// A link as a peer's chain records it.
#[derive(Debug)]
pub struct LinkData {
    pub action_kind: LinkActionKind,
    pub base: Address,
    pub target: Address,
}

/// An entry of a peer's chain, as far as membership looks at it.
#[derive(Debug)]
pub enum ChainEntry {
    /// The record of a link.
    LinkAdd(LinkData),
    /// Anything else.
    Other,
}

/// Whether an entry records that a link was added from `base` to `target`.
pub open spec fn is_link_between(entry: ChainEntry, base: Seq<char>, target: Seq<char>) -> bool {
    entry matches ChainEntry::LinkAdd(link) && link.action_kind == LinkActionKind::ADD
        && link.base@ == base && link.target@ == target
}

/// Whether an entry records that a link was added from `base` to `target`.
pub fn entry_is_link_between(entry: &ChainEntry, base: &Address, target: &Address) -> (found: bool)
    ensures
        found == is_link_between(*entry, base@, target@),
{
    match entry {
        ChainEntry::LinkAdd(link) => {
            match link.action_kind {
                LinkActionKind::ADD => link.base.same_as(base) && link.target.same_as(target),
                LinkActionKind::REMOVE => false,
            }
        },
        ChainEntry::Other => false,
    }
}

/// Whether an agent is a member of a conversation: it is if its own chain
/// records a link from the conversation to the agent.
pub fn agent_is_member_of_channel(
    chain: &Vec<ChainEntry>,
    agent_addr: &Address,
    conversation_address: &Address,
) -> (member: bool)
    ensures
        member == exists|i: int|
            0 <= i < chain.len() && is_link_between(
                #[trigger] chain[i],
                conversation_address@,
                agent_addr@,
            ),
{
    let mut i: usize = 0;
    while i < chain.len()
        invariant
            i <= chain.len(),
            forall|j: int|
                0 <= j < i ==> !is_link_between(
                    #[trigger] chain[j],
                    conversation_address@,
                    agent_addr@,
                ),
        decreases chain.len() - i,
    {
        if entry_is_link_between(&chain[i], conversation_address, agent_addr) {
            return true;
        }
        i = i + 1;
    }
    false
}

/// How word reaches one member of a conversation.
#[derive(Debug, PartialEq, Eq)]
pub enum Delivery {
    /// The member is this peer: its own interface is signalled.
    Signal,
    /// The member is another peer: the word is sent to it.
    Send(Address),
}

/// Whether a delivery is the one that is due to `member` when the peer
/// itself is `me`.
pub open spec fn is_due(delivery: Delivery, member: Seq<char>, me: Seq<char>) -> bool {
    match delivery {
        Delivery::Signal => member == me,
        Delivery::Send(to) => member != me && to@ == member,
    }
}

/// Plans how word goes round a conversation: one delivery for each member, in
/// the order of the members; the peer signals itself and sends to the others.
pub fn notify_conversation(members: &Vec<Address>, me: &Address) -> (plan: Vec<Delivery>)
    ensures
        plan.len() == members.len(),
        forall|i: int| 0 <= i < plan.len() ==> is_due(#[trigger] plan[i], members[i]@, me@),
{
    let mut plan: Vec<Delivery> = Vec::new();
    let mut i: usize = 0;
    while i < members.len()
        invariant
            i <= members.len(),
            plan.len() == i,
            forall|j: int| 0 <= j < i ==> is_due(#[trigger] plan[j], members[j]@, me@),
        decreases members.len() - i,
    {
        if members[i].same_as(me) {
            plan.push(Delivery::Signal);
        } else {
            plan.push(Delivery::Send(members[i].clone()));
        }
        i = i + 1;
    }
    plan
}

/// What tells of a new message in a conversation.
#[derive(Debug, PartialEq)]
pub struct NotificationSignalPayload {
    pub conversation_address: Address,
    pub message_address: Address,
    pub message: Message,
}

/// What tells of a new member of a conversation.
#[derive(Debug, PartialEq)]
pub struct JoinChannelSignalPayload {
    pub conversation_address: Address,
    pub agent_address: Address,
}

/// The word that peers send each other.
#[derive(Debug, PartialEq)]
pub enum DirectMessage {
    ChannelMessageNotification(NotificationSignalPayload),
    JoinChannelNotification(JoinChannelSignalPayload),
}

/// The signal under which a peer's interface hears of a direct message.
pub open spec fn signal_type_of(message: DirectMessage) -> Seq<char> {
    match message {
        DirectMessage::ChannelMessageNotification(_) => CHANNEL_MESSAGE_SIGNAL_TYPE@,
        DirectMessage::JoinChannelNotification(_) => JOIN_CHANNEL_SIGNAL_TYPE@,
    }
}

/// The signal under which a peer's interface hears of a direct message.
pub fn signal_ui(message: &DirectMessage) -> (signal: &'static str)
    ensures
        signal@ == signal_type_of(*message),
{
    match message {
        DirectMessage::ChannelMessageNotification(_) => CHANNEL_MESSAGE_SIGNAL_TYPE,
        DirectMessage::JoinChannelNotification(_) => JOIN_CHANNEL_SIGNAL_TYPE,
    }
}

/// The word that goes round when a message was posted to a conversation.
pub fn notify_conversation_message(
    conversation_address: Address,
    message: Message,
    message_address: Address,
) -> (word: DirectMessage)
    ensures
        word == DirectMessage::ChannelMessageNotification(
            NotificationSignalPayload { conversation_address, message_address, message },
        ),
{
    DirectMessage::ChannelMessageNotification(
        NotificationSignalPayload { conversation_address, message, message_address },
    )
}

/// The word that goes round when an agent joined a conversation.
pub fn notify_conversation_join(conversation_address: Address, agent_address: Address) -> (word:
    DirectMessage)
    ensures
        word == DirectMessage::JoinChannelNotification(
            JoinChannelSignalPayload { conversation_address, agent_address },
        ),
{
    DirectMessage::JoinChannelNotification(
        JoinChannelSignalPayload { conversation_address, agent_address },
    )
}

/// The address from which messages are read: the one that the reader gives,
/// or that of the conversation, which is the root of its stream.
pub fn messages_since(conversation_address: &Address, since: Option<Address>) -> (start: Address)
    ensures
        start@ == match since {
            Some(given) => given@,
            None => conversation_address@,
        },
{
    match since {
        Some(given) => given,
        None => conversation_address.clone(),
    }
}

} // verus!
