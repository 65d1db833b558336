use vstd::prelude::*;

use crate::record::{key_of, DigestEntry, GossipItem, GossipKey};
use crate::table::{
    fold_merged, held, is_digest_of, offered, pulled_seq, wanted_seq, GossipTable,
};

verus! {

/// A gossip message; each carries its sender and the sender's compatibility tag.
#[derive(Debug)]
pub enum Message {
    /// Unsolicited items.
    Push { sender: u64, shred_version: u16, items: Vec<GossipItem> },
    /// The sender's digest, asking for what it is missing.
    PullRequest { sender: u64, shred_version: u16, digest: Vec<DigestEntry> },
    /// The responder's digest and the items the requester lacks.
    PullResponse { sender: u64, shred_version: u16, digest: Vec<DigestEntry>, items: Vec<GossipItem> },
    /// Keys the sender still wants after a pull response.
    KeyRequest { sender: u64, shred_version: u16, keys: Vec<GossipKey> },
}

pub open spec fn message_tag(m: Message) -> u16 {
    match m {
        Message::Push { shred_version, .. } => shred_version,
        Message::PullRequest { shred_version, .. } => shred_version,
        Message::PullResponse { shred_version, .. } => shred_version,
        Message::KeyRequest { shred_version, .. } => shred_version,
    }
}

/// Handles one inbound message against `table` and returns the reply to send
/// back, if any. Messages of another partition are dropped unread.
///
/// A pull request is answered with the local digest and every local item
/// strictly newer than what the request's digest claims; a pull response's
/// items are merged and the keys still wanted are asked for; a key request is
/// answered by pushing the items held for those keys. Items that arrive are
/// merged as `GossipTable::merge_all` merges them.
pub fn handle_message(table: &mut GossipTable, msg: &Message) -> (r: Option<Message>)
    requires
        old(table).wf(),
    ensures
        final(table).wf(),
        final(table).spec_capacity() == old(table).spec_capacity(),
        final(table).spec_self_id() == old(table).spec_self_id(),
        final(table).spec_shred_version() == old(table).spec_shred_version(),
        message_tag(*msg) != old(table).spec_shred_version() ==> r is None && *final(table) == *old(
            table,
        ),
        message_tag(*msg) == old(table).spec_shred_version() ==> match *msg {
            Message::Push { items, .. } => r is None && (old(table).spec_len() + items@.len()
                <= old(table).spec_capacity() ==> forall|k: GossipKey|
                #[trigger] held(final(table)@, k) == fold_merged(
                    held(old(table)@, k),
                    items@,
                    k,
                    old(table).spec_shred_version(),
                )),
            Message::PullRequest { digest, .. } => *final(table) == *old(table) && match r {
                Some(Message::PullResponse { sender, shred_version, digest: d, items }) => {
                    &&& sender == old(table).spec_self_id()
                    &&& shred_version == old(table).spec_shred_version()
                    &&& is_digest_of(old(table)@, old(table).spec_len(), d@)
                    &&& forall|j: int|
                        0 <= j < items@.len() ==> held(old(table)@, key_of(#[trigger] items@[j]))
                            == Some(items@[j]) && offered(digest@, items@[j])
                    &&& forall|k: GossipKey|
                        #[trigger] old(table)@.contains_key(k) && offered(digest@, old(table)@[k].item)
                            ==> exists|j: int| 0 <= j < items@.len() && items@[j] == old(table)@[k].item
                },
                _ => false,
            },
            Message::PullResponse { digest, items, .. } => (old(table).spec_len() + items@.len()
                <= old(table).spec_capacity() ==> forall|k: GossipKey|
                #[trigger] held(final(table)@, k) == fold_merged(
                    held(old(table)@, k),
                    items@,
                    k,
                    old(table).spec_shred_version(),
                )) && match r {
                None => wanted_seq(final(table)@, digest@).len() == 0,
                Some(Message::KeyRequest { sender, shred_version, keys }) => {
                    &&& sender == old(table).spec_self_id()
                    &&& shred_version == old(table).spec_shred_version()
                    &&& keys@ == wanted_seq(final(table)@, digest@)
                    &&& keys@.len() > 0
                },
                _ => false,
            },
            Message::KeyRequest { keys, .. } => *final(table) == *old(table) && match r {
                Some(Message::Push { sender, shred_version, items }) => {
                    &&& sender == old(table).spec_self_id()
                    &&& shred_version == old(table).spec_shred_version()
                    &&& items@ == pulled_seq(old(table)@, keys@)
                },
                _ => false,
            },
        },
{
    let tag = table.shred_version();
    let me = table.self_id();
    match msg {
        Message::Push { shred_version, items, .. } => {
            if *shred_version != tag {
                return None;
            }
            table.merge_all(items);
            None
        },
        Message::PullRequest { shred_version, digest, .. } => {
            if *shred_version != tag {
                return None;
            }
            let (_wanted, items) = table.diff_against(digest);
            let d = table.digest();
            Some(Message::PullResponse { sender: me, shred_version: tag, digest: d, items })
        },
        Message::PullResponse { shred_version, digest, items, .. } => {
            if *shred_version != tag {
                return None;
            }
            table.merge_all(items);
            let keys = table.wanted_keys(digest);
            if keys.len() == 0 {
                None
            } else {
                Some(Message::KeyRequest { sender: me, shred_version: tag, keys })
            }
        },
        Message::KeyRequest { shred_version, keys, .. } => {
            if *shred_version != tag {
                return None;
            }
            let items = table.respond_to_pull(keys);
            Some(Message::Push { sender: me, shred_version: tag, items })
        },
    }
}

/// The push this node sends to its targets: every item written after tick `since`.
pub fn push_message(table: &GossipTable, since: u64) -> (r: Message)
    requires
        table.wf(),
    ensures
        match r {
            Message::Push { sender, shred_version, items } => {
                &&& sender == table.spec_self_id()
                &&& shred_version == table.spec_shred_version()
                &&& forall|j: int|
                    0 <= j < items@.len() ==> table@.contains_key(key_of(#[trigger] items@[j]))
                        && table@[key_of(items@[j])].item == items@[j]
                        && table@[key_of(items@[j])].updated > since
                &&& forall|k: GossipKey|
                    #[trigger] table@.contains_key(k) && table@[k].updated > since ==> exists|j: int|
                        0 <= j < items@.len() && items@[j] == table@[k].item
            },
            _ => false,
        },
{
    let items = table.updated_since(since);
    Message::Push { sender: table.self_id(), shred_version: table.shred_version(), items }
}

/// The pull request this node sends to start a round with a peer.
pub fn pull_request(table: &GossipTable) -> (r: Message)
    requires
        table.wf(),
    ensures
        match r {
            Message::PullRequest { sender, shred_version, digest } => {
                &&& sender == table.spec_self_id()
                &&& shred_version == table.spec_shred_version()
                &&& is_digest_of(table@, table.spec_len(), digest@)
            },
            _ => false,
        },
{
    let digest = table.digest();
    Message::PullRequest { sender: table.self_id(), shred_version: table.shred_version(), digest }
}

} // verus!
