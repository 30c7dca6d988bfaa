//! What connections promise their clients: which node answers, which requests
//! are turned away and how, and what a subscriber is told.

use bytes::Bytes;
use vstd::prelude::*;
use vstd::string::*;
use vstd::utf8::encode_utf8;

use crate::buf::content;
use crate::cluster::{law_owner_is_proportional, law_slots_are_partitioned, owner_spec, slot_spec};
use crate::commands::{meaning, CommandView};
use crate::decimal::{ascii_chars, dec_nat};
use crate::resp::{Reply, ReplyView};
use crate::server::{
    action_for, cluster_info_text, cluster_slots_spec, first_node_slots, next_action, node_slots,
    serves, ActionView, ClusterView, StepView,
};
use crate::store::StoreView;
use crate::subscriber::{
    message_reply, moved_all, next_channels, notices, subscriber_action, SubscriberActionView,
};

verus! {

/// Whether a command is answered by the connection itself, whatever node it is.
pub open spec fn is_for_the_connection(cmd: CommandView) -> bool {
    cmd is Subscribe || cmd is BgSave || cmd is Sync || cmd is ClusterInfo || cmd is ClusterSlots
}

/// A command whose keys do not all fall into one slot is refused by every node of
/// a cluster, whichever own the slots.
pub proof fn law_keys_have_to_share_a_slot(
    cmd: CommandView,
    cluster: ClusterView,
    read_only: bool,
    i: int,
    j: int,
)
    requires
        0 <= i < cmd.keys().len(),
        0 <= j < cmd.keys().len(),
        slot_spec(cmd.keys()[i]) != slot_spec(cmd.keys()[j]),
    ensures
        action_for(cmd, Some(cluster), read_only) == ActionView::Say(
            ReplyView::Error("CROSSSLOT Keys in request don't hash to the same slot"@),
        ),
{
    let keys = cmd.keys();
    assert(slot_spec(keys[i]) != slot_spec(keys[0]) || slot_spec(keys[j]) != slot_spec(keys[0]));
}

/// A command whose keys share a slot is turned away by every node that does not
/// own the slot, with the slot and the address of the node that does; that one
/// neither turns it away so nor complains about the slots.
pub proof fn law_other_nodes_redirect(
    cmd: CommandView,
    cluster: ClusterView,
    read_only: bool,
    slot: u16,
    owner: int,
)
    requires
        cmd.keys().len() > 0,
        forall|i: int| 0 <= i < cmd.keys().len() ==> slot_spec(#[trigger] cmd.keys()[i]) == slot,
        cluster.own_index < cluster.nodes.len(),
        0 <= owner < cluster.nodes.len(),
        owner * 16384 <= slot * cluster.nodes.len() < (owner + 1) * 16384,
    ensures
        owner != cluster.own_index ==> action_for(cmd, Some(cluster), read_only)
            == ActionView::Say(
            ReplyView::Error(
                "MOVED "@ + ascii_chars(dec_nat(slot as nat)) + " "@ + cluster.nodes[owner].0
                    + ":"@ + ascii_chars(dec_nat(cluster.nodes[owner].1 as nat)),
            ),
        ),
        owner == cluster.own_index ==> action_for(cmd, Some(cluster), read_only) == action_for(
            cmd,
            None,
            read_only,
        ),
{
    let keys = cmd.keys();
    let n = cluster.nodes.len() as int;
    assert(slot_spec(keys[0]) == slot);
    assert(forall|i: int|
        0 <= i < keys.len() ==> slot_spec(#[trigger] keys[i]) == slot_spec(keys[0]));
    law_owner_is_proportional(slot as int, n);
    let o = owner_spec(slot as int, n);
    assert(o == owner) by (nonlinear_arith)
        requires
            owner * 16384 <= slot * n < (owner + 1) * 16384,
            o * 16384 <= slot * n < (o + 1) * 16384,
    ;
}

/// A command that is neither for the connection itself nor turned away by a
/// cluster is executed; only a replica refuses it, if it is a write. It ends the
/// connection exactly if it is `QUIT`.
pub proof fn law_everything_else_is_executed(
    cmd: CommandView,
    cluster: Option<ClusterView>,
    read_only: bool,
)
    requires
        !is_for_the_connection(cmd),
        cluster is None || cmd.keys().len() == 0,
    ensures
        action_for(cmd, cluster, read_only) == if read_only && cmd.is_write() {
            ActionView::Say(
                ReplyView::Error("READONLY You can't write against a read only replica."@),
            )
        } else {
            ActionView::Execute { command: cmd, write: cmd.is_write(), close: cmd is Quit }
        },
{
}

/// A subscription hands the connection over with all its channels, a replica's
/// request hands it to a feed, and saving is announced.
pub proof fn law_connections_are_handed_over(
    cmd: CommandView,
    cluster: Option<ClusterView>,
    read_only: bool,
)
    ensures
        cmd matches CommandView::Subscribe(names) ==> action_for(cmd, cluster, read_only)
            == ActionView::Subscribe(names),
        cmd is Sync ==> action_for(cmd, cluster, read_only) == ActionView::Feed,
        cmd is BgSave ==> action_for(cmd, cluster, read_only) == ActionView::Save(
            ReplyView::Simple("Background saving started"@),
        ),
{
}

/// The keys of a command are those that it reads or writes, each of them, in the
/// order in which they are given.
pub proof fn law_every_key_is_routed(cmd: CommandView)
    ensures
        match cmd {
            CommandView::Del(keys) | CommandView::Exists(keys) | CommandView::MGet(keys) =>
                cmd.keys() == keys,
            CommandView::MSet(pairs) => cmd.keys().len() == pairs.len() && forall|i: int|
                0 <= i < pairs.len() ==> #[trigger] cmd.keys()[i] == pairs[i].0,
            CommandView::SetKey { key, .. }
            | CommandView::Get(key)
            | CommandView::Expire { key, .. }
            | CommandView::Persist(key)
            | CommandView::Ttl { key, .. }
            | CommandView::Incr(key)
            | CommandView::Decr(key)
            | CommandView::IncrBy(key, _)
            | CommandView::DecrBy(key, _)
            | CommandView::Append(key, _)
            | CommandView::Type(key)
            | CommandView::Push { key, .. }
            | CommandView::Pop { key, .. }
            | CommandView::LRange { key, .. }
            | CommandView::LLen(key)
            | CommandView::HSet(key, _)
            | CommandView::HGet(key, _)
            | CommandView::HDel(key, _)
            | CommandView::HGetAll(key)
            | CommandView::HExists(key, _)
            | CommandView::SAdd(key, _)
            | CommandView::SRem(key, _)
            | CommandView::SMembers(key)
            | CommandView::SIsMember(key, _)
            | CommandView::ZAdd(key, _)
            | CommandView::ZRange { key, .. }
            | CommandView::ZScore(key, _)
            | CommandView::ZRem(key, _) => cmd.keys().len() == 1 && cmd.keys()[0] == key,
            _ => cmd.keys().len() == 0,
        },
{
}

/// A replica answers everything that only reads, and a primary logs nothing of
/// it: the commands that may change the keyspace are these, and no others.
pub proof fn law_writes_are_told_from_reads(cmd: CommandView)
    ensures
        cmd.is_write() <==> {
            ||| cmd is SetKey
            ||| cmd is Del
            ||| cmd is Expire
            ||| cmd is Persist
            ||| cmd is Incr
            ||| cmd is Decr
            ||| cmd is IncrBy
            ||| cmd is DecrBy
            ||| cmd is Append
            ||| cmd is MSet
            ||| cmd is FlushAll
            ||| cmd is Push
            ||| cmd is Pop
            ||| cmd is HSet
            ||| cmd is HDel
            ||| cmd is SAdd
            ||| cmd is SRem
            ||| cmd is ZAdd
            ||| cmd is ZRem
        },
{
}

/// An empty request is passed over, and one that is not understood is answered
/// with the complaint about it.
pub proof fn law_what_is_no_command(
    args: Seq<Seq<u8>>,
    cluster: Option<ClusterView>,
    read_only: bool,
    now: u64,
)
    ensures
        args.len() == 0 ==> next_action(args, cluster, read_only, now) == ActionView::Wait,
        args.len() > 0 ==> match meaning(args, now) {
            Err(text) => next_action(args, cluster, read_only, now) == ActionView::Say(
                ReplyView::Error(text),
            ),
            Ok(cmd) => next_action(args, cluster, read_only, now) == action_for(
                cmd,
                cluster,
                read_only,
            ),
        },
{
}

/// What a node turns away changes nothing and gives the log and the replicas
/// nothing; the reply is the one that turns it away.
pub proof fn law_refused_requests_change_nothing(
    before: StoreView,
    channels: Set<Seq<u8>>,
    args: Seq<Seq<u8>>,
    cluster: Option<ClusterView>,
    read_only: bool,
    now: u64,
    step: StepView,
    after: StoreView,
    reply: ReplyView,
)
    requires
        serves(before, channels, args, cluster, read_only, now, step, after),
        next_action(args, cluster, read_only, now) == ActionView::Say(reply),
    ensures
        after == before,
        step.line() is None,
        step.reply() == Some(reply),
{
}

/// `CLUSTER SLOTS` without a cluster lists nothing. In a cluster every slot lies
/// in a range that is listed with the address of its owner, and every range that
/// is listed holds slots of its owner alone.
pub proof fn law_slots_are_listed(cluster: ClusterView, slot: int, i: int)
    requires
        0 <= slot < 16384,
        0 <= i < cluster.nodes.len(),
        i * 16384 <= slot * cluster.nodes.len() < (i + 1) * 16384,
    ensures
        cluster_slots_spec(None) == ReplyView::Array(Seq::empty()),
        cluster_slots_spec(Some(cluster)) matches ReplyView::Array(items) && exists|
            j: int,
            a: int,
            b: int,
        |
            0 <= j < items.len() && a <= slot <= b && #[trigger] items[j] == #[trigger] listed(
                a,
                b,
                cluster.nodes[i],
            ),
{
    let n = cluster.nodes.len() as int;
    law_owner_is_proportional(slot, n);
    let o = owner_spec(slot, n);
    assert(o == i) by (nonlinear_arith)
        requires
            i * 16384 <= slot * n < (i + 1) * 16384,
            o * 16384 <= slot * n < (o + 1) * 16384,
    ;
    law_slots_are_partitioned(slot, i, n);
    crate::cluster::lemma_first_slot_bounds(i, n);
    crate::cluster::lemma_first_slot_bounds(i + 1, n);
    let a = crate::cluster::first_slot(i, n);
    let b = crate::cluster::first_slot(i + 1, n) - 1;
    let own = node_slots(cluster.nodes, i);
    assert(own.len() == 1);
    assert(own[0]->Array_0 =~= listed(a, b, cluster.nodes[i])->Array_0) by {
        assert(own[0]->Array_0[2]->Array_0 =~= listed(
            a,
            b,
            cluster.nodes[i],
        )->Array_0[2]->Array_0);
    }
    let j = lemma_listed(cluster.nodes, cluster.nodes.len(), i);
    let items = cluster_slots_spec(Some(cluster))->Array_0;
    assert(items[j] == own[0]);
    assert(items[j] == listed(a, b, cluster.nodes[i]));
}

/// A range of slots with the address of a node, as `CLUSTER SLOTS` says it.
pub open spec fn listed(a: int, b: int, node: (Seq<char>, u16)) -> ReplyView {
    ReplyView::Array(
        seq![
            ReplyView::Integer(a),
            ReplyView::Integer(b),
            ReplyView::Array(
                seq![ReplyView::Bulk(encode_utf8(node.0)), ReplyView::Integer(node.1 as int)],
            ),
        ],
    )
}

proof fn lemma_listed(nodes: Seq<(Seq<char>, u16)>, n: nat, i: int) -> (j: int)
    requires
        0 <= i < n <= nodes.len(),
        node_slots(nodes, i).len() == 1,
    ensures
        0 <= j < first_node_slots(nodes, n).len(),
        first_node_slots(nodes, n)[j] == node_slots(nodes, i)[0],
    decreases n,
{
    let front = first_node_slots(nodes, (n - 1) as nat);
    if i == n - 1 {
        front.len() as int
    } else {
        lemma_listed(nodes, (n - 1) as nat, i)
    }
}

/// What a subscriber is told of a channel that it has joined or left.
pub open spec fn told(joined: bool, channel: Seq<u8>, count: int) -> ReplyView {
    ReplyView::Array(
        seq![
            ReplyView::Bulk(
                encode_utf8(
                    if joined {
                        "subscribe"@
                    } else {
                        "unsubscribe"@
                    },
                ),
            ),
            ReplyView::Bulk(channel),
            ReplyView::Integer(count),
        ],
    )
}

proof fn lemma_moves(channels: Seq<Seq<u8>>, names: Seq<Seq<u8>>, join: bool)
    requires
        channels.no_duplicates(),
    ensures
        moved_all(channels, names, join).no_duplicates(),
        moved_all(channels, names, join).to_set() == if join {
            channels.to_set().union(names.to_set())
        } else {
            channels.to_set().difference(names.to_set())
        },
        moved_all(channels, names, join).len() == moved_all(channels, names, join).to_set().len(),
    decreases names.len(),
{
    if names.len() == 0 {
        assert(channels.to_set().union(names.to_set()) =~= channels.to_set());
        assert(channels.to_set().difference(names.to_set()) =~= channels.to_set());
    } else {
        let front = names.drop_last();
        let last = names.last();
        lemma_moves(channels, front, join);
        let mid = moved_all(channels, front, join);
        crate::subscriber::law_channels_are_a_set(mid, last, join);
        assert(front.push(last) =~= names);
        front.lemma_push_to_set_commute(last);
        if join {
            assert(mid.to_set().insert(last) =~= channels.to_set().union(names.to_set()));
        } else {
            assert(mid.to_set().remove(last) =~= channels.to_set().difference(names.to_set()));
        }
    }
    moved_all(channels, names, join).unique_seq_to_set();
}

/// A subscriber that asks for more channels has those that it had and these, and
/// is told of each in turn, with how many different ones it has by then.
pub proof fn law_subscriber_joins(
    channels: Seq<Seq<u8>>,
    args: Seq<Seq<u8>>,
    names: Seq<Seq<u8>>,
    now: u64,
)
    requires
        channels.no_duplicates(),
        channels.len() + names.len() <= i64::MAX,
        args.len() > 0,
        meaning(args, now) == Ok::<CommandView, Seq<char>>(CommandView::Subscribe(names)),
    ensures
        next_channels(channels, args, now).no_duplicates(),
        next_channels(channels, args, now).to_set() == channels.to_set().union(names.to_set()),
        subscriber_action(channels, args, now) matches SubscriberActionView::Join(steps)
            && steps.len() == names.len() && forall|i: int|
            0 <= i < names.len() ==> #[trigger] steps[i] == (
                names[i],
                told(
                    true,
                    names[i],
                    channels.to_set().union(names.take(i + 1).to_set()).len() as int,
                ),
            ),
{
    lemma_moves(channels, names, true);
    assert forall|i: int| 0 <= i < names.len() implies #[trigger] notices(
        channels,
        names,
        true,
    )[i] == (
        names[i],
        told(true, names[i], channels.to_set().union(names.take(i + 1).to_set()).len() as int),
    ) by {
        let part = names.take(i + 1);
        lemma_moves(channels, part, true);
        channels.unique_seq_to_set();
        vstd::seq_lib::seq_to_set_is_finite(part);
        lemma_few(channels, part);
        assert(notices(channels, names, true)[i].1->Array_0 =~= told(
            true,
            names[i],
            channels.to_set().union(part.to_set()).len() as int,
        )->Array_0);
    }
}

proof fn lemma_few(channels: Seq<Seq<u8>>, part: Seq<Seq<u8>>)
    ensures
        channels.to_set().union(part.to_set()).len() <= channels.len() + part.len(),
        channels.to_set().difference(part.to_set()).len() <= channels.len(),
{
    let all = channels + part;
    assert(all.to_set() =~= channels.to_set().union(part.to_set())) by {
        assert forall|k: Seq<u8>| all.to_set().contains(k) <==> channels.to_set().union(
            part.to_set(),
        ).contains(k) by {
            if channels.contains(k) {
                assert(all[channels.index_of(k)] == k);
            }
            if part.contains(k) {
                assert(all[channels.len() + part.index_of(k)] == k);
            }
            if all.contains(k) {
                let i = all.index_of(k);
                if i < channels.len() {
                    assert(channels[i] == k);
                } else {
                    assert(part[i - channels.len()] == k);
                }
            }
        }
    }
    all.lemma_cardinality_of_set();
    channels.lemma_cardinality_of_set();
    vstd::seq_lib::seq_to_set_is_finite(channels);
    vstd::set_lib::lemma_len_subset(
        channels.to_set().difference(part.to_set()),
        channels.to_set(),
    );
}

/// A subscriber that leaves channels has those that it had but these, and is told
/// of each in turn, with how many it has left; with none left the subscription
/// ends. Without names it leaves all.
pub proof fn law_subscriber_leaves(
    channels: Seq<Seq<u8>>,
    args: Seq<Seq<u8>>,
    names: Seq<Seq<u8>>,
    now: u64,
)
    requires
        channels.no_duplicates(),
        channels.len() <= i64::MAX,
        args.len() > 0,
        meaning(args, now) == Ok::<CommandView, Seq<char>>(CommandView::Unsubscribe(names)),
    ensures
        ({
            let going = if names.len() == 0 {
                channels
            } else {
                names
            };
            let left = channels.to_set().difference(going.to_set());
            &&& next_channels(channels, args, now).no_duplicates()
            &&& next_channels(channels, args, now).to_set() == left
            &&& subscriber_action(channels, args, now) matches SubscriberActionView::Leave {
                steps,
                done,
            }
            &&& done <==> left.len() == 0
            &&& steps.len() == going.len()
            &&& forall|i: int|
                0 <= i < going.len() ==> #[trigger] steps[i] == (
                    going[i],
                    told(
                        false,
                        going[i],
                        channels.to_set().difference(going.take(i + 1).to_set()).len() as int,
                    ),
                )
        }),
{
    let going = if names.len() == 0 {
        channels
    } else {
        names
    };
    lemma_moves(channels, going, false);
    assert forall|i: int| 0 <= i < going.len() implies #[trigger] notices(
        channels,
        going,
        false,
    )[i] == (
        going[i],
        told(
            false,
            going[i],
            channels.to_set().difference(going.take(i + 1).to_set()).len() as int,
        ),
    ) by {
        let part = going.take(i + 1);
        lemma_moves(channels, part, false);
        lemma_few(channels, part);
        assert(notices(channels, going, false)[i].1->Array_0 =~= told(
            false,
            going[i],
            channels.to_set().difference(part.to_set()).len() as int,
        )->Array_0);
    }
}

/// A subscriber may ping; every other request changes nothing and is refused.
pub proof fn law_subscribers_do_nothing_else(
    channels: Seq<Seq<u8>>,
    args: Seq<Seq<u8>>,
    now: u64,
)
    ensures
        args.len() == 0 ==> subscriber_action(channels, args, now) == SubscriberActionView::Wait
            && next_channels(channels, args, now) == channels,
        args.len() > 0 ==> match meaning(args, now) {
            Err(text) => subscriber_action(channels, args, now) == SubscriberActionView::Say(
                ReplyView::Error(text),
            ) && next_channels(channels, args, now) == channels,
            Ok(CommandView::Ping(None)) => subscriber_action(channels, args, now)
                == SubscriberActionView::Say(ReplyView::Simple("PONG"@)) && next_channels(
                channels,
                args,
                now,
            ) == channels,
            Ok(CommandView::Ping(Some(text))) => subscriber_action(channels, args, now)
                == SubscriberActionView::Say(ReplyView::Bulk(text)) && next_channels(
                channels,
                args,
                now,
            ) == channels,
            Ok(cmd) => cmd is Subscribe || cmd is Unsubscribe || (subscriber_action(
                channels,
                args,
                now,
            ) == SubscriberActionView::Say(
                ReplyView::Error(
                    "ERR only (P)SUBSCRIBE / (P)UNSUBSCRIBE / PING are allowed in this context"@,
                ),
            ) && next_channels(channels, args, now) == channels),
        },
{
}

/// A subscriber gets every message whole, with the channel that it came by.
pub proof fn law_messages_come_whole(channel: Bytes, payload: Bytes, reply: Reply)
    requires
        call_ensures(message_reply, (channel, payload), reply),
    ensures
        reply@ matches ReplyView::Array(items) && items.len() == 3 && items[0] == ReplyView::Bulk(
            encode_utf8("message"@),
        ) && items[1] == ReplyView::Bulk(content(channel)) && items[2] == ReplyView::Bulk(
            content(payload),
        ),
{
}

/// `CLUSTER INFO` says whether there is a cluster, that all slots are assigned in
/// one, and of how many nodes it is.
pub proof fn law_cluster_info(cluster: ClusterView)
    ensures
        cluster_info_text(Some(cluster)) == encode_utf8("cluster_enabled:"@) + dec_nat(1)
            + encode_utf8("\r\ncluster_state:ok\r\ncluster_slots_assigned:"@) + dec_nat(16384)
            + encode_utf8("\r\ncluster_known_nodes:"@) + dec_nat(cluster.nodes.len()) + seq![
            0x0du8,
            0x0au8,
        ],
        cluster_info_text(None) == encode_utf8("cluster_enabled:"@) + dec_nat(0) + encode_utf8(
            "\r\ncluster_state:ok\r\ncluster_slots_assigned:"@,
        ) + dec_nat(0) + encode_utf8("\r\ncluster_known_nodes:"@) + dec_nat(1) + seq![
            0x0du8,
            0x0au8,
        ],
        action_for(CommandView::ClusterInfo, Some(cluster), false) == ActionView::Say(
            ReplyView::Bulk(cluster_info_text(Some(cluster))),
        ),
        action_for(CommandView::ClusterSlots, Some(cluster), false) == ActionView::Say(
            cluster_slots_spec(Some(cluster)),
        ),
{
}

} // verus!
