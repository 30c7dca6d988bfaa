//! What a connection does with what comes in: which requests are executed,
//! which are turned away, and which take the connection over.

use bytes::Bytes;
use vstd::prelude::*;
use vstd::string::*;
use vstd::utf8::encode_utf8;

use crate::buf::{content, contents, from_vec};
use crate::cluster::{
    lemma_owner_in_range, owner_spec, ranges_of, slot_for, slot_spec, ClusterConfig, SLOT_COUNT,
};
use crate::commands::{meaning, parse_at, Command, CommandView};
use crate::decimal::{append_nat, ascii_chars, dec_nat, push_nat};
use crate::execute::{announces, execute_at, outcome};
use crate::persistence::aof::{stamp, stamped};
use crate::pubsub::PubSub;
use crate::resp::{crlf, push_slice, Reply, ReplyView, RespError};
use crate::shard::now_ms;
use crate::store::{Store, StoreView};

verus! {

/// What a connection does next.
pub enum Action {
    /// Nothing: wait for the next request.
    Wait,
    /// Send a reply.
    Say(Reply),
    /// Hand the connection to the subscriber of these channels.
    Subscribe(Vec<Bytes>),
    /// Start a snapshot in the background, and send the reply.
    Save(Reply),
    /// Hand the connection to the feed of a replica.
    Feed,
    /// Execute a command and send the reply. Where it is a write, the request
    /// goes to the log and to the replicas; where it ends the connection, close
    /// it.
    Execute { command: Command, write: bool, close: bool },
}

/// What an [`Action`] holds.
#[verifier::ext_equal]
pub enum ActionView {
    Wait,
    Say(ReplyView),
    Subscribe(Seq<Seq<u8>>),
    Save(ReplyView),
    Feed,
    Execute { command: CommandView, write: bool, close: bool },
}

impl Action {
    /// What the action holds.
    pub open spec fn view(&self) -> ActionView {
        match *self {
            Action::Wait => ActionView::Wait,
            Action::Say(reply) => ActionView::Say(reply@),
            Action::Subscribe(channels) => ActionView::Subscribe(contents(channels@)),
            Action::Save(reply) => ActionView::Save(reply@),
            Action::Feed => ActionView::Feed,
            Action::Execute { command, write, close } => ActionView::Execute {
                command: command@,
                write,
                close,
            },
        }
    }
}

/// What a node knows of its cluster.
#[verifier::ext_equal]
pub struct ClusterView {
    pub nodes: Seq<(Seq<char>, u16)>,
    pub own_index: usize,
}

/// What a configuration says, if there is one.
pub open spec fn cluster_view(cluster: Option<ClusterConfig>) -> Option<ClusterView> {
    match cluster {
        Some(config) => Some(
            ClusterView {
                nodes: config.node_list().map_values(|node: (String, u16)| (node.0@, node.1)),
                own_index: config.own_index(),
            },
        ),
        None => None,
    }
}

/// The redirection of a client to the owner of `slot`.
pub open spec fn moved_text(slot: u16, node: (Seq<char>, u16)) -> Seq<char> {
    "MOVED "@ + ascii_chars(dec_nat(slot as nat)) + " "@ + node.0 + ":"@ + ascii_chars(
        dec_nat(node.1 as nat),
    )
}

/// Whether all keys fall into the slot of the first.
pub open spec fn same_slot(keys: Seq<Seq<u8>>) -> bool {
    forall|i: int| 0 <= i < keys.len() ==> slot_spec(#[trigger] keys[i]) == slot_spec(keys[0])
}

/// Why a node of a cluster does not execute a command on these keys, if it does
/// not: they do not share a slot, or their slot belongs to another node.
pub open spec fn refusal(keys: Seq<Seq<u8>>, cluster: Option<ClusterView>) -> Option<Seq<char>> {
    match cluster {
        Some(c) => if keys.len() == 0 {
            None
        } else if !same_slot(keys) {
            Some("CROSSSLOT Keys in request don't hash to the same slot"@)
        } else {
            let slot = slot_spec(keys[0]);
            let owner = owner_spec(slot as int, c.nodes.len() as int);
            if owner == c.own_index {
                None
            } else {
                Some(moved_text(slot, c.nodes[owner]))
            }
        },
        None => None,
    }
}

/// What `CLUSTER INFO` says.
pub open spec fn cluster_info_text(cluster: Option<ClusterView>) -> Seq<u8> {
    encode_utf8("cluster_enabled:"@) + dec_nat(
        if cluster is Some {
            1
        } else {
            0
        },
    ) + encode_utf8("\r\ncluster_state:ok\r\ncluster_slots_assigned:"@) + dec_nat(
        if cluster is Some {
            SLOT_COUNT as nat
        } else {
            0
        },
    ) + encode_utf8("\r\ncluster_known_nodes:"@) + dec_nat(
        match cluster {
            Some(c) => c.nodes.len(),
            None => 1,
        },
    ) + crlf()
}

/// What `CLUSTER SLOTS` says of node `i`: its slots, from the first to the last,
/// and its address. A node without slots is not mentioned.
pub open spec fn node_slots(nodes: Seq<(Seq<char>, u16)>, i: int) -> Seq<ReplyView> {
    ranges_of(i, nodes.len() as int).map_values(
        |range: (u16, u16)|
            ReplyView::Array(
                seq![
                    ReplyView::Integer(range.0 as int),
                    ReplyView::Integer(range.1 as int),
                    ReplyView::Array(
                        seq![
                            ReplyView::Bulk(encode_utf8(nodes[i].0)),
                            ReplyView::Integer(nodes[i].1 as int),
                        ],
                    ),
                ],
            ),
    )
}

/// What `CLUSTER SLOTS` says of the first `n` nodes.
pub open spec fn first_node_slots(nodes: Seq<(Seq<char>, u16)>, n: nat) -> Seq<ReplyView>
    decreases n,
{
    if n == 0 {
        Seq::empty()
    } else {
        first_node_slots(nodes, (n - 1) as nat) + node_slots(nodes, n - 1)
    }
}

/// The reply to `CLUSTER SLOTS`.
pub open spec fn cluster_slots_spec(cluster: Option<ClusterView>) -> ReplyView {
    ReplyView::Array(
        match cluster {
            Some(c) => first_node_slots(c.nodes, c.nodes.len()),
            None => Seq::empty(),
        },
    )
}

/// What a connection does with a command.
pub open spec fn action_for(
    cmd: CommandView,
    cluster: Option<ClusterView>,
    read_only: bool,
) -> ActionView {
    match cmd {
        CommandView::Subscribe(channels) => ActionView::Subscribe(channels),
        CommandView::BgSave => ActionView::Save(ReplyView::Simple("Background saving started"@)),
        CommandView::Sync => ActionView::Feed,
        CommandView::ClusterInfo => ActionView::Say(ReplyView::Bulk(cluster_info_text(cluster))),
        CommandView::ClusterSlots => ActionView::Say(cluster_slots_spec(cluster)),
        _ => match refusal(cmd.keys(), cluster) {
            Some(text) => ActionView::Say(ReplyView::Error(text)),
            None => if read_only && cmd.is_write() {
                ActionView::Say(
                    ReplyView::Error("READONLY You can't write against a read only replica."@),
                )
            } else {
                ActionView::Execute { command: cmd, write: cmd.is_write(), close: cmd is Quit }
            },
        },
    }
}

/// What a connection does with a request at the time `now`.
pub open spec fn next_action(
    args: Seq<Seq<u8>>,
    cluster: Option<ClusterView>,
    read_only: bool,
    now: u64,
) -> ActionView {
    if args.len() == 0 {
        ActionView::Wait
    } else {
        match meaning(args, now) {
            Err(text) => ActionView::Say(ReplyView::Error(text)),
            Ok(cmd) => action_for(cmd, cluster, read_only),
        }
    }
}

/// A replica executes no write.
pub proof fn law_replicas_execute_no_write(cmd: CommandView, cluster: Option<ClusterView>)
    ensures
        action_for(cmd, cluster, true) matches ActionView::Execute { command, write, .. } ==> !write
            && !command.is_write(),
{
}

/// Of the nodes of a cluster exactly one executes commands on keys that share a
/// slot, and every other node redirects to the address of that one.
pub proof fn law_one_node_serves_a_slot(
    keys: Seq<Seq<u8>>,
    nodes: Seq<(Seq<char>, u16)>,
    i: usize,
)
    requires
        keys.len() > 0,
        same_slot(keys),
        i < nodes.len(),
    ensures
        ({
            let slot = slot_spec(keys[0]);
            let owner = owner_spec(slot as int, nodes.len() as int);
            &&& 0 <= owner < nodes.len()
            &&& refusal(keys, Some(ClusterView { nodes, own_index: i })) == if i == owner {
                None
            } else {
                Some(moved_text(slot, nodes[owner]))
            }
        }),
{
    lemma_owner_in_range(slot_spec(keys[0]) as int, nodes.len() as int);
}

/// Whether a configuration names any node, if there is one.
pub open spec fn has_nodes(cluster: Option<ClusterConfig>) -> bool {
    cluster matches Some(config) ==> config.node_list().len() > 0
}

/// The reply to something that is no request.
pub fn protocol_error_reply(error: &RespError) -> (reply: Reply)
    ensures
        reply@ == ReplyView::Error("ERR protocol error: protocol error: "@ + (match *error {
            RespError::Protocol(what) => what@,
        })),
{
    proof {
        reveal_strlit("ERR protocol error: protocol error: ");
        reveal_strlit("ERR protocol error: ");
        reveal_strlit("protocol error: ");
    }
    let text = "ERR protocol error: ".to_owned().concat(error.text().as_str());
    assert(text@ =~= "ERR protocol error: protocol error: "@ + (match *error {
        RespError::Protocol(what) => what@,
    }));
    Reply::Error(text)
}

/// The reply to `CLUSTER INFO`.
pub fn cluster_info_reply(cluster: &Option<ClusterConfig>) -> (reply: Reply)
    ensures
        reply@ == ReplyView::Bulk(cluster_info_text(cluster_view(*cluster))),
{
    let mut text: Vec<u8> = Vec::new();
    let (enabled, assigned, known): (u64, u64, u64) = match cluster {
        Some(config) => (1, SLOT_COUNT as u64, config.nodes().len() as u64),
        None => (0, 0, 1),
    };
    push_slice(&mut text, "cluster_enabled:".as_bytes());
    push_nat(&mut text, enabled);
    push_slice(&mut text, "\r\ncluster_state:ok\r\ncluster_slots_assigned:".as_bytes());
    push_nat(&mut text, assigned);
    push_slice(&mut text, "\r\ncluster_known_nodes:".as_bytes());
    push_nat(&mut text, known);
    text.push(0x0d);
    text.push(0x0a);
    assert(text@ =~= cluster_info_text(cluster_view(*cluster)));
    Reply::Bulk(from_vec(text))
}

/// What `CLUSTER SLOTS` says of a range of slots and the node that owns it.
fn range_reply(range: (u16, u16), host: &str, port: u16) -> (reply: Reply)
    ensures
        reply@ == ReplyView::Array(
            seq![
                ReplyView::Integer(range.0 as int),
                ReplyView::Integer(range.1 as int),
                ReplyView::Array(
                    seq![
                        ReplyView::Bulk(encode_utf8(host@)),
                        ReplyView::Integer(port as int),
                    ],
                ),
            ],
        ),
{
    let mut address: Vec<Reply> = Vec::new();
    address.push(Reply::Bulk(Bytes::copy_from_slice(host.as_bytes())));
    address.push(Reply::Integer(port as i64));
    assert(address@[0]@ == ReplyView::Bulk(encode_utf8(host@)));
    assert(address@[1]@ == ReplyView::Integer(port as int));
    let node = Reply::Array(address);
    assert(node@->Array_0 =~= seq![
        ReplyView::Bulk(encode_utf8(host@)),
        ReplyView::Integer(port as int),
    ]);
    let mut items: Vec<Reply> = Vec::new();
    items.push(Reply::Integer(range.0 as i64));
    items.push(Reply::Integer(range.1 as i64));
    items.push(node);
    assert(items@[0]@ == ReplyView::Integer(range.0 as int));
    assert(items@[1]@ == ReplyView::Integer(range.1 as int));
    let reply = Reply::Array(items);
    assert(reply@->Array_0 =~= seq![
        ReplyView::Integer(range.0 as int),
        ReplyView::Integer(range.1 as int),
        node@,
    ]);
    reply
}

/// The reply to `CLUSTER SLOTS`.
pub fn cluster_slots_reply(cluster: &Option<ClusterConfig>) -> (reply: Reply)
    ensures
        reply@ == cluster_slots_spec(cluster_view(*cluster)),
{
    let mut out: Vec<Reply> = Vec::new();
    if let Some(config) = cluster {
        let nodes = config.nodes();
        let ghost views = cluster_view(*cluster)->0.nodes;
        let mut i: usize = 0;
        while i < nodes.len()
            invariant
                i <= nodes@.len(),
                nodes@ == config.node_list(),
                views == nodes@.map_values(|node: (String, u16)| (node.0@, node.1)),
                Seq::new(out@.len(), |j: int| out@[j]@) =~= first_node_slots(views, i as nat),
            decreases nodes@.len() - i,
        {
            let (host, port) = &nodes[i];
            let ranges = config.slot_ranges_for_index(i);
            let ghost was = out@;
            assert(views[i as int] == (host@, *port));
            if ranges.len() > 0 {
                out.push(range_reply(ranges[0], host.as_str(), *port));
            }
            proof {
                assert(Seq::new(out@.len(), |j: int| out@[j]@) =~= Seq::new(
                    was.len(),
                    |j: int| was[j]@,
                ) + node_slots(views, i as int));
            }
            i = i + 1;
        }
    }
    let reply = Reply::Array(out);
    assert(reply@->Array_0 =~= cluster_slots_spec(cluster_view(*cluster))->Array_0);
    reply
}

/// Why a node of a cluster does not execute a command on these keys.
fn refuse(keys: &[Bytes], cluster: &Option<ClusterConfig>) -> (text: Option<String>)
    requires
        has_nodes(*cluster),
    ensures
        match (text, refusal(contents(keys@), cluster_view(*cluster))) {
            (Some(t), Some(want)) => t@ == want,
            (None, None) => true,
            _ => false,
        },
{
    let config = match cluster {
        Some(config) => config,
        None => {
            return None;
        },
    };
    if keys.len() == 0 {
        return None;
    }
    let ghost all = contents(keys@);
    let first: u16 = slot_for(&keys[0]);
    assert(all[0] == content(keys@[0]));
    let mut i: usize = 0;
    while i < keys.len()
        invariant
            i <= keys@.len(),
            *cluster == Some(*config),
            all == contents(keys@),
            first == slot_spec(all[0]),
            forall|j: int| 0 <= j < i ==> slot_spec(#[trigger] all[j]) == slot_spec(all[0]),
        decreases keys@.len() - i,
    {
        if slot_for(&keys[i]) != first {
            assert(slot_spec(all[i as int]) != slot_spec(all[0]));
            return Some("CROSSSLOT Keys in request don't hash to the same slot".to_owned());
        }
        i = i + 1;
    }
    let nodes: usize = config.nodes().len();
    proof {
        lemma_owner_in_range(first as int, nodes as int);
    }
    if config.owns(first) {
        return None;
    }
    let (host, port) = config.owner_addr(first);
    let mut text = "MOVED ".to_owned();
    append_nat(&mut text, first as u64);
    text.append(" ");
    text.append(host.as_str());
    text.append(":");
    append_nat(&mut text, *port as u64);
    Some(text)
}

/// What a connection does with a command.
pub fn route(cmd: Command, cluster: &Option<ClusterConfig>, read_only: bool) -> (action: Action)
    requires
        has_nodes(*cluster),
    ensures
        action@ == action_for(cmd@, cluster_view(*cluster), read_only),
        action matches Action::Execute { command, .. } ==> command == cmd,
{
    match cmd {
        Command::Subscribe(channels) => {
            return Action::Subscribe(channels);
        },
        Command::BgSave => {
            return Action::Save(Reply::Simple("Background saving started".to_owned()));
        },
        Command::Sync => {
            return Action::Feed;
        },
        Command::ClusterInfo => {
            return Action::Say(cluster_info_reply(cluster));
        },
        Command::ClusterSlots => {
            return Action::Say(cluster_slots_reply(cluster));
        },
        _ => {},
    }
    let keys = cmd.keys();
    if let Some(text) = refuse(&keys, cluster) {
        return Action::Say(Reply::Error(text));
    }
    let write: bool = cmd.is_write();
    if read_only && write {
        return Action::Say(
            Reply::Error("READONLY You can't write against a read only replica.".to_owned()),
        );
    }
    let close: bool = matches!(cmd, Command::Quit);
    Action::Execute { command: cmd, write, close }
}

/// What a connection does with a request at the time `now`.
pub fn on_request_at(
    args: &[Bytes],
    cluster: &Option<ClusterConfig>,
    read_only: bool,
    now: u64,
) -> (action: Action)
    requires
        has_nodes(*cluster),
    ensures
        action@ == next_action(contents(args@), cluster_view(*cluster), read_only, now),
        action matches Action::Execute { command, .. } ==> command@.proper(),
{
    if args.len() == 0 {
        return Action::Wait;
    }
    match parse_at(args, now) {
        Err(e) => Action::Say(Reply::Error(e)),
        Ok(cmd) => route(cmd, cluster, read_only),
    }
}

/// What a connection does with a request by the system clock.
pub fn on_request(
    args: &[Bytes],
    cluster: &Option<ClusterConfig>,
    read_only: bool,
) -> (action: Action)
    requires
        has_nodes(*cluster),
    ensures
        exists|now: u64|
            action@ == #[trigger] next_action(
                contents(args@),
                cluster_view(*cluster),
                read_only,
                now,
            ),
        action matches Action::Execute { command, .. } ==> command@.proper(),
{
    let now: u64 = now_ms();
    on_request_at(args, cluster, read_only, now)
}

/// What a connection has done with a request, and what is left to do.
pub enum Step {
    /// Nothing: wait for the next request.
    Wait,
    /// Send a reply.
    Say(Reply),
    /// Hand the connection to the subscriber of these channels.
    Subscribe(Vec<Bytes>),
    /// Start a snapshot in the background, and send the reply.
    Save(Reply),
    /// Hand the connection to the feed of a replica.
    Feed,
    /// A command was executed: send the reply. Where there is a line, it goes to
    /// the log and to the replicas; where the command ends the connection, close
    /// it.
    Done { reply: Reply, line: Option<Vec<Bytes>>, close: bool },
}

/// What a [`Step`] holds.
#[verifier::ext_equal]
pub enum StepView {
    Wait,
    Say(ReplyView),
    Subscribe(Seq<Seq<u8>>),
    Save(ReplyView),
    Feed,
    Done { reply: ReplyView, line: Option<Seq<Seq<u8>>>, close: bool },
}

/// A line, if there is one, as what it holds.
pub open spec fn line_view(line: Option<Vec<Bytes>>) -> Option<Seq<Seq<u8>>> {
    match line {
        Some(list) => Some(contents(list@)),
        None => None,
    }
}

impl Step {
    /// What the step holds.
    pub open spec fn view(&self) -> StepView {
        match *self {
            Step::Wait => StepView::Wait,
            Step::Say(reply) => StepView::Say(reply@),
            Step::Subscribe(channels) => StepView::Subscribe(contents(channels@)),
            Step::Save(reply) => StepView::Save(reply@),
            Step::Feed => StepView::Feed,
            Step::Done { reply, line, close } => StepView::Done {
                reply: reply@,
                line: line_view(line),
                close,
            },
        }
    }
}

impl StepView {
    /// The reply that the step sends, if it sends one.
    pub open spec fn reply(self) -> Option<ReplyView> {
        match self {
            StepView::Say(reply) => Some(reply),
            StepView::Save(reply) => Some(reply),
            StepView::Done { reply, .. } => Some(reply),
            _ => None,
        }
    }

    /// The line that the step gives the log and the replicas, if it gives one.
    pub open spec fn line(self) -> Option<Seq<Seq<u8>>> {
        match self {
            StepView::Done { line, .. } => line,
            _ => None,
        }
    }
}

/// Whether serving a request at the time `now` may turn `before` into `after`
/// and be the given step: a command that is executed has its outcome, and a write
/// among them gives the log and the replicas the request as it came, behind the
/// time.
pub open spec fn serves(
    before: StoreView,
    channels: Set<Seq<u8>>,
    args: Seq<Seq<u8>>,
    cluster: Option<ClusterView>,
    read_only: bool,
    now: u64,
    step: StepView,
    after: StoreView,
) -> bool {
    match next_action(args, cluster, read_only, now) {
        ActionView::Wait => step == StepView::Wait && after == before,
        ActionView::Say(reply) => step == StepView::Say(reply) && after == before,
        ActionView::Subscribe(names) => step == StepView::Subscribe(names) && after == before,
        ActionView::Save(reply) => step == StepView::Save(reply) && after == before,
        ActionView::Feed => step == StepView::Feed && after == before,
        ActionView::Execute { command, write, close } => exists|reply: ReplyView| #[trigger]
            outcome(before, channels, command, now, reply, after) && step == (StepView::Done {
                reply,
                line: if write {
                    Some(stamped(args, now))
                } else {
                    None
                },
                close,
            }),
    }
}

/// Serves a request at the time `now`: decides what to do with it, and executes
/// it where that is what to do.
pub fn serve_at(
    store: &mut Store,
    pubsub: &PubSub,
    args: &[Bytes],
    cluster: &Option<ClusterConfig>,
    read_only: bool,
    now: u64,
) -> (step: Step)
    requires
        old(store).wf(),
        pubsub.wf(),
        has_nodes(*cluster),
    ensures
        final(store).wf(),
        serves(
            old(store)@,
            pubsub@.dom(),
            contents(args@),
            cluster_view(*cluster),
            read_only,
            now,
            step@,
            final(store)@,
        ),
        match (step, meaning(contents(args@), now)) {
            (Step::Done { reply, .. }, Ok(cmd)) => announces(pubsub@, cmd, reply@),
            _ => true,
        },
{
    match on_request_at(args, cluster, read_only, now) {
        Action::Wait => Step::Wait,
        Action::Say(reply) => Step::Say(reply),
        Action::Subscribe(channels) => Step::Subscribe(channels),
        Action::Save(reply) => Step::Save(reply),
        Action::Feed => Step::Feed,
        Action::Execute { command, write, close } => {
            let reply = execute_at(store, pubsub, &command, now);
            let line: Option<Vec<Bytes>> = if write {
                Some(stamp(args, now))
            } else {
                None
            };
            assert(outcome(old(store)@, pubsub@.dom(), command@, now, reply@, store@));
            Step::Done { reply, line, close }
        },
    }
}

} // verus!
