//! What the contracts speak of is all that there is: the views of lists and values
//! leave nothing out.

use bytes::Bytes;
use vstd::prelude::*;

use crate::buf::{content, contents};
use crate::cluster::ClusterConfig;
use crate::collections::{pair_contents, rank_views, score_pairs};
use crate::config::node_views;
use crate::decimal::ascii_chars;
use crate::persistence::snapshot::{record_views, Record};
use crate::resp::{Reply, ReplyView};
use crate::score::Score;
use crate::server::cluster_view;
use crate::shard::pairs_of;
use crate::subscriber::step_views;
use crate::value::{Entry, Value, ValueView};

verus! {

/// The views of lists have every element, in order, and nothing else.
pub proof fn law_lists_are_seen_whole(
    list: Seq<Bytes>,
    pairs: Seq<(Bytes, Bytes)>,
    scores: Seq<(Score, Bytes)>,
    ranks: Seq<(Bytes, Score)>,
    entries: Seq<(Bytes, Entry)>,
    steps: Seq<(Bytes, Reply)>,
    nodes: Seq<(String, u16)>,
    records: Seq<Record>,
)
    ensures
        contents(list).len() == list.len(),
        forall|i: int| 0 <= i < list.len() ==> #[trigger] contents(list)[i] == content(list[i]),
        pair_contents(pairs).len() == pairs.len(),
        forall|i: int|
            0 <= i < pairs.len() ==> #[trigger] pair_contents(pairs)[i] == (
                content(pairs[i].0),
                content(pairs[i].1),
            ),
        score_pairs(scores).len() == scores.len(),
        forall|i: int|
            0 <= i < scores.len() ==> #[trigger] score_pairs(scores)[i] == (
                scores[i].0@,
                content(scores[i].1),
            ),
        rank_views(ranks).len() == ranks.len(),
        forall|i: int|
            0 <= i < ranks.len() ==> #[trigger] rank_views(ranks)[i] == (
                content(ranks[i].0),
                ranks[i].1@,
            ),
        pairs_of(entries).len() == entries.len(),
        forall|i: int|
            0 <= i < entries.len() ==> #[trigger] pairs_of(entries)[i] == (
                content(entries[i].0),
                entries[i].1@,
            ),
        step_views(steps).len() == steps.len(),
        forall|i: int|
            0 <= i < steps.len() ==> #[trigger] step_views(steps)[i] == (
                content(steps[i].0),
                steps[i].1@,
            ),
        node_views(nodes).len() == nodes.len(),
        forall|i: int|
            0 <= i < nodes.len() ==> #[trigger] node_views(nodes)[i] == (nodes[i].0@, nodes[i].1),
        record_views(records).len() == records.len(),
        forall|i: int|
            0 <= i < records.len() ==> #[trigger] record_views(records)[i] == (
                records[i].0@,
                records[i].1,
                records[i].2@,
                records[i].3,
                records[i].4,
            ),
{
}

/// The view of a reply has everything that is in it.
pub proof fn law_replies_are_seen_whole(reply: Reply)
    ensures
        match reply {
            Reply::Simple(s) => reply@ == ReplyView::Simple(s@),
            Reply::Error(s) => reply@ == ReplyView::Error(s@),
            Reply::Integer(n) => reply@ == ReplyView::Integer(n as int),
            Reply::Bulk(b) => reply@ == ReplyView::Bulk(content(b)),
            Reply::Nil => reply@ == ReplyView::Nil,
            Reply::Array(items) => reply@ matches ReplyView::Array(views) && views.len()
                == items@.len() && forall|i: int|
                0 <= i < items@.len() ==> #[trigger] views[i] == items@[i]@,
        },
{
}

/// The view of a value has everything that is in it, and that of an entry its
/// value, its expiry time and its last use.
pub proof fn law_values_are_seen_whole(value: Value, entry: Entry)
    ensures
        match value {
            Value::Str(data) => value@ == ValueView::Str(content(data)),
            Value::List(items) => value@ == ValueView::List(contents(items@)),
            Value::Hash(fields) => value@ matches ValueView::Hash(seen) && seen.dom()
                =~= fields@.dom() && forall|k: Seq<u8>| #[trigger]
                seen.contains_key(k) ==> seen[k] == content(fields@[k]),
            Value::Members(members) => value@ == ValueView::Members(members@.dom()),
            Value::Sorted(members) => value@ matches ValueView::Sorted(seen) && seen.dom()
                =~= members@.dom() && forall|k: Seq<u8>| #[trigger]
                seen.contains_key(k) ==> seen[k] == members@[k]@,
        },
        entry@.value == entry.value@,
        entry@.expires_at_ms == entry.expires_at_ms,
        entry@.last_access == entry.last_access,
{
}

/// ASCII bytes as text have a character each, of the same number.
pub proof fn law_ascii_is_text(s: Seq<u8>)
    ensures
        ascii_chars(s).len() == s.len(),
        forall|i: int|
            0 <= i < s.len() && s[i] < 128 ==> #[trigger] ascii_chars(s)[i] as int == s[i] as int,
{
}

/// What is known of a cluster are all its nodes, in order, and the own place
/// among them.
pub proof fn law_clusters_are_seen_whole(config: ClusterConfig)
    ensures
        cluster_view(None) is None,
        cluster_view(Some(config)) matches Some(c) && c.own_index == config.own_index()
            && c.nodes.len() == config.node_list().len() && forall|i: int|
            0 <= i < c.nodes.len() ==> #[trigger] c.nodes[i] == (
                config.node_list()[i].0@,
                config.node_list()[i].1,
            ),
{
}

} // verus!
