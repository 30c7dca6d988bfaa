//! What the operator says on the command line about the cluster.

use vstd::prelude::*;
use vstd::string::*;
use vstd::utf8::{decode_utf8, encode_utf8, is_char_boundary, valid_utf8};

use crate::cluster::ClusterConfig;
use crate::decimal::{
    append_nat, ascii_chars, dec_nat, is_digit, lemma_dec_nat, lemma_dec_nat_read, read_u16,
    u16_value,
};

verus! {

broadcast use {
    vstd::utf8::encode_utf8_decode_utf8,
    vstd::utf8::encode_utf8_valid_utf8,
    vstd::utf8::is_char_boundary_iff_not_is_continuation_byte,
};

/// Position of the first comma from `from` on; the length where there is none.
pub open spec fn comma_from(s: Seq<u8>, from: int) -> int
    decreases s.len() - from,
{
    if from >= s.len() || from < 0 {
        s.len() as int
    } else if s[from] == 0x2c {
        from
    } else {
        comma_from(s, from + 1)
    }
}

/// Position of the last colon before `end`.
pub open spec fn colon_before(s: Seq<u8>, end: int) -> Option<int>
    decreases end,
{
    if end <= 0 || end > s.len() {
        None
    } else if s[end - 1] == 0x3a {
        Some(end - 1)
    } else {
        colon_before(s, end - 1)
    }
}

/// What a node of the cluster is given as: host and port around the last colon,
/// or the complaint about it.
pub open spec fn node_meaning(entry: Seq<u8>) -> Result<(Seq<char>, u16), Seq<char>> {
    match colon_before(entry, entry.len() as int) {
        None => Err(
            "invalid cluster node '"@ + decode_utf8(entry) + "', expected host:port"@,
        ),
        Some(colon) => match u16_value(entry.skip(colon + 1)) {
            None => Err("invalid port in cluster node '"@ + decode_utf8(entry) + "'"@),
            Some(port) => Ok((decode_utf8(entry.take(colon)), port)),
        },
    }
}

/// The nodes that a comma-separated list names behind `before`, or the complaint
/// about the first that is wrong.
pub open spec fn nodes_from(list: Seq<u8>, before: Seq<(Seq<char>, u16)>) -> Result<
    Seq<(Seq<char>, u16)>,
    Seq<char>,
>
    decreases list.len(),
{
    let end = comma_from(list, 0);
    match node_meaning(list.take(end)) {
        Err(e) => Err(e),
        Ok(node) => if 0 <= end < list.len() {
            nodes_from(list.skip(end + 1), before.push(node))
        } else {
            Ok(before.push(node))
        },
    }
}

/// The nodes that a comma-separated list of `host:port` names, or the complaint
/// about the first that is wrong.
pub open spec fn nodes_meaning(list: Seq<char>) -> Result<Seq<(Seq<char>, u16)>, Seq<char>> {
    nodes_from(encode_utf8(list), Seq::empty())
}

/// Nodes, as what they hold.
pub open spec fn node_views(nodes: Seq<(String, u16)>) -> Seq<(Seq<char>, u16)> {
    nodes.map_values(|node: (String, u16)| (node.0@, node.1))
}

/// Splits `s` at an ASCII character: what stands before and what stands behind
/// it.
fn split_around(s: &str, at: usize) -> (parts: (&str, &str))
    requires
        at < s.spec_bytes().len(),
        s.spec_bytes()[at as int] < 0x80,
    ensures
        parts.0.spec_bytes() == s.spec_bytes().take(at as int),
        parts.1.spec_bytes() == s.spec_bytes().skip(at + 1),
{
    let ghost all = s.spec_bytes();
    proof {
        assert(valid_utf8(all));
        let b = all[at as int];
        assert(!vstd::utf8::is_continuation_byte(b)) by {
            assert(b < 0x80 ==> b & 0xc0 != 0x80) by (bit_vector);
        }
        assert(is_char_boundary(all, at as int));
    }
    let (front, back) = s.split_at(at);
    proof {
        let rest = back.spec_bytes();
        assert(rest[0] == all[at as int]);
        assert(valid_utf8(rest));
        let b = rest[0];
        assert(b < 0x80 ==> b & 0x80 == 0) by (bit_vector);
        assert(vstd::utf8::length_of_first_scalar(rest) == 1);
        reveal_with_fuel(is_char_boundary, 2);
        assert(is_char_boundary(rest, 1));
    }
    let (_, tail) = back.split_at(1);
    proof {
        assert(front.spec_bytes() =~= all.take(at as int));
        assert(tail.spec_bytes() =~= all.skip(at + 1));
    }
    (front, tail)
}

/// Reads a node of the cluster.
fn parse_node(entry: &str) -> (result: Result<(String, u16), String>)
    ensures
        match (result, node_meaning(entry.spec_bytes())) {
            (Ok((host, port)), Ok(node)) => (host@, port) == node,
            (Err(e), Err(text)) => e@ == text,
            _ => false,
        },
{
    let bytes = entry.as_bytes();
    let ghost all = bytes@;
    let mut end: usize = bytes.len();
    while end > 0 && bytes[end - 1] != 0x3a
        invariant
            end <= bytes@.len(),
            all == bytes@,
            colon_before(all, all.len() as int) == colon_before(all, end as int),
        decreases end,
    {
        end = end - 1;
    }
    if end == 0 {
        return Err(
            "invalid cluster node '".to_owned().concat(entry).concat("', expected host:port"),
        );
    }
    let (host, port) = split_around(entry, end - 1);
    match read_u16(port.as_bytes()) {
        Some(port) => Ok((host.to_owned(), port)),
        None => Err("invalid port in cluster node '".to_owned().concat(entry).concat("'")),
    }
}

/// Reads a comma-separated list of `host:port`.
pub fn parse_cluster_nodes(list: &str) -> (result: Result<Vec<(String, u16)>, String>)
    ensures
        match (result, nodes_meaning(list@)) {
            (Ok(nodes), Ok(views)) => node_views(nodes@) == views && nodes@.len() > 0,
            (Err(e), Err(text)) => e@ == text,
            _ => false,
        },
{
    let mut nodes: Vec<(String, u16)> = Vec::new();
    let mut rest: &str = list;
    let ghost want = nodes_meaning(list@);
    assert(node_views(nodes@) =~= Seq::<(Seq<char>, u16)>::empty());
    loop
        invariant
            want == nodes_meaning(list@),
            want == nodes_from(rest.spec_bytes(), node_views(nodes@)),
        decreases rest.spec_bytes().len(),
    {
        let bytes = rest.as_bytes();
        let ghost all = bytes@;
        let mut end: usize = 0;
        while end < bytes.len() && bytes[end] != 0x2c
            invariant
                end <= bytes@.len(),
                all == bytes@,
                comma_from(all, 0) == comma_from(all, end as int),
            decreases bytes@.len() - end,
        {
            end = end + 1;
        }
        let ghost before = node_views(nodes@);
        if end == bytes.len() {
            assert(all.take(end as int) =~= all);
            match parse_node(rest) {
                Ok(node) => {
                    let ghost was = nodes@;
                    nodes.push(node);
                    assert(node_views(nodes@) =~= node_views(was).push((node.0@, node.1)));
                    return Ok(nodes);
                },
                Err(e) => {
                    return Err(e);
                },
            }
        }
        let (entry, tail) = split_around(rest, end);
        match parse_node(entry) {
            Ok(node) => {
                let ghost was = nodes@;
                nodes.push(node);
                assert(node_views(nodes@) =~= node_views(was).push((node.0@, node.1)));
            },
            Err(e) => {
                return Err(e);
            },
        }
        rest = tail;
    }
}

/// A node as the operator writes it: `host:port`.
pub open spec fn node_text(node: (Seq<char>, u16)) -> Seq<char> {
    node.0 + seq![':'] + ascii_chars(dec_nat(node.1 as nat))
}

/// Nodes as the operator writes them: separated by commas.
pub open spec fn nodes_text(nodes: Seq<(Seq<char>, u16)>) -> Seq<char>
    decreases nodes.len(),
{
    if nodes.len() == 0 {
        Seq::empty()
    } else if nodes.len() == 1 {
        node_text(nodes[0])
    } else {
        node_text(nodes[0]) + seq![','] + nodes_text(nodes.skip(1))
    }
}

proof fn lemma_encode_concat(a: Seq<char>, b: Seq<char>)
    ensures
        encode_utf8(a + b) == encode_utf8(a) + encode_utf8(b),
    decreases a.len(),
{
    if a.len() == 0 {
        assert(a + b =~= b);
        assert(encode_utf8(a) + encode_utf8(b) =~= encode_utf8(b));
    } else {
        assert((a + b).drop_first() =~= a.drop_first() + b);
        lemma_encode_concat(a.drop_first(), b);
        assert(encode_utf8(a + b) =~= encode_utf8(a) + encode_utf8(b));
    }
}

proof fn lemma_scalar_is_no_comma(c: u32)
    by (bit_vector)
    requires
        c != 0x2c,
    ensures
        vstd::utf8::has_width_1_encoding(c) ==> vstd::utf8::leading_byte_width_1(c) != 0x2c,
        vstd::utf8::leading_byte_width_2(c) != 0x2c,
        vstd::utf8::leading_byte_width_3(c) != 0x2c,
        vstd::utf8::leading_byte_width_4(c) != 0x2c,
        vstd::utf8::last_continuation_byte(c) != 0x2c,
        vstd::utf8::second_last_continuation_byte(c) != 0x2c,
        vstd::utf8::third_last_continuation_byte(c) != 0x2c,
{
}

/// The encoding of text without a comma has no comma.
pub(crate) proof fn lemma_no_comma(text: Seq<char>)
    requires
        !text.contains(','),
    ensures
        forall|i: int| 0 <= i < encode_utf8(text).len() ==> #[trigger] encode_utf8(text)[i] != 0x2c,
    decreases text.len(),
{
    if text.len() > 0 {
        let c = text[0];
        let rest = text.drop_first();
        assert(c != ',');
        assert(c as u32 != 0x2c) by {
            vstd::utf8::char_u32_cast(',', 0x2c);
            if c as u32 == 0x2c {
                vstd::utf8::char_u32_cast(c, 0x2c);
            }
        }
        assert(!rest.contains(',')) by {
            if rest.contains(',') {
                let i = rest.index_of(',');
                assert(text[i + 1] == ',');
            }
        }
        lemma_no_comma(rest);
        vstd::utf8::char_is_scalar(c);
        lemma_scalar_is_no_comma(c as u32);
        let head = vstd::utf8::encode_scalar(c as u32);
        assert forall|i: int| 0 <= i < encode_utf8(text).len() implies #[trigger] encode_utf8(
            text,
        )[i] != 0x2c by {
            if i >= head.len() {
                assert(encode_utf8(text)[i] == encode_utf8(rest)[i - head.len()]);
            } else {
                assert(encode_utf8(text)[i] == head[i]);
            }
        }
    }
}

/// Decimal digits are encoded as they are.
proof fn lemma_digits_encoded(n: nat)
    ensures
        encode_utf8(ascii_chars(dec_nat(n))) == dec_nat(n),
{
    let digits = dec_nat(n);
    let chars = ascii_chars(digits);
    lemma_dec_nat(n);
    assert forall|i: int| 0 <= i < chars.len() implies (#[trigger] chars[i] as nat) < 128
        && chars[i] as u8 == digits[i] by {
        assert(is_digit(digits[i]));
    }
    assert(vstd::utf8::is_ascii_chars(chars));
    vstd::utf8::is_ascii_chars_encode_utf8(chars);
    assert forall|i: int| 0 <= i < digits.len() implies encode_utf8(chars)[i] == digits[i] by {
        assert(chars[i] as u8 == digits[i]);
    }
    assert(encode_utf8(chars) =~= digits);
}

proof fn lemma_one_ascii(c: char)
    requires
        (c as nat) < 128,
    ensures
        encode_utf8(seq![c]) == seq![c as u8],
{
    assert(vstd::utf8::is_ascii_chars(seq![c]));
    vstd::utf8::is_ascii_chars_encode_utf8(seq![c]);
    assert(seq![c][0] as u8 == encode_utf8(seq![c])[0]);
    assert(encode_utf8(seq![c]) =~= seq![c as u8]);
}

proof fn lemma_colon_found(s: Seq<u8>, colon: int, end: int)
    requires
        0 <= colon < end <= s.len(),
        s[colon] == 0x3a,
        forall|i: int| colon < i < end ==> #[trigger] s[i] != 0x3a,
    ensures
        colon_before(s, end) == Some(colon),
    decreases end,
{
    if end - 1 != colon {
        assert(s[end - 1] != 0x3a);
        lemma_colon_found(s, colon, end - 1);
    }
}

pub(crate) proof fn lemma_comma_found(s: Seq<u8>, from: int, comma: int)
    requires
        0 <= from <= comma <= s.len(),
        forall|i: int| from <= i < comma ==> #[trigger] s[i] != 0x2c,
        comma < s.len() ==> s[comma] == 0x2c,
    ensures
        comma_from(s, from) == comma,
    decreases comma - from,
{
    if from < comma {
        lemma_comma_found(s, from + 1, comma);
    }
}

/// What a written node means, and that it has no comma.
proof fn lemma_node_read_back(node: (Seq<char>, u16))
    requires
        !node.0.contains(','),
    ensures
        node_meaning(encode_utf8(node_text(node))) == Ok::<(Seq<char>, u16), Seq<char>>(node),
        forall|i: int|
            0 <= i < encode_utf8(node_text(node)).len() ==> #[trigger] encode_utf8(
                node_text(node),
            )[i] != 0x2c,
{
    let host = encode_utf8(node.0);
    let port = dec_nat(node.1 as nat);
    let entry = encode_utf8(node_text(node));
    lemma_encode_concat(node.0 + seq![':'], ascii_chars(port));
    lemma_encode_concat(node.0, seq![':']);
    lemma_one_ascii(':');
    lemma_digits_encoded(node.1 as nat);
    lemma_dec_nat(node.1 as nat);
    lemma_dec_nat_read(node.1 as nat);
    lemma_no_comma(node.0);
    assert(entry =~= host + seq![0x3au8] + port);
    let colon = host.len() as int;
    assert forall|i: int| colon < i < entry.len() implies #[trigger] entry[i] != 0x3a && entry[i]
        != 0x2c by {
        assert(is_digit(port[i - colon - 1]));
    }
    lemma_colon_found(entry, colon, entry.len() as int);
    assert(entry.skip(colon + 1) =~= port);
    assert(entry.take(colon) =~= host);
    assert forall|i: int| 0 <= i < entry.len() implies #[trigger] entry[i] != 0x2c by {
        if i < colon {
            assert(entry[i] == host[i]);
        }
    }
}

proof fn lemma_nodes_read_back(nodes: Seq<(Seq<char>, u16)>, before: Seq<(Seq<char>, u16)>)
    requires
        nodes.len() > 0,
        forall|i: int| 0 <= i < nodes.len() ==> !(#[trigger] nodes[i]).0.contains(','),
    ensures
        nodes_from(encode_utf8(nodes_text(nodes)), before) == Ok::<
            Seq<(Seq<char>, u16)>,
            Seq<char>,
        >(before + nodes),
    decreases nodes.len(),
{
    let node = nodes[0];
    let list = encode_utf8(nodes_text(nodes));
    let entry = encode_utf8(node_text(node));
    lemma_node_read_back(node);
    if nodes.len() == 1 {
        lemma_comma_found(list, 0, list.len() as int);
        assert(list.take(list.len() as int) =~= list);
        assert(before.push(node) =~= before + nodes);
    } else {
        let rest = nodes.skip(1);
        let tail = encode_utf8(nodes_text(rest));
        lemma_encode_concat(node_text(node) + seq![','], nodes_text(rest));
        lemma_encode_concat(node_text(node), seq![',']);
        lemma_one_ascii(',');
        assert(list =~= entry + seq![0x2cu8] + tail);
        assert forall|i: int| 0 <= i < entry.len() implies #[trigger] list[i] != 0x2c by {
            assert(list[i] == entry[i]);
        }
        lemma_comma_found(list, 0, entry.len() as int);
        assert(list.take(entry.len() as int) =~= entry);
        assert(list.skip(entry.len() as int + 1) =~= tail);
        assert forall|i: int| 0 <= i < rest.len() implies !(#[trigger] rest[i]).0.contains(
            ',',
        ) by {
            assert(rest[i] == nodes[i + 1]);
        }
        lemma_nodes_read_back(rest, before.push(node));
        assert(before.push(node) + rest =~= before + nodes);
    }
}

/// A node list that is written as `host:port`, separated by commas, is read back
/// as it was, whatever the hosts are, as long as they have no comma.
pub proof fn law_node_list_is_read_back(nodes: Seq<(Seq<char>, u16)>)
    requires
        nodes.len() > 0,
        forall|i: int| 0 <= i < nodes.len() ==> !(#[trigger] nodes[i]).0.contains(','),
    ensures
        nodes_meaning(nodes_text(nodes)) == Ok::<Seq<(Seq<char>, u16)>, Seq<char>>(nodes),
{
    lemma_nodes_read_back(nodes, Seq::empty());
    assert(Seq::<(Seq<char>, u16)>::empty() + nodes =~= nodes);
}

/// The complaint about a position that is not in the node list.
pub open spec fn out_of_range_text(index: usize, nodes: nat) -> Seq<char> {
    "--cluster-self-index "@ + ascii_chars(dec_nat(index as nat)) + " out of range for "@
        + ascii_chars(dec_nat(nodes)) + " cluster nodes"@
}

/// The cluster that the operator asked for, if any: a node list and the position
/// of this node in it, which have to come together.
pub fn cluster_from(nodes: Option<&str>, self_index: Option<usize>) -> (result: Result<
    Option<ClusterConfig>,
    String,
>)
    ensures
        match (nodes, self_index) {
            (None, None) => result == Ok::<Option<ClusterConfig>, String>(None),
            (Some(list), Some(index)) => match nodes_meaning(list@) {
                Err(text) => result matches Err(e) && e@ == text,
                Ok(views) => if index < views.len() {
                    result matches Ok(Some(config)) && node_views(config.node_list()) == views
                        && config.own_index() == index
                } else {
                    result matches Err(e) && e@ == out_of_range_text(index, views.len())
                },
            },
            _ => result matches Err(e) && e@
                == "--cluster-nodes and --cluster-self-index must be set together"@,
        },
{
    match (nodes, self_index) {
        (None, None) => Ok(None),
        (Some(list), Some(index)) => match parse_cluster_nodes(list) {
            Err(e) => Err(e),
            Ok(nodes) => {
                if index >= nodes.len() {
                    let mut text = "--cluster-self-index ".to_owned();
                    append_nat(&mut text, index as u64);
                    text.append(" out of range for ");
                    append_nat(&mut text, nodes.len() as u64);
                    text.append(" cluster nodes");
                    return Err(text);
                }
                Ok(Some(ClusterConfig::new(nodes, index)))
            },
        },
        _ => Err("--cluster-nodes and --cluster-self-index must be set together".to_owned()),
    }
}

} // verus!
