//! The RESP2 wire protocol: requests are arrays of bulk strings or inline
//! lines, replies are one of the RESP2 reply types.

use bytes::{Bytes, BytesMut};
use vstd::prelude::*;
use vstd::string::*;
use vstd::utf8::encode_utf8;

use crate::buf::{advance, buffered, content, contents, from_vec};
use crate::decimal::{
    dec_int, i64_value, lemma_dec_int_no_cr, lemma_dec_int_read, push_int, push_nat, read_i64,
};

verus! {

/// `String::push` appends a character.
pub assume_specification[ String::push ](s: &mut String, c: char)
    ensures
        final(s)@ == old(s)@.push(c),
;

/// Why a request could not be decoded.
#[derive(Debug)]
pub enum RespError {
    /// The peer broke the protocol, in the way that the text says.
    Protocol(String),
}

impl RespError {
    /// The error as a line of text.
    pub fn text(&self) -> (text: String)
        ensures
            text@ == "protocol error: "@ + (match *self {
                RespError::Protocol(what) => what@,
            }),
    {
        match self {
            RespError::Protocol(what) => "protocol error: ".to_owned().concat(what.as_str()),
        }
    }
}

/// A reply value that the server sends back to a client, mirroring the RESP2
/// reply types.
#[derive(Debug)]
pub enum Reply {
    Simple(String),
    Error(String),
    Integer(i64),
    Bulk(Bytes),
    Nil,
    Array(Vec<Reply>),
}

/// What a [`Reply`] holds.
#[verifier::ext_equal]
pub enum ReplyView {
    Simple(Seq<char>),
    Error(Seq<char>),
    Integer(int),
    Bulk(Seq<u8>),
    Nil,
    Array(Seq<ReplyView>),
}

impl Reply {
    /// What the reply holds.
    pub open spec fn view(&self) -> ReplyView
        decreases self,
    {
        match *self {
            Reply::Simple(s) => ReplyView::Simple(s@),
            Reply::Error(s) => ReplyView::Error(s@),
            Reply::Integer(n) => ReplyView::Integer(n as int),
            Reply::Bulk(b) => ReplyView::Bulk(content(b)),
            Reply::Nil => ReplyView::Nil,
            Reply::Array(items) => ReplyView::Array(
                Seq::new(
                    items@.len(),
                    |i: int|
                        if 0 <= i < items@.len() {
                            items@[i].view()
                        } else {
                            arbitrary()
                        },
                ),
            ),
        }
    }
}

impl Clone for Reply {
    fn clone(&self) -> (copy: Self)
        ensures
            copy@ == self@,
        decreases self,
    {
        match self {
            Reply::Simple(s) => Reply::Simple(s.clone()),
            Reply::Error(s) => Reply::Error(s.clone()),
            Reply::Integer(n) => Reply::Integer(*n),
            Reply::Bulk(b) => Reply::Bulk(b.clone()),
            Reply::Nil => Reply::Nil,
            Reply::Array(items) => {
                let mut copies: Vec<Reply> = Vec::new();
                let mut i: usize = 0;
                while i < items.len()
                    invariant
                        i <= items@.len(),
                        *self == Reply::Array(*items),
                        copies@.len() == i,
                        forall|j: int| 0 <= j < i ==> (#[trigger] copies@[j])@ == items@[j]@,
                    decreases items@.len() - i,
                {
                    let item = &items[i];
                    assert(decreases_to!(*items => items@[i as int]));
                    assert(decreases_to!(self => self->Array_0));
                    copies.push(item.clone());
                    i = i + 1;
                }
                let copy = Reply::Array(copies);
                assert(copy@->Array_0 =~= self@->Array_0);
                copy
            },
        }
    }
}

impl Reply {
    /// The reply `+OK`.
    pub fn ok() -> (reply: Reply)
        ensures
            reply@ == ReplyView::Simple("OK"@),
    {
        Reply::Simple("OK".to_owned())
    }
}

/// Carriage return, line feed.
pub open spec fn crlf() -> Seq<u8> {
    seq![0x0du8, 0x0au8]
}

/// A line: the byte `tag`, then `text`, then CRLF.
pub open spec fn line(tag: u8, text: Seq<u8>) -> Seq<u8> {
    seq![tag] + text + crlf()
}

/// `data` as a bulk string: its length on a line of its own, then the bytes.
pub open spec fn bulk(data: Seq<u8>) -> Seq<u8> {
    line(0x24, dec_int(data.len() as int)) + data + crlf()
}

/// A reply on the wire.
pub open spec fn encode_spec(reply: ReplyView) -> Seq<u8>
    decreases reply,
{
    match reply {
        ReplyView::Simple(s) => line(0x2b, encode_utf8(s)),
        ReplyView::Error(s) => line(0x2d, encode_utf8(s)),
        ReplyView::Integer(n) => line(0x3a, dec_int(n)),
        ReplyView::Bulk(data) => bulk(data),
        ReplyView::Nil => line(0x24, dec_int(-1)),
        ReplyView::Array(items) => line(0x2a, dec_int(items.len() as int)) + encode_all_spec(items),
    }
}

/// Replies on the wire, one after the other.
pub open spec fn encode_all_spec(items: Seq<ReplyView>) -> Seq<u8>
    decreases items,
{
    if items.len() == 0 {
        Seq::empty()
    } else {
        encode_all_spec(items.subrange(0, items.len() - 1)) + encode_spec(items[items.len() - 1])
    }
}

/// Bulk strings on the wire, one after the other.
pub open spec fn bulks(args: Seq<Seq<u8>>) -> Seq<u8>
    decreases args.len(),
{
    if args.len() == 0 {
        Seq::empty()
    } else {
        bulk(args[0]) + bulks(args.skip(1))
    }
}

/// A request on the wire: an array of bulk strings.
pub open spec fn encode_command_spec(args: Seq<Seq<u8>>) -> Seq<u8> {
    line(0x2a, dec_int(args.len() as int)) + bulks(args)
}

fn push_crlf(out: &mut Vec<u8>)
    ensures
        final(out)@ == old(out)@ + crlf(),
{
    out.push(0x0d);
    out.push(0x0a);
}

/// Appends the bytes of a slice.
pub(crate) fn push_slice(out: &mut Vec<u8>, data: &[u8])
    ensures
        final(out)@ == old(out)@ + data@,
{
    let mut i: usize = 0;
    while i < data.len()
        invariant
            i <= data@.len(),
            out@ =~= old(out)@ + data@.take(i as int),
        decreases data@.len() - i,
    {
        out.push(data[i]);
        i = i + 1;
    }
    assert(data@.take(data@.len() as int) =~= data@);
}

/// Appends a bulk string.
fn push_bulk(out: &mut Vec<u8>, data: &[u8])
    ensures
        final(out)@ == old(out)@ + bulk(data@),
{
    out.push(0x24);
    push_nat(out, data.len() as u64);
    push_crlf(out);
    push_slice(out, data);
    push_crlf(out);
    assert(out@ =~= old(out)@ + bulk(data@));
}

/// Appends the wire form of a reply.
pub fn encode_reply(reply: &Reply, out: &mut Vec<u8>)
    ensures
        final(out)@ == old(out)@ + encode_spec(reply@),
    decreases reply,
{
    match reply {
        Reply::Simple(s) => {
            out.push(0x2b);
            push_slice(out, s.as_str().as_bytes());
            push_crlf(out);
        },
        Reply::Error(s) => {
            out.push(0x2d);
            push_slice(out, s.as_str().as_bytes());
            push_crlf(out);
        },
        Reply::Integer(n) => {
            out.push(0x3a);
            push_int(out, *n);
            push_crlf(out);
        },
        Reply::Bulk(b) => {
            push_bulk(out, b);
        },
        Reply::Nil => {
            out.push(0x24);
            push_int(out, -1);
            push_crlf(out);
        },
        Reply::Array(items) => {
            out.push(0x2a);
            push_nat(out, items.len() as u64);
            push_crlf(out);
            let ghost views = reply@->Array_0;
            let mut i: usize = 0;
            assert(views.take(0) =~= Seq::<ReplyView>::empty());
            while i < items.len()
                invariant
                    i <= items@.len(),
                    *reply == Reply::Array(*items),
                    reply@ == ReplyView::Array(views),
                    views.len() == items@.len(),
                    out@ =~= old(out)@ + line(0x2a, dec_int(items@.len() as int)) + encode_all_spec(
                        views.take(i as int),
                    ),
                decreases items@.len() - i,
            {
                assert(decreases_to!(reply => items@[i as int]));
                encode_reply(&items[i], out);
                proof {
                    let next = views.take(i + 1);
                    assert(next.subrange(0, next.len() - 1) =~= views.take(i as int));
                    assert(next[next.len() - 1] == items@[i as int]@);
                }
                i = i + 1;
            }
            assert(views.take(views.len() as int) =~= views);
        },
    }
    assert(out@ =~= old(out)@ + encode_spec(reply@));
}

/// Encodes a command (as sent by a client, or as recorded in the append-only
/// log) as a RESP array of bulk strings, e.g.
/// `*2\r\n$3\r\nGET\r\n$3\r\nfoo\r\n`.
pub fn encode_command(args: &[Bytes]) -> (encoded: Bytes)
    ensures
        content(encoded) == encode_command_spec(contents(args@)),
{
    let mut out: Vec<u8> = Vec::new();
    out.push(0x2a);
    push_nat(&mut out, args.len() as u64);
    push_crlf(&mut out);
    let ghost views = contents(args@);
    let ghost head = line(0x2a, dec_int(args@.len() as int));
    assert(out@ =~= head);
    let mut i: usize = 0;
    assert(views.take(0) =~= Seq::<Seq<u8>>::empty());
    while i < args.len()
        invariant
            i <= args@.len(),
            views == contents(args@),
            out@ =~= head + bulks(views.take(i as int)),
        decreases args@.len() - i,
    {
        let arg: &Bytes = &args[i];
        push_bulk(&mut out, arg);
        proof {
            lemma_bulks_push(views.take(i as int), views[i as int]);
            assert(views.take(i as int).push(views[i as int]) =~= views.take(i + 1));
        }
        i = i + 1;
    }
    assert(views.take(views.len() as int) =~= views);
    from_vec(out)
}

proof fn lemma_bulks_push(args: Seq<Seq<u8>>, arg: Seq<u8>)
    ensures
        bulks(args.push(arg)) == bulks(args) + bulk(arg),
    decreases args.len(),
{
    let all = args.push(arg);
    if args.len() == 0 {
        assert(all.skip(1) =~= Seq::<Seq<u8>>::empty());
        assert(bulks(all.skip(1)) =~= Seq::<u8>::empty());
        assert(bulks(all) =~= bulks(args) + bulk(arg));
    } else {
        assert(all.skip(1) =~= args.skip(1).push(arg));
        lemma_bulks_push(args.skip(1), arg);
        assert(bulks(all) =~= bulks(args) + bulk(arg));
    }
}

/// Whether a CRLF stands at position `i` of `s`.
pub open spec fn crlf_at(s: Seq<u8>, i: int) -> bool {
    0 <= i && i + 1 < s.len() && s[i] == 0x0d && s[i + 1] == 0x0a
}

/// Position of the first CRLF of `s` at or behind `from`.
pub open spec fn first_crlf(s: Seq<u8>, from: int) -> Option<int>
    decreases s.len() - from,
{
    if from + 1 >= s.len() {
        None
    } else if crlf_at(s, from) {
        Some(from)
    } else {
        first_crlf(s, from + 1)
    }
}

/// What the front of a receive buffer holds.
#[verifier::ext_equal]
pub enum Frame {
    /// The beginning of a request: more bytes are needed.
    Partial,
    /// Something that is no request.
    Invalid(Seq<char>),
    /// A request of these arguments, which takes the first `used` bytes.
    Complete { args: Seq<Seq<u8>>, used: int },
}

impl Frame {
    /// The frame with further arguments in front.
    pub open spec fn behind(self, first: Seq<Seq<u8>>) -> Frame {
        match self {
            Frame::Complete { args, used } => Frame::Complete { args: first + args, used },
            _ => self,
        }
    }
}

/// The complaint about a byte that stands where a bulk string should begin.
pub open spec fn no_bulk(b: u8) -> Seq<char> {
    "expected '$', got '"@ + seq![b as char] + "'"@
}

/// Reads `count` bulk strings of `buf` from `cursor` on. A negative length
/// stands for an empty string without data.
pub open spec fn bulks_at(buf: Seq<u8>, cursor: int, count: nat) -> Frame
    decreases count,
{
    if count == 0 {
        Frame::Complete { args: Seq::empty(), used: cursor }
    } else if cursor >= buf.len() {
        Frame::Partial
    } else if buf[cursor] != 0x24 {
        Frame::Invalid(no_bulk(buf[cursor]))
    } else {
        match first_crlf(buf, cursor) {
            None => Frame::Partial,
            Some(end) => match i64_value(buf.subrange(cursor + 1, end)) {
                None => Frame::Invalid("invalid bulk length"@),
                Some(len) => if len < 0 {
                    bulks_at(buf, end + 2, (count - 1) as nat).behind(seq![Seq::empty()])
                } else if end + 2 + len + 2 > buf.len() {
                    Frame::Partial
                } else {
                    bulks_at(buf, end + 2 + len + 2, (count - 1) as nat).behind(
                        seq![buf.subrange(end + 2, end + 2 + len)],
                    )
                },
            },
        }
    }
}

/// Length of the part of `s` before its first space.
pub open spec fn word_len(s: Seq<u8>) -> int
    decreases s.len(),
{
    if s.len() == 0 || s[0] == 0x20 {
        0
    } else {
        1 + word_len(s.skip(1))
    }
}

/// The words of a line, separated by spaces.
pub open spec fn words(s: Seq<u8>) -> Seq<Seq<u8>>
    decreases s.len(),
    via words_decreases
{
    if s.len() == 0 {
        Seq::empty()
    } else if s[0] == 0x20 {
        words(s.skip(1))
    } else {
        seq![s.take(word_len(s))] + words(s.skip(word_len(s)))
    }
}

#[via_fn]
proof fn words_decreases(s: Seq<u8>) {
    if s.len() > 0 && s[0] != 0x20 {
        lemma_word_len(s);
    }
}

proof fn lemma_word_len(s: Seq<u8>)
    ensures
        0 <= word_len(s) <= s.len(),
        s.len() > 0 && s[0] != 0x20 ==> word_len(s) > 0,
        forall|i: int| 0 <= i < word_len(s) ==> #[trigger] s[i] != 0x20,
        word_len(s) < s.len() ==> s[word_len(s)] == 0x20,
    decreases s.len(),
{
    if s.len() > 0 && s[0] != 0x20 {
        lemma_word_len(s.skip(1));
        assert forall|i: int| 0 <= i < word_len(s) implies #[trigger] s[i] != 0x20 by {
            if i > 0 {
                assert(s.skip(1)[i - 1] != 0x20);
            }
        }
    }
}

pub(crate) proof fn lemma_word_len_is(s: Seq<u8>, k: int)
    requires
        0 <= k <= s.len(),
        forall|i: int| 0 <= i < k ==> #[trigger] s[i] != 0x20,
        k < s.len() ==> s[k] == 0x20,
    ensures
        word_len(s) == k,
    decreases s.len(),
{
    if k > 0 {
        lemma_word_len_is(s.skip(1), k - 1);
    }
}

/// What the front of `buf` holds: an array of bulk strings, or else a line of
/// words. An array of negative length is an empty request.
pub open spec fn parse_spec(buf: Seq<u8>) -> Frame {
    if buf.len() == 0 {
        Frame::Partial
    } else {
        match first_crlf(buf, 0) {
            None => Frame::Partial,
            Some(end) => if buf[0] != 0x2a {
                Frame::Complete { args: words(buf.take(end)), used: end + 2 }
            } else {
                match i64_value(buf.subrange(1, end)) {
                    None => Frame::Invalid("invalid array length"@),
                    Some(count) => if count < 0 {
                        Frame::Complete { args: Seq::empty(), used: end + 2 }
                    } else {
                        bulks_at(buf, end + 2, count as nat)
                    },
                }
            },
        }
    }
}

proof fn lemma_first_crlf(s: Seq<u8>, from: int)
    requires
        0 <= from,
    ensures
        match first_crlf(s, from) {
            Some(end) => from <= end && crlf_at(s, end) && (forall|i: int|
                from <= i < end ==> !#[trigger] crlf_at(s, i)),
            None => forall|i: int| from <= i ==> !#[trigger] crlf_at(s, i),
        },
    decreases s.len() - from,
{
    if from + 1 < s.len() && !crlf_at(s, from) {
        lemma_first_crlf(s, from + 1);
    }
}

/// Position of the first CRLF of `buf` at or behind `from`.
pub fn find_crlf(buf: &[u8], from: usize) -> (pos: Option<usize>)
    requires
        from <= buf@.len(),
    ensures
        match pos {
            Some(p) => first_crlf(buf@, from as int) == Some(p as int) && from <= p && p + 1
                < buf@.len(),
            None => first_crlf(buf@, from as int) is None,
        },
{
    let mut i: usize = from;
    while buf.len() - i >= 2
        invariant
            from <= i <= buf@.len(),
            first_crlf(buf@, from as int) == first_crlf(buf@, i as int),
        decreases buf@.len() - i,
    {
        if buf[i] == 0x0d && buf[i + 1] == 0x0a {
            return Some(i);
        }
        i = i + 1;
    }
    None
}

/// The words of `line`, separated by spaces.
fn split_words(line: &[u8]) -> (list: Vec<Bytes>)
    ensures
        contents(list@) == words(line@),
{
    let mut list: Vec<Bytes> = Vec::new();
    let mut i: usize = 0;
    assert(line@.skip(0) =~= line@);
    assert(contents(list@) + words(line@) =~= words(line@));
    while i < line.len()
        invariant
            i <= line@.len(),
            contents(list@) + words(line@.skip(i as int)) == words(line@),
        decreases line@.len() - i,
    {
        let ghost rest = line@.skip(i as int);
        if line[i] == 0x20 {
            assert(rest.skip(1) =~= line@.skip(i + 1));
            i = i + 1;
        } else {
            let mut end: usize = i;
            while end < line.len() && line[end] != 0x20
                invariant
                    i <= end <= line@.len(),
                    forall|k: int| i <= k < end ==> #[trigger] line@[k] != 0x20,
                decreases line@.len() - end,
            {
                end = end + 1;
            }
            proof {
                lemma_word_len_is(rest, end - i);
                assert(rest.take(end - i) =~= line@.subrange(i as int, end as int));
                assert(rest.skip(end - i) =~= line@.skip(end as int));
            }
            let word = Bytes::copy_from_slice(&line[i..end]);
            let ghost before = list@;
            list.push(word);
            assert(contents(list@) =~= contents(before).push(content(word)));
            assert(contents(list@) + words(line@.skip(end as int)) =~= contents(before) + words(
                rest,
            ));
            i = end;
        }
    }
    assert(line@.skip(i as int) =~= Seq::<u8>::empty());
    assert(contents(list@) + words(line@.skip(i as int)) =~= contents(list@));
    list
}

/// A protocol error with the text `what`.
fn protocol(what: &str) -> (e: RespError)
    ensures
        e matches RespError::Protocol(s) && s@ == what@,
{
    RespError::Protocol(what.to_owned())
}

/// Whether `result` says of a buffer what `frame` does.
pub open spec fn reads_as(
    result: Result<Option<(Vec<Bytes>, usize)>, RespError>,
    frame: Frame,
) -> bool {
    match frame {
        Frame::Partial => result matches Ok(None),
        Frame::Invalid(what) => result matches Err(RespError::Protocol(s)) && s@ == what,
        Frame::Complete { args, used } => result matches Ok(Some((list, n))) && contents(list@)
            == args && n == used,
    }
}

/// Reads `count` bulk strings of `data` from `start` on: the strings, and the
/// position behind them.
fn read_bulks(data: &[u8], start: usize, count: i64) -> (result: Result<
    Option<(Vec<Bytes>, usize)>,
    RespError,
>)
    requires
        start <= data@.len(),
        count >= 0,
    ensures
        reads_as(result, bulks_at(data@, start as int, count as nat)),
        result matches Ok(Some((_, used))) ==> start <= used <= data@.len(),
{
    let mut args: Vec<Bytes> = Vec::new();
    let mut cursor: usize = start;
    let mut left: i64 = count;
    let ghost frame = bulks_at(data@, start as int, count as nat);
    assert(frame =~= frame.behind(contents(args@))) by {
        if let Frame::Complete { args: a, used } = frame {
            assert(contents(args@) + a =~= a);
        }
    }
    while left > 0
        invariant
            0 <= left,
            start <= cursor <= data@.len(),
            frame == bulks_at(data@, start as int, count as nat),
            frame == bulks_at(data@, cursor as int, left as nat).behind(contents(args@)),
        decreases left,
    {
        if cursor >= data.len() {
            return Ok(None);
        }
        if data[cursor] != 0x24 {
            let mut what = "expected '$', got '".to_owned();
            what.push(data[cursor] as char);
            what.append("'");
            assert(what@ =~= no_bulk(data@[cursor as int]));
            return Err(RespError::Protocol(what));
        }
        let ghost before = args@;
        let end: usize = match find_crlf(data, cursor) {
            None => return Ok(None),
            Some(p) => p,
        };
        assert(end > cursor) by {
            lemma_first_crlf(data@, cursor as int);
        }
        let len: i64 = match read_i64(&data[cursor + 1..end]) {
            None => return Err(protocol("invalid bulk length")),
            Some(n) => n,
        };
        let ghost rest_count = (left - 1) as nat;
        if len < 0 {
            let ghost rest = bulks_at(data@, end + 2, rest_count);
            args.push(Bytes::new());
            proof {
                let one = seq![Seq::<u8>::empty()];
                assert(contents(args@) =~= contents(before) + one);
                if let Frame::Complete { args: a, used } = rest {
                    assert(contents(before) + (one + a) =~= contents(args@) + a);
                }
            }
            cursor = end + 2;
        } else {
            let data_start: usize = end + 2;
            if len as u64 > (data.len() - data_start) as u64 || data.len() - data_start
                - (len as usize) < 2 {
                return Ok(None);
            }
            let data_end: usize = data_start + len as usize;
            let ghost rest = bulks_at(data@, data_end + 2, rest_count);
            args.push(Bytes::copy_from_slice(&data[data_start..data_end]));
            proof {
                let one = seq![data@.subrange(data_start as int, data_end as int)];
                assert(contents(args@) =~= contents(before) + one);
                if let Frame::Complete { args: a, used } = rest {
                    assert(contents(before) + (one + a) =~= contents(args@) + a);
                }
            }
            cursor = data_end + 2;
        }
        left = left - 1;
    }
    proof {
        assert(contents(args@) + Seq::<Seq<u8>>::empty() =~= contents(args@));
    }
    Ok(Some((args, cursor)))
}

/// Reads the request at the front of `data`: its arguments and its length.
pub(crate) fn read_frame(data: &[u8]) -> (result: Result<Option<(Vec<Bytes>, usize)>, RespError>)
    ensures
        reads_as(result, parse_spec(data@)),
        result matches Ok(Some((_, used))) ==> used <= data@.len(),
{
    if data.len() == 0 {
        return Ok(None);
    }
    let end: usize = match find_crlf(data, 0) {
        None => return Ok(None),
        Some(p) => p,
    };
    if data[0] != 0x2a {
        assert(data@.subrange(0, end as int) =~= data@.take(end as int));
        return Ok(Some((split_words(&data[0..end]), end + 2)));
    }
    assert(end > 0) by {
        lemma_first_crlf(data@, 0);
    }
    match read_i64(&data[1..end]) {
        None => Err(protocol("invalid array length")),
        Some(count) => {
            if count < 0 {
                let none: Vec<Bytes> = Vec::new();
                assert(contents(none@) =~= Seq::<Seq<u8>>::empty());
                Ok(Some((none, end + 2)))
            } else {
                read_bulks(data, end + 2, count)
            }
        },
    }
}

/// Parses one RESP request (an array of bulk strings) from `buf`, advancing it
/// past the consumed bytes. Returns `Ok(None)` if more data is needed; then,
/// and on an error, `buf` stays as it is.
///
/// Also accepts the inline form, a bare line without `*` and `$` framing.
pub fn parse_command(buf: &mut BytesMut) -> (result: Result<Option<Vec<Bytes>>, RespError>)
    ensures
        match parse_spec(buffered(*old(buf))) {
            Frame::Partial => result matches Ok(None) && buffered(*final(buf)) == buffered(
                *old(buf),
            ),
            Frame::Invalid(what) => result matches Err(RespError::Protocol(s)) && s@ == what
                && buffered(*final(buf)) == buffered(*old(buf)),
            Frame::Complete { args, used } => result matches Ok(Some(list)) && contents(list@)
                == args && 0 <= used <= buffered(*old(buf)).len() && buffered(*final(buf)) == buffered(
                *old(buf),
            ).skip(used),
        },
{
    match read_frame(buf) {
        Ok(Some((args, used))) => {
            advance(buf, used);
            Ok(Some(args))
        },
        Ok(None) => Ok(None),
        Err(e) => Err(e),
    }
}

/// Parses one bulk string from `buf`, advancing it past the consumed bytes.
/// Returns `Ok(None)` if more data is needed; then, and on an error, `buf`
/// stays as it is.
pub fn parse_bulk_reply(buf: &mut BytesMut) -> (result: Result<Option<Bytes>, RespError>)
    ensures
        match bulks_at(buffered(*old(buf)), 0, 1) {
            Frame::Partial => result matches Ok(None) && buffered(*final(buf)) == buffered(
                *old(buf),
            ),
            Frame::Invalid(what) => result matches Err(RespError::Protocol(s)) && s@ == what
                && buffered(*final(buf)) == buffered(*old(buf)),
            Frame::Complete { args, used } => result matches Ok(Some(data)) && args == seq![
                content(data),
            ] && 0 <= used <= buffered(*old(buf)).len() && buffered(*final(buf)) == buffered(
                *old(buf),
            ).skip(used),
        },
{
    proof {
        reveal_with_fuel(bulks_at, 2);
    }
    match read_bulks(buf, 0, 1) {
        Ok(Some((mut args, used))) => {
            advance(buf, used);
            let ghost all = args@;
            proof {
                lemma_bulks_at_count(buffered(*old(buf)), 0, 1);
                assert(contents(all).len() == 1);
            }
            let data: Bytes = args.swap_remove(0);
            assert(contents(all) =~= seq![content(data)]);
            Ok(Some(data))
        },
        Ok(None) => Ok(None),
        Err(e) => Err(e),
    }
}

/// A complete frame has as many arguments as were asked for, and ends within
/// the buffer.
proof fn lemma_bulks_at_count(buf: Seq<u8>, cursor: int, count: nat)
    requires
        0 <= cursor <= buf.len(),
    ensures
        bulks_at(buf, cursor, count) matches Frame::Complete { args, used } ==> args.len() == count
            && cursor <= used <= buf.len(),
    decreases count,
{
    if count > 0 && cursor < buf.len() && buf[cursor] == 0x24 {
        lemma_first_crlf(buf, cursor);
        if let Some(end) = first_crlf(buf, cursor) {
            if let Some(len) = i64_value(buf.subrange(cursor + 1, end)) {
                if len < 0 {
                    lemma_bulks_at_count(buf, end + 2, (count - 1) as nat);
                } else if end + 2 + len + 2 <= buf.len() {
                    lemma_bulks_at_count(buf, end + 2 + len + 2, (count - 1) as nat);
                }
            }
        }
    }
}

/// A line that holds no carriage return of its own ends at its CRLF.
pub(crate) proof fn lemma_line_end(buf: Seq<u8>, from: int, end: int)
    requires
        0 <= from <= end,
        forall|i: int| from <= i < end && i < buf.len() ==> #[trigger] buf[i] != 0x0d,
    ensures
        crlf_at(buf, end) ==> first_crlf(buf, from) == Some(end),
        end + 1 >= buf.len() ==> first_crlf(buf, from) is None,
    decreases end - from,
{
    if from < end {
        lemma_line_end(buf, from + 1, end);
    }
}

/// Facts about the header line of a bulk string that starts at `cursor`.
proof fn lemma_bulk_header(buf: Seq<u8>, cursor: int, data: Seq<u8>)
    requires
        0 <= cursor < buf.len(),
        data.len() <= i64::MAX,
        ({
            let head = line(0x24, dec_int(data.len() as int));
            let part = if head.len() <= buf.len() - cursor {
                head
            } else {
                head.take(buf.len() - cursor)
            };
            buf.subrange(cursor, cursor + part.len()) == part
        }),
    ensures
        ({
            let head = line(0x24, dec_int(data.len() as int));
            let end = cursor + head.len() - 2;
            &&& buf[cursor] == 0x24
            &&& head.len() <= buf.len() - cursor ==> first_crlf(buf, cursor) == Some(end)
                && i64_value(buf.subrange(cursor + 1, end)) == Some(data.len() as i64)
            &&& head.len() > buf.len() - cursor ==> first_crlf(buf, cursor) is None
        }),
{
    let digits = dec_int(data.len() as int);
    let head = line(0x24, digits);
    let part = if head.len() <= buf.len() - cursor {
        head
    } else {
        head.take(buf.len() - cursor)
    };
    let end = cursor + head.len() - 2;
    let seen = buf.subrange(cursor, cursor + part.len());
    lemma_dec_int_no_cr(data.len() as int);
    lemma_dec_int_read(data.len() as i64);
    assert forall|i: int| cursor <= i < end && i < buf.len() implies #[trigger] buf[i] != 0x0d by {
        assert(seen[i - cursor] == buf[i]);
        if i > cursor {
            assert(head[i - cursor] == digits[i - cursor - 1]);
        }
    }
    assert(seen[0] == buf[cursor]);
    lemma_line_end(buf, cursor, end);
    if head.len() <= buf.len() - cursor {
        assert(seen[head.len() - 2] == buf[end]);
        assert(seen[head.len() - 1] == buf[end + 1]);
        assert(buf.subrange(cursor + 1, end) =~= digits) by {
            assert forall|i: int| 0 <= i < digits.len() implies buf.subrange(cursor + 1, end)[i]
                == digits[i] by {
                assert(seen[i + 1] == buf[cursor + 1 + i]);
                assert(head[i + 1] == digits[i]);
            }
        }
    }
}

/// Bulk strings in front of anything are read back.
proof fn lemma_bulks_read(buf: Seq<u8>, cursor: int, args: Seq<Seq<u8>>, rest: Seq<u8>)
    requires
        0 <= cursor <= buf.len(),
        buf.skip(cursor) == bulks(args) + rest,
        forall|i: int| 0 <= i < args.len() ==> #[trigger] args[i].len() <= i64::MAX,
    ensures
        bulks_at(buf, cursor, args.len()) == (Frame::Complete {
            args,
            used: cursor + bulks(args).len(),
        }),
    decreases args.len(),
{
    if args.len() == 0 {
        assert(args =~= Seq::<Seq<u8>>::empty());
    } else {
        let data = args[0];
        let more = args.skip(1);
        let head = line(0x24, dec_int(data.len() as int));
        let tail = buf.skip(cursor);
        let all = bulk(data) + bulks(more) + rest;
        assert(tail =~= all);
        assert(tail.len() == head.len() + data.len() + 2 + bulks(more).len() + rest.len());
        assert(buf.subrange(cursor, cursor + head.len()) =~= head) by {
            assert forall|i: int| 0 <= i < head.len() implies buf.subrange(
                cursor,
                cursor + head.len(),
            )[i] == head[i] by {
                assert(buf[cursor + i] == tail[i]);
                assert(all[i] == head[i]);
            }
        }
        lemma_bulk_header(buf, cursor, data);
        let start = cursor + head.len();
        assert(buf.subrange(start, start + data.len()) =~= data) by {
            assert forall|i: int| 0 <= i < data.len() implies buf.subrange(
                start,
                start + data.len(),
            )[i] == data[i] by {
                assert(buf[start + i] == tail[head.len() + i]);
                assert(all[head.len() + i] == data[i]);
            }
        }
        let next = start + data.len() + 2;
        assert(buf.skip(next) =~= bulks(more) + rest) by {
            assert forall|i: int| 0 <= i < buf.len() - next implies buf.skip(next)[i] == (bulks(
                more,
            ) + rest)[i] by {
                assert(buf[next + i] == tail[bulk(data).len() + i]);
                assert(all[bulk(data).len() + i] == (bulks(more) + rest)[i]);
            }
        }
        lemma_bulks_read(buf, next, more, rest);
        assert(seq![data] + more =~= args);
    }
}

/// Whether every count of a request fits the protocol's signed 64-bit integers.
pub open spec fn countable(request: Seq<Seq<u8>>) -> bool {
    &&& request.len() <= i64::MAX
    &&& forall|i: int| 0 <= i < request.len() ==> #[trigger] request[i].len() <= i64::MAX
}

/// A request that stands in front of anything is read back whole: its
/// arguments come out, and exactly its bytes are consumed. The counts must fit
/// the protocol's signed 64-bit integers.
pub proof fn law_round_trip(args: Seq<Seq<u8>>, rest: Seq<u8>)
    requires
        countable(args),
    ensures
        parse_spec(encode_command_spec(args) + rest) == (Frame::Complete {
            args,
            used: encode_command_spec(args).len() as int,
        }),
{
    let n = args.len() as int;
    let digits = dec_int(n);
    let head = line(0x2a, digits);
    let buf = encode_command_spec(args) + rest;
    lemma_dec_int_no_cr(n);
    lemma_dec_int_read(n as i64);
    let end = head.len() - 2;
    assert forall|i: int| 0 <= i < end && i < buf.len() implies #[trigger] buf[i] != 0x0d by {
        assert(buf[i] == head[i]);
        if i > 0 {
            assert(head[i] == digits[i - 1]);
        }
    }
    assert(buf[end] == head[end] && buf[end + 1] == head[end + 1]);
    lemma_line_end(buf, 0, end);
    assert(buf.subrange(1, end) =~= digits);
    assert(buf.skip(head.len() as int) =~= bulks(args) + rest);
    lemma_bulks_read(buf, head.len() as int, args, rest);
}

/// Part of a list of bulk strings is not taken for the whole.
proof fn lemma_bulks_partial(buf: Seq<u8>, cursor: int, args: Seq<Seq<u8>>)
    requires
        0 <= cursor <= buf.len(),
        buf.len() - cursor < bulks(args).len(),
        buf.skip(cursor) == bulks(args).take(buf.len() - cursor),
        forall|i: int| 0 <= i < args.len() ==> #[trigger] args[i].len() <= i64::MAX,
    ensures
        bulks_at(buf, cursor, args.len()) == Frame::Partial,
    decreases args.len(),
{
    assert(args.len() > 0);
    if cursor < buf.len() {
        let data = args[0];
        let more = args.skip(1);
        let head = line(0x24, dec_int(data.len() as int));
        let tail = buf.skip(cursor);
        let all = bulk(data) + bulks(more);
        let k = buf.len() - cursor;
        let part = if head.len() <= k {
            head
        } else {
            head.take(k)
        };
        assert(buf.subrange(cursor, cursor + part.len()) =~= part) by {
            assert forall|i: int| 0 <= i < part.len() implies buf.subrange(
                cursor,
                cursor + part.len(),
            )[i] == part[i] by {
                assert(buf[cursor + i] == tail[i]);
                assert(all[i] == head[i]);
            }
        }
        lemma_bulk_header(buf, cursor, data);
        if head.len() <= k {
            let next = cursor + bulk(data).len();
            if next <= buf.len() {
                assert(buf.skip(next) =~= bulks(more).take(buf.len() - next)) by {
                    assert forall|i: int| 0 <= i < buf.len() - next implies buf.skip(next)[i]
                        == bulks(more)[i] by {
                        assert(buf[next + i] == tail[bulk(data).len() + i]);
                        assert(all[bulk(data).len() + i] == bulks(more)[i]);
                    }
                }
                lemma_bulks_partial(buf, next, more);
            }
        }
    }
}

/// A request that has arrived only in part is not taken for a request: the
/// parser asks for more, whatever point it was cut at.
pub proof fn law_partial_request_waits(args: Seq<Seq<u8>>, k: int)
    requires
        countable(args),
        0 <= k < encode_command_spec(args).len(),
    ensures
        parse_spec(encode_command_spec(args).take(k)) == Frame::Partial,
{
    let n = args.len() as int;
    let digits = dec_int(n);
    let head = line(0x2a, digits);
    let whole = encode_command_spec(args);
    let buf = whole.take(k);
    lemma_dec_int_no_cr(n);
    lemma_dec_int_read(n as i64);
    let end = head.len() - 2;
    assert forall|i: int| 0 <= i < end && i < buf.len() implies #[trigger] buf[i] != 0x0d by {
        assert(buf[i] == head[i]);
        if i > 0 {
            assert(head[i] == digits[i - 1]);
        }
    }
    lemma_line_end(buf, 0, end);
    if head.len() <= k {
        assert(buf[end] == head[end] && buf[end + 1] == head[end + 1]);
        assert(buf.subrange(1, end) =~= digits);
        assert(buf.skip(head.len() as int) =~= bulks(args).take(k - head.len()));
        lemma_bulks_partial(buf, head.len() as int, args);
    }
}

proof fn lemma_first_crlf_more(buf: Seq<u8>, more: Seq<u8>, from: int)
    requires
        0 <= from,
    ensures
        first_crlf(buf, from) is Some ==> first_crlf(buf + more, from) == first_crlf(buf, from),
    decreases buf.len() - from,
{
    if from + 1 < buf.len() && !crlf_at(buf, from) {
        lemma_first_crlf_more(buf, more, from + 1);
    }
}

proof fn lemma_bulks_at_more(buf: Seq<u8>, more: Seq<u8>, cursor: int, count: nat)
    requires
        0 <= cursor <= buf.len(),
    ensures
        bulks_at(buf, cursor, count) != Frame::Partial ==> bulks_at(buf + more, cursor, count)
            == bulks_at(buf, cursor, count),
    decreases count,
{
    if count > 0 && cursor < buf.len() && buf[cursor] == 0x24 {
        lemma_first_crlf(buf, cursor);
        lemma_first_crlf_more(buf, more, cursor);
        if let Some(end) = first_crlf(buf, cursor) {
            assert((buf + more).subrange(cursor + 1, end) =~= buf.subrange(cursor + 1, end));
            if let Some(len) = i64_value(buf.subrange(cursor + 1, end)) {
                if len < 0 {
                    lemma_bulks_at_more(buf, more, end + 2, (count - 1) as nat);
                } else if end + 2 + len + 2 <= buf.len() {
                    assert((buf + more).subrange(end + 2, end + 2 + len) =~= buf.subrange(
                        end + 2,
                        end + 2 + len,
                    ));
                    lemma_bulks_at_more(buf, more, end + 2 + len + 2, (count - 1) as nat);
                }
            }
        }
    }
}

/// Once the parser has made up its mind about the front of a buffer, bytes
/// that arrive behind it change nothing: how a stream is cut into reads does
/// not matter.
pub proof fn law_later_bytes_change_nothing(buf: Seq<u8>, more: Seq<u8>)
    requires
        parse_spec(buf) != Frame::Partial,
    ensures
        parse_spec(buf + more) == parse_spec(buf),
{
    lemma_first_crlf(buf, 0);
    lemma_first_crlf_more(buf, more, 0);
    if let Some(end) = first_crlf(buf, 0) {
        if buf[0] != 0x2a {
            assert((buf + more).take(end) =~= buf.take(end));
        } else {
            assert((buf + more).subrange(1, end) =~= buf.subrange(1, end));
            if let Some(count) = i64_value(buf.subrange(1, end)) {
                if count >= 0 {
                    lemma_bulks_at_more(buf, more, end + 2, count as nat);
                }
            }
        }
    }
}

/// A complete request takes at least one byte, and no more than there are.
pub proof fn law_progress(buf: Seq<u8>)
    ensures
        parse_spec(buf) matches Frame::Complete { args, used } ==> 0 < used <= buf.len(),
{
    lemma_first_crlf(buf, 0);
    if let Some(end) = first_crlf(buf, 0) {
        if buf[0] == 0x2a {
            if let Some(count) = i64_value(buf.subrange(1, end)) {
                if count >= 0 {
                    lemma_bulks_at_count(buf, end + 2, count as nat);
                }
            }
        }
    }
}

/// A bulk reply that stands in front of anything is read back whole.
pub proof fn law_bulk_reply_round_trip(data: Seq<u8>, rest: Seq<u8>)
    requires
        data.len() <= i64::MAX,
    ensures
        bulks_at(encode_spec(ReplyView::Bulk(data)) + rest, 0, 1) == (Frame::Complete {
            args: seq![data],
            used: encode_spec(ReplyView::Bulk(data)).len() as int,
        }),
{
    let args = seq![data];
    let buf = bulk(data) + rest;
    reveal_with_fuel(bulks, 2);
    assert(args.skip(1) =~= Seq::<Seq<u8>>::empty());
    assert(bulks(args) =~= bulk(data));
    assert(buf.skip(0) =~= bulks(args) + rest);
    lemma_bulks_read(buf, 0, args, rest);
}

proof fn lemma_encode_all_bulks(args: Seq<Seq<u8>>)
    ensures
        encode_all_spec(args.map_values(|a: Seq<u8>| ReplyView::Bulk(a))) == bulks(args),
    decreases args.len(),
{
    let items = args.map_values(|a: Seq<u8>| ReplyView::Bulk(a));
    if args.len() > 0 {
        let front = args.drop_last();
        lemma_encode_all_bulks(front);
        assert(items.subrange(0, items.len() - 1) =~= front.map_values(
            |a: Seq<u8>| ReplyView::Bulk(a),
        ));
        lemma_bulks_push(front, args.last());
        assert(front.push(args.last()) =~= args);
        assert(items[items.len() - 1] == ReplyView::Bulk(args.last()));
        reveal_with_fuel(encode_spec, 2);
        reveal_with_fuel(encode_all_spec, 2);
    }
}

/// A command that is streamed to a replica as an array reply looks on the wire
/// like the same command sent as a request.
pub proof fn law_array_of_bulks_is_a_request(args: Seq<Seq<u8>>)
    ensures
        encode_spec(ReplyView::Array(args.map_values(|a: Seq<u8>| ReplyView::Bulk(a))))
            == encode_command_spec(args),
{
    lemma_encode_all_bulks(args);
}

/// Decodes RESP requests and encodes RESP replies.
#[derive(Debug, Default)]
pub struct RespCodec;

impl RespCodec {
    /// Takes the next request off the front of `src`, if it is complete.
    pub fn decode(&mut self, src: &mut BytesMut) -> (result: Result<
        Option<Vec<Bytes>>,
        RespError,
    >)
        ensures
            match parse_spec(buffered(*old(src))) {
                Frame::Partial => result matches Ok(None) && buffered(*final(src)) == buffered(
                    *old(src),
                ),
                Frame::Invalid(what) => result matches Err(RespError::Protocol(s)) && s@ == what
                    && buffered(*final(src)) == buffered(*old(src)),
                Frame::Complete { args, used } => result matches Ok(Some(list)) && contents(list@)
                    == args && 0 <= used <= buffered(*old(src)).len() && buffered(*final(src))
                    == buffered(*old(src)).skip(used),
            },
    {
        parse_command(src)
    }

    /// Appends the wire form of `item`.
    pub fn encode(&mut self, item: Reply, dst: &mut Vec<u8>) -> (result: Result<(), RespError>)
        ensures
            result is Ok,
            final(dst)@ == old(dst)@ + encode_spec(item@),
    {
        encode_reply(&item, dst);
        Ok(())
    }
}

} // verus!
