//! The append-only log: every write command as it was received, each behind the
//! time at which it was executed. A replayed command is executed as of that time,
//! so that expiry times and keys that were expired by then are what they were.

use bytes::{Bytes, BytesMut};
use vstd::prelude::*;
use vstd::string::*;
use vstd::utf8::encode_utf8;

use crate::buf::{buffered, content, contents, from_vec};
use crate::bytemap::same_bytes;
use crate::commands::{copy_from, is_word, meaning, parse_at, spells, to_upper, upper};
use crate::decimal::{dec_nat, lemma_dec_nat_read, push_nat, read_u64, u64_value};
use crate::execute::{execute_at, outcome};
use crate::pubsub::PubSub;
use crate::resp::{
    countable, encode_command, encode_command_spec, law_partial_request_waits, law_progress, law_round_trip,
    parse_command, parse_spec, Frame, ReplyView,
};
use crate::shard::now_ms;
use crate::store::{Store, StoreView};

verus! {

broadcast use crate::buf::lemma_contents_push;

/// When what was appended to the log is forced to disk.
#[derive(Debug, Clone, Copy, PartialEq, Eq, Structural)]
pub enum FsyncPolicy {
    /// After every write: safest, slowest.
    Always,
    /// Roughly once a second, by a background task.
    EverySec,
    /// When the operating system sees fit: fastest, least durable.
    Never,
}

impl FsyncPolicy {
    /// The policy that a word stands for, in either case.
    pub open spec fn meant_by(word: Seq<char>) -> Option<FsyncPolicy> {
        let name = upper(encode_utf8(word));
        if spells(name, "ALWAYS"@) {
            Some(FsyncPolicy::Always)
        } else if spells(name, "EVERYSEC"@) {
            Some(FsyncPolicy::EverySec)
        } else if spells(name, "NO"@) || spells(name, "NEVER"@) {
            Some(FsyncPolicy::Never)
        } else {
            None
        }
    }

    /// Reads a policy: `always`, `everysec`, `no` or `never`, in either case.
    pub fn parse(s: &str) -> (policy: Option<Self>)
        ensures
            policy == Self::meant_by(s@),
    {
        proof {
            reveal_strlit("ALWAYS");
            reveal_strlit("EVERYSEC");
            reveal_strlit("NO");
            reveal_strlit("NEVER");
        }
        let name = to_upper(s.as_bytes());
        if is_word(&name, "ALWAYS") {
            Some(FsyncPolicy::Always)
        } else if is_word(&name, "EVERYSEC") {
            Some(FsyncPolicy::EverySec)
        } else if is_word(&name, "NO") || is_word(&name, "NEVER") {
            Some(FsyncPolicy::Never)
        } else {
            None
        }
    }

    /// Whether an append has to reach the disk before it is reported done.
    pub fn syncs_each_write(&self) -> (now: bool)
        ensures
            now == (*self == FsyncPolicy::Always),
    {
        matches!(*self, FsyncPolicy::Always)
    }
}

/// The lines that a log holds: those in front of the first thing that is
/// incomplete or no request.
pub open spec fn logged(log: Seq<u8>) -> Seq<Seq<Seq<u8>>>
    decreases log.len(),
{
    match parse_spec(log) {
        Frame::Complete { args, used } => if 0 < used <= log.len() {
            seq![args] + logged(log.skip(used))
        } else {
            Seq::empty()
        },
        _ => Seq::empty(),
    }
}

/// A log of the given lines.
pub open spec fn log_of(lines: Seq<Seq<Seq<u8>>>) -> Seq<u8>
    decreases lines.len(),
{
    if lines.len() == 0 {
        Seq::empty()
    } else {
        encode_command_spec(lines[0]) + log_of(lines.skip(1))
    }
}

/// The word in front of the time in a line of a log.
pub open spec fn stamp_word() -> Seq<u8> {
    encode_utf8("AT"@)
}

/// The line that a log holds for a request that was executed at the time `now`:
/// the word `AT` and the time, then the request as it was received.
pub open spec fn stamped(request: Seq<Seq<u8>>, now: u64) -> Seq<Seq<u8>> {
    seq![stamp_word(), dec_nat(now as nat)] + request
}

/// The time that a line of a log starts with, if it does.
pub open spec fn stamp_of(line: Seq<Seq<u8>>) -> Option<u64> {
    if line.len() >= 2 && line[0] == stamp_word() {
        u64_value(line[1])
    } else {
        None
    }
}

/// The request in a line of a log, and when it was executed: a line that does
/// not start with a time is a request as of `now`.
pub open spec fn executed(line: Seq<Seq<u8>>, now: u64) -> (Seq<Seq<u8>>, u64) {
    match stamp_of(line) {
        Some(at) => (line.skip(2), at),
        None => (line, now),
    }
}

/// A line of a log gives back the request and the time that it was made of,
/// whenever it is read.
pub proof fn law_stamp_is_read_back(request: Seq<Seq<u8>>, at: u64, now: u64)
    ensures
        executed(stamped(request, at), now) == (request, at),
{
    lemma_dec_nat_read(at as nat);
    assert(stamped(request, at).skip(2) =~= request);
}

/// Whether taking over one line of a log or of the stream of a primary at the
/// time `now` may turn `before` into `after`.
pub open spec fn takes_over(
    before: StoreView,
    channels: Set<Seq<u8>>,
    line: Seq<Seq<u8>>,
    now: u64,
    after: StoreView,
) -> bool {
    applies(before, channels, executed(line, now).0, executed(line, now).1, after)
}

/// Whether executing a request at the time `now` may turn `before` into `after`:
/// what is no command is passed over.
pub open spec fn applies(
    before: StoreView,
    channels: Set<Seq<u8>>,
    request: Seq<Seq<u8>>,
    now: u64,
    after: StoreView,
) -> bool {
    match meaning(request, now) {
        Ok(cmd) => exists|reply: ReplyView| #[trigger]
            outcome(before, channels, cmd, now, reply, after),
        Err(_) => after == before,
    }
}

/// Whether `states` are those that a store goes through while `lines` are taken
/// over one after the other.
pub open spec fn replay_states(
    states: Seq<StoreView>,
    lines: Seq<Seq<Seq<u8>>>,
    now: u64,
) -> bool {
    &&& states.len() == lines.len() + 1
    &&& forall|i: int|
        0 <= i < lines.len() ==> takes_over(
            #[trigger] states[i],
            Set::empty(),
            lines[i],
            now,
            states[i + 1],
        )
}

/// Whether taking over `lines` one after the other may turn `before` into
/// `after`.
pub open spec fn replays(
    before: StoreView,
    lines: Seq<Seq<Seq<u8>>>,
    now: u64,
    after: StoreView,
) -> bool {
    exists|states: Seq<StoreView>| #[trigger]
        replay_states(states, lines, now) && states.first() == before && states.last() == after
}

/// The line that the log and the replicas get for the command with the arguments
/// `args`, which was executed at the time `now`.
pub fn stamp(args: &[Bytes], now: u64) -> (line: Vec<Bytes>)
    ensures
        contents(line@) == stamped(contents(args@), now),
{
    let mut digits: Vec<u8> = Vec::new();
    push_nat(&mut digits, now);
    assert(digits@ =~= dec_nat(now as nat));
    let mut line: Vec<Bytes> = Vec::new();
    line.push(Bytes::copy_from_slice("AT".as_bytes()));
    line.push(from_vec(digits));
    let ghost head = contents(line@);
    assert(head =~= seq![stamp_word(), dec_nat(now as nat)]);
    let mut i: usize = 0;
    while i < args.len()
        invariant
            i <= args@.len(),
            contents(line@) =~= head + contents(args@).take(i as int),
        decreases args@.len() - i,
    {
        line.push(args[i].clone());
        assert(contents(args@)[i as int] == content(args@[i as int]));
        i = i + 1;
    }
    assert(contents(args@).take(i as int) =~= contents(args@));
    line
}

/// The time that a line of a log starts with, if it does.
pub fn read_stamp(line: &[Bytes]) -> (at: Option<u64>)
    ensures
        at == stamp_of(contents(line@)),
{
    if line.len() < 2 {
        return None;
    }
    assert(contents(line@)[0] == content(line@[0]));
    assert(contents(line@)[1] == content(line@[1]));
    if same_bytes(&line[0], "AT".as_bytes()) {
        read_u64(&line[1])
    } else {
        None
    }
}

/// The request in a line of a log, and when it was executed.
pub fn unstamp(line: &[Bytes], now: u64) -> (request: (Vec<Bytes>, u64))
    ensures
        (contents(request.0@), request.1) == executed(contents(line@), now),
{
    match read_stamp(line) {
        Some(at) => (copy_from(line, 2), at),
        None => {
            assert(contents(line@).skip(0) =~= contents(line@));
            (copy_from(line, 0), now)
        },
    }
}

/// What is appended to the log for a line.
pub fn record(line: &[Bytes]) -> (bytes: Bytes)
    ensures
        content(bytes) == encode_command_spec(contents(line@)),
{
    encode_command(line)
}

/// Takes over one line of a log at the time `now`.
fn apply(store: &mut Store, line: &[Bytes], now: u64)
    requires
        old(store).wf(),
    ensures
        final(store).wf(),
        takes_over(old(store)@, Set::empty(), contents(line@), now, final(store)@),
{
    let (args, at) = unstamp(line, now);
    if let Ok(cmd) = parse_at(&args, at) {
        let nobody = PubSub::new();
        let reply = execute_at(store, &nobody, &cmd, at);
        proof {
            assert(nobody@.dom() =~= Set::<Seq<u8>>::empty());
            assert(outcome(old(store)@, Set::empty(), cmd@, at, reply@, store@));
        }
    }
}

/// Takes over every line of a log, up to the first thing that is incomplete (an
/// append that was cut short) or no request. A line that does not say when it was
/// executed is taken over as of `now`.
pub fn replay_at(log: &mut BytesMut, store: &mut Store, now: u64)
    requires
        old(store).wf(),
    ensures
        final(store).wf(),
        replays(old(store)@, logged(buffered(*old(log))), now, final(store)@),
{
    let ghost all = logged(buffered(*log));
    let ghost mut done: Seq<Seq<Seq<u8>>> = Seq::empty();
    let ghost mut states: Seq<StoreView> = seq![store@];
    let mut going: bool = true;
    assert(done + logged(buffered(*log)) =~= all);
    while going
        invariant
            store.wf(),
            all == logged(buffered(*old(log))),
            going ==> all == done + logged(buffered(*log)),
            !going ==> all == done,
            replay_states(states, done, now),
            states.first() == old(store)@,
            states.last() == store@,
        decreases
            buffered(*log).len() + if going {
                1int
            } else {
                0int
            },
    {
        let ghost before = buffered(*log);
        proof {
            law_progress(before);
        }
        match parse_command(log) {
            Ok(Some(args)) => {
                apply(store, &args, now);
                proof {
                    let request = contents(args@);
                    let was = states;
                    let had = done;
                    states = states.push(store@);
                    done = done.push(request);
                    assert forall|i: int| 0 <= i < done.len() implies takes_over(
                        #[trigger] states[i],
                        Set::empty(),
                        done[i],
                        now,
                        states[i + 1],
                    ) by {
                        if i < had.len() {
                            assert(states[i] == was[i]);
                        }
                    }
                    assert(all =~= done + logged(buffered(*log)));
                }
            },
            _ => {
                going = false;
                assert(all =~= done);
            },
        }
    }
}

/// Takes over every line of a log by the system clock; see [`replay_at`].
pub fn replay(log: &mut BytesMut, store: &mut Store)
    requires
        old(store).wf(),
    ensures
        final(store).wf(),
        exists|now: u64| #[trigger]
            replays(old(store)@, logged(buffered(*old(log))), now, final(store)@),
{
    let now: u64 = now_ms();
    replay_at(log, store, now)
}

/// A log gives back the lines that were appended to it, in order, also where the
/// last append was cut short.
pub proof fn law_log_gives_back_what_was_appended(
    lines: Seq<Seq<Seq<u8>>>,
    last: Seq<Seq<u8>>,
    k: int,
)
    requires
        forall|i: int| 0 <= i < lines.len() ==> countable(#[trigger] lines[i]),
        countable(last),
        0 <= k < encode_command_spec(last).len(),
    ensures
        logged(log_of(lines) + encode_command_spec(last).take(k)) == lines,
    decreases lines.len(),
{
    let tail = encode_command_spec(last).take(k);
    let log = log_of(lines) + tail;
    if lines.len() == 0 {
        assert(log =~= tail);
        law_partial_request_waits(last, k);
    } else {
        let first = lines[0];
        let rest = log_of(lines.skip(1)) + tail;
        assert(log =~= encode_command_spec(first) + rest);
        assert(countable(lines[0]));
        law_round_trip(first, rest);
        law_progress(log);
        assert(log.skip(encode_command_spec(first).len() as int) =~= rest);
        assert forall|i: int| 0 <= i < lines.skip(1).len() implies countable(
            #[trigger] lines.skip(1)[i],
        ) by {
            assert(countable(lines[i + 1]));
        }
        law_log_gives_back_what_was_appended(lines.skip(1), last, k);
        assert(seq![first] + lines.skip(1) =~= lines);
    }
}

/// Appending a line to a log adds it behind the others.
pub proof fn law_log_grows_at_the_end(lines: Seq<Seq<Seq<u8>>>, line: Seq<Seq<u8>>)
    ensures
        log_of(lines.push(line)) == log_of(lines) + encode_command_spec(line),
    decreases lines.len(),
{
    let all = lines.push(line);
    if lines.len() == 0 {
        assert(all.skip(1) =~= Seq::<Seq<Seq<u8>>>::empty());
        assert(log_of(all.skip(1)) =~= Seq::<u8>::empty());
        assert(log_of(all) =~= encode_command_spec(line));
    } else {
        assert(all.skip(1) =~= lines.skip(1).push(line));
        law_log_grows_at_the_end(lines.skip(1), line);
        assert(log_of(all) =~= log_of(lines) + encode_command_spec(line));
    }
}

} // verus!
