//! What replies and requests look like on the wire, and how numbers are written
//! and read.

use vstd::prelude::*;
use vstd::utf8::encode_utf8;

use crate::decimal::{
    all_digits, dec_int, dec_nat, denoted, digits_value, i64_value, is_digit, lemma_dec_int_read,
    lemma_dec_nat, u16_value, u64_value,
};
use crate::persistence::aof::{law_log_gives_back_what_was_appended, log_of, logged};
use crate::resp::{
    bulks_at, countable, encode_all_spec, encode_command_spec, encode_spec,
    law_array_of_bulks_is_a_request, law_partial_request_waits, law_round_trip, lemma_line_end,
    lemma_word_len_is, parse_spec, words, Frame, ReplyView,
};

verus! {

/// A decimal number has no zeros in front, and a minus sign exactly if it is
/// negative.
pub proof fn law_numbers_are_written_shortest(n: int)
    ensures
        n >= 0 ==> all_digits(dec_int(n)) && digits_value(dec_int(n)) == n,
        n < 0 ==> dec_int(n)[0] == 0x2d && all_digits(dec_int(n).skip(1)) && digits_value(
            dec_int(n).skip(1),
        ) == -n,
        n > 0 ==> dec_int(n)[0] != 0x30,
        n < 0 ==> dec_int(n).len() > 1 && dec_int(n)[1] != 0x30,
        n == 0 ==> dec_int(n) == seq![0x30u8],
{
    if n >= 0 {
        lemma_dec_nat(n as nat);
        lemma_first_digit(n as nat);
    } else {
        lemma_dec_nat((-n) as nat);
        lemma_first_digit((-n) as nat);
        assert(dec_int(n).skip(1) =~= dec_nat((-n) as nat));
        assert(dec_int(n)[1] == dec_nat((-n) as nat)[0]);
    }
}

proof fn lemma_first_digit(n: nat)
    ensures
        dec_nat(n).len() > 0,
        n > 0 ==> dec_nat(n)[0] != 0x30,
    decreases n,
{
    if n >= 10 {
        lemma_first_digit(n / 10);
        lemma_dec_nat(n / 10);
        assert(dec_nat(n)[0] == dec_nat(n / 10)[0]);
    }
}

/// Each digit counts ten times as much as the next.
pub proof fn law_digits_count_by_place(digits: Seq<u8>, i: int)
    requires
        all_digits(digits),
        0 <= i < digits.len(),
    ensures
        digits_value(Seq::empty()) == 0,
        digits_value(digits.take(i + 1)) == 10 * digits_value(digits.take(i)) + (digits[i] - 48),
        digits_value(digits.take(digits.len() as int)) == digits_value(digits),
{
    assert(digits.take(i + 1).drop_last() =~= digits.take(i));
    assert(digits.take(i + 1).last() == digits[i]);
    assert(is_digit(digits[i]));
    assert(digits.take(digits.len() as int) =~= digits);
}

/// Digits are read as the number that they denote, whatever zeros stand in front,
/// with a plus sign or without, and with a minus sign as its opposite, whenever
/// that is a signed 64-bit number; anything else is no number.
pub proof fn law_numbers_are_read(digits: Seq<u8>)
    requires
        digits.len() > 0,
        all_digits(digits),
    ensures
        i64_value(digits) == if digits_value(digits) <= i64::MAX {
            Some(digits_value(digits) as i64)
        } else {
            None
        },
        i64_value(seq![0x2bu8] + digits) == i64_value(digits),
        i64_value(seq![0x2du8] + digits) == if digits_value(digits) <= -(i64::MIN as int) {
            Some((-(digits_value(digits) as int)) as i64)
        } else {
            None
        },
        u64_value(digits) == if digits_value(digits) <= u64::MAX {
            Some(digits_value(digits) as u64)
        } else {
            None
        },
        u16_value(digits) == if digits_value(digits) <= u16::MAX {
            Some(digits_value(digits) as u16)
        } else {
            None
        },
{
    assert(is_digit(digits[0]));
    assert((seq![0x2bu8] + digits).skip(1) =~= digits);
    assert((seq![0x2du8] + digits).skip(1) =~= digits);
}

/// What is read as a number is digits behind at most one sign.
pub proof fn law_nothing_else_is_a_number(s: Seq<u8>)
    ensures
        i64_value(s) is Some || u64_value(s) is Some || u16_value(s) is Some ==> {
            &&& s.len() > 0
            &&& is_digit(s[0]) || ((s[0] == 0x2b || s[0] == 0x2d) && s.len() > 1)
            &&& forall|i: int| 1 <= i < s.len() ==> 48 <= #[trigger] s[i] <= 57
        },
        u64_value(s) is Some || u16_value(s) is Some ==> s[0] != 0x2d,
{
    if i64_value(s) is Some || u64_value(s) is Some || u16_value(s) is Some {
        let signed = i64_value(s) is Some;
        let digits = crate::decimal::unsigned_part(s, signed);
        assert(denoted(s, signed) is Some);
        assert(all_digits(digits));
        assert forall|i: int| 1 <= i < s.len() implies 48 <= #[trigger] s[i] <= 57 by {
            if digits.len() == s.len() {
                assert(is_digit(digits[i]));
            } else {
                assert(is_digit(digits[i - 1]));
            }
        }
        if digits.len() == s.len() {
            assert(is_digit(digits[0]));
        }
    }
    if u64_value(s) is Some || u16_value(s) is Some {
        let digits = crate::decimal::unsigned_part(s, false);
        assert(all_digits(digits));
        assert(is_digit(digits[0]));
    }
}

/// Simple replies, complaints, numbers, strings and nil on the wire: each starts
/// with the byte of its kind and ends with a line end, a string behind its length.
pub proof fn law_replies_on_the_wire(text: Seq<char>, n: i64, data: Seq<u8>)
    requires
        data.len() <= i64::MAX,
    ensures
        encode_spec(ReplyView::Simple(text)) == seq![0x2bu8] + encode_utf8(text) + seq![
            0x0du8,
            0x0au8,
        ],
        encode_spec(ReplyView::Error(text)) == seq![0x2du8] + encode_utf8(text) + seq![
            0x0du8,
            0x0au8,
        ],
        encode_spec(ReplyView::Nil) == seq![0x24u8, 0x2du8, 0x31u8, 0x0du8, 0x0au8],
        exists|digits: Seq<u8>|
            #[trigger] i64_value(digits) == Some(n) && encode_spec(ReplyView::Integer(n as int))
                == (seq![0x3au8] + digits + seq![0x0du8, 0x0au8]),
        exists|digits: Seq<u8>|
            #[trigger] i64_value(digits) == Some(data.len() as i64) && all_digits(digits) && encode_spec(
                ReplyView::Bulk(data),
            ) == (seq![0x24u8] + digits + seq![0x0du8, 0x0au8]) + data + seq![
                0x0du8,
                0x0au8,
            ],
{
    let end = seq![0x0du8, 0x0au8];
    lemma_dec_int_read(n);
    lemma_dec_int_read(data.len() as i64);
    lemma_dec_nat(data.len());
    let a = dec_int(n as int);
    let b = dec_int(data.len() as int);
    assert(encode_spec(ReplyView::Integer(n as int)) == seq![0x3au8] + a + end);
    assert(encode_spec(ReplyView::Bulk(data)) == (seq![0x24u8] + b + end) + data + end);
    assert(dec_int(-1) =~= seq![0x2du8, 0x31u8]);
    assert(encode_spec(ReplyView::Nil) =~= seq![0x24u8, 0x2du8, 0x31u8, 0x0du8, 0x0au8]);
}

/// Replies one after the other.
pub open spec fn joined(items: Seq<ReplyView>) -> Seq<u8>
    decreases items.len(),
{
    if items.len() == 0 {
        Seq::empty()
    } else {
        encode_spec(items[0]) + joined(items.skip(1))
    }
}

proof fn lemma_joined_push(items: Seq<ReplyView>, item: ReplyView)
    ensures
        joined(items.push(item)) == joined(items) + encode_spec(item),
    decreases items.len(),
{
    let all = items.push(item);
    if items.len() == 0 {
        assert(all.skip(1) =~= Seq::<ReplyView>::empty());
        assert(joined(all.skip(1)) =~= Seq::<u8>::empty());
        assert(joined(all) =~= joined(items) + encode_spec(item));
    } else {
        assert(all.skip(1) =~= items.skip(1).push(item));
        lemma_joined_push(items.skip(1), item);
        assert(joined(all) =~= joined(items) + encode_spec(item));
    }
}

proof fn lemma_encode_all(items: Seq<ReplyView>)
    ensures
        encode_all_spec(items) == joined(items),
    decreases items.len(),
{
    if items.len() > 0 {
        let front = items.subrange(0, items.len() - 1);
        lemma_encode_all(front);
        lemma_joined_push(front, items[items.len() - 1]);
        assert(front.push(items[items.len() - 1]) =~= items);
    }
}

/// A list of replies on the wire: its length on a line, then all of them in their
/// order. A request looks like a list of strings.
pub proof fn law_lists_on_the_wire(items: Seq<ReplyView>, args: Seq<Seq<u8>>)
    requires
        items.len() <= i64::MAX,
    ensures
        exists|digits: Seq<u8>|
            #[trigger] i64_value(digits) == Some(items.len() as i64) && all_digits(digits) && encode_spec(
                ReplyView::Array(items),
            ) == (seq![0x2au8] + digits + seq![0x0du8, 0x0au8]) + joined(items),
        encode_command_spec(args) == encode_spec(
            ReplyView::Array(args.map_values(|a: Seq<u8>| ReplyView::Bulk(a))),
        ),
{
    lemma_encode_all(items);
    lemma_dec_int_read(items.len() as i64);
    lemma_dec_nat(items.len());
    let digits = dec_int(items.len() as int);
    assert(encode_spec(ReplyView::Array(items)) == (seq![0x2au8] + digits + seq![0x0du8, 0x0au8])
        + joined(items));
    law_array_of_bulks_is_a_request(args);
}

/// Whether a word can stand in an inline request: it is not empty, and has no
/// space and no carriage return.
pub open spec fn is_plain(word: Seq<u8>) -> bool {
    word.len() > 0 && forall|i: int|
        0 <= i < word.len() ==> #[trigger] word[i] != 0x20 && word[i] != 0x0d
}

/// Words on a line, each behind as many spaces as are given, of which there has
/// to be one before every word but the first.
pub open spec fn spaced(list: Seq<(nat, Seq<u8>)>) -> Seq<u8>
    decreases list.len(),
{
    if list.len() == 0 {
        Seq::empty()
    } else {
        Seq::new(list[0].0, |i: int| 0x20u8) + list[0].1 + spaced(list.skip(1))
    }
}

proof fn lemma_words_skip(n: nat, rest: Seq<u8>)
    ensures
        words(Seq::new(n, |i: int| 0x20u8) + rest) == words(rest),
    decreases n,
{
    let line = Seq::new(n, |i: int| 0x20u8) + rest;
    if n == 0 {
        assert(line =~= rest);
    } else {
        assert(line.skip(1) =~= Seq::new((n - 1) as nat, |i: int| 0x20u8) + rest);
        lemma_words_skip((n - 1) as nat, rest);
    }
}

proof fn lemma_spaced_words(list: Seq<(nat, Seq<u8>)>, tail: nat)
    requires
        forall|i: int| 0 <= i < list.len() ==> is_plain((#[trigger] list[i]).1),
        forall|i: int| 1 <= i < list.len() ==> (#[trigger] list[i]).0 > 0,
    ensures
        words(spaced(list) + Seq::new(tail, |i: int| 0x20u8)) == list.map_values(
            |p: (nat, Seq<u8>)| p.1,
        ),
    decreases list.len(),
{
    let end = Seq::new(tail, |i: int| 0x20u8);
    if list.len() == 0 {
        lemma_words_skip(tail, Seq::empty());
        assert(spaced(list) + end =~= Seq::new(tail, |i: int| 0x20u8) + Seq::<u8>::empty());
        assert(words(Seq::<u8>::empty()) =~= Seq::<Seq<u8>>::empty());
        assert(list.map_values(|p: (nat, Seq<u8>)| p.1) =~= Seq::<Seq<u8>>::empty());
    } else {
        let (n, word) = list[0];
        let rest = list.skip(1);
        let more = spaced(rest) + end;
        let line = word + more;
        assert(is_plain(list[0].1));
        assert forall|i: int| 0 <= i < rest.len() implies is_plain((#[trigger] rest[i]).1) by {
            assert(is_plain(list[i + 1].1));
        }
        assert forall|i: int| 1 <= i < rest.len() implies (#[trigger] rest[i]).0 > 0 by {
            assert(list[i + 1].0 > 0);
        }
        lemma_spaced_words(rest, tail);
        lemma_words_skip(n, line);
        assert(spaced(list) + end =~= Seq::new(n, |i: int| 0x20u8) + line);
        assert forall|i: int| 0 <= i < word.len() implies #[trigger] line[i] != 0x20 by {
            assert(line[i] == word[i]);
        }
        if word.len() < line.len() {
            if rest.len() > 0 {
                assert(list[1].0 > 0);
                assert(rest[0] == list[1]);
                assert(more[0] == 0x20);
            }
            assert(line[word.len() as int] == more[0]);
        }
        lemma_word_len_is(line, word.len() as int);
        assert(line.take(word.len() as int) =~= word);
        assert(line.skip(word.len() as int) =~= more);
        assert(line[0] == word[0]);
        assert(list.map_values(|p: (nat, Seq<u8>)| p.1) =~= seq![word] + rest.map_values(
            |p: (nat, Seq<u8>)| p.1,
        ));
    }
}

/// A line of words is a request of these words, however many spaces stand around
/// them, as long as it does not look like a list.
pub proof fn law_inline_requests(list: Seq<(nat, Seq<u8>)>, tail: nat, rest: Seq<u8>)
    requires
        forall|i: int| 0 <= i < list.len() ==> is_plain((#[trigger] list[i]).1),
        forall|i: int| 1 <= i < list.len() ==> (#[trigger] list[i]).0 > 0,
        list.len() > 0 && list[0].0 == 0 ==> list[0].1[0] != 0x2a,
    ensures
        ({
            let line = spaced(list) + Seq::new(tail, |i: int| 0x20u8);
            parse_spec(line + seq![0x0du8, 0x0au8] + rest) == (Frame::Complete {
                args: list.map_values(|p: (nat, Seq<u8>)| p.1),
                used: line.len() as int + 2,
            })
        }),
{
    let line = spaced(list) + Seq::new(tail, |i: int| 0x20u8);
    let buf = line + seq![0x0du8, 0x0au8] + rest;
    lemma_spaced_words(list, tail);
    lemma_no_return(list);
    assert forall|i: int| 0 <= i < line.len() && i < buf.len() implies #[trigger] buf[i]
        != 0x0d by {
        assert(buf[i] == line[i]);
        if i < spaced(list).len() {
            assert(line[i] == spaced(list)[i]);
        }
    }
    assert(buf[line.len() as int] == 0x0d && buf[line.len() as int + 1] == 0x0a);
    lemma_line_end(buf, 0, line.len() as int);
    assert(buf.take(line.len() as int) =~= line);
    if list.len() > 0 {
        assert(is_plain(list[0].1));
        if list[0].0 > 0 {
            assert(spaced(list)[0] == 0x20);
        } else {
            assert(spaced(list)[0] == list[0].1[0]);
        }
        assert(buf[0] == spaced(list)[0]);
    }
}

proof fn lemma_no_return(list: Seq<(nat, Seq<u8>)>)
    requires
        forall|i: int| 0 <= i < list.len() ==> is_plain((#[trigger] list[i]).1),
    ensures
        forall|i: int| 0 <= i < spaced(list).len() ==> #[trigger] spaced(list)[i] != 0x0d,
    decreases list.len(),
{
    if list.len() > 0 {
        let rest = list.skip(1);
        let (n, word) = list[0];
        assert(is_plain(list[0].1));
        assert forall|i: int| 0 <= i < rest.len() implies is_plain((#[trigger] rest[i]).1) by {
            assert(is_plain(list[i + 1].1));
        }
        lemma_no_return(rest);
        assert forall|i: int| 0 <= i < spaced(list).len() implies #[trigger] spaced(list)[i]
            != 0x0d by {
            if i >= n && i < n + word.len() {
                assert(spaced(list)[i] == word[i - n]);
            } else if i >= n + word.len() {
                assert(spaced(list)[i] == spaced(rest)[i - n - word.len()]);
            }
        }
    }
}

/// A list whose length is no number is no request; one of negative length is an
/// empty request. Neither needs more than its line.
pub proof fn law_lists_of_odd_length(text: Seq<u8>, rest: Seq<u8>)
    requires
        forall|i: int| 0 <= i < text.len() ==> #[trigger] text[i] != 0x0d,
        i64_value(text) is None || i64_value(text)->0 < 0,
    ensures
        parse_spec(seq![0x2au8] + text + seq![0x0du8, 0x0au8] + rest) == (if i64_value(
            text,
        ) is None {
            Frame::Invalid("invalid array length"@)
        } else {
            Frame::Complete { args: Seq::empty(), used: text.len() as int + 3 }
        }),
{
    let buf = seq![0x2au8] + text + seq![0x0du8, 0x0au8] + rest;
    let end = text.len() as int + 1;
    assert forall|i: int| 0 <= i < end && i < buf.len() implies #[trigger] buf[i] != 0x0d by {
        if i > 0 {
            assert(buf[i] == text[i - 1]);
        }
    }
    assert(buf[end] == 0x0d && buf[end + 1] == 0x0a);
    lemma_line_end(buf, 0, end);
    assert(buf.subrange(1, end) =~= text);
}

/// Without a line end nothing is taken for a request yet.
pub proof fn law_lines_have_to_end(buf: Seq<u8>)
    requires
        forall|i: int| 0 <= i < buf.len() - 1 ==> !(#[trigger] buf[i] == 0x0d && buf[i + 1]
            == 0x0a),
    ensures
        parse_spec(buf) == Frame::Partial,
{
    lemma_no_end(buf, 0);
}

proof fn lemma_no_end(buf: Seq<u8>, from: int)
    requires
        0 <= from,
        forall|i: int| 0 <= i < buf.len() - 1 ==> !(#[trigger] buf[i] == 0x0d && buf[i + 1]
            == 0x0a),
    ensures
        crate::resp::first_crlf(buf, from) is None,
    decreases buf.len() - from,
{
    if from + 1 < buf.len() {
        assert(!(buf[from] == 0x0d && buf[from + 1] == 0x0a));
        lemma_no_end(buf, from + 1);
    }
}

/// Where a string should stand in a request and something else does, the request
/// is refused with that byte.
pub proof fn law_strings_start_with_a_dollar(digits: Seq<u8>, rest: Seq<u8>)
    requires
        digits.len() > 0,
        all_digits(digits),
        0 < digits_value(digits) <= i64::MAX,
        rest.len() > 0,
        rest[0] != 0x24,
    ensures
        parse_spec(seq![0x2au8] + digits + seq![0x0du8, 0x0au8] + rest) == Frame::Invalid(
            "expected '$', got '"@ + seq![rest[0] as char] + "'"@,
        ),
{
    let buf = seq![0x2au8] + digits + seq![0x0du8, 0x0au8] + rest;
    let end = digits.len() as int + 1;
    law_numbers_are_read(digits);
    assert forall|i: int| 0 <= i < end && i < buf.len() implies #[trigger] buf[i] != 0x0d by {
        if i > 0 {
            assert(buf[i] == digits[i - 1]);
            assert(is_digit(digits[i - 1]));
        }
    }
    assert(buf[end] == 0x0d && buf[end + 1] == 0x0a);
    lemma_line_end(buf, 0, end);
    assert(buf.subrange(1, end) =~= digits);
    assert(buf[end + 2] == rest[0]);
}

/// A request of any number of arguments of any length is read back whole, as long
/// as the counts are signed 64-bit numbers, and a part of it is not taken for it.
pub proof fn law_requests_are_read_back(args: Seq<Seq<u8>>, rest: Seq<u8>, k: int)
    requires
        args.len() <= i64::MAX,
        forall|i: int| 0 <= i < args.len() ==> #[trigger] args[i].len() <= i64::MAX,
        0 <= k < encode_command_spec(args).len(),
    ensures
        parse_spec(encode_command_spec(args) + rest) == (Frame::Complete {
            args,
            used: encode_command_spec(args).len() as int,
        }),
        parse_spec(encode_command_spec(args).take(k)) == Frame::Partial,
{
    law_round_trip(args, rest);
    law_partial_request_waits(args, k);
}

/// A log of lines of any number and length gives them back, in order, also where
/// the last one was cut short.
pub proof fn law_logs_are_read_back(lines: Seq<Seq<Seq<u8>>>, last: Seq<Seq<u8>>, k: int)
    requires
        forall|i: int| 0 <= i < lines.len() ==> (#[trigger] lines[i]).len() <= i64::MAX,
        forall|i: int, j: int|
            0 <= i < lines.len() && 0 <= j < lines[i].len() ==> (#[trigger] lines[i][j]).len()
                <= i64::MAX,
        last.len() <= i64::MAX,
        forall|j: int| 0 <= j < last.len() ==> (#[trigger] last[j]).len() <= i64::MAX,
        0 <= k < encode_command_spec(last).len(),
    ensures
        logged(log_of(lines) + encode_command_spec(last).take(k)) == lines,
{
    assert forall|i: int| 0 <= i < lines.len() implies countable(#[trigger] lines[i]) by {
        assert forall|j: int| 0 <= j < lines[i].len() implies #[trigger] lines[i][j].len()
            <= i64::MAX by {
            assert(lines[i][j].len() <= i64::MAX);
        }
    }
    law_log_gives_back_what_was_appended(lines, last, k);
}

/// A string of negative length stands for an empty one without bytes, and one
/// whose length is no number breaks the protocol.
pub proof fn law_strings_of_odd_length(text: Seq<u8>, rest: Seq<u8>)
    requires
        forall|i: int| 0 <= i < text.len() ==> #[trigger] text[i] != 0x0d,
        i64_value(text) is None || i64_value(text)->0 < 0,
    ensures
        ({
            let string = seq![0x24u8] + text + seq![0x0du8, 0x0au8] + rest;
            bulks_at(string, 0, 1) == (if i64_value(text) is None {
                Frame::Invalid("invalid bulk length"@)
            } else {
                Frame::Complete { args: seq![Seq::empty()], used: text.len() as int + 3 }
            })
        }),
{
    let buf = seq![0x24u8] + text + seq![0x0du8, 0x0au8] + rest;
    let end = text.len() as int + 1;
    assert forall|i: int| 0 <= i < end && i < buf.len() implies #[trigger] buf[i] != 0x0d by {
        if i > 0 {
            assert(buf[i] == text[i - 1]);
        }
    }
    assert(buf[end] == 0x0d && buf[end + 1] == 0x0a);
    lemma_line_end(buf, 0, end);
    assert(buf.subrange(1, end) =~= text);
    reveal_with_fuel(bulks_at, 2);
    assert(seq![Seq::<u8>::empty()] + Seq::<Seq<u8>>::empty() =~= seq![Seq::<u8>::empty()]);
}

} // verus!
