//! Scores of sorted sets: decimal numbers, kept exactly as they are given, and
//! the order that they put members in.

use vstd::prelude::*;

use crate::decimal::{all_digits, digits_value, i64_value, is_digit, read_i64, unsigned_part};
use crate::resp::push_slice;

verus! {

/// How far an exponent may move the point of a score, in either direction.
pub const MAX_EXPONENT: i64 = 400;

/// A score: the decimal digits before and behind its point.
#[derive(Debug, Clone)]
pub struct Score {
    negative: bool,
    whole: Vec<u8>,
    fraction: Vec<u8>,
}

/// What a [`Score`] holds.
#[verifier::ext_equal]
pub struct ScoreView {
    pub negative: bool,
    pub whole: Seq<u8>,
    pub fraction: Seq<u8>,
}

impl ScoreView {
    /// Whether the number is written in the only way that counts: without zeros
    /// in front and at the end, and without a sign where it is zero.
    pub open spec fn normal(self) -> bool {
        &&& all_digits(self.whole)
        &&& all_digits(self.fraction)
        &&& self.whole.len() > 0 ==> self.whole.first() != 0x30
        &&& self.fraction.len() > 0 ==> self.fraction.last() != 0x30
        &&& self.negative ==> self.whole.len() > 0 || self.fraction.len() > 0
    }
}

impl Score {
    /// What the score holds.
    pub closed spec fn view(&self) -> ScoreView {
        ScoreView {
            negative: self.negative,
            whole: self.whole@,
            fraction: self.fraction@,
        }
    }
}

/// Whether the bytes `a` come before `b` as words do: at the first difference
/// the smaller byte decides, and what is cut short comes first.
pub open spec fn bytes_before(a: Seq<u8>, b: Seq<u8>) -> bool
    decreases a.len(),
{
    if b.len() == 0 {
        false
    } else if a.len() == 0 {
        true
    } else if a[0] != b[0] {
        a[0] < b[0]
    } else {
        bytes_before(a.skip(1), b.skip(1))
    }
}

/// Whether the number `a`, its sign aside, is smaller than `b`.
pub open spec fn magnitude_before(a: ScoreView, b: ScoreView) -> bool {
    if a.whole.len() != b.whole.len() {
        a.whole.len() < b.whole.len()
    } else if a.whole != b.whole {
        bytes_before(a.whole, b.whole)
    } else {
        bytes_before(a.fraction, b.fraction)
    }
}

/// Whether the number `a` is smaller than `b`.
pub open spec fn score_before(a: ScoreView, b: ScoreView) -> bool {
    if a.negative != b.negative {
        a.negative
    } else if a.negative {
        magnitude_before(b, a)
    } else {
        magnitude_before(a, b)
    }
}

/// Whether a member of a sorted set ranks before another: by score, and among
/// equal scores by name.
pub open spec fn ranks_before(a: (Seq<u8>, ScoreView), b: (Seq<u8>, ScoreView)) -> bool {
    if a.1 != b.1 {
        score_before(a.1, b.1)
    } else {
        bytes_before(a.0, b.0)
    }
}

/// The order of words is one.
pub proof fn lemma_bytes_order(a: Seq<u8>, b: Seq<u8>, c: Seq<u8>)
    ensures
        !bytes_before(a, a),
        !(bytes_before(a, b) && bytes_before(b, a)),
        a != b ==> bytes_before(a, b) || bytes_before(b, a),
        bytes_before(a, b) && bytes_before(b, c) ==> bytes_before(a, c),
    decreases a.len(),
{
    if a.len() > 0 {
        if b.len() > 0 && c.len() > 0 {
            lemma_bytes_order(a.skip(1), b.skip(1), c.skip(1));
        } else if b.len() > 0 {
            lemma_bytes_order(a.skip(1), b.skip(1), b.skip(1));
        } else {
            lemma_bytes_order(a.skip(1), a.skip(1), a.skip(1));
        }
        if b.len() > 0 && a[0] == b[0] && a.skip(1) == b.skip(1) {
            assert(a =~= seq![a[0]] + a.skip(1));
            assert(b =~= seq![b[0]] + b.skip(1));
        }
    } else if b.len() == 0 {
        assert(a =~= b);
    }
}

proof fn lemma_magnitude_order(a: ScoreView, b: ScoreView, c: ScoreView)
    ensures
        !magnitude_before(a, a),
        !(magnitude_before(a, b) && magnitude_before(b, a)),
        a.whole != b.whole || a.fraction != b.fraction ==> magnitude_before(a, b)
            || magnitude_before(b, a),
        magnitude_before(a, b) && magnitude_before(b, c) ==> magnitude_before(a, c),
{
    lemma_bytes_order(a.whole, b.whole, c.whole);
    lemma_bytes_order(b.whole, c.whole, a.whole);
    lemma_bytes_order(a.fraction, b.fraction, c.fraction);
}

proof fn lemma_score_order(a: ScoreView, b: ScoreView, c: ScoreView)
    ensures
        !score_before(a, a),
        !(score_before(a, b) && score_before(b, a)),
        a != b ==> score_before(a, b) || score_before(b, a),
        score_before(a, b) && score_before(b, c) ==> score_before(a, c),
{
    lemma_magnitude_order(a, b, c);
    lemma_magnitude_order(c, b, a);
    if a.negative == b.negative && a.whole == b.whole && a.fraction == b.fraction {
        assert(a =~= b);
    }
}

/// The rank of members is an order: no member ranks before itself, of two
/// different ones exactly one ranks before the other, and what ranks before
/// something ranks before all that ranks behind it.
pub proof fn law_rank_is_an_order(
    a: (Seq<u8>, ScoreView),
    b: (Seq<u8>, ScoreView),
    c: (Seq<u8>, ScoreView),
)
    ensures
        !ranks_before(a, a),
        !(ranks_before(a, b) && ranks_before(b, a)),
        a != b ==> ranks_before(a, b) || ranks_before(b, a),
        ranks_before(a, b) && ranks_before(b, c) ==> ranks_before(a, c),
{
    lemma_score_order(a.1, b.1, c.1);
    lemma_score_order(b.1, c.1, a.1);
    lemma_bytes_order(a.0, b.0, c.0);
}

/// Position of the first byte that is `a` or `b`; the length where there is
/// none.
pub open spec fn mark_at(s: Seq<u8>, a: u8, b: u8) -> int
    decreases s.len(),
{
    if s.len() == 0 || s[0] == a || s[0] == b {
        0
    } else {
        1 + mark_at(s.skip(1), a, b)
    }
}

/// Digits without the zeros in front.
pub open spec fn strip_front(s: Seq<u8>) -> Seq<u8>
    decreases s.len(),
{
    if s.len() > 0 && s[0] == 0x30 {
        strip_front(s.skip(1))
    } else {
        s
    }
}

/// Digits without the zeros at the end.
pub open spec fn strip_back(s: Seq<u8>) -> Seq<u8>
    decreases s.len(),
{
    if s.len() > 0 && s.last() == 0x30 {
        strip_back(s.drop_last())
    } else {
        s
    }
}

/// `n` zeros.
pub open spec fn zeros(n: int) -> Seq<u8> {
    Seq::new(
        (if n > 0 {
            n
        } else {
            0
        }) as nat,
        |i: int| 0x30u8,
    )
}

/// The digits before a point that stands behind the first `point` of `digits`.
pub open spec fn digits_before(digits: Seq<u8>, point: int) -> Seq<u8> {
    if point <= 0 {
        Seq::empty()
    } else if point <= digits.len() {
        digits.take(point)
    } else {
        digits + zeros(point - digits.len())
    }
}

/// The digits behind a point that stands behind the first `point` of `digits`.
pub open spec fn digits_behind(digits: Seq<u8>, point: int) -> Seq<u8> {
    if point <= 0 {
        zeros(-point) + digits
    } else if point <= digits.len() {
        digits.skip(point)
    } else {
        Seq::empty()
    }
}

/// The number with these digits and the point behind the first `point` of them.
pub open spec fn number(negative: bool, digits: Seq<u8>, point: int) -> ScoreView {
    let whole = strip_front(digits_before(digits, point));
    let fraction = strip_back(digits_behind(digits, point));
    ScoreView {
        negative: negative && (whole.len() > 0 || fraction.len() > 0),
        whole,
        fraction,
    }
}

/// The exponent that stands behind a mark, if there is one and it is in range; 0
/// where there is no mark.
pub open spec fn exponent_of(body: Seq<u8>, mark: int) -> Option<int> {
    if mark >= body.len() {
        Some(0)
    } else {
        match i64_value(body.skip(mark + 1)) {
            Some(e) if -MAX_EXPONENT <= e <= MAX_EXPONENT => Some(e as int),
            _ => None,
        }
    }
}

/// The number that `s` denotes as a score: an optional sign, digits with or
/// without a point among them, at least one, and an optional exponent of ten
/// behind an `e`.
pub open spec fn score_value(s: Seq<u8>) -> Option<ScoreView> {
    let body = unsigned_part(s, true);
    let mark = mark_at(body, 0x65, 0x45);
    let figures = body.take(mark);
    let dot = mark_at(figures, 0x2e, 0x2e);
    let whole = figures.take(dot);
    let fraction = if dot < figures.len() {
        figures.skip(dot + 1)
    } else {
        Seq::empty()
    };
    if !all_digits(whole) || !all_digits(fraction) || whole.len() + fraction.len() == 0 {
        None
    } else {
        match exponent_of(body, mark) {
            Some(e) => Some(number(s[0] == 0x2d, whole + fraction, whole.len() + e)),
            None => None,
        }
    }
}

/// A score as text: digits, with a point where there are some behind it.
pub open spec fn score_text(score: ScoreView) -> Seq<u8> {
    let sign = if score.negative {
        seq![0x2du8]
    } else {
        Seq::empty()
    };
    let whole = if score.whole.len() > 0 {
        score.whole
    } else {
        seq![0x30u8]
    };
    let fraction = if score.fraction.len() > 0 {
        seq![0x2eu8] + score.fraction
    } else {
        Seq::empty()
    };
    sign + whole + fraction
}

pub(crate) proof fn lemma_mark_found(s: Seq<u8>, a: u8, b: u8, at: int)
    requires
        0 <= at <= s.len(),
        forall|i: int| 0 <= i < at ==> #[trigger] s[i] != a && s[i] != b,
        at < s.len() ==> s[at] == a || s[at] == b,
    ensures
        mark_at(s, a, b) == at,
    decreases s.len(),
{
    if at > 0 {
        let rest = s.skip(1);
        assert forall|i: int| 0 <= i < at - 1 implies #[trigger] rest[i] != a && rest[i] != b by {
            assert(rest[i] == s[i + 1]);
        }
        lemma_mark_found(rest, a, b, at - 1);
        assert(s[0] != a && s[0] != b);
    }
}

proof fn lemma_strip_front(s: Seq<u8>)
    requires
        all_digits(s),
    ensures
        all_digits(strip_front(s)),
        strip_front(s).len() > 0 ==> strip_front(s).first() != 0x30,
    decreases s.len(),
{
    if s.len() > 0 && s[0] == 0x30 {
        let rest = s.skip(1);
        assert forall|i: int| 0 <= i < rest.len() implies is_digit(#[trigger] rest[i]) by {
            assert(is_digit(s[i + 1]));
        }
        lemma_strip_front(rest);
    }
}

proof fn lemma_strip_back(s: Seq<u8>)
    requires
        all_digits(s),
    ensures
        all_digits(strip_back(s)),
        strip_back(s).len() > 0 ==> strip_back(s).last() != 0x30,
    decreases s.len(),
{
    if s.len() > 0 && s.last() == 0x30 {
        let rest = s.drop_last();
        assert forall|i: int| 0 <= i < rest.len() implies is_digit(#[trigger] rest[i]) by {
            assert(is_digit(s[i]));
        }
        lemma_strip_back(rest);
    }
}

proof fn lemma_number_is_normal(negative: bool, digits: Seq<u8>, point: int)
    requires
        all_digits(digits),
    ensures
        number(negative, digits, point).normal(),
{
    let before = digits_before(digits, point);
    let behind = digits_behind(digits, point);
    assert forall|i: int| 0 <= i < before.len() implies is_digit(#[trigger] before[i]) by {
        if i < digits.len() {
            assert(before[i] == digits[i]);
        }
    }
    assert forall|i: int| 0 <= i < behind.len() implies is_digit(#[trigger] behind[i]) by {
        if point <= 0 {
            if i >= -point {
                assert(behind[i] == digits[i + point]);
            }
        } else {
            assert(behind[i] == digits[i + point]);
        }
    }
    lemma_strip_front(before);
    lemma_strip_back(behind);
}

pub(crate) proof fn lemma_digits_join(a: Seq<u8>, b: Seq<u8>)
    requires
        all_digits(a),
        all_digits(b),
    ensures
        all_digits(a + b),
{
    assert forall|i: int| 0 <= i < (a + b).len() implies is_digit(#[trigger] (a + b)[i]) by {
        if i < a.len() {
            assert(is_digit(a[i]));
        } else {
            assert(is_digit(b[i - a.len()]));
        }
    }
}

/// Every score that is read is in the only form that counts: equal numbers are
/// equal scores.
pub proof fn law_scores_are_normal(s: Seq<u8>)
    ensures
        score_value(s) matches Some(score) ==> score.normal(),
{
    let body = unsigned_part(s, true);
    let mark = mark_at(body, 0x65, 0x45);
    let figures = body.take(mark);
    let dot = mark_at(figures, 0x2e, 0x2e);
    let whole = figures.take(dot);
    let fraction = if dot < figures.len() {
        figures.skip(dot + 1)
    } else {
        Seq::empty()
    };
    if let Some(score) = score_value(s) {
        let e = exponent_of(body, mark)->0;
        lemma_digits_join(whole, fraction);
        lemma_number_is_normal(s[0] == 0x2d, whole + fraction, whole.len() + e);
    }
}

/// Reading the text of a score gives it back.
pub proof fn law_score_text_is_read_back(score: ScoreView)
    requires
        score.normal(),
    ensures
        score_value(score_text(score)) == Some(score),
{
    let s = score_text(score);
    let whole = if score.whole.len() > 0 {
        score.whole
    } else {
        seq![0x30u8]
    };
    let fraction = score.fraction;
    let tail = if fraction.len() > 0 {
        seq![0x2eu8] + fraction
    } else {
        Seq::empty()
    };
    let body = whole + tail;
    assert(all_digits(whole));
    assert(is_digit(whole[0]));
    if score.negative {
        assert(s.skip(1) =~= body);
    } else {
        assert(s =~= body);
        assert(s[0] == whole[0]);
    }
    assert(unsigned_part(s, true) == body);
    assert forall|i: int| 0 <= i < body.len() implies #[trigger] body[i] != 0x65 && body[i]
        != 0x45 by {
        if i < whole.len() {
            assert(is_digit(whole[i]));
        } else if i > whole.len() {
            assert(is_digit(fraction[i - whole.len() - 1]));
        }
    }
    lemma_mark_found(body, 0x65, 0x45, body.len() as int);
    let figures = body.take(body.len() as int);
    assert(figures =~= body);
    assert forall|i: int| 0 <= i < whole.len() implies #[trigger] body[i] != 0x2e by {
        assert(is_digit(whole[i]));
    }
    lemma_mark_found(body, 0x2e, 0x2e, whole.len() as int);
    assert(figures.take(whole.len() as int) =~= whole);
    let read = if whole.len() < figures.len() {
        figures.skip(whole.len() as int + 1)
    } else {
        Seq::empty()
    };
    assert(read =~= fraction);
    let digits = whole + fraction;
    let point = whole.len() as int;
    assert(digits_before(digits, point) =~= whole);
    assert(digits_behind(digits, point) =~= fraction);
    if score.whole.len() == 0 {
        assert(whole.skip(1) =~= Seq::<u8>::empty());
        assert(strip_front(whole.skip(1)) =~= Seq::<u8>::empty());
        assert(score.whole =~= Seq::<u8>::empty());
    }
    assert(strip_front(whole) == score.whole);
    assert(strip_back(fraction) == fraction);
    assert(number(s[0] == 0x2d, digits, point) =~= score);
}

/// Ten to the power of `n`.
pub open spec fn ten_to(n: nat) -> nat
    decreases n,
{
    if n == 0 {
        1
    } else {
        10 * ten_to((n - 1) as nat)
    }
}

/// The digits of a score, its point moved `places` places behind.
pub open spec fn shifted(score: ScoreView, places: nat) -> Seq<u8> {
    score.whole + (score.fraction + zeros(places - score.fraction.len()))
}

/// A score times ten to the power of `places`, where it has at most that many
/// digits behind its point.
pub open spec fn scaled(score: ScoreView, places: nat) -> int {
    if score.negative {
        -(digits_value(shifted(score, places)) as int)
    } else {
        digits_value(shifted(score, places)) as int
    }
}

proof fn lemma_digits_bound(s: Seq<u8>)
    requires
        all_digits(s),
    ensures
        digits_value(s) < ten_to(s.len()),
    decreases s.len(),
{
    if s.len() > 0 {
        let front = s.drop_last();
        assert forall|i: int| 0 <= i < front.len() implies is_digit(#[trigger] front[i]) by {
            assert(is_digit(s[i]));
        }
        lemma_digits_bound(front);
        assert(is_digit(s[s.len() - 1]));
    }
}

/// The first digit counts for the highest power of ten.
pub(crate) proof fn lemma_digits_first(s: Seq<u8>)
    requires
        all_digits(s),
        s.len() > 0,
    ensures
        digits_value(s) == (s[0] - 0x30) * ten_to((s.len() - 1) as nat) + digits_value(s.skip(1)),
        all_digits(s.skip(1)),
        0 <= s[0] - 0x30 <= 9,
    decreases s.len(),
{
    let rest = s.skip(1);
    assert(is_digit(s[0]));
    assert forall|i: int| 0 <= i < rest.len() implies is_digit(#[trigger] rest[i]) by {
        assert(is_digit(s[i + 1]));
    }
    if s.len() == 1 {
        assert(s.drop_last() =~= Seq::<u8>::empty());
        assert(rest =~= Seq::<u8>::empty());
        assert(digits_value(s.drop_last()) == 0);
        assert(digits_value(rest) == 0);
        assert(ten_to(0) == 1);
        assert((s[0] - 0x30) * 1 == s[0] - 0x30);
    } else {
        let front = s.drop_last();
        assert forall|i: int| 0 <= i < front.len() implies is_digit(#[trigger] front[i]) by {
            assert(is_digit(s[i]));
        }
        lemma_digits_first(front);
        assert(front.skip(1) =~= rest.drop_last());
        assert(rest.last() == s.last());
        assert(is_digit(s[s.len() - 1]));
        let d = s[0] - 0x30;
        let t = ten_to((s.len() - 2) as nat) as int;
        let r = digits_value(front.skip(1)) as int;
        assert((d * t + r) * 10 == d * (10 * t) + r * 10) by (nonlinear_arith);
    }
}

proof fn lemma_ten_grows(a: nat, b: nat)
    requires
        a <= b,
    ensures
        0 < ten_to(a) <= ten_to(b),
    decreases b,
{
    if a < b {
        lemma_ten_grows(a, (b - 1) as nat);
    } else if a > 0 {
        lemma_ten_grows((a - 1) as nat, (a - 1) as nat);
    }
}

/// Of digits of the same number those that come first as words are the smaller
/// number.
proof fn lemma_word_order_is_value(x: Seq<u8>, y: Seq<u8>)
    requires
        all_digits(x),
        all_digits(y),
        x.len() == y.len(),
        bytes_before(x, y),
    ensures
        digits_value(x) < digits_value(y),
    decreases x.len(),
{
    lemma_digits_first(x);
    lemma_digits_first(y);
    let t = ten_to((x.len() - 1) as nat) as int;
    if x[0] == y[0] {
        lemma_word_order_is_value(x.skip(1), y.skip(1));
    } else {
        lemma_digits_bound(x.skip(1));
        let d = x[0] - 0x30;
        let e = y[0] - 0x30;
        assert(d * t + t <= e * t) by (nonlinear_arith)
            requires
                d + 1 <= e,
                t >= 0,
        ;
    }
}

proof fn lemma_before_extends(x: Seq<u8>, y: Seq<u8>, f: Seq<u8>, g: Seq<u8>)
    requires
        x.len() == y.len(),
        bytes_before(x, y),
    ensures
        bytes_before(x + f, y + g),
    decreases x.len(),
{
    if x[0] == y[0] {
        lemma_before_extends(x.skip(1), y.skip(1), f, g);
        assert((x + f).skip(1) =~= x.skip(1) + f);
        assert((y + g).skip(1) =~= y.skip(1) + g);
    }
}

proof fn lemma_same_front(w: Seq<u8>, x: Seq<u8>, y: Seq<u8>)
    requires
        bytes_before(x, y),
    ensures
        bytes_before(w + x, w + y),
    decreases w.len(),
{
    if w.len() == 0 {
        assert(w + x =~= x);
        assert(w + y =~= y);
    } else {
        lemma_same_front(w.skip(1), x, y);
        assert((w + x).skip(1) =~= w.skip(1) + x);
        assert((w + y).skip(1) =~= w.skip(1) + y);
        assert(y.len() > 0);
    }
}

proof fn lemma_zeros_before(g: Seq<u8>, p: nat)
    requires
        all_digits(g),
        0 < g.len() <= p,
        g.last() != 0x30,
    ensures
        bytes_before(zeros(p as int), g + zeros(p - g.len())),
    decreases g.len(),
{
    assert(is_digit(g[0]));
    let padded = g + zeros(p - g.len());
    if g[0] == 0x30 {
        let rest = g.skip(1);
        assert forall|i: int| 0 <= i < rest.len() implies is_digit(#[trigger] rest[i]) by {
            assert(is_digit(g[i + 1]));
        }
        lemma_zeros_before(rest, (p - 1) as nat);
        assert(zeros(p as int).skip(1) =~= zeros(p - 1));
        assert(padded.skip(1) =~= rest + zeros(p - 1 - rest.len()));
    }
}

proof fn lemma_padding_keeps_order(f: Seq<u8>, g: Seq<u8>, p: nat)
    requires
        all_digits(g),
        f.len() <= p,
        g.len() <= p,
        g.len() > 0 ==> g.last() != 0x30,
        bytes_before(f, g),
    ensures
        bytes_before(f + zeros(p - f.len()), g + zeros(p - g.len())),
    decreases f.len(),
{
    let x = f + zeros(p - f.len());
    let y = g + zeros(p - g.len());
    if f.len() == 0 {
        assert(x =~= zeros(p as int));
        lemma_zeros_before(g, p);
    } else if f[0] == g[0] {
        let a = f.skip(1);
        let b = g.skip(1);
        assert forall|i: int| 0 <= i < b.len() implies is_digit(#[trigger] b[i]) by {
            assert(is_digit(g[i + 1]));
        }
        lemma_padding_keeps_order(a, b, (p - 1) as nat);
        assert(x.skip(1) =~= a + zeros(p - 1 - a.len()));
        assert(y.skip(1) =~= b + zeros(p - 1 - b.len()));
    }
}

proof fn lemma_shifted_digits(score: ScoreView, places: nat)
    requires
        score.normal(),
        score.fraction.len() <= places,
    ensures
        all_digits(shifted(score, places)),
        shifted(score, places).len() == score.whole.len() + places,
{
    lemma_digits_join(score.fraction, zeros(places - score.fraction.len()));
    lemma_digits_join(score.whole, score.fraction + zeros(places - score.fraction.len()));
}

proof fn lemma_magnitude_is_value(a: ScoreView, b: ScoreView, places: nat)
    requires
        a.normal(),
        b.normal(),
        a.fraction.len() <= places,
        b.fraction.len() <= places,
        magnitude_before(a, b),
    ensures
        digits_value(shifted(a, places)) < digits_value(shifted(b, places)),
{
    let x = shifted(a, places);
    let y = shifted(b, places);
    let f = a.fraction + zeros(places - a.fraction.len());
    let g = b.fraction + zeros(places - b.fraction.len());
    lemma_shifted_digits(a, places);
    lemma_shifted_digits(b, places);
    if a.whole.len() < b.whole.len() {
        lemma_digits_bound(x);
        lemma_digits_first(y);
        lemma_ten_grows(x.len(), (y.len() - 1) as nat);
        assert(y[0] == b.whole[0]);
        let t = ten_to((y.len() - 1) as nat) as int;
        let d = y[0] - 0x30;
        assert(d * t >= t) by (nonlinear_arith)
            requires
                d >= 1,
                t >= 0,
        ;
    } else if a.whole != b.whole {
        lemma_before_extends(a.whole, b.whole, f, g);
        lemma_word_order_is_value(x, y);
    } else {
        lemma_padding_keeps_order(a.fraction, b.fraction, places);
        lemma_same_front(a.whole, f, g);
        lemma_word_order_is_value(x, y);
    }
}

pub(crate) proof fn lemma_zeros_value(n: nat)
    ensures
        digits_value(zeros(n as int)) == 0,
    decreases n,
{
    if n > 0 {
        assert(zeros(n as int).drop_last() =~= zeros(n - 1));
        lemma_zeros_value((n - 1) as nat);
    }
}

/// Scores are ordered as the numbers that they denote.
pub proof fn law_scores_are_ordered_by_value(a: ScoreView, b: ScoreView, places: nat)
    requires
        a.normal(),
        b.normal(),
        a.fraction.len() <= places,
        b.fraction.len() <= places,
    ensures
        score_before(a, b) <==> scaled(a, places) < scaled(b, places),
        a == b <==> scaled(a, places) == scaled(b, places),
{
    let zero = ScoreView { negative: false, whole: Seq::empty(), fraction: Seq::empty() };
    lemma_zeros_value(places);
    assert(shifted(zero, places) =~= zeros(places as int));
    assert forall|s: ScoreView| s.normal() && s.fraction.len() <= places && s.negative implies
        #[trigger] scaled(s, places) < 0 by {
        if s.whole.len() == 0 {
            assert(s.whole =~= zero.whole);
        }
        lemma_magnitude_is_value(zero, s, places);
    }
    lemma_magnitude_order(a, b, a);
    if magnitude_before(a, b) {
        lemma_magnitude_is_value(a, b, places);
    }
    if magnitude_before(b, a) {
        lemma_magnitude_is_value(b, a, places);
    }
    if a.whole == b.whole && a.fraction == b.fraction && a.negative == b.negative {
        assert(a =~= b);
    }
    if a.negative {
        assert(scaled(a, places) < 0);
    }
    if b.negative {
        assert(scaled(b, places) < 0);
    }
}

/// Whether the bytes `a` come before `b` as words do.
pub fn precedes(a: &[u8], b: &[u8]) -> (before: bool)
    ensures
        before == bytes_before(a@, b@),
{
    let mut i: usize = 0;
    assert(a@.skip(0) =~= a@);
    assert(b@.skip(0) =~= b@);
    loop
        invariant
            i <= a@.len(),
            i <= b@.len(),
            bytes_before(a@, b@) == bytes_before(a@.skip(i as int), b@.skip(i as int)),
        decreases a@.len() - i,
    {
        if i == b.len() {
            return false;
        }
        if i == a.len() {
            return true;
        }
        if a[i] != b[i] {
            return a[i] < b[i];
        }
        assert(a@.skip(i as int).skip(1) =~= a@.skip(i + 1));
        assert(b@.skip(i as int).skip(1) =~= b@.skip(i + 1));
        i = i + 1;
    }
}

/// Position of the first byte that is `a` or `b`; the length where there is
/// none.
fn find_mark(s: &[u8], a: u8, b: u8) -> (at: usize)
    ensures
        at == mark_at(s@, a, b),
        at <= s@.len(),
{
    let mut i: usize = 0;
    assert(s@.skip(0) =~= s@);
    while i < s.len() && s[i] != a && s[i] != b
        invariant
            i <= s@.len(),
            mark_at(s@, a, b) == i + mark_at(s@.skip(i as int), a, b),
        decreases s@.len() - i,
    {
        assert(s@.skip(i as int).skip(1) =~= s@.skip(i + 1));
        i = i + 1;
    }
    i
}

/// Whether `s` consists of ASCII digits.
fn are_digits(s: &[u8]) -> (digits: bool)
    ensures
        digits == all_digits(s@),
{
    let mut i: usize = 0;
    while i < s.len()
        invariant
            i <= s@.len(),
            forall|j: int| 0 <= j < i ==> is_digit(#[trigger] s@[j]),
        decreases s@.len() - i,
    {
        if s[i] < 0x30 || s[i] > 0x39 {
            assert(!is_digit(s@[i as int]));
            return false;
        }
        i = i + 1;
    }
    true
}

/// Digits without the zeros in front.
fn without_front(s: &[u8]) -> (rest: Vec<u8>)
    ensures
        rest@ == strip_front(s@),
{
    let mut i: usize = 0;
    assert(s@.skip(0) =~= s@);
    while i < s.len() && s[i] == 0x30
        invariant
            i <= s@.len(),
            strip_front(s@) == strip_front(s@.skip(i as int)),
        decreases s@.len() - i,
    {
        assert(s@.skip(i as int).skip(1) =~= s@.skip(i + 1));
        i = i + 1;
    }
    let mut rest: Vec<u8> = Vec::new();
    push_slice(&mut rest, &s[i..s.len()]);
    assert(rest@ =~= s@.skip(i as int));
    rest
}

/// Digits without the zeros at the end.
fn without_back(s: &[u8]) -> (rest: Vec<u8>)
    ensures
        rest@ == strip_back(s@),
{
    let mut n: usize = s.len();
    assert(s@.take(n as int) =~= s@);
    while n > 0 && s[n - 1] == 0x30
        invariant
            n <= s@.len(),
            strip_back(s@) == strip_back(s@.take(n as int)),
        decreases n,
    {
        assert(s@.take(n as int).drop_last() =~= s@.take(n - 1));
        n = n - 1;
    }
    let mut rest: Vec<u8> = Vec::new();
    push_slice(&mut rest, &s[0..n]);
    assert(rest@ =~= s@.take(n as int));
    rest
}

/// Appends `n` zeros.
fn push_zeros(out: &mut Vec<u8>, n: usize)
    ensures
        final(out)@ == old(out)@ + zeros(n as int),
{
    let mut i: usize = 0;
    assert(out@ =~= old(out)@ + zeros(0));
    while i < n
        invariant
            i <= n,
            out@ == old(out)@ + zeros(i as int),
        decreases n - i,
    {
        out.push(0x30);
        i = i + 1;
        assert(out@ =~= old(out)@ + zeros(i as int));
    }
}

/// The number with these digits and the point `shift` places behind the first
/// `before` of them.
fn make_number(negative: bool, digits: &[u8], before: usize, shift: i64) -> (score: Score)
    requires
        before <= digits@.len(),
        -MAX_EXPONENT <= shift <= MAX_EXPONENT,
        all_digits(digits@),
    ensures
        score@ == number(negative, digits@, before + shift),
        score@.normal(),
{
    let point: i128 = before as i128 + shift as i128;
    let mut whole: Vec<u8> = Vec::new();
    let mut fraction: Vec<u8> = Vec::new();
    let n: usize = digits.len();
    if point <= 0 {
        push_zeros(&mut fraction, (-point) as usize);
        push_slice(&mut fraction, digits);
        assert(fraction@ =~= zeros(-point) + digits@);
    } else if point <= n as i128 {
        let at: usize = point as usize;
        push_slice(&mut whole, &digits[0..at]);
        push_slice(&mut fraction, &digits[at..n]);
        assert(whole@ =~= digits@.take(at as int));
        assert(fraction@ =~= digits@.skip(at as int));
    } else {
        push_slice(&mut whole, digits);
        push_zeros(&mut whole, (point - n as i128) as usize);
        assert(whole@ =~= digits@ + zeros(point - n));
    }
    assert(whole@ =~= digits_before(digits@, point as int));
    assert(fraction@ =~= digits_behind(digits@, point as int));
    let whole = without_front(&whole);
    let fraction = without_back(&fraction);
    let negative: bool = negative && (whole.len() > 0 || fraction.len() > 0);
    proof {
        lemma_number_is_normal(negative, digits@, point as int);
        lemma_number_is_normal(!negative, digits@, point as int);
    }
    Score { negative, whole, fraction }
}

impl Score {
    /// Reads a score: an optional sign, digits with or without a point among
    /// them, at least one, and an optional exponent of ten behind an `e`.
    pub fn read(s: &[u8]) -> (score: Option<Score>)
        ensures
            match score {
                Some(score) => score_value(s@) == Some(score@) && score@.normal(),
                None => score_value(s@) is None,
            },
    {
        let start: usize = if s.len() > 0 && (s[0] == 0x2b || s[0] == 0x2d) {
            1
        } else {
            0
        };
        let body: &[u8] = &s[start..s.len()];
        assert(body@ =~= unsigned_part(s@, true));
        let mark: usize = find_mark(body, 0x65, 0x45);
        let figures: &[u8] = &body[0..mark];
        assert(figures@ =~= body@.take(mark as int));
        let dot: usize = find_mark(figures, 0x2e, 0x2e);
        let whole: &[u8] = &figures[0..dot];
        assert(whole@ =~= figures@.take(dot as int));
        let behind: usize = if dot < mark {
            dot + 1
        } else {
            mark
        };
        let fraction: &[u8] = &figures[behind..mark];
        assert(fraction@ =~= if dot < figures@.len() {
            figures@.skip(dot + 1)
        } else {
            Seq::empty()
        });
        if !are_digits(whole) || !are_digits(fraction) || (whole.len() == 0 && fraction.len()
            == 0) {
            return None;
        }
        let shift: i64 = if mark == body.len() {
            0
        } else {
            let text: &[u8] = &body[mark + 1..body.len()];
            assert(text@ =~= body@.skip(mark + 1));
            match read_i64(text) {
                Some(e) => {
                    if e < -MAX_EXPONENT || e > MAX_EXPONENT {
                        return None;
                    }
                    e
                },
                None => {
                    return None;
                },
            }
        };
        let mut digits: Vec<u8> = Vec::new();
        push_slice(&mut digits, whole);
        push_slice(&mut digits, fraction);
        proof {
            assert(digits@ =~= whole@ + fraction@);
            lemma_digits_join(whole@, fraction@);
        }
        Some(make_number(s[0] == 0x2d, &digits, whole.len(), shift))
    }

    /// The score as text.
    pub fn text(&self) -> (text: Vec<u8>)
        ensures
            text@ == score_text(self@),
    {
        let mut text: Vec<u8> = Vec::new();
        if self.negative {
            text.push(0x2d);
        }
        if self.whole.len() > 0 {
            push_slice(&mut text, &self.whole);
        } else {
            text.push(0x30);
        }
        if self.fraction.len() > 0 {
            text.push(0x2e);
            push_slice(&mut text, &self.fraction);
        }
        assert(text@ =~= score_text(self@));
        text
    }

    /// A copy of the score.
    pub fn duplicate(&self) -> (copy: Score)
        ensures
            copy@ == self@,
    {
        let mut whole: Vec<u8> = Vec::new();
        push_slice(&mut whole, &self.whole);
        let mut fraction: Vec<u8> = Vec::new();
        push_slice(&mut fraction, &self.fraction);
        assert(whole@ =~= self.whole@);
        assert(fraction@ =~= self.fraction@);
        Score { negative: self.negative, whole, fraction }
    }

    /// Whether the number, its sign aside, is smaller than `other`.
    fn less_far(&self, other: &Score) -> (less: bool)
        ensures
            less == magnitude_before(self@, other@),
    {
        if self.whole.len() != other.whole.len() {
            return self.whole.len() < other.whole.len();
        }
        if precedes(&self.whole, &other.whole) {
            proof {
                lemma_bytes_order(self.whole@, other.whole@, self.whole@);
            }
            return true;
        }
        if precedes(&other.whole, &self.whole) {
            proof {
                lemma_bytes_order(self.whole@, other.whole@, self.whole@);
            }
            return false;
        }
        proof {
            lemma_bytes_order(self.whole@, other.whole@, self.whole@);
        }
        precedes(&self.fraction, &other.fraction)
    }

    /// Whether the number is smaller than `other`.
    pub fn less(&self, other: &Score) -> (less: bool)
        ensures
            less == score_before(self@, other@),
    {
        if self.negative != other.negative {
            self.negative
        } else if self.negative {
            other.less_far(self)
        } else {
            self.less_far(other)
        }
    }
}

/// Whether a member of a sorted set ranks before another.
pub fn outranks(a: &[u8], score: &Score, b: &[u8], other: &Score) -> (before: bool)
    ensures
        before == ranks_before((a@, score@), (b@, other@)),
{
    proof {
        lemma_score_order(score@, other@, score@);
    }
    if score.less(other) {
        true
    } else if other.less(score) {
        false
    } else {
        precedes(a, b)
    }
}

} // verus!
