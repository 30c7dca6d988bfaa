//! How scores are read, and how members with equal scores are ordered.

use vstd::prelude::*;

use crate::decimal::{all_digits, digits_value, i64_value, is_digit, unsigned_part};
use crate::score::{
    bytes_before, digits_before, digits_behind, lemma_digits_first, lemma_digits_join,
    lemma_mark_found, mark_at, number, ranks_before, scaled, score_before, score_text, score_value,
    shifted, strip_back, strip_front, ten_to, zeros, ScoreView,
};

verus! {

/// Names are ordered at their first difference, and one that is cut short comes
/// first.
pub proof fn law_names_are_ordered_as_words(a: Seq<u8>, b: Seq<u8>)
    ensures
        bytes_before(a, b) <==> exists|i: int| #[trigger] first_difference(a, b, i),
    decreases a.len(),
{
    if b.len() == 0 {
        assert forall|i: int| !#[trigger] first_difference(a, b, i) by {}
    } else if a.len() == 0 {
        assert(first_difference(a, b, 0));
    } else if a[0] != b[0] {
        if a[0] < b[0] {
            assert(first_difference(a, b, 0));
        }
        assert forall|i: int| #[trigger] first_difference(a, b, i) implies a[0] < b[0] by {
            if i > 0 {
                assert(a[0] == b[0]);
            }
        }
    } else {
        let x = a.skip(1);
        let y = b.skip(1);
        law_names_are_ordered_as_words(x, y);
        assert forall|i: int| #[trigger] first_difference(x, y, i) implies first_difference(
            a,
            b,
            i + 1,
        ) by {
            assert forall|j: int| 0 <= j < i + 1 implies #[trigger] a[j] == b[j] by {
                if j > 0 {
                    assert(x[j - 1] == y[j - 1]);
                }
            }
        }
        assert forall|i: int| #[trigger] first_difference(a, b, i) implies first_difference(
            x,
            y,
            i - 1,
        ) by {
            assert forall|j: int| 0 <= j < i - 1 implies #[trigger] x[j] == y[j] by {
                assert(a[j + 1] == b[j + 1]);
            }
        }
        if bytes_before(a, b) {
            let i = choose|i: int| #[trigger] first_difference(x, y, i);
            assert(first_difference(a, b, i + 1));
        }
        if exists|i: int| #[trigger] first_difference(a, b, i) {
            let i = choose|i: int| #[trigger] first_difference(a, b, i);
            assert(first_difference(x, y, i - 1));
        }
    }
}

/// Whether `a` and `b` are the same before position `i`, and there `a` ends or has
/// the smaller byte.
pub open spec fn first_difference(a: Seq<u8>, b: Seq<u8>, i: int) -> bool {
    &&& 0 <= i <= a.len()
    &&& i < b.len()
    &&& forall|j: int| 0 <= j < i ==> #[trigger] a[j] == b[j]
    &&& i == a.len() || a[i] < b[i]
}

/// Members rank by score, and only where the scores are equal by name.
pub proof fn law_rank_is_score_then_name(a: (Seq<u8>, ScoreView), b: (Seq<u8>, ScoreView))
    ensures
        a.1 != b.1 ==> ranks_before(a, b) == score_before(a.1, b.1),
        a.1 == b.1 ==> ranks_before(a, b) == bytes_before(a.0, b.0),
{
}

/// A score as a client may write it.
pub struct Written {
    /// A sign in front, if any.
    pub sign: Option<u8>,
    /// The digits before the point.
    pub whole: Seq<u8>,
    /// The digits behind the point, if there is one.
    pub fraction: Option<Seq<u8>>,
    /// The letter before the exponent, and the exponent, if there is one.
    pub exponent: Option<(u8, Seq<u8>)>,
}

impl Written {
    /// The digits behind the point.
    pub open spec fn behind(self) -> Seq<u8> {
        match self.fraction {
            Some(f) => f,
            None => Seq::empty(),
        }
    }

    /// What stands between sign and exponent.
    pub open spec fn figures(self) -> Seq<u8> {
        self.whole + (match self.fraction {
            Some(f) => seq![0x2eu8] + f,
            None => Seq::empty(),
        })
    }

    /// What stands behind the sign.
    pub open spec fn body(self) -> Seq<u8> {
        self.figures() + (match self.exponent {
            Some((letter, x)) => seq![letter] + x,
            None => Seq::empty(),
        })
    }

    /// The bytes.
    pub open spec fn text(self) -> Seq<u8> {
        match self.sign {
            Some(s) => seq![s] + self.body(),
            None => self.body(),
        }
    }

    /// The exponent, 0 if there is none.
    pub open spec fn power(self) -> int {
        match self.exponent {
            Some((_, x)) => match i64_value(x) {
                Some(e) => e as int,
                None => 0,
            },
            None => 0,
        }
    }

    /// Whether it is written as a score is: a plus or minus sign, digits, at least
    /// one, and an exponent behind an `e` or `E` that is in range.
    pub open spec fn valid(self) -> bool {
        &&& self.sign matches Some(s) ==> s == 0x2b || s == 0x2d
        &&& all_digits(self.whole)
        &&& all_digits(self.behind())
        &&& self.whole.len() + self.behind().len() > 0
        &&& self.exponent matches Some((letter, x)) ==> (letter == 0x65 || letter == 0x45) && (
        i64_value(x) matches Some(e) && -400 <= e <= 400)
    }
}

proof fn lemma_more_zeros(digits: Seq<u8>, k: nat)
    ensures
        digits_value(digits + zeros(k as int)) == digits_value(digits) * ten_to(k),
    decreases k,
{
    if k == 0 {
        assert(digits + zeros(0) =~= digits);
        assert(digits_value(digits) * 1 == digits_value(digits));
    } else {
        let all = digits + zeros(k as int);
        assert(all.drop_last() =~= digits + zeros(k - 1));
        assert(all.last() == 0x30);
        lemma_more_zeros(digits, (k - 1) as nat);
        let d = digits_value(digits);
        let t = ten_to((k - 1) as nat);
        assert(d * t * 10 == d * (10 * t)) by (nonlinear_arith);
    }
}

proof fn lemma_front_zeros(s: Seq<u8>, t: Seq<u8>)
    requires
        all_digits(s),
        all_digits(t),
    ensures
        digits_value(strip_front(s) + t) == digits_value(s + t),
    decreases s.len(),
{
    if s.len() > 0 && s[0] == 0x30 {
        let rest = s.skip(1);
        assert forall|i: int| 0 <= i < rest.len() implies is_digit(#[trigger] rest[i]) by {
            assert(is_digit(s[i + 1]));
        }
        lemma_front_zeros(rest, t);
        lemma_digits_join(s, t);
        lemma_digits_first(s + t);
        assert((s + t).skip(1) =~= rest + t);
        let d = (s + t)[0] - 0x30;
        let p = ten_to(((s + t).len() - 1) as nat) as int;
        assert(d * p == 0) by (nonlinear_arith)
            requires
                d == 0,
        ;
    }
}

proof fn lemma_back_zeros(s: Seq<u8>, places: nat)
    requires
        s.len() <= places,
    ensures
        strip_back(s) + zeros(places - strip_back(s).len()) == s + zeros(places - s.len()),
        strip_back(s).len() <= s.len(),
    decreases s.len(),
{
    if s.len() > 0 && s.last() == 0x30 {
        let rest = s.drop_last();
        lemma_back_zeros(rest, places);
        assert(rest + zeros(places - rest.len()) =~= s + zeros(places - s.len()));
    }
}

proof fn lemma_number_value(negative: bool, digits: Seq<u8>, point: int, places: nat)
    requires
        all_digits(digits),
        places + point - digits.len() >= 0,
    ensures
        ({
            let v = number(negative, digits, point);
            let m = digits_value(digits) * ten_to((places + point - digits.len()) as nat);
            &&& v.fraction.len() <= places
            &&& scaled(v, places) == if negative {
                -(m as int)
            } else {
                m as int
            }
        }),
{
    let v = number(negative, digits, point);
    let before = digits_before(digits, point);
    let behind = digits_behind(digits, point);
    let k = places + point - digits.len();
    assert forall|i: int| 0 <= i < before.len() implies is_digit(#[trigger] before[i]) by {
        if i < digits.len() {
            assert(before[i] == digits[i]);
        }
    }
    assert forall|i: int| 0 <= i < behind.len() implies is_digit(#[trigger] behind[i]) by {
        if point <= 0 {
            if i >= -point {
                assert(behind[i] == digits[i + point]);
            }
        } else {
            assert(behind[i] == digits[i + point]);
        }
    }
    assert(behind.len() <= places);
    lemma_back_zeros(behind, places);
    let tail = behind + zeros(places - behind.len());
    lemma_digits_join(behind, zeros(places - behind.len()));
    lemma_front_zeros(before, tail);
    assert(shifted(v, places) == strip_front(before) + tail);
    if point <= 0 {
        assert(before + tail =~= zeros(-point) + (digits + zeros(k)));
        assert(strip_front(zeros(-point)) =~= Seq::<u8>::empty()) by {
            lemma_only_zeros((-point) as nat);
        }
        lemma_digits_join(digits, zeros(k));
        lemma_front_zeros(zeros(-point), digits + zeros(k));
        assert(Seq::<u8>::empty() + (digits + zeros(k)) =~= digits + zeros(k));
    } else if point <= digits.len() {
        assert(before + tail =~= digits + zeros(k));
    } else {
        assert(before + tail =~= digits + zeros(k));
    }
    lemma_more_zeros(digits, k as nat);
    if negative && !v.negative {
        assert(v.whole =~= Seq::<u8>::empty());
        assert(v.fraction =~= Seq::<u8>::empty());
        assert(shifted(v, places) =~= zeros(places as int));
        crate::score::lemma_zeros_value(places);
    }
}

proof fn lemma_only_zeros(n: nat)
    ensures
        strip_front(zeros(n as int)) == Seq::<u8>::empty(),
    decreases n,
{
    if n > 0 {
        assert(zeros(n as int).skip(1) =~= zeros(n - 1));
        lemma_only_zeros((n - 1) as nat);
    } else {
        assert(zeros(0) =~= Seq::<u8>::empty());
    }
}

/// A score is read as the number that it denotes: its digits, times ten to the
/// power of its exponent, with the point where it stands, and exactly.
pub proof fn law_scores_are_read(w: Written, places: nat)
    requires
        w.valid(),
        places + w.power() - w.behind().len() >= 0,
    ensures
        ({
            let m = digits_value(w.whole + w.behind()) * ten_to(
                (places + w.power() - w.behind().len()) as nat,
            );
            &&& score_value(w.text()) matches Some(v)
            &&& v.fraction.len() <= places
            &&& scaled(v, places) == if w.sign == Some(0x2du8) {
                -(m as int)
            } else {
                m as int
            }
        }),
{
    let s = w.text();
    let body = w.body();
    let figures = w.figures();
    let whole = w.whole;
    let behind = w.behind();
    if w.sign is Some {
        assert(s.skip(1) =~= body);
    } else {
        if whole.len() > 0 {
            assert(is_digit(whole[0]));
            assert(s[0] == whole[0]);
        } else {
            assert(s[0] == 0x2e);
        }
    }
    assert(unsigned_part(s, true) == body);
    assert forall|i: int| 0 <= i < figures.len() implies #[trigger] body[i] != 0x65 && body[i]
        != 0x45 by {
        assert(body[i] == figures[i]);
        if i < whole.len() {
            assert(is_digit(whole[i]));
        } else if i > whole.len() {
            assert(is_digit(behind[i - whole.len() - 1]));
        }
    }
    let mark = figures.len() as int;
    if let Some((letter, x)) = w.exponent {
        assert(body[mark] == letter);
        assert(body.skip(mark + 1) =~= x);
    }
    lemma_mark_found(body, 0x65, 0x45, mark);
    assert(body.take(mark) =~= figures);
    assert forall|i: int| 0 <= i < whole.len() implies #[trigger] figures[i] != 0x2e by {
        assert(is_digit(whole[i]));
        assert(figures[i] == whole[i]);
    }
    lemma_mark_found(figures, 0x2e, 0x2e, whole.len() as int);
    assert(figures.take(whole.len() as int) =~= whole);
    let read = if whole.len() < figures.len() {
        figures.skip(whole.len() as int + 1)
    } else {
        Seq::empty()
    };
    assert(read =~= behind);
    lemma_digits_join(whole, behind);
    lemma_number_value(
        s[0] == 0x2d,
        whole + behind,
        whole.len() + w.power(),
        places,
    );
}

/// What is read as a score is written as one is.
pub proof fn law_nothing_else_is_a_score(s: Seq<u8>)
    ensures
        score_value(s) is Some ==> exists|w: Written| w.valid() && #[trigger] w.text() == s,
{
    if score_value(s) is Some {
        let body = unsigned_part(s, true);
        let mark = mark_at(body, 0x65, 0x45);
        lemma_mark(body, 0x65, 0x45);
        let figures = body.take(mark);
        let dot = mark_at(figures, 0x2e, 0x2e);
        lemma_mark(figures, 0x2e, 0x2e);
        let w = Written {
            sign: if body.len() < s.len() {
                Some(s[0])
            } else {
                None
            },
            whole: figures.take(dot),
            fraction: if dot < figures.len() {
                Some(figures.skip(dot + 1))
            } else {
                None
            },
            exponent: if mark < body.len() {
                Some((body[mark], body.skip(mark + 1)))
            } else {
                None
            },
        };
        assert(w.figures() =~= figures);
        assert(w.body() =~= body);
        assert(w.text() =~= s);
        assert(w.valid());
    }
}

proof fn lemma_mark(s: Seq<u8>, a: u8, b: u8)
    ensures
        0 <= mark_at(s, a, b) <= s.len(),
        mark_at(s, a, b) < s.len() ==> s[mark_at(s, a, b)] == a || s[mark_at(s, a, b)] == b,
    decreases s.len(),
{
    if s.len() > 0 {
        lemma_mark(s.skip(1), a, b);
    }
}

/// A score is written with its sign where it is negative, a zero where nothing
/// stands before the point, and a point only where something stands behind it.
pub proof fn law_scores_are_written(v: ScoreView)
    ensures
        score_text(v) == (Written {
            sign: if v.negative {
                Some(0x2du8)
            } else {
                None
            },
            whole: if v.whole.len() == 0 {
                seq![0x30u8]
            } else {
                v.whole
            },
            fraction: if v.fraction.len() == 0 {
                None
            } else {
                Some(v.fraction)
            },
            exponent: None,
        }).text(),
{
    let w = Written {
        sign: if v.negative {
            Some(0x2du8)
        } else {
            None
        },
        whole: if v.whole.len() == 0 {
            seq![0x30u8]
        } else {
            v.whole
        },
        fraction: if v.fraction.len() == 0 {
            None
        } else {
            Some(v.fraction)
        },
        exponent: None,
    };
    assert(score_text(v) =~= w.text());
}

} // verus!
