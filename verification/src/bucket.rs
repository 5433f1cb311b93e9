//! Temperature buckets of the Tokyo daily-high markets, read from the
//! market questions ("Will the highest temperature in Tokyo be 25°C on ...?").

use vstd::prelude::*;

use crate::text::{
    self, chars_of, contains_exec, copy_range, find_from_exec, parse_i32_exec, split_first_exec,
    split_second_bounds, split_second_exec, trim_exec,
};

verus! {

/// How a bucket's threshold bounds the rounded daily high.
#[derive(Clone, Copy, Debug, PartialEq, Eq, Structural)]
pub enum BucketKind {
    /// The threshold or any colder reading ("21°C or below").
    AtOrBelow,
    /// Exactly the threshold ("25°C").
    Exact,
    /// The threshold or any warmer reading ("31°C or higher").
    AtOrAbove,
}

/// One market's temperature bucket, in whole degrees Celsius.
#[derive(Clone, Copy, Debug, PartialEq, Eq, Structural)]
pub struct Bucket {
    pub threshold: i32,
    pub kind: BucketKind,
}

/// Whether the rounded temperature `t` settles bucket `b` as YES.
pub open spec fn bucket_holds(b: Bucket, t: int) -> bool {
    match b.kind {
        BucketKind::AtOrBelow => t <= b.threshold,
        BucketKind::Exact => t == b.threshold,
        BucketKind::AtOrAbove => t >= b.threshold,
    }
}

impl Bucket {
    /// Whether a rounded temperature falls in this bucket.
    pub fn contains(self, rounded_temperature: i32) -> (r: bool)
        ensures
            r == bucket_holds(self, rounded_temperature as int),
    {
        match self.kind {
            BucketKind::AtOrBelow => rounded_temperature <= self.threshold,
            BucketKind::Exact => rounded_temperature == self.threshold,
            BucketKind::AtOrAbove => rounded_temperature >= self.threshold,
        }
    }
}

/// The separator before the temperature in a question: `" be "`.
pub open spec fn be_separator() -> Seq<char> {
    seq![' ', 'b', 'e', ' ']
}

/// The unit after the temperature: `"°C"`.
pub open spec fn celsius_unit() -> Seq<char> {
    seq!['\u{b0}', 'C']
}

/// The marker of a lower tail bucket: `"or below"`.
pub open spec fn or_below_marker() -> Seq<char> {
    seq!['o', 'r', ' ', 'b', 'e', 'l', 'o', 'w']
}

/// The marker of an upper tail bucket: `"or higher"`.
pub open spec fn or_higher_marker() -> Seq<char> {
    seq!['o', 'r', ' ', 'h', 'i', 'g', 'h', 'e', 'r']
}

/// The separator before the date in a question: `" on "`.
pub open spec fn on_separator() -> Seq<char> {
    seq![' ', 'o', 'n', ' ']
}

/// The bucket a question describes: the text after the first `" be "` (up
/// to a second one) holds the threshold before `"°C"`, and its kind is told
/// by `"or below"`, then `"or higher"`, else it is exact.
pub open spec fn spec_parse_bucket(question: Seq<char>) -> Option<Bucket> {
    match text::split_second(question, be_separator()) {
        None => None,
        Some(after_be) => match text::parse_i32(text::trim(text::split_first(after_be, celsius_unit()))) {
            None => None,
            Some(threshold) => Some(
                Bucket {
                    threshold,
                    kind: if text::contains_seq(after_be, or_below_marker()) {
                        BucketKind::AtOrBelow
                    } else if text::contains_seq(after_be, or_higher_marker()) {
                        BucketKind::AtOrAbove
                    } else {
                        BucketKind::Exact
                    },
                },
            ),
        },
    }
}

/// The short label of a question: the text after the first `" be "` up to
/// the following `" on "`, or the whole question when it has no `" be "`.
pub open spec fn spec_bucket_label(question: Seq<char>) -> Seq<char> {
    match text::split_second(question, be_separator()) {
        None => question,
        Some(after_be) => text::split_first(after_be, on_separator()),
    }
}

/// Reads the bucket of a market question.
pub fn parse_bucket(question: &str) -> (r: Option<Bucket>)
    ensures
        r == spec_parse_bucket(question@),
{
    let be: [char; 4] = [' ', 'b', 'e', ' '];
    let unit: [char; 2] = ['\u{b0}', 'C'];
    let below: [char; 8] = ['o', 'r', ' ', 'b', 'e', 'l', 'o', 'w'];
    let higher: [char; 9] = ['o', 'r', ' ', 'h', 'i', 'g', 'h', 'e', 'r'];
    assert(be@ =~= be_separator());
    assert(unit@ =~= celsius_unit());
    assert(below@ =~= or_below_marker());
    assert(higher@ =~= or_higher_marker());
    let chars = chars_of(question);
    let after_be = match split_second_exec(&chars, &be) {
        None => return None,
        Some(piece) => piece,
    };
    let number = trim_exec(&split_first_exec(&after_be, &unit));
    let threshold = match parse_i32_exec(&number) {
        None => return None,
        Some(t) => t,
    };
    let kind = if contains_exec(&after_be, &below) {
        BucketKind::AtOrBelow
    } else if contains_exec(&after_be, &higher) {
        BucketKind::AtOrAbove
    } else {
        BucketKind::Exact
    };
    Some(Bucket { threshold, kind })
}

/// The short label of a market question, such as `"25°C"` or `"21°C or below"`.
pub fn bucket_label(question: &str) -> (r: String)
    ensures
        r@ == spec_bucket_label(question@),
{
    let be: [char; 4] = [' ', 'b', 'e', ' '];
    let on: [char; 4] = [' ', 'o', 'n', ' '];
    assert(be@ =~= be_separator());
    assert(on@ =~= on_separator());
    let chars = chars_of(question);
    match split_second_bounds(&chars, &be) {
        None => question.to_owned(),
        Some((start, end)) => {
            let piece = copy_range(&chars, start, end);
            let stop = match find_from_exec(&piece, &on, 0) {
                Some(k) => start + k,
                None => end,
            };
            assert(question@.subrange(start as int, stop as int) =~= text::split_first(
                piece@,
                on_separator(),
            ));
            question.substring_char(start, stop).to_owned()
        },
    }
}

/// The kind of bucket that the words after the unit describe.
pub open spec fn tail_kind(tail: Seq<char>) -> BucketKind {
    if text::contains_seq(tail, or_below_marker()) {
        BucketKind::AtOrBelow
    } else if text::contains_seq(tail, or_higher_marker()) {
        BucketKind::AtOrAbove
    } else {
        BucketKind::Exact
    }
}

/// A question whose text after `" be "` is a whole number written in
/// decimal, then `"°C"`, then any words, reads as that number's bucket, of
/// the kind those words name; its label is the number, the unit, and the
/// words up to `" on "`.
pub proof fn lemma_question_reads_its_bucket(question: Seq<char>, n: int, tail: Seq<char>)
    requires
        i32::MIN <= n <= i32::MAX,
        text::split_second(question, be_separator()) == Some(
            text::decimal_text(n) + celsius_unit() + tail,
        ),
    ensures
        spec_parse_bucket(question) == Some(Bucket { threshold: n as i32, kind: tail_kind(tail) }),
        spec_bucket_label(question) == text::decimal_text(n) + celsius_unit() + text::split_first(
            tail,
            on_separator(),
        ),
{
    let d = text::decimal_text(n);
    let u = celsius_unit();
    let pre = d + u;
    let after_be = pre + tail;
    assert(after_be =~= d + (u + tail));
    text::lemma_decimal_text_chars(n);
    // The unit is found right after the number.
    assert forall|k: int| 0 <= k < d.len() implies #[trigger] d[k] != u[0] by {
        assert(text::is_digit(d[k]) || d[k] == '-');
    }
    text::lemma_find_past_prefix(d, u + tail, u);
    assert(text::occurs_at(u + tail, u, 0)) by {
        assert((u + tail).subrange(0, u.len() as int) =~= u);
    }
    assert(text::find_from(u + tail, u, 0) == Some(0int));
    assert(text::split_first(after_be, u) =~= d);
    text::lemma_decimal_text_trimmed(n);
    text::lemma_parse_decimal_text(n);
    // The markers and the date separator start with characters that the
    // number and the unit do not hold.
    assert forall|k: int| 0 <= k < pre.len() implies #[trigger] pre[k] != or_below_marker()[0]
        && pre[k] != on_separator()[0] by {
        if k < d.len() {
            assert(pre[k] == d[k]);
            assert(text::is_digit(d[k]) || d[k] == '-');
        }
    }
    text::lemma_find_past_prefix(pre, tail, or_below_marker());
    assert(or_higher_marker()[0] == or_below_marker()[0]);
    text::lemma_find_past_prefix(pre, tail, or_higher_marker());
    text::lemma_find_past_prefix(pre, tail, on_separator());
    match text::find_from(tail, on_separator(), 0) {
        Some(t) => {
            text::lemma_find_from(tail, on_separator(), 0);
            assert(after_be.subrange(0, pre.len() + t) =~= pre + tail.subrange(0, t));
        },
        None => {},
    }
}

/// A question written as any words without a `'b'`, then `" be "`, a whole
/// number in decimal, `"°C"` and words without a second `" be "`, reads as
/// that number's bucket, of the kind the closing words name.
pub proof fn lemma_written_question_reads_its_bucket(head: Seq<char>, n: int, tail: Seq<char>)
    requires
        i32::MIN <= n <= i32::MAX,
        forall|k: int| 0 <= k < head.len() ==> #[trigger] head[k] != 'b',
        !text::contains_seq(tail, be_separator()),
    ensures
        spec_parse_bucket(head + be_separator() + text::decimal_text(n) + celsius_unit() + tail)
            == Some(Bucket { threshold: n as i32, kind: tail_kind(tail) }),
        spec_bucket_label(head + be_separator() + text::decimal_text(n) + celsius_unit() + tail)
            == text::decimal_text(n) + celsius_unit() + text::split_first(tail, on_separator()),
{
    let be = be_separator();
    let d = text::decimal_text(n);
    let rest = d + celsius_unit() + tail;
    let front = head + be;
    let question = head + be + d + celsius_unit() + tail;
    assert(question =~= front + rest);
    // The first " be " is the one after the head.
    assert forall|j: int| 0 <= j < head.len() implies !text::occurs_at(question, be, j) by {
        if text::occurs_at(question, be, j) {
            assert(question.subrange(j, j + 4)[1] == question[j + 1]);
            if j + 1 < head.len() {
                assert(question[j + 1] == head[j + 1]);
            } else {
                assert(question[j + 1] == be[0]);
            }
        }
    }
    text::lemma_find_skip(question, be, 0, head.len() as int);
    assert(text::occurs_at(question, be, head.len() as int)) by {
        assert(question.subrange(head.len() as int, head.len() + 4int) =~= be);
    }
    // No second " be " follows: the number and the unit hold no space.
    text::lemma_decimal_text_chars(n);
    let pre = d + celsius_unit();
    assert(rest =~= pre + tail);
    assert forall|k: int| 0 <= k < pre.len() implies #[trigger] pre[k] != be[0] by {
        if k < d.len() {
            assert(pre[k] == d[k]);
            assert(text::is_digit(d[k]) || d[k] == '-');
        }
    }
    text::lemma_find_past_prefix(pre, tail, be);
    text::lemma_contains_iff_found(tail, be);
    text::lemma_find_shift(front, rest, be, 0);
    assert(question.subrange(front.len() as int, question.len() as int) =~= rest);
    lemma_question_reads_its_bucket(question, n, tail);
}

} // verus!
