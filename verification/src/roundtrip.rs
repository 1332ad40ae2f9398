//! Reading back the SRT text that the transcript writer produces.

use vstd::prelude::*;
use crate::srt::{
    arrow, blank_line, is_digit, parse_blocks, spec_parse_block, spec_parse_srt, SpecCue, SrtError,
};
use crate::text::{
    is_white_space, join, lemma_lines_front, lemma_lines_last, lemma_split_front,
    lemma_split_last, lemma_trim_end_at, lemma_trim_start_at, lines, lines_from, occurs_at, split,
    split_from, strip_cr, trim,
};
use crate::timefmt::{
    clock_text, decimal_digits, lemma_decimal_digits, lemma_padded, lemma_srt_time_round_trip, padded,
};
use crate::transcript::{arrow_text, srt_block_text, timing_text, written_ms};
use crate::timestamp::{round_half_up, SpecTime};

verus! {

/// Text that a cue carries unchanged through writing and reading: not
/// empty, without line breaks, and without white space at either end.
pub open spec fn plain_text(t: Seq<char>) -> bool {
    &&& t.len() > 0
    &&& !is_white_space(t[0])
    &&& !is_white_space(t.last())
    &&& forall|i: int| 0 <= i < t.len() ==> #[trigger] t[i] != '\n'
}

/// A time that is written exactly: whole milliseconds within
/// `0..=u64::MAX`, held without a fraction.
pub open spec fn writable_time(t: SpecTime) -> bool {
    t matches SpecTime::Ms { value, scale } && scale == 0 && 0 <= value <= u64::MAX
}

/// A cue that reads back unchanged: plain text and writable times.
pub open spec fn plain_cue(c: SpecCue) -> bool {
    plain_text(c.text) && writable_time(c.start) && writable_time(c.end)
}

/// The SRT text of `cues`, numbered from `first`.
pub open spec fn srt_document(first: nat, cues: Seq<SpecCue>) -> Seq<char>
    decreases cues.len(),
{
    if cues.len() == 0 {
        seq![]
    } else {
        srt_block_text(first, cues[0]) + srt_document(first + 1, cues.drop_first())
    }
}

/// A block without the empty line after it.
#[verifier::opaque]
spec fn block_body(index: nat, c: SpecCue) -> Seq<char> {
    decimal_digits(index) + seq!['\n'] + timing_text(c, ',') + seq!['\n'] + c.text
}

/// The characters of a clock text.
spec fn clock_like(x: Seq<char>) -> bool {
    &&& x.len() > 0
    &&& is_digit(x[0])
    &&& is_digit(x.last())
    &&& forall|i: int|
        0 <= i < x.len() ==> is_digit(#[trigger] x[i]) || x[i] == ':' || x[i] == ','
}

proof fn lemma_clock_like(t: nat)
    ensures
        clock_like(clock_text(t, ',')),
{
    let a = padded(t / 3600000, 2);
    let b = padded((t % 3600000) / 60000, 2);
    let c = padded((t % 60000) / 1000, 2);
    let d = padded(t % 1000, 3);
    lemma_padded(t / 3600000, 2);
    lemma_padded((t % 3600000) / 60000, 2);
    lemma_padded((t % 60000) / 1000, 2);
    lemma_padded(t % 1000, 3);
    let x = clock_text(t, ',');
    assert(x == a + seq![':'] + b + seq![':'] + c + seq![','] + d);
    let i1 = a.len() as int;
    let i2 = i1 + 1 + b.len();
    let i3 = i2 + 1 + c.len();
    assert(x[0] == a[0]);
    assert(x.last() == d.last());
    assert(is_digit(d[d.len() - 1]));
    assert forall|i: int| 0 <= i < x.len() implies is_digit(#[trigger] x[i]) || x[i] == ':' || x[i]
        == ',' by {
        if i < i1 {
            assert(x[i] == a[i]);
        } else if i == i1 || i == i2 {
        } else if i < i2 {
            assert(x[i] == b[i - i1 - 1]);
        } else if i < i3 {
            assert(x[i] == c[i - i2 - 1]);
        } else if i == i3 {
        } else {
            assert(x[i] == d[i - i3 - 1]);
        }
    }
}

proof fn lemma_not_at(s: Seq<char>, pat: Seq<char>, k: int)
    requires
        pat.len() > 0,
        0 <= k < s.len(),
        s[k] != pat[0],
    ensures
        !occurs_at(s, pat, k),
{
    if occurs_at(s, pat, k) {
        assert(s.subrange(k, k + pat.len())[0] == s[k]);
    }
}

/// The two pieces of a timing line around `-->`, trimmed, are the two clock
/// texts.
proof fn lemma_timing_pieces(c: SpecCue)
    ensures
        split(timing_text(c, ','), arrow()).len() >= 2,
        trim(split(timing_text(c, ','), arrow())[0]) == clock_text(written_ms(c.start) as nat, ','),
        trim(split(timing_text(c, ','), arrow())[1]) == clock_text(written_ms(c.end) as nat, ','),
{
    let a = written_ms(c.start) as nat;
    let b = written_ms(c.end) as nat;
    assert(timing_text(c, ',') == clock_text(a, ',') + arrow_text() + clock_text(b, ','));
    lemma_clock_pair_pieces(a, b);
}

proof fn lemma_clock_pair_pieces(a: nat, b: nat)
    ensures
        split(clock_text(a, ',') + arrow_text() + clock_text(b, ','), arrow()).len() >= 2,
        trim(split(clock_text(a, ',') + arrow_text() + clock_text(b, ','), arrow())[0])
            == clock_text(a, ','),
        trim(split(clock_text(a, ',') + arrow_text() + clock_text(b, ','), arrow())[1])
            == clock_text(b, ','),
{
    let cs = clock_text(a, ',');
    let ce = clock_text(b, ',');
    lemma_clock_like(a);
    lemma_clock_like(b);
    let t = cs + arrow_text() + ce;
    let p = arrow();
    let n = cs.len() as int;
    assert(t.subrange(n + 1, n + 4) =~= p);
    assert forall|k: int| 0 <= k < n + 1 implies !occurs_at(t, p, k) by {
        if k < n {
            assert(t[k] == cs[k]);
        }
        lemma_not_at(t, p, k);
    }
    lemma_split_front(t, p, 0, n + 1);
    assert forall|k: int| n + 4 <= k implies !occurs_at(t, p, k) by {
        if k < t.len() {
            if k > n + 4 {
                assert(t[k] == ce[k - n - 5]);
            }
            lemma_not_at(t, p, k);
        }
    }
    lemma_split_last(t, p, n + 4);
    let pieces = split(t, p);
    assert(pieces == seq![t.subrange(0, n + 1)] + seq![t.subrange(n + 4, t.len() as int)]);
    let x = t.subrange(0, n + 1);
    let y = t.subrange(n + 4, t.len() as int);
    assert(x =~= cs.push(' '));
    assert(y =~= seq![' '] + ce);
    // trimming the start piece
    lemma_trim_start_at(x, 0);
    assert(x.subrange(0, x.len() as int) =~= x);
    assert forall|k: int| n <= k < x.len() implies is_white_space(#[trigger] x[k]) by {}
    assert(x[n - 1] == cs.last());
    lemma_trim_end_at(x, n);
    assert(x.subrange(0, n) =~= cs);
    // trimming the end piece
    assert(y[1] == ce[0]);
    lemma_trim_start_at(y, 1);
    assert(y.subrange(1, y.len() as int) =~= ce);
    assert forall|k: int| ce.len() <= k < ce.len() implies is_white_space(#[trigger] ce[k]) by {}
    lemma_trim_end_at(ce, ce.len() as int);
    assert(ce.subrange(0, ce.len() as int) =~= ce);
}

proof fn lemma_block_lines(index: nat, c: SpecCue)
    requires
        plain_text(c.text),
    ensures
        lines(block_body(index, c)) == seq![decimal_digits(index), timing_text(c, ','), c.text],
{
    reveal(block_body);
    let d = decimal_digits(index);
    let t = timing_text(c, ',');
    let x = c.text;
    let body = block_body(index, c);
    lemma_decimal_digits(index);
    lemma_clock_like(written_ms(c.start) as nat);
    lemma_clock_like(written_ms(c.end) as nat);
    let cs = clock_text(written_ms(c.start) as nat, ',');
    let ce = clock_text(written_ms(c.end) as nat, ',');
    assert(t == cs + arrow_text() + ce);
    let i1 = d.len() as int;
    let i2 = i1 + 1 + t.len();
    assert forall|k: int| 0 <= k < i1 implies body[k] != '\n' by {
        assert(body[k] == d[k]);
        assert(is_digit(d[k]));
    }
    assert(body[i1] == '\n');
    lemma_lines_front(body, 0, i1);
    assert forall|k: int| i1 + 1 <= k < i2 implies body[k] != '\n' by {
        let j = k - i1 - 1;
        assert(body[k] == t[j]);
        if j < cs.len() {
            assert(t[j] == cs[j]);
        } else if j < cs.len() + 5 {
        } else {
            assert(t[j] == ce[j - cs.len() - 5]);
        }
    }
    assert(body[i2] == '\n');
    lemma_lines_front(body, i1 + 1, i2);
    assert forall|k: int| i2 + 1 <= k < body.len() implies body[k] != '\n' by {
        assert(body[k] == x[k - i2 - 1]);
    }
    lemma_lines_last(body, i2 + 1);
    assert(body.subrange(0, i1) =~= d);
    assert(body.subrange(i1 + 1, i2) =~= t);
    assert(body.subrange(i2 + 1, body.len() as int) =~= x);
    assert(is_digit(d[d.len() - 1]));
    assert(strip_cr(d) == d);
    assert(t.last() == ce.last());
    assert(strip_cr(t) == t);
    assert(lines_from(body, i2 + 1) == seq![x]);
    assert(lines(body) =~= seq![d, t, x]);
}

proof fn lemma_block_parse(index: nat, c: SpecCue)
    requires
        plain_cue(c),
    ensures
        spec_parse_block(block_body(index, c)) == Some(Ok::<SpecCue, SrtError>(c)),
{
    lemma_block_lines(index, c);
    lemma_timing_pieces(c);
    let ls = lines(block_body(index, c));
    let x = c.text;
    assert(ls.subrange(2, ls.len() as int) =~= seq![x]);
    assert(join(seq![x], seq![' ']) == x);
    lemma_trim_start_at(x, 0);
    assert(x.subrange(0, x.len() as int) =~= x);
    lemma_trim_end_at(x, x.len() as int);
    lemma_srt_time_round_trip(written_ms(c.start));
    lemma_srt_time_round_trip(written_ms(c.end));
    reveal(round_half_up);
    assert(SpecTime::Ms { value: written_ms(c.start) as int, scale: 0 } == c.start);
    assert(SpecTime::Ms { value: written_ms(c.end) as int, scale: 0 } == c.end);
}

/// Every line end in `b` is followed by something else.
spec fn lone_newlines(b: Seq<char>) -> bool {
    forall|j: int| 0 <= j < b.len() && #[trigger] b[j] == '\n' ==> j + 1 < b.len() && b[j + 1] != '\n'
}

/// Splitting at the empty line after a block body.
proof fn lemma_split_block(s: Seq<char>, start: int, body: Seq<char>)
    requires
        0 <= start,
        start + body.len() + 2 <= s.len(),
        s.subrange(start, start + body.len() + 2) == body + blank_line(),
        lone_newlines(body),
    ensures
        split_from(s, blank_line(), start) == seq![body] + split_from(
            s,
            blank_line(),
            start + body.len() + 2,
        ),
{
    let pat = blank_line();
    let b = body.len() as int;
    let w = s.subrange(start, start + b + 2);
    assert forall|k: int| 0 <= k < b + 2 implies s[start + k] == w[k] by {}
    assert forall|k: int| 0 <= k < b implies s[start + k] == body[k] by {
        assert(w[k] == body[k]);
    }
    assert(s.subrange(start + b, start + b + 2) =~= pat) by {
        assert(w[b] == pat[0]);
        assert(w[b + 1] == pat[1]);
    }
    assert forall|k: int| start <= k < start + b implies !occurs_at(s, pat, k) by {
        if occurs_at(s, pat, k) {
            lemma_blank_at(s, k);
            let j = k - start;
            assert(s[k] == body[j]);
            if j + 1 < b {
                assert(s[k + 1] == body[j + 1]);
            }
        }
    }
    lemma_split_front(s, pat, start, b);
    assert(s.subrange(start, start + b) =~= body);
}

/// Every line end inside a block body is followed by something else.
proof fn lemma_body_lone_newlines(index: nat, c: SpecCue)
    requires
        plain_text(c.text),
    ensures
        lone_newlines(block_body(index, c)),
{
    reveal(block_body);
    let body = block_body(index, c);
    let d = decimal_digits(index);
    let t = timing_text(c, ',');
    let x = c.text;
    lemma_decimal_digits(index);
    lemma_clock_like(written_ms(c.start) as nat);
    lemma_clock_like(written_ms(c.end) as nat);
    let cs = clock_text(written_ms(c.start) as nat, ',');
    let ce = clock_text(written_ms(c.end) as nat, ',');
    assert(t == cs + arrow_text() + ce);
    assert(t[0] == cs[0]);
    let i1 = d.len() as int;
    let i2 = i1 + 1 + t.len();
    assert forall|j: int| 0 <= j < body.len() && #[trigger] body[j] == '\n' implies j + 1
        < body.len() && body[j + 1] != '\n' by {
        if j < i1 {
            assert(body[j] == d[j]);
            assert(is_digit(d[j]));
        } else if j == i1 {
            assert(body[j + 1] == t[0]);
        } else if j < i2 {
            let jj = j - i1 - 1;
            assert(body[j] == t[jj]);
            if jj < cs.len() {
                assert(t[jj] == cs[jj]);
            } else if jj >= cs.len() + 5 {
                assert(t[jj] == ce[jj - cs.len() - 5]);
            }
        } else if j == i2 {
            assert(body[j + 1] == x[0]);
        } else {
            assert(body[j] == x[j - i2 - 1]);
        }
    }
}

/// `\n\n` occurs only where two line ends follow each other.
proof fn lemma_blank_at(s: Seq<char>, k: int)
    requires
        occurs_at(s, blank_line(), k),
    ensures
        s[k] == '\n',
        s[k + 1] == '\n',
{
    assert(s.subrange(k, k + 2)[0] == s[k]);
    assert(s.subrange(k, k + 2)[1] == s[k + 1]);
}

proof fn lemma_block_text(index: nat, c: SpecCue)
    ensures
        srt_block_text(index, c) == block_body(index, c) + blank_line(),
{
    reveal(block_body);
    assert(srt_block_text(index, c) =~= block_body(index, c) + blank_line());
}

proof fn lemma_bodies_cons(first: nat, cues: Seq<SpecCue>)
    requires
        cues.len() > 0,
    ensures
        seq![block_body(first, cues[0])] + Seq::new(
            (cues.len() - 1) as nat,
            |k: int| block_body((first + 1) + k as nat, cues.drop_first()[k]),
        ).push(Seq::<char>::empty()) == Seq::new(
            cues.len(),
            |k: int| block_body(first + k as nat, cues[k]),
        ).push(Seq::<char>::empty()),
{
    let rest = cues.drop_first();
    let a = Seq::new(rest.len(), |k: int| block_body((first + 1) + k as nat, rest[k]));
    let b = Seq::new(cues.len(), |k: int| block_body(first + k as nat, cues[k]));
    assert forall|k: int| 0 <= k < rest.len() implies a[k] == b[k + 1] by {
        assert(rest[k] == cues[k + 1]);
        assert((first + 1) + k as nat == first + (k + 1) as nat);
    }
    assert(seq![block_body(first, cues[0])] + a =~= b);
    assert(seq![block_body(first, cues[0])] + a.push(Seq::<char>::empty()) =~= b.push(
        Seq::<char>::empty(),
    ));
}

/// The pieces of a document between empty lines are its block bodies and a
/// final empty piece.
proof fn lemma_document_split(s: Seq<char>, start: int, first: nat, cues: Seq<SpecCue>)
    requires
        0 <= start <= s.len(),
        s.subrange(start, s.len() as int) == srt_document(first, cues),
        forall|k: int| 0 <= k < cues.len() ==> plain_cue(#[trigger] cues[k]),
    ensures
        split_from(s, blank_line(), start) == Seq::new(
            cues.len(),
            |k: int| block_body(first + k as nat, cues[k]),
        ).push(Seq::<char>::empty()),
    decreases cues.len(),
{
    let pat = blank_line();
    if cues.len() == 0 {
        assert(start == s.len());
        assert forall|k: int| start <= k implies !occurs_at(s, pat, k) by {}
        lemma_split_last(s, pat, start);
        assert(s.subrange(start, s.len() as int) =~= Seq::<char>::empty());
        assert(Seq::new(0, |k: int| block_body(first + k as nat, cues[k])).push(
            Seq::<char>::empty(),
        ) =~= seq![Seq::<char>::empty()]);
    } else {
        let c = cues[0];
        let body = block_body(first, c);
        let rest = cues.drop_first();
        lemma_block_text(first, c);
        let doc = srt_document(first, cues);
        assert(doc == body + pat + srt_document(first + 1, rest));
        let b = body.len() as int;
        lemma_body_lone_newlines(first, c);
        assert(s.subrange(start, start + b + 2) =~= body + pat) by {
            assert(s.subrange(start, start + b + 2) =~= s.subrange(start, s.len() as int).subrange(
                0,
                b + 2,
            ));
        }
        lemma_split_block(s, start, body);
        let next = start + b + 2;
        assert(s.subrange(next, s.len() as int) =~= srt_document(first + 1, rest)) by {
            assert(s.subrange(next, s.len() as int) =~= s.subrange(start, s.len() as int).subrange(
                b + 2,
                doc.len() as int,
            ));
        }
        assert forall|k: int| 0 <= k < rest.len() implies plain_cue(#[trigger] rest[k]) by {
            assert(rest[k] == cues[k + 1]);
        }
        lemma_document_split(s, next, first + 1, rest);
        lemma_bodies_cons(first, cues);
    }
}

proof fn lemma_parse_bodies(first: nat, cues: Seq<SpecCue>)
    requires
        forall|k: int| 0 <= k < cues.len() ==> plain_cue(#[trigger] cues[k]),
    ensures
        parse_blocks(Seq::new(cues.len(), |k: int| block_body(first + k as nat, cues[k])))
            == Ok::<Seq<SpecCue>, SrtError>(cues),
    decreases cues.len(),
{
    let bs = Seq::new(cues.len(), |k: int| block_body(first + k as nat, cues[k]));
    if cues.len() > 0 {
        let init = cues.drop_last();
        assert forall|k: int| 0 <= k < init.len() implies plain_cue(#[trigger] init[k]) by {
            assert(init[k] == cues[k]);
        }
        lemma_parse_bodies(first, init);
        assert(bs.drop_last() =~= Seq::new(init.len(), |k: int| block_body(first + k as nat, init[k])));
        let n = cues.len() - 1;
        assert(bs.last() == block_body(first + n as nat, cues[n]));
        lemma_block_parse(first + n as nat, cues[n]);
        assert(init.push(cues[n]) =~= cues);
    } else {
        assert(cues =~= Seq::<SpecCue>::empty());
    }
}

/// Reading back the SRT text that the writer produces for some cues, numbered
/// from any `first`, gives those cues, provided each text is not empty,
/// holds no line break and has no white space at either end, and each time
/// is a whole number of milliseconds from zero to `u64::MAX`.
pub proof fn lemma_srt_round_trip(first: nat, cues: Seq<SpecCue>)
    requires
        forall|k: int| 0 <= k < cues.len() ==> plain_cue(#[trigger] cues[k]),
    ensures
        spec_parse_srt(srt_document(first, cues)) == Ok::<Seq<SpecCue>, SrtError>(cues),
{
    let doc = srt_document(first, cues);
    assert(doc.subrange(0, doc.len() as int) =~= doc);
    lemma_document_split(doc, 0, first, cues);
    let bs = Seq::new(cues.len(), |k: int| block_body(first + k as nat, cues[k]));
    lemma_parse_bodies(first, cues);
    let all = bs.push(Seq::<char>::empty());
    assert(all.drop_last() =~= bs);
    assert(lines(Seq::<char>::empty()) =~= Seq::<Seq<char>>::empty());
}

} // verus!
