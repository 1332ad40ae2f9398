//! Assembly of the transcript files: SRT cues numbered from one, WebVTT
//! cues, and the framing of the JSON list of segments.

use vstd::prelude::*;
use crate::srt::{cue_wf, Cue, SpecCue};
use crate::decimal::{big_add, big_from_u64, big_shift, big_sub, big_val, pow10};
use crate::timestamp::{lemma_round_nonpos, round_half_up, round_ms, time_wf, SpecTime, SrtTime};
use crate::text::{join, string_of};
use crate::timefmt::{
    clock_chars, clock_text, decimal_digits, lemma_decimal_digits, only_digits, padded, push_decimal,
};
use crate::srt::decimal_value;

verus! {

/// `" --> "`, between the start and end time of a cue.
pub open spec fn arrow_text() -> Seq<char> {
    seq![' ', '-', '-', '>', ' ']
}

/// The milliseconds written for a time: the value rounded to a whole
/// number (halves upwards), negative results, negative infinity and
/// not-a-number as zero, and results beyond `u64::MAX` (positive infinity
/// too) as `u64::MAX`.
pub open spec fn written_ms(t: SpecTime) -> u64 {
    match t {
        SpecTime::Ms { value, scale } => {
            let r = round_half_up(value, scale);
            if r < 0 {
                0
            } else if r > u64::MAX {
                u64::MAX
            } else {
                r as u64
            }
        },
        SpecTime::PosInf => u64::MAX,
        SpecTime::NegInf => 0,
        SpecTime::NaN => 0,
    }
}

/// The milliseconds written for a time.
pub fn written_time(t: &SrtTime) -> (r: u64)
    requires
        time_wf(*t),
    ensures
        r == written_ms(t@),
{
    match t {
        SrtTime::Ms { neg, mag, scale } => {
            if *neg {
                proof {
                    lemma_round_nonpos(-big_val(mag@), *scale as nat);
                }
                0
            } else {
                round_ms(mag, *scale)
            }
        },
        SrtTime::PosInf => u64::MAX,
        SrtTime::NegInf => 0,
        SrtTime::NaN => 0,
    }
}

/// The timing line of a cue, without its line end.
pub open spec fn timing_text(c: SpecCue, frac_sep: char) -> Seq<char> {
    clock_text(written_ms(c.start) as nat, frac_sep) + arrow_text() + clock_text(
        written_ms(c.end) as nat,
        frac_sep,
    )
}

/// The SRT block of cue number `index`: the number, the timing line, the
/// text, and an empty line.
pub open spec fn srt_block_text(index: nat, c: SpecCue) -> Seq<char> {
    decimal_digits(index) + seq!['\n'] + timing_text(c, ',') + seq!['\n'] + c.text + seq!['\n', '\n']
}

/// The WebVTT block of a cue: the timing line, the text, and an empty line.
pub open spec fn vtt_block_text(c: SpecCue) -> Seq<char> {
    timing_text(c, '.') + seq!['\n'] + c.text + seq!['\n', '\n']
}

/// The first line of a WebVTT file and the empty line after it.
pub open spec fn vtt_header_text() -> Seq<char> {
    seq!['W', 'E', 'B', 'V', 'T', 'T', '\n', '\n']
}

/// The opening of the JSON document: `{"segments":[` and a line end.
pub open spec fn json_open_text() -> Seq<char> {
    seq!['{', '"', 's', 'e', 'g', 'm', 'e', 'n', 't', 's', '"', ':', '[', '\n']
}

/// The closing of the JSON document: a line end, `]}` and a line end.
pub open spec fn json_close_text() -> Seq<char> {
    seq!['\n', ']', '}', '\n']
}

/// What precedes a JSON segment object: nothing before the first, a comma
/// and a line end before any other.
pub open spec fn json_separator_text(first: bool) -> Seq<char> {
    if first {
        seq![]
    } else {
        seq![',', '\n']
    }
}

/// The body of the JSON list written for some objects, in order: each
/// object preceded by its separator, the first by none.
pub open spec fn json_items(objs: Seq<Seq<char>>) -> Seq<char>
    decreases objs.len(),
{
    if objs.len() == 0 {
        seq![]
    } else {
        json_items(objs.drop_last()) + json_separator_text(objs.len() == 1) + objs.last()
    }
}

/// The JSON list holds its objects with exactly one separator between two
/// consecutive objects and none before the first or after the last: the
/// objects, each preceded by its separator, are the objects joined with
/// `",\n"`.
pub proof fn lemma_json_framing(objs: Seq<Seq<char>>)
    ensures
        json_items(objs) == join(objs, json_separator_text(false)),
    decreases objs.len(),
{
    if objs.len() == 1 {
        assert(objs.drop_last() =~= Seq::<Seq<char>>::empty());
        assert(json_items(objs.drop_last()) == Seq::<char>::empty());
        assert(json_items(objs) =~= Seq::<char>::empty() + Seq::<char>::empty() + objs.last());
        assert(json_items(objs) =~= objs[0]);
    } else if objs.len() > 1 {
        lemma_json_framing(objs.drop_last());
    }
}

fn push_all(out: &mut Vec<char>, s: &Vec<char>)
    ensures
        final(out)@ == old(out)@ + s@,
{
    let mut j: usize = 0;
    while j < s.len()
        invariant
            j <= s@.len(),
            out@ == old(out)@ + s@.take(j as int),
        decreases s@.len() - j,
    {
        out.push(s[j]);
        assert(s@.take(j + 1) =~= s@.take(j as int).push(s@[j as int]));
        j = j + 1;
    }
    assert(s@.take(s@.len() as int) =~= s@);
}

fn push_str_chars(out: &mut Vec<char>, s: &String)
    ensures
        final(out)@ == old(out)@ + s@,
{
    let cs = crate::text::chars_of(s.as_str());
    push_all(out, &cs);
}

fn timing_chars(c: &Cue, frac_sep: char) -> (r: Vec<char>)
    requires
        cue_wf(*c),
    ensures
        r@ == timing_text(c@, frac_sep),
{
    let mut out = clock_chars(written_time(&c.start), frac_sep);
    let arrow: Vec<char> = vec![' ', '-', '-', '>', ' '];
    push_all(&mut out, &arrow);
    let end = clock_chars(written_time(&c.end), frac_sep);
    push_all(&mut out, &end);
    assert(out@ =~= timing_text(c@, frac_sep));
    out
}

/// The SRT block of cue number `index`.
pub fn srt_block(index: u64, c: &Cue) -> (r: String)
    requires
        cue_wf(*c),
    ensures
        r@ == srt_block_text(index as nat, c@),
{
    let mut out: Vec<char> = Vec::new();
    push_decimal(&mut out, index);
    out.push('\n');
    let timing = timing_chars(c, ',');
    push_all(&mut out, &timing);
    out.push('\n');
    push_str_chars(&mut out, &c.text);
    out.push('\n');
    out.push('\n');
    assert(out@ =~= srt_block_text(index as nat, c@));
    string_of(out.as_slice())
}

/// The WebVTT block of a cue.
pub fn vtt_block(c: &Cue) -> (r: String)
    requires
        cue_wf(*c),
    ensures
        r@ == vtt_block_text(c@),
{
    let mut out = timing_chars(c, '.');
    out.push('\n');
    push_str_chars(&mut out, &c.text);
    out.push('\n');
    out.push('\n');
    assert(out@ =~= vtt_block_text(c@));
    string_of(out.as_slice())
}

/// The start of a WebVTT file.
pub fn vtt_header() -> (r: String)
    ensures
        r@ == vtt_header_text(),
{
    let cs: Vec<char> = vec!['W', 'E', 'B', 'V', 'T', 'T', '\n', '\n'];
    assert(cs@ =~= vtt_header_text());
    string_of(cs.as_slice())
}

/// The opening of the JSON document.
pub fn json_open() -> (r: String)
    ensures
        r@ == json_open_text(),
{
    let cs: Vec<char> = vec!['{', '"', 's', 'e', 'g', 'm', 'e', 'n', 't', 's', '"', ':', '[', '\n'];
    assert(cs@ =~= json_open_text());
    string_of(cs.as_slice())
}

/// The closing of the JSON document.
pub fn json_close() -> (r: String)
    ensures
        r@ == json_close_text(),
{
    let cs: Vec<char> = vec!['\n', ']', '}', '\n'];
    assert(cs@ =~= json_close_text());
    string_of(cs.as_slice())
}

/// What precedes a JSON segment object.
pub fn json_separator(first: bool) -> (r: String)
    ensures
        r@ == json_separator_text(first),
{
    if first {
        String::new()
    } else {
        let cs: Vec<char> = vec![',', '\n'];
        assert(cs@ =~= json_separator_text(false));
        string_of(cs.as_slice())
    }
}


// ---------------------------------------------------------------------------
// Writing the cues of a chunk
// ---------------------------------------------------------------------------

/// A time moved later by `offset` milliseconds (infinities and
/// not-a-number stay as they are).
pub open spec fn shift_time(t: SpecTime, offset: u64) -> SpecTime {
    match t {
        SpecTime::Ms { value, scale } => SpecTime::Ms {
            value: value + offset * pow10(scale),
            scale,
        },
        _ => t,
    }
}

/// A cue moved later by `offset` milliseconds.
pub open spec fn shifted(c: SpecCue, offset: u64) -> SpecCue {
    SpecCue { start: shift_time(c.start, offset), end: shift_time(c.end, offset), text: c.text }
}

fn shift_time_exec(t: &SrtTime, offset: u64) -> (r: SrtTime)
    requires
        time_wf(*t),
    ensures
        r@ == shift_time(t@, offset),
        time_wf(r),
{
    match t {
        SrtTime::Ms { neg, mag, scale } => {
            let o = big_from_u64(offset);
            let os = big_shift(&o, *scale);
            proof {
                assert(pow10(*scale as nat) * offset == offset * pow10(*scale as nat))
                    by (nonlinear_arith);
            }
            if !*neg {
                SrtTime::Ms { neg: false, mag: big_add(mag, &os), scale: *scale }
            } else {
                let (d, borrow) = big_sub(&os, mag);
                if !borrow {
                    SrtTime::Ms { neg: false, mag: d, scale: *scale }
                } else {
                    let (d2, _) = big_sub(mag, &os);
                    SrtTime::Ms { neg: true, mag: d2, scale: *scale }
                }
            }
        },
        SrtTime::PosInf => SrtTime::PosInf,
        SrtTime::NegInf => SrtTime::NegInf,
        SrtTime::NaN => SrtTime::NaN,
    }
}

/// A cue of a chunk moved to the chunk's place in the whole audio.
pub fn shift_cue(c: &Cue, offset: u64) -> (r: Cue)
    requires
        cue_wf(*c),
    ensures
        r@ == shifted(c@, offset),
        cue_wf(r),
{
    Cue {
        start: shift_time_exec(&c.start, offset),
        end: shift_time_exec(&c.end, offset),
        text: c.text.clone(),
    }
}

/// One cue as written to the three transcript files; the JSON object of
/// `cue` follows `json_prefix`.
pub struct RenderedCue {
    pub srt: String,
    pub vtt: String,
    pub json_prefix: String,
    pub cue: Cue,
}

/// The state of the transcript files between cues: the number of the next
/// SRT cue, and whether no JSON segment has been written yet.
pub struct TranscriptWriter {
    pub next_index: u64,
    pub first_json: bool,
}

/// A writer as `new` and the emitting methods leave it: no JSON segment is
/// written exactly while the next SRT number is one.
pub open spec fn writer_wf(w: TranscriptWriter) -> bool {
    w.next_index >= 1 && w.first_json == (w.next_index == 1)
}

impl TranscriptWriter {
    /// The state before any cue.
    pub fn new() -> (w: TranscriptWriter)
        ensures
            w.next_index == 1,
            w.first_json,
            writer_wf(w),
    {
        TranscriptWriter { next_index: 1, first_json: true }
    }

    /// Writes one cue: numbered `next_index` in the SRT file, preceded by a
    /// separator in the JSON list unless it is the first.
    pub fn emit(&mut self, c: Cue) -> (r: RenderedCue)
        requires
            old(self).next_index < u64::MAX,
            cue_wf(c),
        ensures
            r.cue@ == c@,
            r.srt@ == srt_block_text(old(self).next_index as nat, c@),
            r.vtt@ == vtt_block_text(c@),
            r.json_prefix@ == json_separator_text(old(self).first_json),
            final(self).next_index == old(self).next_index + 1,
            !final(self).first_json,
            writer_wf(*old(self)) ==> writer_wf(*final(self)),
    {
        let srt = srt_block(self.next_index, &c);
        let vtt = vtt_block(&c);
        let json_prefix = json_separator(self.first_json);
        self.next_index = self.next_index + 1;
        self.first_json = false;
        RenderedCue { srt, vtt, json_prefix, cue: c }
    }

    /// Writes the cues of one chunk, moved by the chunk's offset in the
    /// audio, in order.
    pub fn emit_chunk(&mut self, offset_ms: u64, cues: &Vec<Cue>) -> (r: Vec<RenderedCue>)
        requires
            old(self).next_index + cues@.len() <= u64::MAX,
            forall|k: int| 0 <= k < cues@.len() ==> cue_wf(#[trigger] cues@[k]),
        ensures
            r@.len() == cues@.len(),
            forall|k: int|
                #![trigger r@[k]]
                0 <= k < cues@.len() ==> {
                    &&& r@[k].cue@ == shifted(cues@[k]@, offset_ms)
                    &&& r@[k].srt@ == srt_block_text(
                        (old(self).next_index + k) as nat,
                        shifted(cues@[k]@, offset_ms),
                    )
                    &&& r@[k].vtt@ == vtt_block_text(shifted(cues@[k]@, offset_ms))
                    &&& r@[k].json_prefix@ == json_separator_text(old(self).first_json && k == 0)
                },
            final(self).next_index == old(self).next_index + cues@.len(),
            final(self).first_json == (old(self).first_json && cues@.len() == 0),
            writer_wf(*old(self)) ==> writer_wf(*final(self)),
            writer_wf(*old(self)) ==> forall|k: int|
                0 <= k < cues@.len() ==> (#[trigger] r@[k]).json_prefix@ == json_separator_text(
                    old(self).next_index + k == 1,
                ),
    {
        let mut out: Vec<RenderedCue> = Vec::new();
        let mut k: usize = 0;
        while k < cues.len()
            invariant
                k <= cues@.len(),
                out@.len() == k,
                self.next_index == old(self).next_index + k,
                old(self).next_index + cues@.len() <= u64::MAX,
                forall|k: int| 0 <= k < cues@.len() ==> cue_wf(#[trigger] cues@[k]),
                self.first_json == (old(self).first_json && k == 0),
                forall|j: int|
                    #![trigger out@[j]]
                    0 <= j < k ==> {
                        &&& out@[j].cue@ == shifted(cues@[j]@, offset_ms)
                        &&& out@[j].srt@ == srt_block_text(
                            (old(self).next_index + j) as nat,
                            shifted(cues@[j]@, offset_ms),
                        )
                        &&& out@[j].vtt@ == vtt_block_text(shifted(cues@[j]@, offset_ms))
                        &&& out@[j].json_prefix@ == json_separator_text(
                            old(self).first_json && j == 0,
                        )
                    },
            decreases cues@.len() - k,
        {
            let c = shift_cue(&cues[k], offset_ms);
            let rc = self.emit(c);
            out.push(rc);
            k = k + 1;
        }
        out
    }
}


// ---------------------------------------------------------------------------
// Laws of the written blocks and times
// ---------------------------------------------------------------------------

/// A WebVTT block is, in order: the start time's clock text, `" --> "`, the
/// end time's clock text (both with `.` before the milliseconds), a line
/// end, the cue's text character for character, and two line ends.
pub proof fn lemma_vtt_block_layout(c: SpecCue)
    ensures
        ({
            let b = vtt_block_text(c);
            let ts = clock_text(written_ms(c.start) as nat, '.');
            let te = clock_text(written_ms(c.end) as nat, '.');
            let i = ts.len() as int;
            let k = i + 5 + te.len();
            let n = c.text.len() as int;
            &&& b.len() == k + n + 3
            &&& b.subrange(0, i) == ts
            &&& b.subrange(i, i + 5) == seq![' ', '-', '-', '>', ' ']
            &&& b.subrange(i + 5, k) == te
            &&& b[k] == '\n'
            &&& b.subrange(k + 1, k + 1 + n) == c.text
            &&& b[k + 1 + n] == '\n'
            &&& b[k + 2 + n] == '\n'
        }),
{
    let b = vtt_block_text(c);
    let ts = clock_text(written_ms(c.start) as nat, '.');
    let te = clock_text(written_ms(c.end) as nat, '.');
    let i = ts.len() as int;
    let k = i + 5 + te.len();
    let n = c.text.len() as int;
    assert(b =~= ts + seq![' ', '-', '-', '>', ' '] + te + seq!['\n'] + c.text + seq!['\n', '\n']);
    assert(b.subrange(0, i) =~= ts);
    assert(b.subrange(i, i + 5) =~= seq![' ', '-', '-', '>', ' ']);
    assert(b.subrange(i + 5, k) =~= te);
    assert(b.subrange(k + 1, k + 1 + n) =~= c.text);
}

/// An SRT block is, in order: the cue's number in decimal digits, a line
/// end, the start time's clock text, `" --> "`, the end time's clock text
/// (both with `,` before the milliseconds), a line end, the cue's text
/// character for character, and two line ends.
#[verifier::rlimit(60)]
pub proof fn lemma_srt_block_layout(index: nat, c: SpecCue)
    ensures
        ({
            let b = srt_block_text(index, c);
            let d = decimal_digits(index);
            let ts = clock_text(written_ms(c.start) as nat, ',');
            let te = clock_text(written_ms(c.end) as nat, ',');
            let j = d.len() as int;
            let i = j + 1 + ts.len();
            let k = i + 5 + te.len();
            let n = c.text.len() as int;
            &&& j > 0 && only_digits(d) && decimal_value(d) == index
            &&& b.len() == k + n + 3
            &&& b.subrange(0, j) == d
            &&& b[j] == '\n'
            &&& b.subrange(j + 1, i) == ts
            &&& b.subrange(i, i + 5) == seq![' ', '-', '-', '>', ' ']
            &&& b.subrange(i + 5, k) == te
            &&& b[k] == '\n'
            &&& b.subrange(k + 1, k + 1 + n) == c.text
            &&& b[k + 1 + n] == '\n'
            &&& b[k + 2 + n] == '\n'
        }),
{
    lemma_decimal_digits(index);
    let b = srt_block_text(index, c);
    let d = decimal_digits(index);
    let ts = clock_text(written_ms(c.start) as nat, ',');
    let te = clock_text(written_ms(c.end) as nat, ',');
    let j = d.len() as int;
    let i = j + 1 + ts.len();
    let k = i + 5 + te.len();
    let n = c.text.len() as int;
    assert(b =~= d + seq!['\n'] + ts + seq![' ', '-', '-', '>', ' '] + te + seq!['\n'] + c.text
        + seq!['\n', '\n']);
    assert(b.subrange(0, j) =~= d);
    assert(b.subrange(j + 1, i) =~= ts);
    assert(b.subrange(i, i + 5) =~= seq![' ', '-', '-', '>', ' ']);
    assert(b.subrange(i + 5, k) =~= te);
    assert(b.subrange(k + 1, k + 1 + n) =~= c.text);
}

/// The WebVTT clock text of a time is its SRT clock text with the comma
/// before the milliseconds made a full stop.
pub proof fn lemma_vtt_clock_is_srt_clock(t: nat)
    ensures
        clock_text(t, ',').len() >= 4,
        clock_text(t, ',')[clock_text(t, ',').len() - 4] == ',',
        clock_text(t, '.') == clock_text(t, ',').update(clock_text(t, ',').len() - 4int, '.'),
{
    let a = padded(t / 3600000, 2) + seq![':'] + padded((t % 3600000) / 60000, 2) + seq![':']
        + padded((t % 60000) / 1000, 2);
    let d = padded(t % 1000, 3);
    crate::timefmt::lemma_padded(t % 1000, 3);
    assert(d.len() == 3) by {
        reveal_with_fuel(decimal_digits, 4);
        if t % 1000 >= 100 {
            assert(decimal_digits(t % 1000).len() == 3);
        } else if t % 1000 >= 10 {
            assert(decimal_digits(t % 1000).len() == 2);
        } else {
            assert(decimal_digits(t % 1000).len() == 1);
        }
    }
    assert(clock_text(t, ',') =~= a + seq![','] + d);
    assert(clock_text(t, '.') =~= a + seq!['.'] + d);
    assert(clock_text(t, '.') =~= clock_text(t, ',').update(clock_text(t, ',').len() - 4int, '.'));
}

/// Writing rounds to the nearest whole millisecond, halves upwards, and
/// saturates: with `p = 10^scale`, a value below half a millisecond is
/// written as 0, one of at least `u64::MAX - 1/2` as `u64::MAX`, and any
/// other as the `w` with `w - 1/2 <= value / p < w + 1/2`.
pub proof fn lemma_written_rounds(value: int, scale: nat)
    ensures
        ({
            let w = written_ms(SpecTime::Ms { value, scale }) as int;
            let p = pow10(scale) as int;
            &&& 2 * value < p ==> w == 0
            &&& 2 * value >= (2 * (u64::MAX as int) - 1) * p ==> w == u64::MAX
            &&& p <= 2 * value < (2 * (u64::MAX as int) - 1) * p ==> (2 * w - 1) * p <= 2 * value < (
            2 * w + 1) * p
        }),
{
    reveal(round_half_up);
    crate::decimal::lemma_pow10_pos(scale);
    let p = pow10(scale) as int;
    let r = round_half_up(value, scale);
    // `2 * value + p` lies in `[2 * r * p, 2 * r * p + 2 * p)`
    if scale == 0 {
        assert(p == 1);
        assert(r == value);
        assert(2 * r * p <= 2 * value + p < 2 * r * p + 2 * p) by (nonlinear_arith)
            requires
                p == 1,
                r == value,
        ;
    } else {
        let h = 5 * pow10((scale - 1) as nat);
        assert(p == 2 * h);
        let x = value + h;
        vstd::arithmetic::div_mod::lemma_fundamental_div_mod(x, p);
        assert(r == x / p);
        assert(2 * r * p <= 2 * value + p < 2 * r * p + 2 * p) by (nonlinear_arith)
            requires
                x == p * (x / p) + x % p,
                0 <= x % p < p,
                r == x / p,
                x == value + h,
                p == 2 * h,
        ;
    }
    let m = u64::MAX as int;
    assert(2 * value < p ==> r <= 0) by (nonlinear_arith)
        requires
            2 * r * p <= 2 * value + p,
            p > 0,
    ;
    assert(2 * value >= p ==> r >= 1) by (nonlinear_arith)
        requires
            2 * value + p < 2 * r * p + 2 * p,
            p > 0,
    ;
    assert(2 * value >= (2 * m - 1) * p ==> r >= m) by (nonlinear_arith)
        requires
            2 * value + p < 2 * r * p + 2 * p,
            p > 0,
    ;
    assert(2 * value < (2 * m - 1) * p ==> r < m) by (nonlinear_arith)
        requires
            2 * r * p <= 2 * value + p,
            p > 0,
    ;
    assert((2 * r - 1) * p <= 2 * value < (2 * r + 1) * p) by (nonlinear_arith)
        requires
            2 * r * p <= 2 * value + p < 2 * r * p + 2 * p,
    ;
}

/// Moving a time of zero or more milliseconds later by a whole number of
/// milliseconds moves what is written by the same amount (up to
/// `u64::MAX`).
pub proof fn lemma_shift_written(value: int, scale: nat, offset: u64)
    requires
        value >= 0,
    ensures
        written_ms(shift_time(SpecTime::Ms { value, scale }, offset)) == if written_ms(
            SpecTime::Ms { value, scale },
        ) + offset > u64::MAX {
            u64::MAX as int
        } else {
            written_ms(SpecTime::Ms { value, scale }) + offset
        },
{
    reveal(round_half_up);
    crate::decimal::lemma_pow10_pos(scale);
    let p = pow10(scale) as int;
    let r = round_half_up(value, scale);
    let r2 = round_half_up(value + offset * p, scale);
    if scale == 0 {
        assert(p == 1);
        assert(offset * p == offset) by (nonlinear_arith)
            requires
                p == 1,
        ;
        assert(r2 == r + offset);
    } else {
        let h = 5 * pow10((scale - 1) as nat);
        vstd::arithmetic::div_mod::lemma_hoist_over_denominator(value + h, offset as int, p as nat);
        assert(value + offset * p + h == (value + h) + offset * p);
        assert(r2 == r + offset);
    }
    assert(r >= 0) by {
        if scale > 0 {
            let h = 5 * pow10((scale - 1) as nat);
            vstd::arithmetic::div_mod::lemma_div_pos_is_pos(value + h, p);
        }
    }
}

} // verus!
