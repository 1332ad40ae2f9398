//! Parsing of the SRT subtitle files that the speech recogniser writes.
//!
//! Times are read as `timestamp` reads them; see there.

use vstd::prelude::*;
use crate::number::text_limit;
use crate::timestamp::{parse_time_chars, spec_parse_time, time_wf, SpecTime, SrtTime};
use crate::text::{
    chars_of, copy_range, join, join_from, lemma_views_push, lines, lines_of, split, split_chars,
    string_of, trim, trim_chars, views,
};

verus! {

/// Why an SRT text could not be read.
#[derive(Debug, Clone, Copy, PartialEq, Eq, Structural)]
pub enum SrtError {
    /// A cue's timing line has no `-->` separating start and end.
    MissingEnd,
    /// A timestamp is not made of four fields separated by `:` or `,`.
    TimestampShape,
    /// A timestamp field is not a number.
    TimestampNumber,
}

/// A subtitle cue: a time span and its text.
#[derive(Debug)]
pub struct Cue {
    pub start: SrtTime,
    pub end: SrtTime,
    pub text: String,
}

/// The mathematical value of a cue.
pub struct SpecCue {
    pub start: SpecTime,
    pub end: SpecTime,
    pub text: Seq<char>,
}

impl View for Cue {
    type V = SpecCue;

    open spec fn view(&self) -> SpecCue {
        SpecCue { start: self.start@, end: self.end@, text: self.text@ }
    }
}

/// The times of a cue hold decimal digits.
pub open spec fn cue_wf(c: Cue) -> bool {
    time_wf(c.start) && time_wf(c.end)
}

/// The values of a sequence of cues.
pub open spec fn cue_views(v: Seq<Cue>) -> Seq<SpecCue> {
    v.map_values(|c: Cue| c@)
}

// ---------------------------------------------------------------------------
// Timestamps `hh:mm:ss,mmm`
// ---------------------------------------------------------------------------

/// The characters that separate timestamp fields.
pub open spec fn is_time_sep(c: char) -> bool {
    c == ':' || c == ','
}

/// The first separator at or after `start`.
pub open spec fn find_sep_from(s: Seq<char>, start: int) -> Option<int>
    decreases s.len() - start,
{
    if start < 0 || start >= s.len() {
        None
    } else if is_time_sep(s[start]) {
        Some(start)
    } else {
        find_sep_from(s, start + 1)
    }
}

pub proof fn lemma_find_sep_from(s: Seq<char>, start: int)
    requires
        0 <= start,
    ensures
        match find_sep_from(s, start) {
            Some(j) => start <= j < s.len() && is_time_sep(s[j]) && forall|k: int|
                start <= k < j ==> !is_time_sep(#[trigger] s[k]),
            None => forall|k: int| start <= k < s.len() ==> !is_time_sep(#[trigger] s[k]),
        },
    decreases s.len() - start,
{
    if start < s.len() && !is_time_sep(s[start]) {
        lemma_find_sep_from(s, start + 1);
    }
}

/// The fields of `s[start..]` between separators (`str::split([':', ','])`).
pub open spec fn fields_from(s: Seq<char>, start: int) -> Seq<Seq<char>>
    decreases s.len() - start,
{
    if start < 0 || start > s.len() {
        seq![]
    } else {
        match find_sep_from(s, start) {
            None => seq![s.subrange(start, s.len() as int)],
            Some(j) => {
                proof {
                    lemma_find_sep_from(s, start);
                }
                seq![s.subrange(start, j)] + fields_from(s, j + 1)
            },
        }
    }
}

/// The fields of a timestamp.
pub open spec fn time_fields(s: Seq<char>) -> Seq<Seq<char>> {
    fields_from(s, 0)
}

/// An ASCII decimal digit.
pub open spec fn is_digit(c: char) -> bool {
    48 <= (c as u32) <= 57
}

/// A non-empty run of decimal digits.
pub open spec fn is_number(d: Seq<char>) -> bool {
    d.len() > 0 && forall|i: int| 0 <= i < d.len() ==> is_digit(#[trigger] d[i])
}

/// The value of a digit.
pub open spec fn digit_value(c: char) -> nat {
    ((c as u32) - 48) as nat
}

/// The value of a run of decimal digits.
pub open spec fn decimal_value(d: Seq<char>) -> nat
    decreases d.len(),
{
    if d.len() == 0 {
        0
    } else {
        decimal_value(d.drop_last()) * 10 + digit_value(d.last())
    }
}

/// Milliseconds in `h` hours, `m` minutes, `s` seconds and `ms` milliseconds.
pub open spec fn timestamp_ms(h: nat, m: nat, s: nat, ms: nat) -> nat {
    ((h * 60 + m) * 60 + s) * 1000 + ms
}

/// Splits a timestamp into its fields.
pub fn split_time_fields(s: &[char]) -> (r: Vec<Vec<char>>)
    ensures
        views(r@) == time_fields(s@),
{
    let n = s.len();
    let mut out: Vec<Vec<char>> = Vec::new();
    let mut start: usize = 0;
    let mut k: usize = 0;
    // `start` begins the current field; `k` scans for its end.
    while k < n
        invariant
            n == s@.len(),
            start <= k <= n,
            forall|j: int| start <= j < k ==> !is_time_sep(#[trigger] s@[j]),
            time_fields(s@) == views(out@) + fields_from(s@, start as int),
        decreases n - k,
    {
        if s[k] == ':' || s[k] == ',' {
            proof {
                lemma_find_sep_from(s@, start as int);
                assert(find_sep_from(s@, start as int) == Some(k as int));
            }
            let piece = copy_range(s, start, k);
            proof {
                lemma_views_push(out@, piece);
                assert(views(out@) + fields_from(s@, start as int) =~= views(out@.push(piece))
                    + fields_from(s@, k + 1));
            }
            out.push(piece);
            start = k + 1;
        }
        k = k + 1;
    }
    proof {
        lemma_find_sep_from(s@, start as int);
        assert(find_sep_from(s@, start as int) is None);
    }
    let piece = copy_range(s, start, n);
    proof {
        lemma_views_push(out@, piece);
        assert(views(out@) + fields_from(s@, start as int) =~= views(out@.push(piece)));
    }
    out.push(piece);
    out
}

/// Every field of a timestamp is no longer than the timestamp.
pub proof fn lemma_fields_shorter(s: Seq<char>)
    ensures
        forall|j: int| 0 <= j < time_fields(s).len() ==> (#[trigger] time_fields(s)[j]).len() <= s.len(),
{
    lemma_fields_from_shorter(s, 0);
}

proof fn lemma_fields_from_shorter(s: Seq<char>, start: int)
    requires
        0 <= start,
    ensures
        forall|j: int|
            0 <= j < fields_from(s, start).len() ==> (#[trigger] fields_from(s, start)[j]).len()
                <= s.len(),
    decreases s.len() - start,
{
    if start <= s.len() {
        lemma_find_sep_from(s, start);
        match find_sep_from(s, start) {
            None => {},
            Some(j) => {
                lemma_fields_from_shorter(s, j + 1);
                let fs = fields_from(s, start);
                assert forall|i: int| 0 <= i < fs.len() implies (#[trigger] fs[i]).len() <= s.len() by {
                    if i > 0 {
                        assert(fs[i] == fields_from(s, j + 1)[i - 1]);
                    }
                }
            },
        }
    }
}

} // verus!

verus! {

// ---------------------------------------------------------------------------
// Cues
// ---------------------------------------------------------------------------

/// The separator between the start and end time of a cue.
pub open spec fn arrow() -> Seq<char> {
    seq!['-', '-', '>']
}

/// The separator between cues: an empty line.
pub open spec fn blank_line() -> Seq<char> {
    seq!['\n', '\n']
}

/// What one block of an SRT text yields: `None` for a block that is skipped
/// (fewer than three lines, or no text), else the cue or the error it raises.
/// A block is its number line, its timing line `start --> end` and its text
/// lines, which are joined with spaces.
pub open spec fn spec_parse_block(block: Seq<char>) -> Option<Result<SpecCue, SrtError>> {
    let ls = lines(block);
    if ls.len() < 3 {
        None
    } else {
        let pieces = split(ls[1], arrow());
        if pieces.len() < 2 {
            Some(Err(SrtError::MissingEnd))
        } else {
            let text = trim(join(ls.subrange(2, ls.len() as int), seq![' ']));
            if text.len() == 0 {
                None
            } else {
                match spec_parse_time(trim(pieces[0])) {
                    Err(e) => Some(Err(e)),
                    Ok(a) => match spec_parse_time(trim(pieces[1])) {
                        Err(e) => Some(Err(e)),
                        Ok(b) => Some(Ok(SpecCue { start: a, end: b, text })),
                    },
                }
            }
        }
    }
}

/// The cues of a sequence of blocks, or the error of the first block that
/// raises one.
pub open spec fn parse_blocks(bs: Seq<Seq<char>>) -> Result<Seq<SpecCue>, SrtError>
    decreases bs.len(),
{
    if bs.len() == 0 {
        Ok(seq![])
    } else {
        match parse_blocks(bs.drop_last()) {
            Err(e) => Err(e),
            Ok(cs) => match spec_parse_block(bs.last()) {
                None => Ok(cs),
                Some(Err(e)) => Err(e),
                Some(Ok(c)) => Ok(cs.push(c)),
            },
        }
    }
}

/// The cues of an SRT text: its blocks are the pieces between empty lines.
pub open spec fn spec_parse_srt(content: Seq<char>) -> Result<Seq<SpecCue>, SrtError> {
    parse_blocks(split(content, blank_line()))
}

/// Reads one block of an SRT text.
fn parse_block(block: &[char]) -> (r: Option<Result<Cue, SrtError>>)
    requires
        block@.len() < text_limit(),
    ensures
        match r {
            None => spec_parse_block(block@) is None,
            Some(Err(e)) => spec_parse_block(block@) == Some(Err::<SpecCue, SrtError>(e)),
            Some(Ok(c)) => spec_parse_block(block@) == Some(Ok::<SpecCue, SrtError>(c@))
                && cue_wf(c),
        },
{
    let ls = lines_of(block);
    proof {
        assert(views(ls@).len() == ls@.len());
    }
    if ls.len() < 3 {
        return None;
    }
    let arrow_chars: Vec<char> = vec!['-', '-', '>'];
    assert(arrow_chars@ == arrow());
    assert(views(ls@)[1] == ls@[1]@);
    let pieces = split_chars(ls[1].as_slice(), arrow_chars.as_slice());
    proof {
        assert(views(pieces@).len() == pieces@.len());
    }
    if pieces.len() < 2 {
        return Some(Err(SrtError::MissingEnd));
    }
    let joined = join_from(ls.as_slice(), 2, ' ');
    let text = trim_chars(joined.as_slice());
    if text.len() == 0 {
        return None;
    }
    assert(views(pieces@)[0] == pieces@[0]@);
    assert(views(pieces@)[1] == pieces@[1]@);
    let start = trim_chars(pieces[0].as_slice());
    let end = trim_chars(pieces[1].as_slice());
    let a = match parse_time_chars(start.as_slice()) {
        Ok(v) => v,
        Err(e) => return Some(Err(e)),
    };
    let b = match parse_time_chars(end.as_slice()) {
        Ok(v) => v,
        Err(e) => return Some(Err(e)),
    };
    Some(Ok(Cue { start: a, end: b, text: string_of(text.as_slice()) }))
}

/// The cues of an SRT text, in order, or the first error met.
///
/// Blocks are separated by an empty line; a block with fewer than three
/// lines or with no text after trimming is skipped.
pub fn parse_srt_segments(content: &str) -> (r: Result<Vec<Cue>, SrtError>)
    requires
        content@.len() < text_limit(),
    ensures
        match r {
            Ok(v) => spec_parse_srt(content@) == Ok::<Seq<SpecCue>, SrtError>(cue_views(v@))
                && forall|k: int| 0 <= k < v@.len() ==> cue_wf(#[trigger] v@[k]),
            Err(e) => spec_parse_srt(content@) == Err::<Seq<SpecCue>, SrtError>(e),
        },
{
    let cs = chars_of(content);
    let sep: Vec<char> = vec!['\n', '\n'];
    assert(sep@ == blank_line());
    let blocks = split_chars(cs.as_slice(), sep.as_slice());
    let ghost bs = views(blocks@);
    let mut cues: Vec<Cue> = Vec::new();
    let mut k: usize = 0;
    assert(bs.take(0) =~= Seq::<Seq<char>>::empty());
    assert(cue_views(cues@) =~= Seq::<SpecCue>::empty());
    while k < blocks.len()
        invariant
            bs == views(blocks@),
            bs == split(content@, blank_line()),
            k <= blocks@.len(),
            content@.len() < text_limit(),
            forall|j: int| 0 <= j < blocks@.len() ==> (#[trigger] blocks@[j])@.len() <= content@.len(),
            parse_blocks(bs.take(k as int)) == Ok::<Seq<SpecCue>, SrtError>(cue_views(cues@)),
            forall|j: int| 0 <= j < cues@.len() ==> cue_wf(#[trigger] cues@[j]),
        decreases blocks@.len() - k,
    {
        assert(bs.take(k + 1).drop_last() =~= bs.take(k as int));
        assert(bs.take(k + 1).last() == blocks@[k as int]@);
        match parse_block(blocks[k].as_slice()) {
            None => {},
            Some(Err(e)) => {
                proof {
                    lemma_parse_blocks_error(bs, k as int + 1);
                }
                return Err(e);
            },
            Some(Ok(c)) => {
                proof {
                    assert(cue_views(cues@.push(c)) =~= cue_views(cues@).push(c@));
                }
                cues.push(c);
            },
        }
        k = k + 1;
    }
    assert(bs.take(blocks@.len() as int) =~= bs);
    Ok(cues)
}

/// Once a prefix of the blocks raises an error, the whole sequence raises it.
proof fn lemma_parse_blocks_error(bs: Seq<Seq<char>>, k: int)
    requires
        0 <= k <= bs.len(),
        parse_blocks(bs.take(k)) is Err,
    ensures
        parse_blocks(bs) == parse_blocks(bs.take(k)),
    decreases bs.len() - k,
{
    if k == bs.len() {
        assert(bs.take(k) =~= bs);
    } else {
        assert(bs.take(k + 1).drop_last() =~= bs.take(k));
        lemma_parse_blocks_error(bs, k + 1);
    }
}

} // verus!
