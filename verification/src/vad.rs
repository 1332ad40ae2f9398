//! Voice-activity segmentation of mono 16 kHz audio and cutting of the
//! speech into chunks for the recogniser.
//!
//! The audio is looked at in frames of 30 ms; each frame is marked as
//! speech or not by its energy (which the caller measures). A speech
//! segment opens at a speech frame and closes at the eighth consecutive
//! non-speech frame; a segment still open at the end runs to the end of
//! the audio. Each segment is cut into chunks of at most 30 s, and chunks
//! shorter than half a second are dropped.

use vstd::prelude::*;

verus! {

/// Samples per second of the audio that is analysed.
pub const SAMPLE_RATE: usize = 16000;

/// Samples per 30 ms frame.
pub const FRAME_LEN: usize = 480;

/// Consecutive non-speech frames that close a speech segment.
pub const SILENCE_HANGOVER_FRAMES: usize = 8;

/// Samples in the longest chunk (30 s).
pub const MAX_CHUNK_SAMPLES: usize = 480000;

/// Chunks with fewer samples than this (half a second) are dropped.
pub const MIN_CHUNK_SAMPLES: usize = 8000;

/// A chunk of speech: `len` samples from `start_sample` on.
#[derive(Debug, Clone, Copy, PartialEq, Eq, Structural)]
pub struct SpeechChunk {
    pub start_sample: usize,
    pub len: usize,
}

/// The state of the segmenter after some frames.
pub struct VadState {
    pub in_speech: bool,
    /// First sample of the open segment.
    pub start: int,
    /// Non-speech frames since the last speech frame.
    pub silence: int,
    /// Closed segments `(first sample, end sample)`.
    pub spans: Seq<(int, int)>,
}

/// The state before any frame.
pub open spec fn vad_init() -> VadState {
    VadState { in_speech: false, start: 0, silence: 0, spans: seq![] }
}

/// The state after frame `i`, which is speech or not.
pub open spec fn vad_step(st: VadState, speech: bool, i: int) -> VadState {
    if speech {
        VadState {
            in_speech: true,
            start: if st.in_speech {
                st.start
            } else {
                i * FRAME_LEN
            },
            silence: 0,
            spans: st.spans,
        }
    } else if st.in_speech {
        if st.silence + 1 >= SILENCE_HANGOVER_FRAMES {
            VadState {
                in_speech: false,
                start: st.start,
                silence: st.silence + 1,
                spans: st.spans.push((st.start, i * FRAME_LEN)),
            }
        } else {
            VadState { silence: st.silence + 1, ..st }
        }
    } else {
        st
    }
}

/// The state after the first `n` frames.
pub open spec fn vad_run(flags: Seq<bool>, n: int) -> VadState
    decreases n,
{
    if n <= 0 {
        vad_init()
    } else {
        vad_step(vad_run(flags, n - 1), flags[n - 1], n - 1)
    }
}

/// The speech segments `(first sample, end sample)` of audio with `total`
/// samples whose frames are marked by `flags`.
pub open spec fn speech_spans(flags: Seq<bool>, total: int) -> Seq<(int, int)> {
    let st = vad_run(flags, flags.len() as int);
    if st.in_speech && st.start < total {
        st.spans.push((st.start, total))
    } else {
        st.spans
    }
}

/// The chunks `(first sample, length)` of the segment of `len` samples
/// from `start` on, cut at `max` samples: pieces of `max` samples in order,
/// the shorter last one included, and any piece kept only if it has at
/// least `MIN_CHUNK_SAMPLES`.
pub open spec fn chunk_pieces(start: int, len: int, max: int) -> Seq<(int, int)>
    decreases len,
{
    if len <= 0 || max <= 0 {
        seq![]
    } else {
        let l = if len < max {
            len
        } else {
            max
        };
        let rest = chunk_pieces(start + max, len - l, max);
        if l >= MIN_CHUNK_SAMPLES {
            seq![(start, l)] + rest
        } else {
            rest
        }
    }
}

/// The chunks of a sequence of segments, in order.
pub open spec fn span_chunks(spans: Seq<(int, int)>) -> Seq<(int, int)>
    decreases spans.len(),
{
    if spans.len() == 0 {
        seq![]
    } else {
        span_chunks(spans.drop_last()) + chunk_pieces(
            spans.last().0,
            spans.last().1 - spans.last().0,
            MAX_CHUNK_SAMPLES as int,
        )
    }
}

/// The chunks of audio with `total` samples whose frames are marked by
/// `flags`.
pub open spec fn speech_chunks(flags: Seq<bool>, total: int) -> Seq<(int, int)> {
    span_chunks(speech_spans(flags, total))
}

/// The values of a sequence of chunks.
pub open spec fn chunk_views(v: Seq<SpeechChunk>) -> Seq<(int, int)> {
    v.map_values(|c: SpeechChunk| (c.start_sample as int, c.len as int))
}

/// There is one flag per frame of `total` samples (the last frame may be
/// shorter).
pub open spec fn frames_match(n_flags: int, total: int) -> bool {
    (n_flags - 1) * FRAME_LEN < total <= n_flags * FRAME_LEN || (n_flags == 0 && total == 0)
}

proof fn lemma_chunk_views_push(v: Seq<SpeechChunk>, c: SpeechChunk)
    ensures
        chunk_views(v.push(c)) == chunk_views(v).push((c.start_sample as int, c.len as int)),
{
    assert(chunk_views(v.push(c)) =~= chunk_views(v).push((c.start_sample as int, c.len as int)));
}

/// Appends the chunks of the segment `[start, end)`, cut at `max_chunk`
/// samples.
pub fn push_chunked_segment(out: &mut Vec<SpeechChunk>, start: usize, end: usize, max_chunk: usize)
    requires
        start <= end,
        max_chunk > 0,
    ensures
        chunk_views(final(out)@) == chunk_views(old(out)@) + chunk_pieces(
            start as int,
            end - start,
            max_chunk as int,
        ),
{
    let mut pos: usize = start;
    let ghost base = chunk_views(out@);
    let ghost mx = max_chunk as int;
    while pos < end
        invariant
            start <= pos,
            max_chunk > 0,
            mx == max_chunk as int,
            chunk_views(out@) + chunk_pieces(pos as int, end - pos, mx) == base + chunk_pieces(
                start as int,
                end - start,
                mx,
            ),
        decreases end - pos,
    {
        let remaining = end - pos;
        let l = if remaining < max_chunk {
            remaining
        } else {
            max_chunk
        };
        let ghost before = chunk_views(out@);
        let ghost prev = out@;
        if l >= MIN_CHUNK_SAMPLES {
            out.push(SpeechChunk { start_sample: pos, len: l });
            proof {
                lemma_chunk_views_push(prev, SpeechChunk { start_sample: pos, len: l });
            }
        }
        if remaining <= max_chunk {
            proof {
                assert(chunk_pieces(pos + mx, end - pos - l, mx) =~= Seq::<(int, int)>::empty());
                assert(chunk_views(out@) + chunk_pieces(end as int, 0, mx) =~= before
                    + chunk_pieces(pos as int, end - pos, mx));
            }
            pos = end;
        } else {
            proof {
                assert(chunk_views(out@) + chunk_pieces(pos + mx, end - pos - l, mx) =~= before
                    + chunk_pieces(pos as int, end - pos, mx));
            }
            pos = pos + max_chunk;
        }
    }
    assert(chunk_pieces(pos as int, end - pos, mx) =~= Seq::<(int, int)>::empty());
    assert(chunk_views(out@) =~= base + chunk_pieces(start as int, end - start, mx));
}

/// The chunks of speech in audio of `total` samples whose 30 ms frames are
/// marked as speech or not by `flags` (one flag per frame, in order).
pub fn detect_speech_chunks(flags: &[bool], total: usize) -> (r: Vec<SpeechChunk>)
    requires
        frames_match(flags@.len() as int, total as int),
    ensures
        chunk_views(r@) == speech_chunks(flags@, total as int),
{
    let n = flags.len();
    let mut in_speech = false;
    let mut start: usize = 0;
    let mut silence: usize = 0;
    let mut chunks: Vec<SpeechChunk> = Vec::new();
    let mut i: usize = 0;
    assert(chunk_views(chunks@) =~= Seq::<(int, int)>::empty());
    while i < n
        invariant
            n == flags@.len(),
            frames_match(n as int, total as int),
            i <= n,
            vad_run(flags@, i as int).in_speech == in_speech,
            vad_run(flags@, i as int).start == start as int,
            vad_run(flags@, i as int).silence == silence as int,
            silence <= SILENCE_HANGOVER_FRAMES,
            in_speech ==> silence < SILENCE_HANGOVER_FRAMES,
            in_speech ==> start as int + FRAME_LEN <= i * FRAME_LEN,
            in_speech ==> start < total,
            chunk_views(chunks@) == span_chunks(vad_run(flags@, i as int).spans),
        decreases n - i,
    {
        let ghost st = vad_run(flags@, i as int);
        assert(vad_run(flags@, i + 1) == vad_step(st, flags@[i as int], i as int));
        assert(i * FRAME_LEN < total) by (nonlinear_arith)
            requires
                i < n,
                (n - 1) * FRAME_LEN < total || (n == 0 && total == 0),
        ;
        if flags[i] {
            if !in_speech {
                in_speech = true;
                start = i * FRAME_LEN;
            }
            silence = 0;
        } else if in_speech {
            silence = silence + 1;
            if silence >= SILENCE_HANGOVER_FRAMES {
                let end = i * FRAME_LEN;
                push_chunked_segment(&mut chunks, start, end, MAX_CHUNK_SAMPLES);
                proof {
                    let sp = st.spans.push((st.start, i * FRAME_LEN));
                    assert(sp.drop_last() =~= st.spans);
                }
                in_speech = false;
            }
        }
        i = i + 1;
    }
    let ghost st = vad_run(flags@, n as int);
    if in_speech && start < total {
        push_chunked_segment(&mut chunks, start, total, MAX_CHUNK_SAMPLES);
        proof {
            let sp = st.spans.push((st.start, total as int));
            assert(sp.drop_last() =~= st.spans);
        }
    }
    chunks
}


// ---------------------------------------------------------------------------
// Laws of the segmentation
// ---------------------------------------------------------------------------

/// Sample `x` lies in one of the segments.
pub open spec fn covered(spans: Seq<(int, int)>, x: int) -> bool {
    exists|k: int| 0 <= k < spans.len() && spans[k].0 <= x < #[trigger] spans[k].1
}

/// A segment starts at the first sample of a speech frame and is not empty.
pub open spec fn span_starts_at_speech(flags: Seq<bool>, sp: (int, int)) -> bool {
    &&& 0 <= sp.0 < sp.1
    &&& sp.0 % (FRAME_LEN as int) == 0
    &&& sp.0 / (FRAME_LEN as int) < flags.len()
    &&& flags[sp.0 / (FRAME_LEN as int)]
}

/// Segments are in order, each ending before the next begins.
pub open spec fn spans_ordered(spans: Seq<(int, int)>) -> bool {
    forall|k: int| 0 <= k < spans.len() - 1 ==> #[trigger] spans[k].1 < spans[k + 1].0
}

/// What holds of the segmenter after `n` frames.
spec fn run_inv(flags: Seq<bool>, n: int, st: VadState) -> bool {
    &&& forall|k: int|
        0 <= k < st.spans.len() ==> span_starts_at_speech(flags, #[trigger] st.spans[k])
            && st.spans[k].1 <= (n - 1) * FRAME_LEN
    &&& spans_ordered(st.spans)
    &&& st.in_speech ==> {
        &&& st.start % (FRAME_LEN as int) == 0
        &&& 0 <= st.start / (FRAME_LEN as int) < n
        &&& flags[st.start / (FRAME_LEN as int)]
        &&& st.spans.len() > 0 ==> st.spans.last().1 < st.start
    }
    &&& forall|i: int|
        0 <= i < n && #[trigger] flags[i] ==> covered(st.spans, i * FRAME_LEN) || (st.in_speech
            && st.start <= i * FRAME_LEN)
}

proof fn lemma_step_speech(flags: Seq<bool>, n: int, st: VadState)
    requires
        1 <= n <= flags.len(),
        run_inv(flags, n - 1, st),
        flags[n - 1],
    ensures
        run_inv(flags, n, vad_step(st, true, n - 1)),
{
    let i = n - 1;
    let fl = FRAME_LEN as int;
    let nx = vad_step(st, true, i);
    if !st.in_speech {
        assert((i * fl) % fl == 0) by (nonlinear_arith)
            requires
                fl == 480,
        ;
        assert((i * fl) / fl == i) by (nonlinear_arith)
            requires
                fl == 480,
        ;
    }
    assert forall|j: int| 0 <= j < n && #[trigger] flags[j] implies covered(nx.spans, j * fl) || (
    nx.in_speech && nx.start <= j * fl) by {
        if j == i && st.in_speech {
            assert(st.start <= j * fl) by (nonlinear_arith)
                requires
                    st.start / fl <= j,
                    st.start % fl == 0,
                    fl == 480,
            ;
        }
    }
    assert forall|k: int| 0 <= k < nx.spans.len() implies span_starts_at_speech(
        flags,
        #[trigger] nx.spans[k],
    ) && nx.spans[k].1 <= (n - 1) * fl by {
        assert(st.spans[k].1 <= (n - 2) * fl);
    }
}

proof fn lemma_step_close(flags: Seq<bool>, n: int, st: VadState)
    requires
        1 <= n <= flags.len(),
        run_inv(flags, n - 1, st),
        !flags[n - 1],
        st.in_speech,
    ensures
        run_inv(
            flags,
            n,
            VadState {
                in_speech: false,
                start: st.start,
                silence: st.silence + 1,
                spans: st.spans.push((st.start, (n - 1) * FRAME_LEN)),
            },
        ),
{
    let i = n - 1;
    let fl = FRAME_LEN as int;
    let sp = (st.start, i * fl);
    let nx = VadState {
        in_speech: false,
        start: st.start,
        silence: st.silence + 1,
        spans: st.spans.push(sp),
    };
    assert(st.start < i * fl) by (nonlinear_arith)
        requires
            st.start / fl < i,
            st.start % fl == 0,
            fl == 480,
    ;
    assert forall|k: int| 0 <= k < nx.spans.len() implies span_starts_at_speech(
        flags,
        #[trigger] nx.spans[k],
    ) && nx.spans[k].1 <= (n - 1) * fl by {
        if k < st.spans.len() {
            assert(nx.spans[k] == st.spans[k]);
            assert(st.spans[k].1 <= (n - 2) * fl);
        }
    }
    assert forall|k: int| 0 <= k < nx.spans.len() - 1 implies #[trigger] nx.spans[k].1
        < nx.spans[k + 1].0 by {
        if k < st.spans.len() - 1 {
            assert(nx.spans[k] == st.spans[k]);
            assert(nx.spans[k + 1] == st.spans[k + 1]);
        } else {
            assert(nx.spans[k] == st.spans.last());
        }
    }
    assert forall|j: int| 0 <= j < n && #[trigger] flags[j] implies covered(nx.spans, j * fl) by {
        if covered(st.spans, j * fl) {
            let k = choose|k: int|
                0 <= k < st.spans.len() && st.spans[k].0 <= j * fl < #[trigger] st.spans[k].1;
            assert(nx.spans[k] == st.spans[k]);
        } else {
            assert(j != i);
            assert(j * fl < i * fl) by (nonlinear_arith)
                requires
                    j < i,
                    fl == 480,
            ;
            assert(nx.spans[nx.spans.len() - 1] == sp);
        }
    }
}

proof fn lemma_step_same_spans(flags: Seq<bool>, n: int, st: VadState, nx: VadState)
    requires
        1 <= n <= flags.len(),
        run_inv(flags, n - 1, st),
        !flags[n - 1],
        nx.spans == st.spans,
        nx.in_speech == st.in_speech,
        nx.start == st.start,
    ensures
        run_inv(flags, n, nx),
{
    let fl = FRAME_LEN as int;
    assert forall|k: int| 0 <= k < nx.spans.len() implies span_starts_at_speech(
        flags,
        #[trigger] nx.spans[k],
    ) && nx.spans[k].1 <= (n - 1) * fl by {
        assert(st.spans[k].1 <= (n - 2) * fl);
    }
}

proof fn lemma_run_inv(flags: Seq<bool>, n: int)
    requires
        0 <= n <= flags.len(),
    ensures
        run_inv(flags, n, vad_run(flags, n)),
    decreases n,
{
    if n > 0 {
        lemma_run_inv(flags, n - 1);
        let st = vad_run(flags, n - 1);
        let i = n - 1;
        assert(vad_run(flags, n) == vad_step(st, flags[i], i));
        if flags[i] {
            lemma_step_speech(flags, n, st);
        } else if st.in_speech && st.silence + 1 >= SILENCE_HANGOVER_FRAMES {
            lemma_step_close(flags, n, st);
        } else {
            lemma_step_same_spans(flags, n, st, vad_run(flags, n));
        }
    }
}

/// The speech segments found in audio of `total` samples are non-empty,
/// lie within the audio, each begins at the start of a speech frame, they
/// are in order with a gap between neighbours, and every speech frame
/// lies in one of them.
#[verifier::spinoff_prover]
#[verifier::rlimit(30)]
pub proof fn lemma_speech_spans(flags: Seq<bool>, total: int)
    requires
        frames_match(flags.len() as int, total),
    ensures
        forall|k: int|
            0 <= k < speech_spans(flags, total).len() ==> span_starts_at_speech(
                flags,
                #[trigger] speech_spans(flags, total)[k],
            ) && speech_spans(flags, total)[k].1 <= total,
        spans_ordered(speech_spans(flags, total)),
        forall|i: int|
            0 <= i < flags.len() && #[trigger] flags[i] ==> covered(
                speech_spans(flags, total),
                i * FRAME_LEN,
            ),
{
    let n = flags.len() as int;
    let fl = FRAME_LEN as int;
    lemma_run_inv(flags, n);
    let st = vad_run(flags, n);
    let sps = speech_spans(flags, total);
    assert forall|k: int| 0 <= k < st.spans.len() implies #[trigger] st.spans[k].1 <= total by {
        assert((n - 1) * fl < total);
    }
    if st.in_speech {
        assert(st.start < total) by (nonlinear_arith)
            requires
                st.start / fl < n,
                st.start % fl == 0,
                (n - 1) * fl < total,
                fl == 480,
        ;
        assert(sps == st.spans.push((st.start, total)));
        assert forall|k: int| 0 <= k < sps.len() implies span_starts_at_speech(
            flags,
            #[trigger] sps[k],
        ) && sps[k].1 <= total by {
            if k < st.spans.len() {
                assert(sps[k] == st.spans[k]);
            }
        }
        assert forall|k: int| 0 <= k < sps.len() - 1 implies #[trigger] sps[k].1 < sps[k + 1].0 by {
            if k < st.spans.len() - 1 {
                assert(sps[k] == st.spans[k]);
                assert(sps[k + 1] == st.spans[k + 1]);
            } else {
                assert(sps[k] == st.spans.last());
            }
        }
        assert forall|i: int| 0 <= i < n && #[trigger] flags[i] implies covered(sps, i * fl) by {
            if covered(st.spans, i * fl) {
                let k = choose|k: int|
                    0 <= k < st.spans.len() && st.spans[k].0 <= i * fl < #[trigger] st.spans[k].1;
                assert(sps[k] == st.spans[k]);
            } else {
                assert(i * fl < total) by (nonlinear_arith)
                    requires
                        i < n,
                        (n - 1) * fl < total,
                        fl == 480,
                ;
                assert(sps[sps.len() - 1] == (st.start, total));
            }
        }
    }
}


/// A chunk holds between half a second and 30 s of audio and starts at
/// the first sample of a frame.
pub open spec fn chunk_ok(c: (int, int)) -> bool {
    &&& MIN_CHUNK_SAMPLES <= c.1 <= MAX_CHUNK_SAMPLES
    &&& 0 <= c.0
    &&& c.0 % (FRAME_LEN as int) == 0
}

/// Chunks are in order and do not overlap.
pub open spec fn chunks_ordered(cs: Seq<(int, int)>) -> bool {
    forall|k: int| 0 <= k < cs.len() - 1 ==> #[trigger] cs[k].0 + cs[k].1 <= cs[k + 1].0
}

spec fn chunks_within(cs: Seq<(int, int)>, lo: int, hi: int) -> bool {
    &&& forall|k: int|
        0 <= k < cs.len() ==> chunk_ok(#[trigger] cs[k]) && lo <= cs[k].0 && cs[k].0 + cs[k].1
            <= hi
    &&& chunks_ordered(cs)
}

proof fn lemma_chunk_pieces(start: int, len: int)
    requires
        0 <= start,
        start % (FRAME_LEN as int) == 0,
    ensures
        chunks_within(chunk_pieces(start, len, MAX_CHUNK_SAMPLES as int), start, start + len),
    decreases len,
{
    if len > 0 {
        let l = if len < MAX_CHUNK_SAMPLES {
            len
        } else {
            MAX_CHUNK_SAMPLES as int
        };
        let next = start + MAX_CHUNK_SAMPLES;
        assert(next % (FRAME_LEN as int) == 0);
        lemma_chunk_pieces(next, len - l);
        let rest = chunk_pieces(next, len - l, MAX_CHUNK_SAMPLES as int);
        if len <= MAX_CHUNK_SAMPLES {
            assert(rest =~= Seq::<(int, int)>::empty());
        }
        if l >= MIN_CHUNK_SAMPLES {
            let cs = seq![(start, l)] + rest;
            assert forall|k: int| 0 <= k < cs.len() implies chunk_ok(#[trigger] cs[k]) && start
                <= cs[k].0 && cs[k].0 + cs[k].1 <= start + len by {
                if k > 0 {
                    assert(cs[k] == rest[k - 1]);
                }
            }
            assert forall|k: int| 0 <= k < cs.len() - 1 implies #[trigger] cs[k].0 + cs[k].1
                <= cs[k + 1].0 by {
                if k > 0 {
                    assert(cs[k] == rest[k - 1]);
                    assert(cs[k + 1] == rest[k]);
                } else {
                    assert(cs[1] == rest[0]);
                }
            }
        }
    }
}

proof fn lemma_chunks_concat(a: Seq<(int, int)>, b: Seq<(int, int)>, lo: int, m1: int, m2: int, hi: int)
    requires
        chunks_within(a, lo, m1),
        chunks_within(b, m2, hi),
        lo <= m1 <= m2 <= hi,
    ensures
        chunks_within(a + b, lo, hi),
{
    let cs = a + b;
    assert forall|k: int| 0 <= k < cs.len() implies chunk_ok(#[trigger] cs[k]) && lo <= cs[k].0
        && cs[k].0 + cs[k].1 <= hi by {
        if k < a.len() {
            assert(cs[k] == a[k]);
        } else {
            assert(cs[k] == b[k - a.len()]);
        }
    }
    assert forall|k: int| 0 <= k < cs.len() - 1 implies #[trigger] cs[k].0 + cs[k].1 <= cs[k
        + 1].0 by {
        if k < a.len() - 1 {
            assert(cs[k] == a[k]);
            assert(cs[k + 1] == a[k + 1]);
        } else if k == a.len() - 1 {
            assert(cs[k] == a[k]);
            assert(cs[k + 1] == b[0]);
        } else {
            assert(cs[k] == b[k - a.len()]);
            assert(cs[k + 1] == b[k + 1 - a.len()]);
        }
    }
}

proof fn lemma_span_chunks(spans: Seq<(int, int)>)
    requires
        forall|k: int|
            0 <= k < spans.len() ==> 0 <= (#[trigger] spans[k]).0 < spans[k].1 && spans[k].0 % (
            FRAME_LEN as int) == 0,
        spans_ordered(spans),
    ensures
        chunks_within(
            span_chunks(spans),
            0,
            if spans.len() == 0 {
                0
            } else {
                spans.last().1
            },
        ),
    decreases spans.len(),
{
    if spans.len() > 0 {
        let init = spans.drop_last();
        assert forall|k: int| 0 <= k < init.len() - 1 implies #[trigger] init[k].1 < init[k
            + 1].0 by {
            assert(init[k] == spans[k]);
            assert(init[k + 1] == spans[k + 1]);
        }
        assert forall|k: int| 0 <= k < init.len() implies 0 <= (#[trigger] init[k]).0 < init[k].1
            && init[k].0 % (FRAME_LEN as int) == 0 by {
            assert(init[k] == spans[k]);
        }
        lemma_span_chunks(init);
        let last = spans.last();
        lemma_chunk_pieces(last.0, last.1 - last.0);
        let m1 = if init.len() == 0 {
            0
        } else {
            init.last().1
        };
        if init.len() > 0 {
            assert(init.last() == spans[spans.len() - 2]);
            assert(spans[spans.len() - 2].1 < spans[spans.len() - 1].0);
        }
        lemma_chunks_concat(
            span_chunks(init),
            chunk_pieces(last.0, last.1 - last.0, MAX_CHUNK_SAMPLES as int),
            0,
            m1,
            last.0,
            last.1,
        );
    } else {
        assert forall|k: int| 0 <= k < span_chunks(spans).len() implies chunk_ok(
            #[trigger] span_chunks(spans)[k],
        ) by {}
    }
}

/// Every chunk cut from audio of `total` samples holds between half a
/// second and 30 s of audio, lies within the audio and starts at the first
/// sample of a frame; the chunks are in order and do not overlap.
pub proof fn lemma_speech_chunks(flags: Seq<bool>, total: int)
    requires
        frames_match(flags.len() as int, total),
    ensures
        forall|k: int|
            0 <= k < speech_chunks(flags, total).len() ==> chunk_ok(
                #[trigger] speech_chunks(flags, total)[k],
            ) && speech_chunks(flags, total)[k].0 + speech_chunks(flags, total)[k].1 <= total,
        chunks_ordered(speech_chunks(flags, total)),
{
    lemma_speech_spans(flags, total);
    let sps = speech_spans(flags, total);
    assert forall|k: int| 0 <= k < sps.len() implies 0 <= (#[trigger] sps[k]).0 < sps[k].1
        && sps[k].0 % (FRAME_LEN as int) == 0 by {
        assert(span_starts_at_speech(flags, sps[k]));
    }
    lemma_span_chunks(sps);
    if sps.len() > 0 {
        assert(sps[sps.len() - 1].1 <= total);
    }
}


/// Number of 30 ms frames in audio of `total` samples (the last one may be
/// shorter).
pub fn frame_count(total: usize) -> (r: usize)
    ensures
        frames_match(r as int, total as int),
        r as int == (total as int + FRAME_LEN - 1) / (FRAME_LEN as int),
{
    let q = total / FRAME_LEN;
    if total % FRAME_LEN == 0 {
        q
    } else {
        q + 1
    }
}

/// Offset of a chunk in the audio, in whole milliseconds.
pub fn chunk_start_ms(c: SpeechChunk) -> (r: u64)
    ensures
        r as int == c.start_sample as int * 1000 / (SAMPLE_RATE as int),
        c.start_sample as int % (FRAME_LEN as int) == 0 ==> r as int * 16 == c.start_sample as int,
{
    (c.start_sample / 16) as u64
}


/// No chunk of speech was found in the audio.
#[derive(Debug, Clone, Copy, PartialEq, Eq, Structural)]
pub struct NoSpeech;

/// The chunks of speech in the audio, or `NoSpeech` when there is none.
pub fn find_speech(flags: &[bool], total: usize) -> (r: Result<Vec<SpeechChunk>, NoSpeech>)
    requires
        frames_match(flags@.len() as int, total as int),
    ensures
        match r {
            Ok(v) => chunk_views(v@) == speech_chunks(flags@, total as int) && v@.len() > 0,
            Err(_) => speech_chunks(flags@, total as int).len() == 0,
        },
{
    let chunks = detect_speech_chunks(flags, total);
    if chunks.len() == 0 {
        Err(NoSpeech)
    } else {
        Ok(chunks)
    }
}

// ---------------------------------------------------------------------------
// The extracted audio's format
// ---------------------------------------------------------------------------

/// How the samples of the extracted audio are stored.
#[derive(Debug, Clone, Copy, PartialEq, Eq, Structural)]
pub enum SampleEncoding {
    /// Signed 16-bit integers.
    Int16,
    /// 32-bit floating point.
    Float32,
}

/// Why the extracted audio cannot be analysed.
#[derive(Debug, Clone, Copy, PartialEq, Eq, Structural)]
pub enum WavFormatError {
    /// Not mono at 16 kHz.
    NotMono16k { channels: u16, sample_rate: u32 },
    /// Neither 16-bit integer nor 32-bit float samples.
    UnsupportedSampleFormat,
}

/// Checks the format of the extracted audio: it must be mono at 16 kHz,
/// with 16-bit integer or 32-bit float samples.
pub fn check_wav_format(channels: u16, sample_rate: u32, is_float: bool, bits_per_sample: u16) -> (r:
    Result<SampleEncoding, WavFormatError>)
    ensures
        r == (if channels != 1 || sample_rate != SAMPLE_RATE {
            Err(WavFormatError::NotMono16k { channels, sample_rate })
        } else if !is_float && bits_per_sample == 16 {
            Ok(SampleEncoding::Int16)
        } else if is_float && bits_per_sample == 32 {
            Ok(SampleEncoding::Float32)
        } else {
            Err(WavFormatError::UnsupportedSampleFormat)
        }),
{
    if channels != 1 || sample_rate != 16000 {
        return Err(WavFormatError::NotMono16k { channels, sample_rate });
    }
    if !is_float && bits_per_sample == 16 {
        Ok(SampleEncoding::Int16)
    } else if is_float && bits_per_sample == 32 {
        Ok(SampleEncoding::Float32)
    } else {
        Err(WavFormatError::UnsupportedSampleFormat)
    }
}


/// Cutting a segment of `len` samples from `start` at any chunk size
/// `max > 0`: the `k`-th chunk starts `k * max` samples after the segment,
/// holds `max` samples or whatever is left of the segment, and holds at
/// least `MIN_CHUNK_SAMPLES`; the chunks are in order and do not overlap.
pub proof fn lemma_chunk_pieces_any(start: int, len: int, max: int)
    requires
        max > 0,
    ensures
        forall|k: int|
            0 <= k < chunk_pieces(start, len, max).len() ==> {
                let c = #[trigger] chunk_pieces(start, len, max)[k];
                &&& c.0 == start + k * max
                &&& c.1 == (if len - k * max < max {
                    len - k * max
                } else {
                    max
                })
                &&& MIN_CHUNK_SAMPLES <= c.1 <= max
                &&& c.0 + c.1 <= start + len
            },
        chunks_ordered(chunk_pieces(start, len, max)),
    decreases len,
{
    let cs = chunk_pieces(start, len, max);
    if len > 0 {
        let l = if len < max {
            len
        } else {
            max
        };
        lemma_chunk_pieces_any(start + max, len - l, max);
        let rest = chunk_pieces(start + max, len - l, max);
        if len <= max {
            assert(rest =~= Seq::<(int, int)>::empty());
        }
        if l >= MIN_CHUNK_SAMPLES {
            assert(cs == seq![(start, l)] + rest);
            assert forall|k: int| 0 <= k < cs.len() implies {
                let c = #[trigger] cs[k];
                &&& c.0 == start + k * max
                &&& c.1 == (if len - k * max < max {
                    len - k * max
                } else {
                    max
                })
                &&& MIN_CHUNK_SAMPLES <= c.1 <= max
                &&& c.0 + c.1 <= start + len
            } by {
                if k > 0 {
                    assert(cs[k] == rest[k - 1]);
                    assert((start + max) + (k - 1) * max == start + k * max) by (nonlinear_arith);
                    assert((len - l) - (k - 1) * max == len - k * max) by (nonlinear_arith)
                        requires
                            l == max,
                    ;
                }
            }
            assert forall|k: int| 0 <= k < cs.len() - 1 implies #[trigger] cs[k].0 + cs[k].1
                <= cs[k + 1].0 by {
                if k > 0 {
                    assert(cs[k] == rest[k - 1]);
                    assert(cs[k + 1] == rest[k]);
                } else {
                    assert(cs[1] == rest[0]);
                }
            }
        } else {
            assert(rest =~= Seq::<(int, int)>::empty()) by {
                if len > max {
                    // a full piece of `max < MIN_CHUNK_SAMPLES` samples: everything is dropped
                    assert(max < MIN_CHUNK_SAMPLES);
                    lemma_small_pieces_dropped(start + max, len - l, max);
                }
            }
        }
    }
}

proof fn lemma_small_pieces_dropped(start: int, len: int, max: int)
    requires
        0 < max < MIN_CHUNK_SAMPLES,
    ensures
        chunk_pieces(start, len, max) =~= Seq::<(int, int)>::empty(),
    decreases len,
{
    if len > 0 {
        let l = if len < max {
            len
        } else {
            max
        };
        lemma_small_pieces_dropped(start + max, len - l, max);
    }
}

} // verus!
