use video_transcriber::vad::{
    check_wav_format, chunk_start_ms, detect_speech_chunks, find_speech, frame_count,
    push_chunked_segment, NoSpeech, SampleEncoding, SpeechChunk, WavFormatError, FRAME_LEN,
    MAX_CHUNK_SAMPLES,
};

fn flags(pattern: &[(bool, usize)]) -> Vec<bool> {
    let mut v = Vec::new();
    for &(b, n) in pattern {
        for _ in 0..n {
            v.push(b);
        }
    }
    v
}

#[test]
fn counts_frames() {
    assert_eq!(frame_count(0), 0);
    assert_eq!(frame_count(1), 1);
    assert_eq!(frame_count(480), 1);
    assert_eq!(frame_count(481), 2);
    assert_eq!(frame_count(16000), 34);
}

#[test]
fn segment_closes_after_eight_silent_frames() {
    // 20 speech frames, then 10 silent frames
    let f = flags(&[(true, 20), (false, 10)]);
    let total = f.len() * FRAME_LEN;
    let chunks = detect_speech_chunks(&f, total);
    // closes at the eighth silent frame (frame 27): 27 * 480 samples
    assert_eq!(chunks, vec![SpeechChunk { start_sample: 0, len: 27 * 480 }]);
}

#[test]
fn short_silence_keeps_segment_open() {
    let f = flags(&[(false, 3), (true, 10), (false, 7), (true, 10), (false, 8)]);
    let total = f.len() * FRAME_LEN;
    let chunks = detect_speech_chunks(&f, total);
    // opens at frame 3, closes at frame 37 (eighth silent frame after frame 29)
    assert_eq!(chunks, vec![SpeechChunk { start_sample: 3 * 480, len: 34 * 480 }]);
}

#[test]
fn open_segment_runs_to_the_end() {
    let f = flags(&[(false, 5), (true, 40)]);
    let total = 44 * FRAME_LEN + 100;
    let chunks = detect_speech_chunks(&f, total);
    assert_eq!(chunks, vec![SpeechChunk { start_sample: 5 * 480, len: total - 5 * 480 }]);
}

#[test]
fn short_segments_are_dropped() {
    // 10 speech frames + 7 trailing silent frames = 17 * 480 = 8160 samples: kept
    let f = flags(&[(true, 10), (false, 8), (true, 2), (false, 8)]);
    let total = f.len() * FRAME_LEN;
    let chunks = detect_speech_chunks(&f, total);
    // second segment: 2 + 7 frames = 4320 samples < 8000: dropped
    assert_eq!(chunks, vec![SpeechChunk { start_sample: 0, len: 17 * 480 }]);
}

#[test]
fn long_segments_are_cut_into_thirty_second_chunks() {
    // 70 s of speech: 70000 ms / 30 ms = 2334 frames (last one partial)
    let total = 70 * 16000;
    let n = frame_count(total);
    let f = vec![true; n];
    let chunks = detect_speech_chunks(&f, total);
    assert_eq!(
        chunks,
        vec![
            SpeechChunk { start_sample: 0, len: MAX_CHUNK_SAMPLES },
            SpeechChunk { start_sample: MAX_CHUNK_SAMPLES, len: MAX_CHUNK_SAMPLES },
            SpeechChunk { start_sample: 2 * MAX_CHUNK_SAMPLES, len: 160000 },
        ]
    );
    assert_eq!(chunk_start_ms(chunks[1]), 30_000);
    assert_eq!(chunk_start_ms(chunks[2]), 60_000);
}

#[test]
fn short_tail_of_long_segment_is_dropped() {
    let total = 30 * 16000 + 4000;
    let n = frame_count(total);
    let f = vec![true; n];
    let chunks = detect_speech_chunks(&f, total);
    assert_eq!(chunks, vec![SpeechChunk { start_sample: 0, len: MAX_CHUNK_SAMPLES }]);
}

#[test]
fn silence_is_no_speech() {
    let f = vec![false; 100];
    assert_eq!(find_speech(&f, 100 * FRAME_LEN), Err(NoSpeech));
    assert_eq!(find_speech(&[], 0), Err(NoSpeech));
    let f = vec![true; 100];
    assert_eq!(find_speech(&f, 100 * FRAME_LEN).unwrap().len(), 1);
}

#[test]
fn chunks_are_ordered_and_in_range() {
    let mut f = Vec::new();
    for i in 0..5000 {
        f.push((i / 37) % 3 != 0 || i % 11 == 0);
    }
    let total = f.len() * FRAME_LEN - 17;
    let chunks = detect_speech_chunks(&f, total);
    assert!(!chunks.is_empty());
    for c in &chunks {
        assert!(c.len >= 8000 && c.len <= MAX_CHUNK_SAMPLES);
        assert!(c.start_sample + c.len <= total);
        assert_eq!(c.start_sample % FRAME_LEN, 0);
        assert_eq!(chunk_start_ms(*c) as usize * 16, c.start_sample);
    }
    for w in chunks.windows(2) {
        assert!(w[0].start_sample + w[0].len <= w[1].start_sample);
    }
}

#[test]
fn checks_wav_format() {
    assert_eq!(check_wav_format(1, 16000, false, 16), Ok(SampleEncoding::Int16));
    assert_eq!(check_wav_format(1, 16000, true, 32), Ok(SampleEncoding::Float32));
    assert_eq!(
        check_wav_format(2, 16000, false, 16),
        Err(WavFormatError::NotMono16k { channels: 2, sample_rate: 16000 })
    );
    assert_eq!(
        check_wav_format(1, 44100, false, 16),
        Err(WavFormatError::NotMono16k { channels: 1, sample_rate: 44100 })
    );
    assert_eq!(check_wav_format(1, 16000, false, 24), Err(WavFormatError::UnsupportedSampleFormat));
    assert_eq!(check_wav_format(1, 16000, true, 64), Err(WavFormatError::UnsupportedSampleFormat));
}

#[test]
fn chunks_a_segment_at_any_size() {
    let mut out: Vec<SpeechChunk> = Vec::new();
    push_chunked_segment(&mut out, 16000, 36000, 8000);
    // pieces of 8000, 8000 and 4000 samples; the last is under half a second
    assert_eq!(out.len(), 2);
    assert_eq!((out[0].start_sample, out[0].len), (16000, 8000));
    assert_eq!((out[1].start_sample, out[1].len), (24000, 8000));
    assert_eq!(chunk_start_ms(out[1]), 1500);
}

#[test]
fn chunking_appends_after_earlier_chunks() {
    let mut out: Vec<SpeechChunk> = vec![SpeechChunk { start_sample: 0, len: 9000 }];
    push_chunked_segment(&mut out, 100_000, 130_000, 12_000);
    assert_eq!(out.len(), 3);
    assert_eq!((out[0].start_sample, out[0].len), (0, 9000));
    assert_eq!((out[1].start_sample, out[1].len), (100_000, 12_000));
    assert_eq!((out[2].start_sample, out[2].len), (112_000, 12_000));
    // a piece of exactly half a second is kept
    let mut out: Vec<SpeechChunk> = Vec::new();
    push_chunked_segment(&mut out, 0, 18_000, 10_000);
    assert_eq!(out.len(), 2);
    assert_eq!((out[1].start_sample, out[1].len), (10_000, 8000));
    push_chunked_segment(&mut out, 0, 17_999, 10_000);
    assert_eq!(out.len(), 3);
    assert_eq!((out[2].start_sample, out[2].len), (0, 10_000));
    push_chunked_segment(&mut out, 5, 5, 10_000);
    assert_eq!(out.len(), 3);
}
