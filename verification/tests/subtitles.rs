use video_transcriber::srt::{parse_srt_segments, Cue, SrtError};
use video_transcriber::timefmt::{format_srt_time, format_vtt_time};
use video_transcriber::timestamp::{parse_srt_time, SrtTime};
use video_transcriber::transcript::{
    json_close, json_open, json_separator, shift_cue, srt_block, vtt_block, vtt_header,
    written_time, TranscriptWriter,
};

/// A whole number of milliseconds as a time.
fn whole(v: u64) -> SrtTime {
    let mut mag = Vec::new();
    let mut m = v;
    while m > 0 {
        mag.push((m % 10) as u8);
        m /= 10;
    }
    SrtTime::Ms { neg: false, mag, scale: 0 }
}

fn cue(start_ms: u64, end_ms: u64, text: &str) -> Cue {
    Cue { start: whole(start_ms), end: whole(end_ms), text: text.to_string() }
}

/// A time as decimal milliseconds, without needless zeros.
fn show(t: &SrtTime) -> String {
    match t {
        SrtTime::Ms { neg, mag, scale } => {
            let mut digits: String = mag.iter().rev().map(|d| char::from(b'0' + *d)).collect();
            while digits.len() < scale + 1 {
                digits.insert(0, '0');
            }
            let (int, frac) = digits.split_at(digits.len() - scale);
            let int = int.trim_start_matches('0');
            let int = if int.is_empty() { "0" } else { int };
            let frac = frac.trim_end_matches('0');
            let body = if frac.is_empty() { int.to_string() } else { format!("{int}.{frac}") };
            if *neg && body != "0" { format!("-{body}") } else { body }
        }
        SrtTime::PosInf => "inf".to_string(),
        SrtTime::NegInf => "-inf".to_string(),
        SrtTime::NaN => "nan".to_string(),
    }
}

/// What a timestamp reads as, shown.
fn read(s: &str) -> String {
    match parse_srt_time(s) {
        Ok(t) => show(&t),
        Err(e) => format!("{e:?}"),
    }
}

/// The milliseconds written for a timestamp.
fn written(s: &str) -> u64 {
    written_time(&parse_srt_time(s).unwrap())
}

#[test]
fn parses_timestamp() {
    assert_eq!(read("00:00:01,500"), "1500");
    assert_eq!(read("01:02:03,004"), "3723004");
    assert_eq!(read("1:2:3,45"), "3723045");
}

#[test]
fn timestamp_fields_are_decimal_numbers() {
    assert_eq!(read("0:0:1.5,0"), "1500");
    assert_eq!(read("+1:-0:1e1,.5"), "3610000.5");
    assert_eq!(read("0:0:0,1E2"), "100");
    assert_eq!(read("0:1.25:0,0"), "75000");
    assert_eq!(read("0:0:5.,0"), "5000");
    assert_eq!(read("0:0:2.5e-1,0"), "250");
    assert_eq!(read("0:0:-1,0"), "-1000");
    assert_eq!(read("0:0:1e-50,0"), "0");
    assert_eq!(read("-0:-0:-0,-0"), "0");
}

#[test]
fn timestamp_keeps_fractions_of_a_millisecond() {
    assert_eq!(read("00:00:01,0.4"), "1000.4");
    assert_eq!(read("00:00:01,0004"), "1004");
    assert_eq!(read("0:0:0.0005,0"), "0.5");
    assert_eq!(read("0:0:0,0.25"), "0.25");
    assert_eq!(read("0:0:1,-0.0001"), "999.9999");
}

#[test]
fn written_times_round_halves_up() {
    assert_eq!(written("0:0:0,0.5"), 1);
    assert_eq!(written("0:0:0,1.5"), 2);
    assert_eq!(written("0:0:0,0.4999"), 0);
    assert_eq!(written("00:00:01,0.4"), 1000);
    assert_eq!(written("0:0:0,-0.5"), 0);
    assert_eq!(written("0:0:0,-1.5"), 0);
    assert_eq!(written("0:0:0.0005,0"), 1);
    assert_eq!(written("0:0:1,-0.0001"), 1000);
}

#[test]
fn timestamp_infinities_and_nan() {
    assert_eq!(read("inf:0:0,0"), "inf");
    assert_eq!(read("0:-Infinity:0,0"), "-inf");
    assert_eq!(read("0:0:+INF,0"), "inf");
    assert_eq!(read("NaN:0:0,0"), "nan");
    assert_eq!(read("inf:-inf:0,0"), "nan");
    assert_eq!(read("inf:inf:0,0"), "inf");
    assert_eq!(read("0:0:1e40,0"), "inf");
    assert_eq!(read("0:0:-1e40,0"), "-inf");
}

#[test]
fn timestamp_field_count_is_checked() {
    assert_eq!(parse_srt_time("00:01,500"), Err(SrtError::TimestampShape));
    assert_eq!(parse_srt_time("00:00:01.500"), Err(SrtError::TimestampShape));
    assert_eq!(parse_srt_time("00:00:00:01,500"), Err(SrtError::TimestampShape));
    assert_eq!(parse_srt_time(""), Err(SrtError::TimestampShape));
}

#[test]
fn timestamp_fields_must_be_numbers() {
    assert_eq!(parse_srt_time("00:0x:01,500"), Err(SrtError::TimestampNumber));
    assert_eq!(parse_srt_time("00::01,500"), Err(SrtError::TimestampNumber));
    assert_eq!(parse_srt_time(" 00:00:01,500"), Err(SrtError::TimestampNumber));
    assert_eq!(parse_srt_time("0:0:1e,0"), Err(SrtError::TimestampNumber));
    assert_eq!(parse_srt_time("0:0:e5,0"), Err(SrtError::TimestampNumber));
    assert_eq!(parse_srt_time("0:0:.,0"), Err(SrtError::TimestampNumber));
    assert_eq!(parse_srt_time("0:0:in,0"), Err(SrtError::TimestampNumber));
    assert_eq!(parse_srt_time("0:0:1_0,0"), Err(SrtError::TimestampNumber));
    assert_eq!(parse_srt_time("0:0:++1,0"), Err(SrtError::TimestampNumber));
}

#[test]
fn large_timestamps_are_kept_exactly() {
    assert_eq!(read("5124095576030:25:51,615"), u64::MAX.to_string());
    assert_eq!(read("99999999999999999999:00:00,000"), "359999999999999999996400000");
    assert_eq!(read("-99999999999999999999:00:00,000"), "-359999999999999999996400000");
    assert_eq!(read("0:0:0,18446744073709551616"), "18446744073709551616");
    assert_eq!(written("99999999999999999999:00:00,000"), u64::MAX);
    assert_eq!(written("0:0:0,18446744073709551616"), u64::MAX);
    assert_eq!(written("5124095576030:25:51,615"), u64::MAX);
}

#[test]
fn written_times_saturate() {
    assert_eq!(written_time(&whole(42)), 42);
    assert_eq!(written_time(&SrtTime::Ms { neg: true, mag: vec![1], scale: 0 }), 0);
    assert_eq!(written_time(&whole(u64::MAX)), u64::MAX);
    assert_eq!(written_time(&SrtTime::PosInf), u64::MAX);
    assert_eq!(written_time(&SrtTime::NegInf), 0);
    assert_eq!(written_time(&SrtTime::NaN), 0);
}

#[test]
fn formats_timestamps() {
    assert_eq!(format_srt_time(0), "00:00:00,000");
    assert_eq!(format_srt_time(1500), "00:00:01,500");
    assert_eq!(format_srt_time(3_723_004), "01:02:03,004");
    assert_eq!(format_srt_time(360_000_000), "100:00:00,000");
    assert_eq!(format_vtt_time(3_723_004), "01:02:03.004");
    assert_eq!(format_vtt_time(59_999), "00:00:59.999");
}

#[test]
fn formatted_timestamp_reads_back() {
    for t in [0u64, 1, 999, 1000, 59_999, 60_000, 3_599_999, 3_600_000, 86_399_999, u64::MAX] {
        assert_eq!(read(&format_srt_time(t)), t.to_string());
    }
}

#[test]
fn parses_cues() {
    let srt = "1\n00:00:00,000 --> 00:00:02,500\n Merhaba dunya \n\n2\n00:00:02,500 --> 00:00:04,000\nikinci\nsatir\n\n";
    let cues = parse_srt_segments(srt).unwrap();
    assert_eq!(cues.len(), 2);
    assert_eq!((show(&cues[0].start), show(&cues[0].end)), ("0".to_string(), "2500".to_string()));
    assert_eq!(cues[0].text, "Merhaba dunya");
    assert_eq!((show(&cues[1].start), show(&cues[1].end)), ("2500".to_string(), "4000".to_string()));
    assert_eq!(cues[1].text, "ikinci satir");
}

#[test]
fn parses_cues_with_decimal_fields() {
    let srt = "1\n0:0:1.5,0 --> 0:0:2,0\nmerhaba\n\n2\ninf:0:0,0 --> nan:0:0,0\nson\n";
    let cues = parse_srt_segments(srt).unwrap();
    assert_eq!(cues.len(), 2);
    assert_eq!((show(&cues[0].start), show(&cues[0].end)), ("1500".to_string(), "2000".to_string()));
    assert_eq!((&cues[1].start, &cues[1].end), (&SrtTime::PosInf, &SrtTime::NaN));
}

#[test]
fn parses_crlf_lines() {
    let srt = "1\r\n00:00:01,000 --> 00:00:02,000\r\nmetin\r\n\n";
    let cues = parse_srt_segments(srt).unwrap();
    assert_eq!(cues.len(), 1);
    assert_eq!(cues[0].text, "metin");
    assert_eq!(show(&cues[0].end), "2000");
}

#[test]
fn skips_short_and_empty_blocks() {
    let srt = "1\n00:00:00,000 --> 00:00:01,000\n\n2\n00:00:01,000 --> 00:00:02,000\n   \n\n3\nbad --> times\n\n4\n00:00:03,000 --> 00:00:04,000\nson\n";
    let cues = parse_srt_segments(srt).unwrap();
    assert_eq!(cues.len(), 1);
    assert_eq!(show(&cues[0].start), "3000");
    assert_eq!(cues[0].text, "son");
    assert_eq!(parse_srt_segments("").unwrap().len(), 0);
}

#[test]
fn missing_arrow_is_an_error() {
    let srt = "1\n00:00:00,000 00:00:01,000\n\n";
    assert!(parse_srt_segments(srt).unwrap().is_empty());
    let srt = "1\n00:00:00,000 00:00:01,000\nmetin\n\n";
    assert_eq!(parse_srt_segments(srt).unwrap_err(), SrtError::MissingEnd);
}

#[test]
fn bad_time_in_a_cue_is_an_error() {
    let srt = "1\n00:00:00,000 --> 00:00:01,000\nbir\n\n2\n00:00 --> 00:00:02,000\niki\n\n";
    assert_eq!(parse_srt_segments(srt).unwrap_err(), SrtError::TimestampShape);
    let srt = "1\n00:00:00,000 --> 00:00:aa,000\nbir\n\n";
    assert_eq!(parse_srt_segments(srt).unwrap_err(), SrtError::TimestampNumber);
}

#[test]
fn renders_blocks() {
    let c = cue(1500, 3_723_004, "Merhaba");
    assert_eq!(srt_block(7, &c), "7\n00:00:01,500 --> 01:02:03,004\nMerhaba\n\n");
    assert_eq!(vtt_block(&c), "00:00:01.500 --> 01:02:03.004\nMerhaba\n\n");
    assert_eq!(vtt_header(), "WEBVTT\n\n");
    assert_eq!(json_open(), "{\"segments\":[\n");
    assert_eq!(json_close(), "\n]}\n");
    assert_eq!(json_separator(true), "");
    assert_eq!(json_separator(false), ",\n");
}

#[test]
fn renders_times_out_of_range() {
    let late = SrtTime::Ms { neg: true, mag: vec![0, 0, 5, 2], scale: 0 };
    let c = Cue { start: late, end: SrtTime::PosInf, text: "x".to_string() };
    assert_eq!(srt_block(1, &c), "1\n00:00:00,000 --> 5124095576030:25:51,615\nx\n\n");
    let c = Cue { start: SrtTime::NaN, end: SrtTime::NegInf, text: "y".to_string() };
    assert_eq!(vtt_block(&c), "00:00:00.000 --> 00:00:00.000\ny\n\n");
}

#[test]
fn shifts_cues_by_chunk_offset() {
    let c = shift_cue(&cue(1000, 2000, "x"), 30_000);
    assert_eq!((show(&c.start), show(&c.end)), ("31000".to_string(), "32000".to_string()));
    assert_eq!(c.text, "x");
    let c = Cue {
        start: parse_srt_time("0:0:0,-1.5").unwrap(),
        end: parse_srt_time("0:0:0,0.25").unwrap(),
        text: "y".to_string(),
    };
    let c = shift_cue(&c, 10);
    assert_eq!((show(&c.start), show(&c.end)), ("8.5".to_string(), "10.25".to_string()));
    let c = Cue { start: parse_srt_time("0:0:-1,0").unwrap(), end: whole(0), text: "w".to_string() };
    let c = shift_cue(&c, 400);
    assert_eq!((show(&c.start), show(&c.end)), ("-600".to_string(), "400".to_string()));
    let c = shift_cue(
        &Cue { start: SrtTime::PosInf, end: SrtTime::NaN, text: "z".to_string() },
        10,
    );
    assert_eq!((c.start, c.end), (SrtTime::PosInf, SrtTime::NaN));
}

#[test]
fn writer_numbers_cues_across_chunks() {
    let mut w = TranscriptWriter::new();
    let first = w.emit_chunk(0, &vec![cue(0, 1000, "a"), cue(1000, 2000, "b")]);
    let second = w.emit_chunk(30_000, &vec![cue(500, 900, "c")]);
    assert_eq!(first.len(), 2);
    assert_eq!(first[0].srt, "1\n00:00:00,000 --> 00:00:01,000\na\n\n");
    assert_eq!(first[1].srt, "2\n00:00:01,000 --> 00:00:02,000\nb\n\n");
    assert_eq!(first[0].json_prefix, "");
    assert_eq!(first[1].json_prefix, ",\n");
    assert_eq!(second[0].srt, "3\n00:00:30,500 --> 00:00:30,900\nc\n\n");
    assert_eq!(second[0].vtt, "00:00:30.500 --> 00:00:30.900\nc\n\n");
    assert_eq!(second[0].json_prefix, ",\n");
    assert_eq!(show(&second[0].cue.start), "30500");
    assert_eq!(w.next_index, 4);
    assert!(!w.first_json);
}

#[test]
fn empty_chunk_leaves_writer_unchanged() {
    let mut w = TranscriptWriter::new();
    let out = w.emit_chunk(1000, &Vec::new());
    assert!(out.is_empty());
    assert_eq!(w.next_index, 1);
    assert!(w.first_json);
}

#[test]
fn written_srt_reads_back() {
    let cues = vec![
        cue(0, 1000, "Merhaba dunya"),
        cue(1000, 65_432, "ikinci"),
        cue(3_600_000, 3_600_001, "üç -> dört"),
    ];
    let mut w = TranscriptWriter::new();
    let out = w.emit_chunk(0, &cues);
    let doc: String = out.iter().map(|r| r.srt.clone()).collect();
    let back = parse_srt_segments(&doc).unwrap();
    assert_eq!(back.len(), cues.len());
    for (a, b) in back.iter().zip(cues.iter()) {
        assert_eq!((show(&a.start), show(&a.end)), (show(&b.start), show(&b.end)));
        assert_eq!(a.text, b.text);
    }
}

#[test]
fn written_timestamps_sort_as_times() {
    let times = [0u64, 1, 999, 1000, 59_999, 60_000, 3_599_999, 3_600_000, 359_999_999];
    for w in times.windows(2) {
        assert!(format_srt_time(w[0]) < format_srt_time(w[1]));
        assert!(format_vtt_time(w[0]) < format_vtt_time(w[1]));
    }
    // at one hundred hours the hours take a third digit
    assert!(format_srt_time(360_000_000) < format_srt_time(359_999_999));
}

#[test]
fn json_list_has_one_separator_between_objects() {
    let mut w = TranscriptWriter::new();
    let mut body = String::new();
    for chunk in [vec![cue(0, 1, "a")], vec![], vec![cue(2, 3, "b"), cue(4, 5, "c")]] {
        for r in w.emit_chunk(10, &chunk) {
            body.push_str(&r.json_prefix);
            body.push_str(&r.cue.text);
        }
    }
    assert_eq!(format!("{}{}{}", json_open(), body, json_close()), "{\"segments\":[\na,\nb,\nc\n]}\n");
}
