use video_transcriber::text::{chars_of, join_from, lines_of, split_chars, string_of, trim_chars};

const SAMPLES: &[&str] = &[
    "",
    "a",
    "\n",
    "\n\n",
    "\n\n\n",
    "a\nb",
    "a\r\nb\r\n",
    "a\r",
    "x\r\n\r\ny",
    "  padded\t",
    "\u{3000}wide\u{a0}",
    "\u{1c}not trimmed\u{1f}",
    "1\n00:00:00,000 --> 00:00:01,000\nmetin\n\n2\n",
    "-->-->",
    "a-->b-->c",
    "--->",
];

fn to_chars(s: &str) -> Vec<char> {
    chars_of(s)
}

fn to_string(cs: &[char]) -> String {
    string_of(cs)
}

#[test]
fn trim_matches_std() {
    for s in SAMPLES {
        assert_eq!(to_string(&trim_chars(&to_chars(s))), s.trim(), "input {s:?}");
    }
}

#[test]
fn lines_match_std() {
    for s in SAMPLES {
        let ours: Vec<String> = lines_of(&to_chars(s)).iter().map(|l| to_string(l)).collect();
        let std: Vec<String> = s.lines().map(|l| l.to_string()).collect();
        assert_eq!(ours, std, "input {s:?}");
    }
}

#[test]
fn split_matches_std() {
    for pat in ["\n\n", "-->", "a"] {
        let p: Vec<char> = pat.chars().collect();
        for s in SAMPLES {
            let ours: Vec<String> =
                split_chars(&to_chars(s), &p).iter().map(|l| to_string(l)).collect();
            let std: Vec<String> = s.split(pat).map(|l| l.to_string()).collect();
            assert_eq!(ours, std, "input {s:?} pattern {pat:?}");
        }
    }
}

#[test]
fn join_matches_std() {
    let parts: Vec<Vec<char>> = ["bir", "", "iki", "üç"].iter().map(|s| to_chars(s)).collect();
    for from in 0..=parts.len() {
        let std: Vec<&str> = ["bir", "", "iki", "üç"][from..].to_vec();
        assert_eq!(to_string(&join_from(&parts, from, ' ')), std.join(" "));
    }
}
