use shapez::sketch::SpaceSaving;
use shapez::sniff::alphabet::{detect, Alphabet, Basis, Encoding};
use shapez::sniff::brace::BraceScan;
use shapez::sniff::lines::Cadence;
use shapez::sniff::profile::NgramProfile;
use shapez::sniff::sample::{segments, Budget};
use shapez::sniff::stream::{
    is_measurable, sniff, sniff_with, SniffPolicy, SniffStream, Sniffed,
};

fn utf16le(s: &str) -> Vec<u8> {
    s.encode_utf16().flat_map(|u| u.to_le_bytes()).collect()
}
fn utf16be(s: &str) -> Vec<u8> {
    s.encode_utf16().flat_map(|u| u.to_be_bytes()).collect()
}

fn null_odd_bias(a: &Alphabet) -> f64 {
    2.0 * (a.odd_nulls as f64 / a.nulls as f64) - 1.0
}

fn entropy_bits(a: &Alphabet) -> f64 {
    let n = a.len as f64;
    if n == 0.0 {
        return 0.0;
    }
    a.hist
        .iter()
        .filter(|c| **c > 0)
        .map(|c| {
            let p = *c as f64 / n;
            -p * p.log2()
        })
        .sum()
}

// ---------------------------------------------------------------------------
// The alphabet
// ---------------------------------------------------------------------------

#[test]
fn utf16le_detected_by_parity_without_a_bom() {
    let bytes = utf16le("id,name,email\n1,alice,a@example.com\n2,bob,b@example.com\n");
    let a = detect(&bytes);
    assert_eq!(a.encoding, Encoding::Utf16Le, "basis: {:#?}", a.basis);
    assert!(null_odd_bias(&a) > 0.9);
}

#[test]
fn utf16be_parity_points_the_other_way() {
    let bytes = utf16be("id,name,email\n1,alice,a@example.com\n2,bob,b@example.com\n");
    let a = detect(&bytes);
    assert_eq!(a.encoding, Encoding::Utf16Be);
    assert!(null_odd_bias(&a) < -0.9);
}

#[test]
fn utf16_normalizes_back_to_its_ascii_plane() {
    let src = "id,name\n1,alice\n";
    for bytes in [utf16le(src), utf16be(src)] {
        let a = detect(&bytes);
        assert_eq!(&*a.normalize(&bytes), src.as_bytes());
    }
}

#[test]
fn boms_win_and_are_stripped() {
    let mut bytes = vec![0xEF, 0xBB, 0xBF];
    bytes.extend_from_slice(b"{\"a\":1}");
    let a = detect(&bytes);
    assert_eq!(a.encoding, Encoding::Utf8);
    assert_eq!(a.bom_len, 3);
    assert_eq!(&*a.normalize(&bytes), b"{\"a\":1}");
}

#[test]
fn utf32le_bom_beats_the_utf16le_prefix() {
    let mut bytes = vec![0xFF, 0xFE, 0x00, 0x00];
    bytes.extend_from_slice(&[b'a', 0, 0, 0, b'b', 0, 0, 0]);
    let a = detect(&bytes);
    assert_eq!(a.encoding, Encoding::Utf32Le);
    assert_eq!(&*a.normalize(&bytes), b"ab");
}

#[test]
fn high_entropy_reads_as_binary_not_text() {
    // A cheap LCG stands in for compressed bytes: flat histogram,
    // entropy pinned near 8, no parity structure in the nulls.
    let mut x: u32 = 0x1234_5678;
    let bytes: Vec<u8> = (0..8192)
        .map(|_| {
            x = x.wrapping_mul(1_664_525).wrapping_add(1_013_904_223);
            (x >> 24) as u8
        })
        .collect();
    let a = detect(&bytes);
    assert_eq!(a.encoding, Encoding::Binary);
    assert!(entropy_bits(&a) > 7.5, "entropy was {}", entropy_bits(&a));
}

#[test]
fn valid_utf8_prose_stays_utf8() {
    let a = detect("il était une fois, un café — très bien\n".repeat(20).as_bytes());
    assert_eq!(a.encoding, Encoding::Utf8);
    assert!(a.utf8_valid as f64 / a.head_high as f64 > 0.99);
}

#[test]
fn latin1_high_bytes_fail_the_sequence_test() {
    // 0xE9 ('é' in Latin-1) is a 3-byte UTF-8 lead; followed by
    // ASCII it never forms a valid sequence.
    let mut bytes = Vec::new();
    for _ in 0..200 {
        bytes.extend_from_slice(b"caf\xE9 na\xEFve resum\xE9 ");
    }
    let a = detect(&bytes);
    assert_eq!(a.encoding, Encoding::Latin1, "basis: {:#?}", a.basis);
}

#[test]
fn empty_input_does_not_panic() {
    let a = detect(b"");
    assert_eq!(entropy_bits(&a), 0.0);
    assert!(a.normalize(b"").is_empty());
}

#[test]
fn plain_ascii_is_utf8_text() {
    let a = detect(b"hello, world. this is a perfectly ordinary line of text.\n");
    assert_eq!(a.encoding, Encoding::Utf8);
    assert_eq!(a.bom_len, 0);
    assert_eq!(a.basis, Basis::Plain);
    assert_eq!(a.printable, a.len);
    assert!(a.encoding.is_text());
    assert_eq!(a.encoding.name(), "UTF-8");
}

// ---------------------------------------------------------------------------
// The profile
// ---------------------------------------------------------------------------

fn profile(s: &[u8]) -> NgramProfile {
    NgramProfile::build(&[s], 256, Some(256))
}

fn agreement(c: &Cadence) -> f64 {
    match c.modal() {
        Some((0, _)) | None => 0.0,
        Some((_, lines)) => lines as f64 / c.lines as f64,
    }
}

fn line_framed_frac(b: &BraceScan) -> f64 {
    if b.scanned_lines == 0 {
        0.0
    } else {
        b.depth_zero_lines as f64 / b.scanned_lines as f64
    }
}

#[test]
fn space_saving_forgets_the_tail_and_reports_it() {
    let mut ss: SpaceSaving<u32> = SpaceSaving::new(4);
    for _ in 0..100 {
        ss.observe(1);
    }
    for k in 10..60 {
        ss.observe(k);
    }
    assert!(ss.count(&1) >= 100, "the heavy hitter survives");
    let eviction_rate = ss.evictions() as f64 / ss.observations() as f64;
    assert!(eviction_rate > 0.2, "and the churn is visible");
}

#[test]
fn cadence_separates_agreement_from_frequency() {
    // Prose: plenty of commas, no agreement.
    let prose = profile(b"one, two and three\nfour, five, six, seven\neight\nnine, ten\n");
    assert!(agreement(prose.cadence_for(b',').unwrap()) < 0.6);

    // CSV: same commas per line, every line.
    let csv = profile(b"a,b,c\n1,2,3\n4,5,6\n7,8,9\n");
    assert_eq!(csv.cadence_for(b',').unwrap().modal(), Some((2, 4)));
    assert_eq!(agreement(csv.cadence_for(b',').unwrap()), 1.0);
}

#[test]
fn cadence_ignores_delimiters_inside_quotes() {
    let csv = profile(b"a,b\n\"x,y\",z\n\"p,q,r\",s\n");
    let c = csv.cadence_for(b',').unwrap();
    assert_eq!(c.modal(), Some((1, 3)));
    assert_eq!(agreement(c), 1.0);
}

#[test]
fn brace_scan_ignores_brackets_inside_strings() {
    let p = profile(br#"{"a":"}}}}","b":[1,2]}"#);
    assert_eq!(p.brace.obj_open, 1);
    assert_eq!(p.brace.obj_close, 1);
    assert_eq!(p.brace.arr_open, 1);
    assert!(p.brace.balanced());
}

#[test]
fn brace_scan_honors_backslash_escapes() {
    let p = profile(br#"{"a":"he said \"}\" once"}"#);
    assert_eq!(p.brace.obj_open, 1);
    assert_eq!(p.brace.obj_close, 1);
    assert!(p.brace.balanced());
}

#[test]
fn line_framing_is_visible_for_jsonl_and_absent_for_pretty_json() {
    let jsonl = profile(b"{\"a\":1}\n{\"a\":2}\n{\"a\":3}\n");
    assert_eq!(line_framed_frac(&jsonl.brace), 1.0);

    let pretty = profile(b"{\n  \"a\": 1,\n  \"b\": [\n    2\n  ]\n}\n");
    assert!(line_framed_frac(&pretty.brace) < 0.3, "{}", line_framed_frac(&pretty.brace));
}

#[test]
fn unbalanced_closers_are_flagged() {
    let p = profile(b"} } ] }");
    assert!(p.brace.went_negative);
    assert!(!p.brace.balanced());
}

#[test]
fn line_anchors_are_recorded() {
    let p = profile(b"<a>\n<b>\n<c>\n");
    assert_eq!(p.line_lead[b'<' as usize] as f64 / p.lines as f64, 1.0);
    assert_eq!(p.line_last[b'>' as usize] as f64 / p.lines as f64, 1.0);
}

#[test]
fn indent_widths_are_histogrammed() {
    let p = profile(b"a:\n  b: 1\n  c: 2\n    d: 3\n");
    assert_eq!(p.indents.get(&0), Some(&1));
    assert_eq!(p.indents.get(&2), Some(&2));
    assert_eq!(p.indents.get(&4), Some(&1));
}

#[test]
fn bare_scalar_lines_are_recognized() {
    let p = profile(b"5440\n-5626\n1.5e-3\ntrue\nnull\n\"quoted\"\n");
    assert_eq!(p.lines, 6);
    assert_eq!(p.scalar_lines, 6);
    assert_eq!(p.scalar_lines as f64 / p.lines as f64, 1.0);
}

#[test]
fn near_miss_scalars_are_rejected() {
    let p = profile(b"hello\n01x\n1.\n-\n1e\nnot a scalar\n");
    assert_eq!(p.lines, 6);
    assert_eq!(p.scalar_lines, 0, "none of these are JSON scalars");
}

#[test]
fn sampling_returns_the_whole_slice_under_budget() {
    let b = Budget::default();
    let data = vec![b'x'; 1000];
    assert_eq!(segments(&data, &b).len(), 1);
}

#[test]
fn sampling_aligns_windows_to_line_boundaries() {
    let b = Budget { prefix: 64, window: 32, windows: 4, max_bytes: 256 };
    let line = b"0123456789abcdef\n";
    let data: Vec<u8> = line.iter().cycle().take(4096).copied().collect();
    let segs = segments(&data, &b);
    assert_eq!(segs.len(), 5, "prefix plus four windows");
    assert_eq!(segs[0].len(), 64);
    for w in &segs[1..] {
        // Aligned windows start just after a newline, so they open
        // at the start of a line.
        assert_eq!(w[0], b'0', "window should open on a line boundary");
    }
}

#[test]
fn empty_input_profiles_without_panicking() {
    let p = profile(b"");
    assert_eq!(p.units, 0);
    assert_eq!(p.count(b'x'), 0);
    assert_eq!(p.line_lead[b'x' as usize], 0);
}

// ---------------------------------------------------------------------------
// Streams: chunk boundaries are invisible to the answer
// ---------------------------------------------------------------------------

/// Everything that was measured, in a form that can be compared.
fn digest(s: &Sniffed) -> String {
    format!(
        "{:?} {} {:?} {} {:?}",
        s.alphabet.encoding, s.alphabet.bom_len, s.alphabet.basis, s.bytes_total, s.profile
    )
}

fn stream_in_chunks(bytes: &[u8], chunk: usize) -> Sniffed {
    let mut s = SniffStream::new();
    for c in bytes.chunks(chunk.max(1)) {
        s.push(c);
    }
    s.finish()
}

fn jsonl(n: usize) -> String {
    (0..n)
        .map(|i| format!("{{\"id\":{i},\"name\":\"user{i}\",\"ok\":{}}}\n", i % 2 == 0))
        .collect()
}

fn csv(rows: usize) -> String {
    let mut s = String::from("id,name,email,age\n");
    for i in 0..rows {
        s.push_str(&format!("{i},user{i},u{i}@example.com,{}\n", 20 + i % 50));
    }
    s
}

#[test]
fn chunking_does_not_change_the_answer() {
    // Inputs stay under `Budget::prefix` (64 KiB) so the slice sampler
    // and the stream sampler look at exactly the same bytes.
    let cases: Vec<(&str, Vec<u8>)> = vec![
        ("jsonl", jsonl(300).into_bytes()),
        ("csv", csv(300).into_bytes()),
        ("pretty", b"{\n  \"a\": [1, 2, 3],\n  \"b\": {\"c\": \"d\"}\n}\n".to_vec()),
        ("xml", "<a><b id=\"1\">x</b></a>\n".repeat(200).into_bytes()),
        ("scalars", (0..400).map(|i| format!("{i}\n")).collect::<String>().into_bytes()),
        ("empty", Vec::new()),
        ("tiny", b"{}".to_vec()),
    ];

    for (name, bytes) in cases {
        let want = digest(&sniff(&bytes));
        for chunk in [1usize, 2, 3, 5, 7, 13, 64, 511, 4096, 65536] {
            let got = digest(&stream_in_chunks(&bytes, chunk));
            assert_eq!(got, want, "{name}: chunk size {chunk} changed the answer");
        }
    }
}

#[test]
fn splitting_at_every_offset_is_safe() {
    // Two chunks, split at every possible position. Catches carry bugs
    // that a fixed chunk size would step over.
    let inputs: Vec<Vec<u8>> = vec![
        // A `}` and a `,` inside a string literal: the brace scanner and
        // the CSV quote scanner must both ignore them.
        br#"{"a":"}}},,,","b":[1,2]}"#.to_vec(),
        // A backslash-escaped quote right at the end of a string.
        br#"{"a":"he said \"}\" once","b":1}"#.to_vec(),
        // A doubled `""` CSV escape, which needs one byte of lookahead.
        b"a,b\n\"x,y\",\"p\"\"q\"\n\"r\",s\n".to_vec(),
        // CRLF line endings.
        b"{\"a\":1}\r\n{\"a\":2}\r\n{\"a\":3}\r\n".to_vec(),
    ];

    for bytes in inputs {
        let want = digest(&sniff(&bytes));
        for split in 0..=bytes.len() {
            let mut s = SniffStream::new();
            s.push(&bytes[..split]);
            s.push(&bytes[split..]);
            assert_eq!(
                digest(&s.finish()),
                want,
                "split at {split} of {:?}",
                String::from_utf8_lossy(&bytes)
            );
        }
    }
}

#[test]
fn utf16_code_units_survive_chunk_edges() {
    let src = csv(200);
    let bytes = utf16le(&src);
    let want = digest(&sniff(&bytes));
    // Odd chunk sizes guarantee code units get split down the middle.
    for chunk in [1usize, 3, 5, 7, 1001] {
        let r = stream_in_chunks(&bytes, chunk);
        assert_eq!(r.alphabet.encoding, Encoding::Utf16Le, "chunk {chunk}");
        assert_eq!(digest(&r), want, "chunk {chunk}");
    }
}

#[test]
fn a_bom_split_across_chunks_is_still_stripped() {
    let mut bytes = vec![0xEF, 0xBB, 0xBF];
    bytes.extend_from_slice(jsonl(100).as_bytes());
    let want = digest(&sniff(&bytes));
    for chunk in [1usize, 2, 3, 4] {
        let r = stream_in_chunks(&bytes, chunk);
        assert_eq!(r.alphabet.bom_len, 3, "chunk {chunk}");
        assert_eq!(digest(&r), want, "chunk {chunk}");
    }
}

#[test]
fn utf16_endianness_survives_odd_sized_chunks() {
    // NUL parity is measured against the absolute stream offset. Feeding
    // odd-sized chunks would scramble it if the offset were per-chunk.
    let src = csv(100);
    for (label, bytes) in [
        ("le", src.encode_utf16().flat_map(|u| u.to_le_bytes()).collect::<Vec<u8>>()),
        ("be", src.encode_utf16().flat_map(|u| u.to_be_bytes()).collect::<Vec<u8>>()),
    ] {
        let want = if label == "le" { Encoding::Utf16Le } else { Encoding::Utf16Be };
        for chunk in [1usize, 3, 7, 999] {
            let r = stream_in_chunks(&bytes, chunk);
            assert_eq!(r.alphabet.encoding, want, "{label} at chunk {chunk}");
        }
    }
}

#[test]
fn an_arbitrarily_long_stream_profiles_a_bounded_slice_of_itself() {
    // 16 MiB pushed 64 KiB at a time, never materialized as one buffer.
    let block = jsonl(1200);
    let mut s = SniffStream::new();
    let target = 16 << 20;
    while s.bytes_consumed() < target {
        s.push(block.as_bytes());
    }
    let consumed = s.bytes_consumed();
    let r = s.finish();

    assert!(consumed >= target);
    assert_eq!(r.bytes_total, consumed);
    assert!(
        r.bytes_profiled <= (1 << 20),
        "profiled {} of {consumed} — should be capped by the budget",
        r.bytes_profiled
    );
    assert!(r.bytes_profiled * 8 < consumed, "profiled too much of the stream");
}

#[test]
fn a_long_line_does_not_grow_the_line_buffer() {
    // A single 32 KiB line — over the internal line-buffer cap, under
    // the sampling prefix, so there are no seams to confuse the count.
    let mut s = SniffStream::new();
    s.push("x".repeat(32 << 10).as_bytes());
    s.push(b"\n");
    let r = s.finish();
    assert_eq!(r.profile.lines, 1);
    // Way past the buffer cap, so the bare-scalar check gave up rather
    // than retaining the whole line.
    assert_eq!(r.profile.scalar_lines, 0);
}

#[test]
fn one_enormous_line_stays_bounded() {
    // 4 MiB with no newline anywhere: the pathological shape for
    // anything that buffers per line. Each sampling seam flushes a
    // partial line, so the count is one per admitted window rather than
    // one overall — bounded either way, which is the point.
    let mut s = SniffStream::new();
    let block = "x".repeat(64 << 10);
    for _ in 0..64 {
        s.push(block.as_bytes());
    }
    let r = s.finish();
    assert!(r.profile.lines <= 16, "lines {} should be bounded by windows", r.profile.lines);
    assert_eq!(r.profile.scalar_lines, 0);
}

#[test]
fn the_stream_reports_when_it_has_seen_enough() {
    let block = jsonl(1200);
    let mut s = SniffStream::new();
    assert!(!s.is_satisfied());
    let mut pushes = 0;
    while !s.is_satisfied() && pushes < 10_000 {
        s.push(block.as_bytes());
        pushes += 1;
    }
    assert!(s.is_satisfied(), "budget should be exhausted eventually");
    let r = s.report();
    assert_eq!(r.bytes_total, s.bytes_consumed());
    // The prefix and eight windows, and each window a segment of its own.
    assert_eq!(r.bytes_profiled, 65536 + 8 * 32768);
    assert_eq!(r.profile.segments, 9);
    assert!(r.profile.brace.depth_zero_lines > 0);
}

#[test]
fn report_does_not_disturb_the_stream() {
    let data = jsonl(300);
    let mut a = SniffStream::new();
    let mut b = SniffStream::new();
    for c in data.as_bytes().chunks(101) {
        a.push(c);
        b.push(c);
        let _ = b.report(); // peeking must not consume or mutate
    }
    assert_eq!(digest(&a.finish()), digest(&b.finish()));
}

#[test]
fn empty_and_degenerate_streams_do_not_panic() {
    assert_eq!(SniffStream::new().finish().bytes_profiled, 0);

    let mut s = SniffStream::new();
    for _ in 0..100 {
        s.push(b"");
    }
    assert_eq!(s.finish().bytes_profiled, 0);

    let mut s = SniffStream::default();
    assert_eq!(s.bytes_consumed(), 0);
    s.push(&[0u8; 4]);
    assert_eq!(s.finish().bytes_total, 4);
}

#[test]
fn a_report_can_be_taken_mid_stream() {
    let mut s = SniffStream::new();
    // Before anything at all.
    assert_eq!(s.report().bytes_profiled, 0);
    for i in 0..400 {
        s.push(format!("{{\"id\":{i}}}\n").as_bytes());
        if i == 50 {
            let r = s.report();
            assert_eq!(r.profile.lines, 51);
            assert_eq!(r.profile.brace.depth_zero_lines, 51);
            assert_eq!(r.bytes_total, s.bytes_consumed());
        }
    }
    let r = s.finish();
    assert_eq!(r.profile.lines, 400);
    assert_eq!(r.profile.brace.obj_open, 400);
    assert!(r.profile.brace.balanced());
}

#[test]
fn a_stream_starts_with_the_default_policy() {
    // The keys of two hundred and fifty-seven distinct bigrams do not fit.
    let bytes: Vec<u8> = (0..60_000u32).map(|i| b'a' + ((i * i / 7) % 23) as u8).collect();
    let mut fresh = SniffStream::new();
    let mut explicit = SniffStream::with_policy(SniffPolicy::default());
    fresh.push(&bytes);
    explicit.push(&bytes);
    assert_eq!(digest(&fresh.finish()), digest(&explicit.finish()));
    let p = SniffPolicy::default();
    assert_eq!((p.bigram_cap, p.trigram_cap), (256, Some(256)));
    assert_eq!(f64::from_bits(p.min_confidence.bits), 0.6);
    let b = p.budget;
    assert_eq!((b.prefix, b.window, b.windows, b.max_bytes), (65536, 32768, 8, 1048576));
}

#[test]
fn more_windows_than_bytes_leave_the_prefix() {
    let budget = Budget { prefix: 10, window: 4, windows: usize::MAX, max_bytes: 16 };
    let policy = SniffPolicy { budget, ..SniffPolicy::default() };
    let data = b"0123456789abcdef0123456789abcdef";
    assert_eq!(segments(data, &budget), vec![&data[..10]]);
    assert!(is_measurable(data, &policy));
    let r = sniff_with(data, &policy);
    assert_eq!((r.bytes_profiled, r.bytes_total, r.profile.segments), (10, 32, 1));
    let mut s = SniffStream::with_policy(policy);
    s.push(data);
    assert_eq!(s.finish().bytes_total, 32);
}

#[test]
fn streams_admit_a_prefix_and_windows() {
    let budget = Budget { prefix: 5, window: 3, windows: 2, max_bytes: 1000 };
    let policy = SniffPolicy { budget, ..SniffPolicy::default() };
    let data: Vec<u8> = (0..200).map(|i| if i % 7 == 6 { b'\n' } else { b'x' }).collect();
    let mut s = SniffStream::with_policy(policy);
    s.push(&data);
    let r = s.finish();
    assert_eq!(r.bytes_profiled, 5 + 2 * 3);
    // One segment for the prefix and one for each window.
    assert_eq!(r.profile.segments, 3);
}

#[test]
fn only_well_formed_sequences_count_as_utf8() {
    let valid = |bytes: &[u8]| detect(bytes).utf8_valid;
    // Overlong forms.
    assert_eq!(valid(&[0xE0, 0x80, 0x80]), 0);
    assert_eq!(valid(&[0xE0, 0xA0, 0x80]), 3);
    assert_eq!(valid(&[0xF0, 0x8F, 0xBF, 0xBF]), 0);
    assert_eq!(valid(&[0xF0, 0x90, 0x80, 0x80]), 4);
    // Surrogates.
    assert_eq!(valid(&[0xED, 0xA0, 0x80]), 0);
    assert_eq!(valid(&[0xED, 0x9F, 0xBF]), 3);
    // Beyond the last code point.
    assert_eq!(valid(&[0xF4, 0x90, 0x80, 0x80]), 0);
    assert_eq!(valid(&[0xF4, 0x8F, 0xBF, 0xBF]), 4);
    assert_eq!(valid(&[0xC3, 0xA9]), 2);
}

#[test]
fn a_scalar_line_holds_one_literal() {
    let scalars = |s: &[u8]| NgramProfile::build(&[s], 256, None).scalar_lines;
    let two = NgramProfile::build(&[b"\"a\",\"b\"\n"], 256, None);
    assert_eq!((two.lines, two.scalar_lines), (1, 0));
    assert_eq!(scalars(b"\"a\\\"b\"\n"), 1);
    assert_eq!(scalars(b"\"a\\\"\n"), 0);
    assert_eq!(scalars(b"\"\\u00e9\"\n"), 1);
    assert_eq!(scalars(b"\"\\u00g9\"\n"), 0);
    assert_eq!(scalars(b"\"\\x\"\n"), 0);
    assert_eq!(scalars(b"\"a\tb\"\n"), 0);
    assert_eq!(scalars(b"01\n"), 0);
    assert_eq!(scalars(b"-0.5\n0\n10\n-00\n"), 3);
}
