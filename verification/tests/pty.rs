use ascii_rat::cast::Event;
use ascii_rat::pty::{
    chunks_contain_any, chunks_to_events, mirror_and_capture, text_contains_any, time_since,
    write_chunks_to, OutputChunk, OutputWatch, Reassembler, TimedOut, WaitEnd,
};
use ascii_rat::utf8::{first_char, valid_utf8_prefix_len, FirstChar};

fn chunk(bytes: &[u8]) -> OutputChunk {
    OutputChunk {
        instant: 1_000_000_000,
        bytes: bytes.to_vec(),
    }
}

fn texts(list: &[&str]) -> Vec<String> {
    list.iter().map(|s| s.to_string()).collect()
}

/// Offers chunks until one completes a needle; otherwise the wait ends as told.
fn watch_all(
    needles: &[&str],
    chunks: Vec<OutputChunk>,
    end: WaitEnd,
) -> Result<Vec<OutputChunk>, TimedOut> {
    let mut watch = OutputWatch::new(&texts(needles));
    for c in chunks {
        if watch.offer(c) {
            return watch.conclude(WaitEnd::Matched);
        }
    }
    watch.conclude(end)
}

#[test]
fn wait_matches_needle_across_accumulated_chunks() {
    // The needle "[sudo]" is split across two chunks and only completes
    // once both have arrived.
    let chunks = vec![chunk(b"prompting... [su"), chunk(b"do] password for user:")];
    let consumed = watch_all(&["assword", "[sudo]"], chunks, WaitEnd::TimedOut)
        .expect("needle should be found");
    // Both chunks are consumed up to and including the match.
    assert_eq!(consumed.len(), 2);
}

#[test]
fn wait_each_mirrors_every_chunk_before_the_match() {
    // Two non-matching chunks arrive before the one containing the needle.
    let chunks = vec![
        chunk(b"line one\r\n"),
        chunk(b"line two\r\n"),
        chunk(b"done __DONE__\r\n"),
    ];
    let mut mirrored: Vec<Vec<u8>> = Vec::new();
    let mut watch = OutputWatch::new(&texts(&["__DONE__"]));
    let mut matched = false;
    for c in chunks {
        mirrored.push(c.bytes.clone());
        matched = watch.offer(c);
    }
    assert!(matched);
    let consumed = watch.conclude(WaitEnd::Matched).expect("needle should be found");
    // Every consumed chunk was seen, in order, as it arrived, including
    // the ones before the match.
    assert_eq!(mirrored.len(), 3);
    assert_eq!(consumed.len(), 3);
    assert_eq!(mirrored[0], b"line one\r\n");
    assert_eq!(mirrored[1], b"line two\r\n");
    assert_eq!(mirrored[2], b"done __DONE__\r\n");
    assert_eq!(consumed[2].bytes, b"done __DONE__\r\n");
}

#[test]
fn wait_is_case_insensitive() {
    let consumed = watch_all(&["assword"], vec![chunk(b"Enter PASSWORD: ")], WaitEnd::TimedOut)
        .expect("case-insensitive match should succeed");
    assert_eq!(consumed.len(), 1);
}

#[test]
fn wait_times_out_when_no_prompt_appears() {
    let err = watch_all(
        &["assword", "[sudo]"],
        vec![chunk(b"some unrelated output\r\n")],
        WaitEnd::TimedOut,
    )
    .expect_err("should time out");
    assert!(err.message().contains("timed out"));
}

#[test]
fn wait_returns_consumed_on_disconnect() {
    let consumed = watch_all(&["assword"], vec![chunk(b"partial output")], WaitEnd::Disconnected)
        .expect("disconnect should not error");
    assert_eq!(consumed.len(), 1);
}

#[test]
fn a_watch_finds_a_needle_however_the_output_is_cut() {
    let stream: Vec<u8> = [vec![b'x'; 9000], "p\u{e4}ssWORD:".as_bytes().to_vec()].concat();
    for size in [1, 7, 100, 4096] {
        let mut watch = OutputWatch::new(&texts(&["nope", "P\u{e4}ssword"]));
        let mut reassembler = Reassembler::new();
        let mut found = false;
        for part in stream.chunks(size) {
            if let Some(c) = reassembler.read(part, 5) {
                found = watch.offer(c) || found;
            }
        }
        assert!(found, "cut in {size}");
    }
    let mut watch = OutputWatch::new(&texts(&["nope"]));
    assert!(!watch.offer(chunk(&stream)));
    assert_eq!(watch.into_chunks(), vec![chunk(&stream)]);
}

#[test]
fn full_valid_utf8_returns_full_length() {
    let s = "hello → world".as_bytes();
    assert_eq!(valid_utf8_prefix_len(s), s.len());
}

#[test]
fn plain_ascii_returns_full_length() {
    let s = b"plain ascii only";
    assert_eq!(valid_utf8_prefix_len(s), s.len());
}

#[test]
fn incomplete_trailing_multibyte_is_excluded() {
    // "a→": '→' is 0xE2 0x86 0x92. Truncate to keep only the first two
    // bytes of the 3-byte sequence.
    let mut bytes = b"a".to_vec();
    bytes.extend_from_slice(&[0xE2, 0x86]); // incomplete '→'
    // Only the 'a' (1 byte) is a valid prefix; the tail is carried over.
    assert_eq!(valid_utf8_prefix_len(&bytes), 1);
}

#[test]
fn read_ending_exactly_on_boundary_has_empty_tail() {
    let bytes = "a→".as_bytes(); // full, ends on a boundary
    assert_eq!(valid_utf8_prefix_len(bytes), bytes.len());
}

#[test]
fn invalid_bytes_do_not_hold_output_back() {
    assert_eq!(valid_utf8_prefix_len(b"a\xffb"), 3);
    assert_eq!(valid_utf8_prefix_len(b"\xff"), 1);
    assert_eq!(valid_utf8_prefix_len(b"\xe2"), 0);
    assert_eq!(valid_utf8_prefix_len(b""), 0);
}

#[test]
fn characters_are_taken_from_bytes() {
    assert_eq!(first_char(b"ab"), FirstChar::Char('a', 1));
    assert_eq!(first_char("\u{2192}x".as_bytes()), FirstChar::Char('\u{2192}', 3));
    assert_eq!(first_char("\u{1f600}".as_bytes()), FirstChar::Char('\u{1f600}', 4));
    assert_eq!(first_char(b"\xe2\x86"), FirstChar::Cut);
    assert_eq!(first_char(b"\xff"), FirstChar::Bad);
}

// Cuts a byte stream into reads, reassembles them and turns them into events.
fn reassemble_and_decode(reads: &[&[u8]]) -> String {
    let t0 = 0;
    let mut chunks: Vec<OutputChunk> = Vec::new();
    let mut reassembler = Reassembler::new();
    for read in reads {
        if let Some(c) = reassembler.read(read, 1) {
            chunks.push(c);
        }
    }
    // Flush leftover carry (EOF behaviour).
    if let Some(c) = reassembler.finish(2) {
        chunks.push(c);
    }
    chunks_to_events(t0, &chunks)
        .into_iter()
        .filter_map(|e| match e {
            Event::Output { data, .. } => Some(data),
            _ => None,
        })
        .collect()
}

#[test]
fn multibyte_split_across_reads_reconstructs_exactly() {
    // '→' is 0xE2 0x86 0x92; split it across two reads.
    let original = "a→b";
    let bytes = original.as_bytes();
    let (first, second) = bytes.split_at(2); // "a" + first byte of '→'
    let joined = reassemble_and_decode(&[first, second]);
    assert_eq!(joined, original);
    assert!(!joined.contains('\u{fffd}'));
}

#[test]
fn escape_block_split_across_reads_roundtrips() {
    // An alternate-screen enable + a graphics block split at boundaries.
    let original = "\u{1b}[?1049h\u{1b}_Gpayload\u{1b}\\rest";
    let bytes = original.as_bytes();
    let (a, rest) = bytes.split_at(3);
    let (b, c) = rest.split_at(5);
    let joined = reassemble_and_decode(&[a, b, c]);
    assert_eq!(joined, original);
    assert!(!joined.contains('\u{fffd}'));
}

#[test]
fn clean_ascii_is_unchanged() {
    let original = "plain ascii output line\r\n";
    let joined = reassemble_and_decode(&[original.as_bytes()]);
    assert_eq!(joined, original);
}

#[test]
fn read_ending_on_boundary_leaves_empty_carry() {
    // Two reads, each ending exactly on a char boundary.
    let joined = reassemble_and_decode(&["a→".as_bytes(), "→b".as_bytes()]);
    assert_eq!(joined, "a→→b");
    assert!(!joined.contains('\u{fffd}'));
}

#[test]
fn what_is_cut_off_at_the_end_is_replaced() {
    assert_eq!(reassemble_and_decode(&[b"a\xe2\x86"]), "a\u{fffd}");
    assert_eq!(reassemble_and_decode(&[b"a\xffb"]), "a\u{fffd}b");
}

#[test]
fn chunks_to_events_drops_query_only_chunk() {
    // A chunk that is nothing but a query pair produces no event at all.
    let t0 = 0;
    let chunks = vec![chunk(b"\x1b]11;?\x1b\\\x1b[6n")];
    assert!(chunks_to_events(t0, &chunks).is_empty());
}

#[test]
fn events_are_timed_from_the_start() {
    let chunks = vec![
        OutputChunk { instant: 3_500_000_000, bytes: b"a\x1b[6n".to_vec() },
        OutputChunk { instant: 4_000_000_000, bytes: b"b".to_vec() },
    ];
    assert_eq!(
        chunks_to_events(3_000_000_000, &chunks),
        vec![
            Event::Output { time: 500_000_000, data: "a".to_string() },
            Event::Output { time: 1_000_000_000, data: "b".to_string() },
        ]
    );
    // Output from before the start stands at the start.
    assert_eq!(time_since(5, 3), 0);
    assert_eq!(time_since(0, u64::MAX), i64::MAX);
}

#[test]
fn write_chunks_to_writes_drawing_bytes_in_order() {
    // Ordinary drawing bytes (mode set, UTF-8 text) are mirrored verbatim
    // and in order; only *query* sequences are removed (see the next test).
    let chunks = vec![
        chunk(b"\x1b[?1049h"),
        chunk("héllo→".as_bytes()),
        chunk(b"world"),
    ];
    let mut sink: Vec<u8> = Vec::new();
    write_chunks_to(&mut sink, &chunks);
    let mut expected: Vec<u8> = Vec::new();
    expected.extend_from_slice(b"\x1b[?1049h");
    expected.extend_from_slice("héllo→".as_bytes());
    expected.extend_from_slice(b"world");
    assert_eq!(sink, expected);
}

#[test]
fn write_chunks_to_strips_terminal_queries_from_live_view() {
    let chunks = vec![chunk(b"\x1b[?2004l\rroot\x1b]11;?\x1b\\\x1b[6n\r\n")];
    let mut sink: Vec<u8> = Vec::new();
    write_chunks_to(&mut sink, &chunks);
    assert_eq!(sink, b"\x1b[?2004l\rroot\r\n".to_vec());
}

#[test]
fn mirror_and_capture_moves_chunks_into_out() {
    // With watch=false, nothing is mirrored but the chunks are still
    // captured; with watch=true, the same capture happens.
    let mut out: Vec<OutputChunk> = Vec::new();
    let live = mirror_and_capture(&mut out, vec![chunk(b"abc"), chunk(b"def")], false);
    assert!(live.is_empty());
    assert_eq!(out.len(), 2);
    assert_eq!(out[0].bytes, b"abc");
    assert_eq!(out[1].bytes, b"def");

    let live = mirror_and_capture(&mut out, vec![chunk(b"ghi")], true);
    assert_eq!(live, b"ghi");
    assert_eq!(out.len(), 3);
    assert_eq!(out[2].bytes, b"ghi");
}

#[test]
fn watch_does_not_change_captured_bytes() {
    let drained = || {
        vec![
            chunk(b"\x1b[?1049h"),
            chunk("watch-fidelity→done".as_bytes()),
            chunk(b"\r\n"),
        ]
    };
    let mut plain: Vec<OutputChunk> = Vec::new();
    mirror_and_capture(&mut plain, drained(), false);
    let mut watched: Vec<OutputChunk> = Vec::new();
    mirror_and_capture(&mut watched, drained(), true);

    let bytes = |chunks: &[OutputChunk]| -> Vec<u8> {
        chunks.iter().flat_map(|c| c.bytes.clone()).collect()
    };
    assert_eq!(
        bytes(&plain),
        bytes(&watched),
        "the --watch mirror must not change the captured bytes"
    );
}

#[test]
fn output_is_searched_across_chunks() {
    let chunks = vec![chunk(b"Pass"), chunk(b"WORD: ")];
    assert!(chunks_contain_any(&chunks, &texts(&["zzz", "assword"])));
    assert!(!chunks_contain_any(&chunks, &texts(&["[sudo]"])));
    assert!(!chunks_contain_any(&vec![], &texts(&[""])));
    // A character that stands in two chunks is one.
    let cut = vec![chunk(b"\xe2\x86"), chunk(b"\x92")];
    assert!(chunks_contain_any(&cut, &texts(&["\u{2192}"])));
    assert!(text_contains_any("Hello", &texts(&["LLO"])));
    assert!(!text_contains_any("Hello", &texts(&[])));
}
