use vtt_translate::translate::Language;
use vtt_translate::vtt::{is_blank, is_new_block, is_timecode, Direction, Vtt, VttBlock};
use vtt_translate::{default_target_filename, recontruct_sentences, sentences_fit, update_vtt};

fn doc(blocks: Vec<(&str, &str, Vec<&str>)>) -> Vtt {
    Vtt {
        blocks: blocks
            .into_iter()
            .map(|(id, tc, lines)| VttBlock {
                _id: id.to_string(),
                timecode: tc.to_string(),
                text_lines: lines.into_iter().map(|l| l.to_string()).collect(),
            })
            .collect(),
    }
}

#[test]
fn test_is_blank() {
    assert!(is_blank("    "));
}

#[test]
fn test_is_timecode() {
    assert!(is_timecode("00:00:05.020 --> 00:00:08.874"));
}

#[test]
fn test_is_new_block() {
    assert!(is_new_block("f9e6254d-71b5-400f-bdcc-802831ce24f4-0"));
}

#[test]
fn test_is_blank_rejects_text() {
    assert!(is_blank(""));
    assert!(!is_blank("  x  "));
}

#[test]
fn test_is_timecode_rejects_plain_text() {
    assert!(!is_timecode("How are you"));
    assert!(!is_timecode("--"));
}

#[test]
fn test_is_new_block_rejects_short_and_bad_tokens() {
    assert!(!is_new_block("f9e6254d-71b5-400f-bdcc"));
    assert!(is_new_block("f9e6254d-71b5-400f-bdcc-802831ce24f4"));
    assert!(!is_new_block("g9e6254d-71b5-400f-bdcc-802831ce24f4"));
}

#[test]
fn test_reconstruct_two_sentences_with_provenance() {
    let v = doc(vec![
        (
            "f9e6254d-71b5-400f-bdcc-802831ce24f4-0",
            "00:00:01.000 --> 00:00:02.000",
            vec!["Hello there.", "How are you"],
        ),
        (
            "f9e6254d-71b5-400f-bdcc-802831ce24f4-1",
            "00:00:02.000 --> 00:00:03.000",
            vec!["today?."],
        ),
    ]);
    let sentences = recontruct_sentences(&v);
    assert_eq!(sentences.len(), 2);
    assert_eq!(sentences[0].1, "Hello there.");
    let p0: Vec<(usize, usize, usize)> = sentences[0]
        .0
        .iter()
        .map(|cd| (cd.block_num, cd.line_num, cd.chunk_len))
        .collect();
    assert_eq!(p0, vec![(0, 0, 11)]);
    assert_eq!(sentences[1].1, "How are you today?.");
    let p1: Vec<(usize, usize, usize)> = sentences[1]
        .0
        .iter()
        .map(|cd| (cd.block_num, cd.line_num, cd.chunk_len))
        .collect();
    assert_eq!(p1, vec![(0, 1, 11), (1, 0, 6)]);
}

#[test]
fn test_reconstruct_drops_open_trailing_sentence() {
    // The final fragment of the document carries no fullstop, so the open
    // sentence is not emitted.
    let v = doc(vec![(
        "f9e6254d-71b5-400f-bdcc-802831ce24f4-0",
        "00:00:01.000 --> 00:00:02.000",
        vec!["Hello there.", "How are you"],
    )]);
    let sentences = recontruct_sentences(&v);
    assert_eq!(sentences.len(), 1);
    assert_eq!(sentences[0].1, "Hello there.");
}

#[test]
fn test_end_to_end_reflow_proportioned() {
    let mut v = doc(vec![
        (
            "f9e6254d-71b5-400f-bdcc-802831ce24f4-0",
            "00:00:01.000 --> 00:00:02.000",
            vec!["Hello there.", "How are you"],
        ),
        (
            "f9e6254d-71b5-400f-bdcc-802831ce24f4-1",
            "00:00:02.000 --> 00:00:03.000",
            vec!["today?."],
        ),
    ]);
    let mut sentences = recontruct_sentences(&v);
    sentences[0].1 = "Bonjour.".to_string();
    sentences[1].1 = "Comment vas-tu aujourd'hui?".to_string();
    assert!(sentences_fit(&v, &sentences));
    update_vtt(&mut v, &sentences);
    // The single-fragment sentence lands whole in block 0 line 0; the other
    // splits ~11:6 by original fragment length, the last fragment taking all
    // remaining words.
    assert_eq!(v.blocks[0].text_lines[0], "Bonjour. ");
    assert_eq!(v.blocks[0].text_lines[1], "Comment vas-tu ");
    assert_eq!(v.blocks[1].text_lines[0], "aujourd'hui? ");
}

#[test]
fn test_single_fragment_absorbs_all_words() {
    let mut v = doc(vec![(
        "f9e6254d-71b5-400f-bdcc-802831ce24f4-0",
        "00:00:01.000 --> 00:00:02.000",
        vec!["Hi."],
    )]);
    let mut sentences = recontruct_sentences(&v);
    assert_eq!(sentences.len(), 1);
    sentences[0].1 = "One two three four five six seven.".to_string();
    assert!(sentences_fit(&v, &sentences));
    update_vtt(&mut v, &sentences);
    assert_eq!(v.blocks[0].text_lines[0], "One two three four five six seven. ");
}

#[test]
fn test_zero_sentence_document_blanks_lines() {
    let mut v = doc(vec![(
        "f9e6254d-71b5-400f-bdcc-802831ce24f4-0",
        "00:00:01.000 --> 00:00:02.000",
        vec!["no fullstop here", "none here either"],
    )]);
    let sentences = recontruct_sentences(&v);
    assert_eq!(sentences.len(), 0);
    assert!(sentences_fit(&v, &sentences));
    update_vtt(&mut v, &sentences);
    assert_eq!(v.blocks[0].text_lines[0], "");
    assert_eq!(v.blocks[0].text_lines[1], "");
}

#[test]
fn test_zero_length_fragments_do_not_fit() {
    // A line of only fullstops and spaces yields a sentence whose single
    // fragment has length zero: its proportion would divide by zero, so it
    // must be rejected before reflow.
    let v = doc(vec![(
        "f9e6254d-71b5-400f-bdcc-802831ce24f4-0",
        "00:00:01.000 --> 00:00:02.000",
        vec![" . ."],
    )]);
    let sentences = recontruct_sentences(&v);
    assert!(!sentences.is_empty());
    assert!(!sentences_fit(&v, &sentences));
}

#[test]
fn test_sentences_fit_rejects_bad_positions() {
    let v = doc(vec![(
        "f9e6254d-71b5-400f-bdcc-802831ce24f4-0",
        "00:00:01.000 --> 00:00:02.000",
        vec!["Hello."],
    )]);
    let mut sentences = recontruct_sentences(&doc(vec![
        (
            "f9e6254d-71b5-400f-bdcc-802831ce24f4-0",
            "00:00:01.000 --> 00:00:02.000",
            vec!["Hello.", "And more."],
        ),
    ]));
    sentences[1].1 = "Encore.".to_string();
    // The second sentence points at a line the smaller document lacks.
    assert!(!sentences_fit(&v, &sentences));
}

#[test]
fn test_parse_groups_blocks_and_trims_text() {
    let lines: Vec<String> = vec![
        "WEBVTT",
        "",
        "f9e6254d-71b5-400f-bdcc-802831ce24f4-0",
        "00:00:05.020 --> 00:00:08.874",
        "  Hello there.  ",
        "How are you",
        "",
        "f9e6254d-71b5-400f-bdcc-802831ce24f4-1",
        "00:00:08.874 --> 00:00:10.000",
        "today?.",
    ]
    .into_iter()
    .map(|s| s.to_string())
    .collect();
    let v = Vtt::parse(&lines);
    assert_eq!(v.blocks.len(), 2);
    assert_eq!(v.blocks[0]._id, "f9e6254d-71b5-400f-bdcc-802831ce24f4-0");
    assert_eq!(v.blocks[0].timecode, "00:00:05.020 --> 00:00:08.874");
    assert_eq!(v.blocks[0].text_lines, vec!["Hello there.", "How are you"]);
    assert_eq!(v.blocks[1].text_lines, vec!["today?."]);
}

#[test]
fn test_parse_drops_lines_before_first_block() {
    let lines: Vec<String> = vec!["stray text", "00:00:05.020 --> 00:00:08.874"]
        .into_iter()
        .map(|s| s.to_string())
        .collect();
    let v = Vtt::parse(&lines);
    assert_eq!(v.blocks.len(), 0);
}

#[test]
fn test_write_round_trip_ltr() {
    let v = doc(vec![
        (
            "f9e6254d-71b5-400f-bdcc-802831ce24f4-0",
            "00:00:05.020 --> 00:00:08.874",
            vec!["Hello there.", "How are you"],
        ),
        (
            "f9e6254d-71b5-400f-bdcc-802831ce24f4-1",
            "00:00:08.874 --> 00:00:10.000",
            vec!["today?."],
        ),
    ]);
    let lines = v.write(Direction::Ltr);
    assert_eq!(lines[0], "WEBVTT");
    assert_eq!(lines[1], "");
    let v2 = Vtt::parse(&lines);
    assert_eq!(v2.blocks.len(), 2);
    for (a, b) in v.blocks.iter().zip(v2.blocks.iter()) {
        assert_eq!(a._id, b._id);
        assert_eq!(a.timecode, b.timecode);
        assert_eq!(a.text_lines, b.text_lines);
    }
}

#[test]
fn test_write_rtl_marks_ascii_edges() {
    let v = doc(vec![(
        "f9e6254d-71b5-400f-bdcc-802831ce24f4-0",
        "00:00:05.020 --> 00:00:08.874",
        vec!["abc", "\u{0633}\u{0644}\u{0627}\u{0645} abc", "\u{0633}\u{0644}\u{0627}\u{0645}"],
    )]);
    let lines = v.write(Direction::Rtl);
    assert_eq!(lines[4], "\u{200f}abc\u{200f}");
    assert_eq!(lines[5], "\u{0633}\u{0644}\u{0627}\u{0645} abc\u{200f}");
    assert_eq!(lines[6], "\u{0633}\u{0644}\u{0627}\u{0645}");
}

#[test]
fn test_write_rtl_already_marked_line_unchanged() {
    let marked = "\u{200f}abc\u{200f}";
    let v = doc(vec![(
        "f9e6254d-71b5-400f-bdcc-802831ce24f4-0",
        "00:00:05.020 --> 00:00:08.874",
        vec![marked],
    )]);
    let lines = v.write(Direction::Rtl);
    assert_eq!(lines[4], marked);
}

#[test]
fn test_default_target_file_stem() {
    assert_eq!(
        default_target_filename("stem-en-GB.ext", Language::EnGB, Language::Fa),
        "stem-fa.ext"
    );
    assert_eq!(
        default_target_filename("stem-en-GB", Language::EnGB, Language::Fa),
        "stem-fa"
    );
    assert_eq!(
        default_target_filename(".stem-en-GB", Language::EnGB, Language::Fa),
        ".stem-fa"
    );
    assert_eq!(
        default_target_filename(".stem-en-GB.ext", Language::EnGB, Language::Fa),
        ".stem-fa.ext"
    );
    assert_eq!(default_target_filename("stem", Language::EnGB, Language::Fa), "stem-fa");
    assert_eq!(
        default_target_filename("stem-more-stem-en-GB", Language::EnGB, Language::Fa),
        "stem-more-stem-fa"
    );
    assert_eq!(
        default_target_filename("stem-more-stem.ext", Language::EnGB, Language::Fa),
        "stem-more-stem-fa.ext"
    );
}

#[test]
fn test_default_target_file_language() {
    assert_eq!(
        default_target_filename("stem-en-gb.ext", Language::EnGB, Language::Fa),
        "stem-fa.ext"
    );
    assert_eq!(
        default_target_filename("stem-en-GB.ext", Language::En, Language::Fa),
        "stem-fa.ext"
    );
    assert_eq!(
        default_target_filename("stem-en-us.ext", Language::En, Language::Fa),
        "stem-fa.ext"
    );
    assert_eq!(
        default_target_filename("stem-en.ext", Language::En, Language::Fa),
        "stem-fa.ext"
    );
}

#[test]
fn test_default_target_directory() {
    assert_eq!(
        default_target_filename("/directory/stem.ext", Language::EnGB, Language::Fa),
        "/directory/stem-fa.ext"
    );
    assert_eq!(
        default_target_filename("./stem.ext", Language::EnGB, Language::Fa),
        "./stem-fa.ext"
    );
    assert_eq!(
        default_target_filename("./directory/stem.ext", Language::EnGB, Language::Fa),
        "./directory/stem-fa.ext"
    );
    assert_eq!(
        default_target_filename("../directory/stem.ext", Language::EnGB, Language::Fa),
        "../directory/stem-fa.ext"
    );
}

#[test]
fn test_multiple_fullstops_in_one_line_emit_in_order() {
    let v = doc(vec![(
        "f9e6254d-71b5-400f-bdcc-802831ce24f4-0",
        "00:00:01.000 --> 00:00:02.000",
        vec!["One. Two. Three", "ends."],
    )]);
    let sentences = recontruct_sentences(&v);
    assert_eq!(sentences.len(), 3);
    assert_eq!(sentences[0].1, "One.");
    assert_eq!(sentences[1].1, "Two.");
    assert_eq!(sentences[2].1, "Three ends.");
    let p2: Vec<(usize, usize, usize)> = sentences[2]
        .0
        .iter()
        .map(|cd| (cd.block_num, cd.line_num, cd.chunk_len))
        .collect();
    assert_eq!(p2, vec![(0, 0, 5), (0, 1, 4)]);
}

#[test]
fn test_whitespace_line_does_not_break_accumulation() {
    let v = doc(vec![(
        "f9e6254d-71b5-400f-bdcc-802831ce24f4-0",
        "00:00:01.000 --> 00:00:02.000",
        vec!["Hello", "   ", "world."],
    )]);
    let sentences = recontruct_sentences(&v);
    assert_eq!(sentences.len(), 1);
    assert_eq!(sentences[0].1, "Hello world.");
    let p: Vec<(usize, usize, usize)> = sentences[0]
        .0
        .iter()
        .map(|cd| (cd.block_num, cd.line_num, cd.chunk_len))
        .collect();
    assert_eq!(p, vec![(0, 0, 5), (0, 2, 5)]);
}

#[test]
fn test_default_target_fallback_name() {
    assert_eq!(
        default_target_filename("", Language::EnGB, Language::Fa),
        "vtt-translate-output.vtt"
    );
}

#[test]
fn test_write_empty_document_is_header_only() {
    let v = doc(vec![]);
    let lines = v.write(Direction::Ltr);
    assert_eq!(lines, vec!["WEBVTT", ""]);
}
