use buddy_cast::subtitle::{
    build_ass_override, centiseconds_to_ass_time, convert_ruby, milliseconds_to_srt_time,
    normalize_text, render_ass, render_srt, SubtitleCue, ASS_HEADER,
};

fn cue(start: u64, end: u64, alignment: &str, text: &str) -> SubtitleCue {
    SubtitleCue {
        start_centis: start,
        end_centis: end,
        start_millis: start * 10,
        end_millis: end * 10,
        alignment: alignment.to_string(),
        text: text.to_string(),
    }
}

#[test]
fn ruby_conversion_matches_expected_shape() {
    assert_eq!(
        convert_ruby(r"{\r1}男{\r2}おとこ{\r0}です"),
        "男(おとこ)です"
    );
}

#[test]
fn ruby_conversion_handles_several_and_incomplete_markers() {
    assert_eq!(convert_ruby("plain text"), "plain text");
    assert_eq!(
        convert_ruby(r"a{\r1}b{\r2}c{\r0}d{\r1}e{\r2}f{\r0}"),
        "ab(c)de(f)"
    );
    assert_eq!(convert_ruby(r"x{\r1}b{\r2}c"), r"x{\r1}b{\r2}c");
    assert_eq!(convert_ruby(r"x{\r1}b"), r"x{\r1}b");
    assert_eq!(normalize_text(r"{\r1}a{\r2}b{\r0}"), "a(b)");
}

#[test]
fn integer_time_formatting() {
    assert_eq!(centiseconds_to_ass_time(123), "0:00:01.23");
    assert_eq!(centiseconds_to_ass_time(360_000 * 12 + 6_000 * 3 + 405), "12:03:04.05");
    assert_eq!(milliseconds_to_srt_time(6_500), "00:00:06,500");
    assert_eq!(milliseconds_to_srt_time(3_600_000 * 101 + 7), "101:00:00,007");
}

#[test]
fn ass_overrides_follow_alignment() {
    assert_eq!(build_ass_override("bottom"), "{\\an2}");
    assert_eq!(build_ass_override("bottom_left"), "{\\an1}");
    assert_eq!(build_ass_override("bottom_right"), "{\\an3}");
    assert_eq!(build_ass_override("top"), "");
}

#[test]
fn ass_document_has_header_and_dialogue_lines() {
    let doc = render_ass(&[cue(100, 250, "bottom", r"{\r1}男{\r2}おとこ{\r0}")]);
    assert_eq!(
        doc,
        format!("{ASS_HEADER}\nDialogue: 0,0:00:01.00,0:00:02.50,Default,,0,0,0,,{{\\an2}}男(おとこ)")
    );
    assert_eq!(render_ass(&[]), ASS_HEADER);
}

#[test]
fn srt_document_numbers_blocks() {
    assert_eq!(render_srt(&[]), "");
    let doc = render_srt(&[cue(0, 150, "bottom", "one"), cue(200, 300, "", "two")]);
    assert_eq!(
        doc,
        "1\n00:00:00,000 --> 00:00:01,500\none\n\n2\n00:00:02,000 --> 00:00:03,000\ntwo\n"
    );
}

#[test]
fn ruby_conversion_goes_piece_by_piece() {
    let rest = r"後{\r1}女{\r2}おんな{\r0}!";
    let text = format!(r"前{{\r1}}男{{\r2}}おとこ{{\r0}}{rest}");
    assert_eq!(convert_ruby(&text), format!("前男(おとこ){}", convert_ruby(rest)));
    assert_eq!(convert_ruby(&text), "前男(おとこ)後女(おんな)!");
}
