//! Subtitle rendering: ruby markup to plain text, ASS and SRT documents and
//! their time stamps.
use crate::text::{
    chars_of, contains, decimal, ends_with, matches_at, find, lemma_find, push_char, push_chars, push_decimal,
    push_padded_decimal, push_str, string_of, zero_pad, find_from_exec, str_eq,
};
use vstd::prelude::*;

verus! {

/// The header of every ASS document this library writes.
pub const ASS_HEADER: &'static str = "[Script Info]
ScriptType: v4.00+
PlayResX: 1920
PlayResY: 1080
WrapStyle: 0
ScaledBorderAndShadow: yes
YCbCr Matrix: TV.709

[V4+ Styles]
Format: Name, Fontname, Fontsize, PrimaryColour, SecondaryColour, OutlineColour, BackColour, Bold, Italic, Underline, StrikeOut, ScaleX, ScaleY, Spacing, Angle, BorderStyle, Outline, Shadow, Alignment, MarginL, MarginR, MarginV, Encoding
Style: Default,Noto Sans JP,54,&H00FFFFFF,&H0000FFFF,&H00000000,&H64000000,0,0,0,0,100,100,0,0,1,2,0,2,60,60,40,1

[Events]
Format: Layer, Start, End, Style, Name, MarginL, MarginR, MarginV, Effect, Text
";

/// A subtitle event ready to be rendered: its times already rounded to the
/// centiseconds that ASS uses and the milliseconds that SRT uses.
#[derive(Debug, Clone)]
pub struct SubtitleCue {
    pub start_centis: u64,
    pub end_centis: u64,
    pub start_millis: u64,
    pub end_millis: u64,
    pub alignment: String,
    pub text: String,
}

/// The ruby marker `{\rN}` for `N` in 0, 1, 2.
pub open spec fn ruby_tag(n: int) -> Seq<char> {
    seq!['{', '\\', 'r', (48 + n) as char, '}']
}

/// Ruby markup `{\r1}KANJI{\r2}READING{\r0}` rewritten as `KANJI(READING)`,
/// left to right; from an incomplete marker on, the text is kept as it is.
pub open spec fn ruby_plain(t: Seq<char>) -> Seq<char>
    decreases t.len(),
{
    match find(t, ruby_tag(1)) {
        None => t,
        Some(a) => {
            let after1 = t.subrange(a + 5, t.len() as int);
            match find(after1, ruby_tag(2)) {
                None => t,
                Some(b) => {
                    let after2 = after1.subrange(b + 5, after1.len() as int);
                    match find(after2, ruby_tag(0)) {
                        None => t,
                        Some(c) => {
                            proof {
                                lemma_find(t, ruby_tag(1));
                                lemma_find(after1, ruby_tag(2));
                                lemma_find(after2, ruby_tag(0));
                            }
                            t.take(a) + after1.take(b) + seq!['('] + after2.take(c) + seq![')']
                                + ruby_plain(after2.subrange(c + 5, after2.len() as int))
                        },
                    }
                },
            }
        },
    }
}

/// Text that holds no `{\r1}` marker is left unchanged by the ruby conversion.
pub proof fn lemma_ruby_plain_without_marker(t: Seq<char>)
    requires
        !contains(t, ruby_tag(1)),
    ensures
        ruby_plain(t) == t,
{
    lemma_find(t, ruby_tag(1));
    if let Some(a) = find(t, ruby_tag(1)) {
        assert(crate::text::matches_at(t, ruby_tag(1), a));
    }
}

/// A ruby marker that does not occur in `a` is first found right after `a`:
/// no occurrence can start inside `a` and run into the marker, since no
/// marker character but the first is `{`.
#[verifier::spinoff_prover]
#[verifier::rlimit(40)]
proof fn lemma_find_marker(a: Seq<char>, n: int, rest: Seq<char>)
    requires
        0 <= n < 3,
        !contains(a, ruby_tag(n)),
    ensures
        find(a + ruby_tag(n) + rest, ruby_tag(n)) == Some(a.len() as int),
{
    let tag = ruby_tag(n);
    let t = a + tag + rest;
    assert(t.subrange(a.len() as int, a.len() + 5 as int) =~= tag);
    assert(crate::text::matches_at(t, tag, a.len() as int));
    lemma_find(t, tag);
    match find(t, tag) {
        None => {},
        Some(k) => {
            if k < a.len() {
                assert(crate::text::matches_at(t, tag, k));
                if k + 5 <= a.len() {
                    assert(a.subrange(k, k + 5) =~= t.subrange(k, k + 5));
                    assert(crate::text::matches_at(a, tag, k));
                } else {
                    let l = a.len() - k;
                    assert(t.subrange(k, k + 5)[l] == t[a.len() as int]);
                    assert(t[a.len() as int] == '{');
                    assert(tag[l] != '{');
                }
            } else if k > a.len() {
                assert(!crate::text::matches_at(t, tag, a.len() as int));
            }
        },
    }
}

/// Ruby markup converts piece by piece: text made of a part without
/// `{\r1}`, then `{\r1}`, a kanji part without `{\r2}`, `{\r2}`, a reading
/// without `{\r0}`, `{\r0}` and a rest, becomes the first part, the kanji,
/// the reading in brackets, and the conversion of the rest.
pub proof fn lemma_ruby_plain_split(a: Seq<char>, k: Seq<char>, y: Seq<char>, z: Seq<char>)
    requires
        !contains(a, ruby_tag(1)),
        !contains(k, ruby_tag(2)),
        !contains(y, ruby_tag(0)),
    ensures
        ruby_plain(a + ruby_tag(1) + k + ruby_tag(2) + y + ruby_tag(0) + z) == a + k + seq!['(']
            + y + seq![')'] + ruby_plain(z),
{
    let t = a + ruby_tag(1) + k + ruby_tag(2) + y + ruby_tag(0) + z;
    let rest1 = k + ruby_tag(2) + y + ruby_tag(0) + z;
    let rest2 = y + ruby_tag(0) + z;
    assert(t =~= a + ruby_tag(1) + rest1);
    lemma_find_marker(a, 1, rest1);
    let after1 = t.subrange(a.len() + 5 as int, t.len() as int);
    assert(after1 =~= k + ruby_tag(2) + rest2);
    lemma_find_marker(k, 2, rest2);
    let after2 = after1.subrange(k.len() + 5 as int, after1.len() as int);
    assert(after2 =~= y + ruby_tag(0) + z);
    lemma_find_marker(y, 0, z);
    assert(after2.subrange(y.len() + 5 as int, after2.len() as int) =~= z);
    assert(t.take(a.len() as int) =~= a);
    assert(after1.take(k.len() as int) =~= k);
    assert(after2.take(y.len() as int) =~= y);
}

fn ruby_tag_exec(n: u8) -> (v: Vec<char>)
    requires
        n < 3,
    ensures
        v@ == ruby_tag(n as int),
{
    let v = vec!['{', '\\', 'r', (48u8 + n) as char, '}'];
    assert(v@ =~= ruby_tag(n as int));
    v
}

/// Convert ruby markup from the source format into plain readable text.
#[verifier::rlimit(40)]
pub fn convert_ruby(text: &str) -> (out: String)
    ensures
        out@ == ruby_plain(text@),
{
    let cs = chars_of(text);
    let r1 = ruby_tag_exec(1);
    let r2 = ruby_tag_exec(2);
    let r0 = ruby_tag_exec(0);
    let mut out: Vec<char> = Vec::new();
    let mut pos: usize = 0;
    assert(cs@.subrange(0, cs.len() as int) =~= text@);
    assert(out@ + ruby_plain(text@) =~= ruby_plain(text@));
    loop
        invariant
            cs@ == text@,
            r1@ == ruby_tag(1),
            r2@ == ruby_tag(2),
            r0@ == ruby_tag(0),
            pos <= cs.len(),
            out@ + ruby_plain(cs@.subrange(pos as int, cs.len() as int)) == ruby_plain(text@),
        decreases cs.len() - pos,
    {
        let rest = &cs[pos..cs.len()];
        let ghost t = rest@;
        proof {
            lemma_find(t, ruby_tag(1));
        }
        let a = match find_from_exec(rest, r1.as_slice(), 0) {
            Some(a) => a,
            None => {
                push_all(&mut out, rest);
                assert(out@ =~= ruby_plain(text@));
                return string_of(out.as_slice());
            },
        };
        let after1 = &rest[a + 5..rest.len()];
        proof {
            lemma_find(after1@, ruby_tag(2));
        }
        let b = match find_from_exec(after1, r2.as_slice(), 0) {
            Some(b) => b,
            None => {
                push_all(&mut out, rest);
                assert(out@ =~= ruby_plain(text@));
                return string_of(out.as_slice());
            },
        };
        let after2 = &after1[b + 5..after1.len()];
        proof {
            lemma_find(after2@, ruby_tag(0));
        }
        let c = match find_from_exec(after2, r0.as_slice(), 0) {
            Some(c) => c,
            None => {
                push_all(&mut out, rest);
                assert(out@ =~= ruby_plain(text@));
                return string_of(out.as_slice());
            },
        };
        let ghost before = out@;
        push_all(&mut out, &rest[0..a]);
        push_all(&mut out, &after1[0..b]);
        out.push('(');
        push_all(&mut out, &after2[0..c]);
        out.push(')');
        let next = pos + a + 5 + b + 5 + c + 5;
        proof {
            assert(cs@.subrange(next as int, cs.len() as int) =~= after2@.subrange(
                c + 5,
                after2@.len() as int,
            ));
            assert(out@ =~= before + t.take(a as int) + after1@.take(b as int) + seq!['(']
                + after2@.take(c as int) + seq![')']);
        }
        pos = next;
    }
}

/// Appends a slice of characters to a vector.
fn push_all(out: &mut Vec<char>, cs: &[char])
    ensures
        final(out)@ == old(out)@ + cs@,
{
    let ghost start = out@;
    for i in 0..cs.len()
        invariant
            out@ == start + cs@.take(i as int),
    {
        out.push(cs[i]);
        assert(out@ =~= start + cs@.take(i + 1));
    }
    assert(cs@.take(cs.len() as int) =~= cs@);
}

/// Normalize subtitle text into a printable string: ruby markup becomes
/// plain text.
pub fn normalize_text(text: &str) -> (out: String)
    ensures
        out@ == ruby_plain(text@),
{
    convert_ruby(text)
}

/// The ASS override tag for a subtitle alignment.
pub open spec fn ass_override(alignment: Seq<char>) -> Seq<char> {
    if alignment == "bottom"@ {
        "{\\an2}"@
    } else if alignment == "bottom_left"@ {
        "{\\an1}"@
    } else if alignment == "bottom_right"@ {
        "{\\an3}"@
    } else {
        ""@
    }
}

/// The ASS override tag that positions a subtitle with the given alignment.
pub fn build_ass_override(alignment: &str) -> (r: &'static str)
    ensures
        r@ == ass_override(alignment@),
{
    if str_eq(alignment, "bottom") {
        "{\\an2}"
    } else if str_eq(alignment, "bottom_left") {
        "{\\an1}"
    } else if str_eq(alignment, "bottom_right") {
        "{\\an3}"
    } else {
        ""
    }
}

/// An ASS time stamp `H:MM:SS.CC` for a count of centiseconds.
pub open spec fn ass_time(centis: nat) -> Seq<char> {
    let hours = centis / 360000;
    let rest = centis % 360000;
    let minutes = rest / 6000;
    let rest2 = rest % 6000;
    decimal(hours) + seq![':'] + zero_pad(decimal(minutes), 2) + seq![':'] + zero_pad(
        decimal(rest2 / 100),
        2,
    ) + seq!['.'] + zero_pad(decimal(rest2 % 100), 2)
}

/// An SRT time stamp `HH:MM:SS,mmm` for a count of milliseconds.
pub open spec fn srt_time(millis: nat) -> Seq<char> {
    let hours = millis / 3600000;
    let rest = millis % 3600000;
    let minutes = rest / 60000;
    let rest2 = rest % 60000;
    zero_pad(decimal(hours), 2) + seq![':'] + zero_pad(decimal(minutes), 2) + seq![':']
        + zero_pad(decimal(rest2 / 1000), 2) + seq![','] + zero_pad(decimal(rest2 % 1000), 3)
}

fn push_ass_time(out: &mut String, centis: u64)
    ensures
        final(out)@ == old(out)@ + ass_time(centis as nat),
{
    let hours = centis / 360000;
    let rest = centis % 360000;
    let minutes = rest / 6000;
    let rest2 = rest % 6000;
    push_decimal(out, hours);
    push_char(out, ':');
    push_padded_decimal(out, minutes, 2);
    push_char(out, ':');
    push_padded_decimal(out, rest2 / 100, 2);
    push_char(out, '.');
    push_padded_decimal(out, rest2 % 100, 2);
    assert(final(out)@ =~= old(out)@ + ass_time(centis as nat));
}

fn push_srt_time(out: &mut String, millis: u64)
    ensures
        final(out)@ == old(out)@ + srt_time(millis as nat),
{
    let hours = millis / 3600000;
    let rest = millis % 3600000;
    let minutes = rest / 60000;
    let rest2 = rest % 60000;
    push_padded_decimal(out, hours, 2);
    push_char(out, ':');
    push_padded_decimal(out, minutes, 2);
    push_char(out, ':');
    push_padded_decimal(out, rest2 / 1000, 2);
    push_char(out, ',');
    push_padded_decimal(out, rest2 % 1000, 3);
    assert(final(out)@ =~= old(out)@ + srt_time(millis as nat));
}

/// Format a count of centiseconds as an ASS `H:MM:SS.CC` time stamp.
pub fn centiseconds_to_ass_time(centis: u64) -> (r: String)
    ensures
        r@ == ass_time(centis as nat),
{
    let mut r = String::new();
    push_ass_time(&mut r, centis);
    assert(r@ =~= ass_time(centis as nat));
    r
}

/// Format a count of milliseconds as an SRT `HH:MM:SS,mmm` time stamp.
pub fn milliseconds_to_srt_time(millis: u64) -> (r: String)
    ensures
        r@ == srt_time(millis as nat),
{
    let mut r = String::new();
    push_srt_time(&mut r, millis);
    assert(r@ =~= srt_time(millis as nat));
    r
}

/// The ASS `Dialogue` line of one cue.
pub open spec fn ass_dialogue(cue: SubtitleCue) -> Seq<char> {
    "Dialogue: 0,"@ + ass_time(cue.start_centis as nat) + seq![','] + ass_time(
        cue.end_centis as nat,
    ) + ",Default,,0,0,0,,"@ + ass_override(cue.alignment@) + ruby_plain(cue.text@)
}

/// The `Dialogue` lines of the first `n` cues, each after a line break.
pub open spec fn ass_events(cues: Seq<SubtitleCue>, n: int) -> Seq<char>
    decreases n,
{
    if n <= 0 {
        Seq::empty()
    } else {
        ass_events(cues, n - 1) + seq!['\n'] + ass_dialogue(cues[n - 1])
    }
}

/// The ASS document for a list of cues: the fixed header, then one
/// `Dialogue` line per cue.
pub open spec fn ass_document(cues: Seq<SubtitleCue>) -> Seq<char> {
    ASS_HEADER@ + ass_events(cues, cues.len() as int)
}

/// Render subtitle cues into ASS text.
pub fn render_ass(events: &[SubtitleCue]) -> (r: String)
    ensures
        r@ == ass_document(events@),
{
    let mut r = String::new();
    push_str(&mut r, ASS_HEADER);
    let mut i: usize = 0;
    while i < events.len()
        invariant
            i <= events.len(),
            r@ == ASS_HEADER@ + ass_events(events@, i as int),
        decreases events.len() - i,
    {
        let event = &events[i];
        let ghost before = r@;
        push_char(&mut r, '\n');
        push_str(&mut r, "Dialogue: 0,");
        push_ass_time(&mut r, event.start_centis);
        push_char(&mut r, ',');
        push_ass_time(&mut r, event.end_centis);
        push_str(&mut r, ",Default,,0,0,0,,");
        push_str(&mut r, build_ass_override(event.alignment.as_str()));
        let text = normalize_text(event.text.as_str());
        push_str(&mut r, text.as_str());
        assert(r@ =~= before + seq!['\n'] + ass_dialogue(events@[i as int]));
        i = i + 1;
    }
    r
}

/// The SRT block of cue number `i` (counted from zero).
pub open spec fn srt_block(i: int, cue: SubtitleCue) -> Seq<char> {
    decimal((i + 1) as nat) + seq!['\n'] + srt_time(cue.start_millis as nat) + " --> "@
        + srt_time(cue.end_millis as nat) + seq!['\n'] + ruby_plain(cue.text@)
}

/// The SRT blocks of the first `n` cues, separated by blank lines.
pub open spec fn srt_blocks(cues: Seq<SubtitleCue>, n: int) -> Seq<char>
    decreases n,
{
    if n <= 0 {
        Seq::empty()
    } else if n == 1 {
        srt_block(0, cues[0])
    } else {
        srt_blocks(cues, n - 1) + seq!['\n', '\n'] + srt_block(n - 1, cues[n - 1])
    }
}

/// The SRT document for a list of cues: numbered blocks separated by blank
/// lines and ended by a line break; nothing at all for no cues.
pub open spec fn srt_document(cues: Seq<SubtitleCue>) -> Seq<char> {
    if cues.len() == 0 {
        Seq::empty()
    } else {
        srt_blocks(cues, cues.len() as int) + seq!['\n']
    }
}

/// A text that occurs in a part of `s` occurs in `s`.
proof fn lemma_contains_trans(s: Seq<char>, p: Seq<char>, q: Seq<char>)
    requires
        contains(s, p),
        contains(p, q),
    ensures
        contains(s, q),
{
    let i = choose|i: int| matches_at(s, p, i);
    let j = choose|j: int| matches_at(p, q, j);
    assert(s.subrange(i + j, i + j + q.len()) =~= p.subrange(j, j + q.len()));
    assert(matches_at(s, q, i + j));
}

/// Every block of the first `n` is part of their SRT text.
proof fn lemma_srt_blocks_contain(cues: Seq<SubtitleCue>, n: int, k: int)
    requires
        0 <= k < n <= cues.len(),
    ensures
        contains(srt_blocks(cues, n), srt_block(k, cues[k])),
    decreases n,
{
    let b = srt_block(k, cues[k]);
    if n == k + 1 {
        if n == 1 {
            assert(srt_blocks(cues, n).subrange(0, b.len() as int) =~= b);
            assert(matches_at(srt_blocks(cues, n), b, 0));
        } else {
            let prev = srt_blocks(cues, n - 1);
            let off: int = prev.len() + 2int;
            assert(srt_blocks(cues, n).subrange(off, off + b.len()) =~= b);
            assert(matches_at(srt_blocks(cues, n), b, off));
        }
    } else {
        lemma_srt_blocks_contain(cues, n - 1, k);
        let prev = srt_blocks(cues, n - 1);
        let i = choose|i: int| matches_at(prev, b, i);
        assert(srt_blocks(cues, n).subrange(i, i + b.len()) =~= prev.subrange(i, i + b.len()));
        assert(matches_at(srt_blocks(cues, n), b, i));
    }
}

/// SRT and ASS show a cue's text the same way: both the cue's SRT block and
/// its ASS `Dialogue` line end with the ruby-converted text.
pub proof fn lemma_srt_and_ass_end_with_converted_text(i: int, cue: SubtitleCue)
    ensures
        ends_with(srt_block(i, cue), ruby_plain(cue.text@)),
        ends_with(ass_dialogue(cue), ruby_plain(cue.text@)),
{
    let t = ruby_plain(cue.text@);
    let b = srt_block(i, cue);
    let d = ass_dialogue(cue);
    assert(b.subrange(b.len() - t.len(), b.len() as int) =~= t);
    assert(d.subrange(d.len() - t.len(), d.len() as int) =~= t);
}

/// An SRT document shows ruby markup as brackets: when a cue's text is a
/// part without `{\r1}`, then `{\r1}KANJI{\r2}READING{\r0}` (the kanji
/// without `{\r2}`, the reading without `{\r0}`) and a rest, the document
/// holds the part, the kanji and the reading in brackets, one after another.
pub proof fn lemma_srt_shows_ruby_in_brackets(
    cues: Seq<SubtitleCue>,
    k: int,
    a: Seq<char>,
    kanji: Seq<char>,
    reading: Seq<char>,
    rest: Seq<char>,
)
    requires
        0 <= k < cues.len(),
        cues[k].text@ == a + ruby_tag(1) + kanji + ruby_tag(2) + reading + ruby_tag(0) + rest,
        !contains(a, ruby_tag(1)),
        !contains(kanji, ruby_tag(2)),
        !contains(reading, ruby_tag(0)),
    ensures
        contains(srt_document(cues), a + kanji + seq!['('] + reading + seq![')']),
{
    let g = a + kanji + seq!['('] + reading + seq![')'];
    lemma_ruby_plain_split(a, kanji, reading, rest);
    let b = srt_block(k, cues[k]);
    let t = ruby_plain(cues[k].text@);
    assert(t == g + ruby_plain(rest));
    let off = b.len() - t.len();
    assert(b.subrange(off, off + g.len()) =~= g);
    assert(matches_at(b, g, off));
    lemma_srt_blocks_contain(cues, cues.len() as int, k);
    let doc = srt_document(cues);
    let blocks = srt_blocks(cues, cues.len() as int);
    let i = choose|i: int| matches_at(blocks, b, i);
    assert(doc.subrange(i, i + b.len()) =~= blocks.subrange(i, i + b.len()));
    assert(matches_at(doc, b, i));
    lemma_contains_trans(doc, b, g);
}

fn push_srt_block(r: &mut String, i: usize, event: &SubtitleCue)
    requires
        i < usize::MAX,
    ensures
        final(r)@ == old(r)@ + srt_block(i as int, *event),
{
    push_decimal(r, (i + 1) as u64);
    push_char(r, '\n');
    push_srt_time(r, event.start_millis);
    push_str(r, " --> ");
    push_srt_time(r, event.end_millis);
    push_char(r, '\n');
    let text = normalize_text(event.text.as_str());
    push_str(r, text.as_str());
    assert(final(r)@ =~= old(r)@ + srt_block(i as int, *event));
}

/// Render subtitle cues into SRT text.
pub fn render_srt(events: &[SubtitleCue]) -> (r: String)
    ensures
        r@ == srt_document(events@),
{
    let mut r = String::new();
    if events.len() == 0 {
        return r;
    }
    let mut i: usize = 0;
    while i < events.len()
        invariant
            i <= events.len(),
            r@ == srt_blocks(events@, i as int),
        decreases events.len() - i,
    {
        let ghost before = r@;
        if i > 0 {
            push_char(&mut r, '\n');
            push_char(&mut r, '\n');
            assert(r@ =~= before + seq!['\n', '\n']);
        } else {
            assert(r@ =~= Seq::<char>::empty());
        }
        let ghost mid = r@;
        push_srt_block(&mut r, i, &events[i]);
        proof {
            if i == 0 {
                assert(r@ =~= srt_block(0, events@[0]));
            } else {
                assert(r@ =~= srt_blocks(events@, i as int) + seq!['\n', '\n'] + srt_block(
                    i as int,
                    events@[i as int],
                ));
            }
        }
        i = i + 1;
    }
    push_char(&mut r, '\n');
    r
}

} // verus!
