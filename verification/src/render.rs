//! Powerline rendering with a fixed Catppuccin Mocha palette: one
//! foreground color (crust) on colored segment backgrounds, rounded caps,
//! and no reset between segments.

use vstd::prelude::*;
use crate::text::{decimal, is_digit, push_all, push_u64, same_chars, string_from_chars, to_chars};

verus! {

/// A 24-bit color.
#[derive(Debug, Clone, Copy, PartialEq, Eq, Structural)]
pub struct Rgb(pub u8, pub u8, pub u8);

/// #1e1e2e, the text color on every segment.
#[verifier::allow_in_spec]
pub fn crust() -> Rgb
    returns
        Rgb(30, 30, 46),
{
    Rgb(30, 30, 46)
}

/// #fab387
#[verifier::allow_in_spec]
pub fn peach() -> Rgb
    returns
        Rgb(250, 179, 135),
{
    Rgb(250, 179, 135)
}

/// #f9e2af
#[verifier::allow_in_spec]
pub fn yellow() -> Rgb
    returns
        Rgb(249, 226, 175),
{
    Rgb(249, 226, 175)
}

/// #a6e3a1
#[verifier::allow_in_spec]
pub fn green() -> Rgb
    returns
        Rgb(166, 227, 161),
{
    Rgb(166, 227, 161)
}

/// #74c7ec
#[verifier::allow_in_spec]
pub fn sapphire() -> Rgb
    returns
        Rgb(116, 199, 236),
{
    Rgb(116, 199, 236)
}

/// #b4befe
#[verifier::allow_in_spec]
pub fn lavender() -> Rgb
    returns
        Rgb(180, 190, 254),
{
    Rgb(180, 190, 254)
}

/// #cba6f7
#[verifier::allow_in_spec]
pub fn mauve() -> Rgb
    returns
        Rgb(203, 166, 247),
{
    Rgb(203, 166, 247)
}

/// Rounded left half circle, the line's opening cap.
pub const CAP_LEFT: char = '\u{e0b6}';

/// Rounded right half circle, between segments and at the end.
pub const CAP_RIGHT: char = '\u{e0b4}';

/// The escape sequence that resets all attributes.
pub const RESET: &'static str = "\x1b[0m";

/// The escape character.
pub open spec fn esc() -> char {
    '\u{1b}'
}

/// `RESET`, as characters.
pub open spec fn reset() -> Seq<char> {
    seq![esc(), '[', '0', 'm']
}

/// Bold on.
pub open spec fn bold_on() -> Seq<char> {
    seq![esc(), '[', '1', 'm']
}

/// Bold off (normal intensity).
pub open spec fn bold_off() -> Seq<char> {
    seq![esc(), '[', '2', '2', 'm']
}

/// One block of the line.
pub struct Segment {
    pub text: String,
    pub bg: Rgb,
    pub bold: bool,
}

impl Segment {
    /// A block showing `text` on `bg`.
    pub fn new(text: &str, bg: Rgb, bold: bool) -> (s: Segment)
        ensures
            s.text@ == text@,
            s.bg == bg,
            s.bold == bold,
    {
        Segment { text: text.to_owned(), bg, bold }
    }
}

/// The three channels of `c` in decimal, separated by `;`.
pub open spec fn channels(c: Rgb) -> Seq<char> {
    decimal(c.0 as nat) + seq![';'] + decimal(c.1 as nat) + seq![';'] + decimal(c.2 as nat)
}

/// The escape sequence that sets the foreground to `c`.
pub open spec fn fg_code(c: Rgb) -> Seq<char> {
    seq![esc(), '[', '3', '8', ';', '2', ';'] + channels(c) + seq!['m']
}

/// The escape sequence that sets the foreground to `f` and the background
/// to `b`.
pub open spec fn fg_bg_code(f: Rgb, b: Rgb) -> Seq<char> {
    seq![esc(), '[', '3', '8', ';', '2', ';'] + channels(f) + seq![';', '4', '8', ';', '2', ';']
        + channels(b) + seq!['m']
}

fn push_channels(out: &mut Vec<char>, c: Rgb)
    ensures
        final(out)@ == old(out)@ + channels(c),
{
    push_u64(out, c.0 as u64);
    out.push(';');
    push_u64(out, c.1 as u64);
    out.push(';');
    push_u64(out, c.2 as u64);
    assert(out@ =~= old(out)@ + channels(c));
}

fn push_fg(out: &mut Vec<char>, c: Rgb)
    ensures
        final(out)@ == old(out)@ + fg_code(c),
{
    let open: Vec<char> = vec!['\u{1b}', '[', '3', '8', ';', '2', ';'];
    push_all(out, &open);
    push_channels(out, c);
    out.push('m');
    assert(out@ =~= old(out)@ + fg_code(c));
}

fn push_fg_bg(out: &mut Vec<char>, f: Rgb, b: Rgb)
    ensures
        final(out)@ == old(out)@ + fg_bg_code(f, b),
{
    let open: Vec<char> = vec!['\u{1b}', '[', '3', '8', ';', '2', ';'];
    let mid: Vec<char> = vec![';', '4', '8', ';', '2', ';'];
    push_all(out, &open);
    push_channels(out, f);
    push_all(out, &mid);
    push_channels(out, b);
    out.push('m');
    assert(out@ =~= old(out)@ + fg_bg_code(f, b));
}

/// The escape sequence that sets the foreground to `c`.
pub fn fg(c: Rgb) -> (s: String)
    ensures
        s@ == fg_code(c),
{
    let mut out: Vec<char> = Vec::new();
    push_fg(&mut out, c);
    assert(out@ =~= fg_code(c));
    string_from_chars(&out)
}

/// The escape sequence that sets the foreground to `f` and the background
/// to `b`.
pub fn fg_bg(f: Rgb, b: Rgb) -> (s: String)
    ensures
        s@ == fg_bg_code(f, b),
{
    let mut out: Vec<char> = Vec::new();
    push_fg_bg(&mut out, f, b);
    assert(out@ =~= fg_bg_code(f, b));
    string_from_chars(&out)
}

/// What leads into block `i`. In the Nerd style: the opening cap in the
/// first block's color, or a separator drawn in the previous block's color
/// on this one's. In the plain style nothing: the colored blocks alone
/// separate the segments.
pub open spec fn lead(segs: Seq<Segment>, i: int, style: Style) -> Seq<char> {
    match style {
        Style::Nerd => if i == 0 {
            fg_code(segs[0].bg).push(CAP_LEFT)
        } else {
            fg_bg_code(segs[i - 1].bg, segs[i].bg).push(CAP_RIGHT)
        },
        Style::Plain => seq![],
    }
}

/// A block's text, padded by one space on each side, in crust on its
/// background, bold where asked.
pub open spec fn body(s: Segment) -> Seq<char> {
    fg_bg_code(crust(), s.bg) + (if s.bold {
        bold_on()
    } else {
        seq![]
    }) + seq![' '] + s.text@ + seq![' '] + (if s.bold {
        bold_off()
    } else {
        seq![]
    })
}

/// The first `n` blocks.
pub open spec fn blocks(segs: Seq<Segment>, n: int, style: Style) -> Seq<char>
    decreases n,
{
    if n <= 0 {
        seq![]
    } else {
        blocks(segs, n - 1, style) + lead(segs, n - 1, style) + body(segs[n - 1])
    }
}

/// The closing cap of the Nerd style: a reset, then the cap in the last
/// block's color. Nothing in the plain style, or without blocks.
pub open spec fn closing(segs: Seq<Segment>, style: Style) -> Seq<char> {
    if style is Nerd && segs.len() > 0 {
        reset() + fg_code(segs.last().bg).push(CAP_RIGHT)
    } else {
        seq![]
    }
}

/// The whole line: the blocks, the closing cap, one final reset.
pub open spec fn line_text(segs: Seq<Segment>, style: Style) -> Seq<char> {
    blocks(segs, segs.len() as int, style) + closing(segs, style) + reset()
}

/// Renders the segments as one powerline: colored blocks and a single
/// trailing reset; in the Nerd style also a rounded cap at each end and
/// half-circle separators between the blocks.
pub fn line(segments: &[Segment], style: Style) -> (s: String)
    ensures
        s@ == line_text(segments@, style),
{
    let mut out: Vec<char> = Vec::new();
    let n: usize = segments.len();
    let nerd: bool = style == Style::Nerd;
    let mut i: usize = 0;
    while i < n
        invariant
            i <= n == segments@.len(),
            nerd == (style is Nerd),
            out@ == blocks(segments@, i as int, style),
        decreases n - i,
    {
        let ghost before = out@;
        let seg: &Segment = &segments[i];
        if nerd {
            if i == 0 {
                push_fg(&mut out, seg.bg);
                out.push(CAP_LEFT);
            } else {
                push_fg_bg(&mut out, segments[i - 1].bg, seg.bg);
                out.push(CAP_RIGHT);
            }
        }
        assert(out@ =~= before + lead(segments@, i as int, style));
        let ghost led = out@;
        push_fg_bg(&mut out, crust(), seg.bg);
        if seg.bold {
            let on: Vec<char> = vec!['\u{1b}', '[', '1', 'm'];
            push_all(&mut out, &on);
        }
        out.push(' ');
        let text: Vec<char> = to_chars(seg.text.as_str());
        push_all(&mut out, &text);
        out.push(' ');
        if seg.bold {
            let off: Vec<char> = vec!['\u{1b}', '[', '2', '2', 'm'];
            push_all(&mut out, &off);
        }
        assert(out@ =~= led + body(segments@[i as int]));
        i = i + 1;
    }
    let ghost before = out@;
    let rst: Vec<char> = vec!['\u{1b}', '[', '0', 'm'];
    if nerd && n > 0 {
        push_all(&mut out, &rst);
        push_fg(&mut out, segments[n - 1].bg);
        out.push(CAP_RIGHT);
    }
    assert(out@ =~= before + closing(segments@, style));
    push_all(&mut out, &rst);
    assert(out@ =~= line_text(segments@, style));
    string_from_chars(&out)
}

/// A filled cell of a bar.
pub const FULL_CELL: char = '\u{25fc}';

/// An empty cell of a bar.
pub const EMPTY_CELL: char = '\u{25fb}';

/// A bar of `width` cells whose first `filled` (at most all) are full.
pub open spec fn bar_cells(filled: nat, width: nat) -> Seq<char> {
    let f = if filled < width {
        filled
    } else {
        width
    };
    Seq::new(width, |i: int| if i < f { FULL_CELL } else { EMPTY_CELL })
}

/// Appends a bar of `width` cells, the first `filled` of them full.
pub fn push_bar(out: &mut Vec<char>, filled: usize, width: usize)
    ensures
        final(out)@ == old(out)@ + bar_cells(filled as nat, width as nat),
{
    let f: usize = if filled < width { filled } else { width };
    let mut i: usize = 0;
    while i < width
        invariant
            i <= width,
            f == (if filled < width { filled } else { width }),
            out@ =~= old(out)@ + bar_cells(filled as nat, width as nat).take(i as int),
        decreases width - i,
    {
        if i < f {
            out.push(FULL_CELL);
        } else {
            out.push(EMPTY_CELL);
        }
        i = i + 1;
    }
    assert(bar_cells(filled as nat, width as nat).take(width as int) =~= bar_cells(
        filled as nat,
        width as nat,
    ));
}

/// A squares bar of `width` cells, of which `filled` (at most `width`) are
/// full.
pub fn bar_from_cells(filled: usize, width: usize) -> (s: String)
    ensures
        s@ == bar_cells(filled as nat, width as nat),
        s@.len() == width,
{
    let mut out: Vec<char> = Vec::new();
    push_bar(&mut out, filled, width);
    assert(out@ =~= bar_cells(filled as nat, width as nat));
    string_from_chars(&out)
}

/// Seconds in a day.
pub const DAY: i64 = 86_400;

/// Seconds in an hour.
pub const HOUR: i64 = 3_600;

/// Seconds in a minute.
pub const MINUTE: i64 = 60;

/// `secs` (none below zero) as "2d0h", "4h53m" or "12m": days and hours
/// from a day on, hours and minutes from an hour on, else minutes.
pub open spec fn until_text(secs: int) -> Seq<char> {
    let s = if secs < 0 {
        0
    } else {
        secs
    };
    let d = s / 86_400;
    let h = (s % 86_400) / 3_600;
    let m = (s % 3_600) / 60;
    if d > 0 {
        decimal(d as nat) + seq!['d'] + decimal(h as nat) + seq!['h']
    } else if h > 0 {
        decimal(h as nat) + seq!['h'] + decimal(m as nat) + seq!['m']
    } else {
        decimal(m as nat) + seq!['m']
    }
}

/// Appends the time left as `until` writes it.
pub fn push_until(out: &mut Vec<char>, secs: i64)
    ensures
        final(out)@ == old(out)@ + until_text(secs as int),
{
    let s: i64 = if secs < 0 { 0 } else { secs };
    let d: i64 = s / DAY;
    let h: i64 = (s % DAY) / HOUR;
    let m: i64 = (s % HOUR) / MINUTE;
    if d > 0 {
        push_u64(out, d as u64);
        out.push('d');
        push_u64(out, h as u64);
        out.push('h');
    } else if h > 0 {
        push_u64(out, h as u64);
        out.push('h');
        push_u64(out, m as u64);
        out.push('m');
    } else {
        push_u64(out, m as u64);
        out.push('m');
    }
    assert(out@ =~= old(out)@ + until_text(secs as int));
}

/// Seconds until a reset as "2d0h", "4h53m" or "12m".
pub fn until(secs: i64) -> (r: String)
    ensures
        r@ == until_text(secs as int),
{
    let mut out: Vec<char> = Vec::new();
    push_until(&mut out, secs);
    assert(out@ =~= until_text(secs as int));
    string_from_chars(&out)
}

/// How the line is drawn: with the Nerd Font glyphs, or without them.
#[derive(Debug, Clone, Copy, PartialEq, Eq, Structural)]
pub enum Style {
    Nerd,
    Plain,
}

/// `s` holds the characters `t`.
pub open spec fn is_text(s: Option<Seq<char>>, t: Seq<char>) -> bool {
    s matches Some(v) && v == t
}

/// The style for a terminal: a requested `nerd` or `plain` wins; otherwise
/// Ghostty (`TERM_PROGRAM=ghostty`), WezTerm (`TERM_PROGRAM=WezTerm`) and
/// kitty (`TERM=xterm-kitty`) get the glyphs, and every other terminal the
/// plain style.
pub open spec fn style_for(
    requested: Option<Seq<char>>,
    term_program: Option<Seq<char>>,
    term: Option<Seq<char>>,
) -> Style {
    if is_text(requested, seq!['n', 'e', 'r', 'd']) {
        Style::Nerd
    } else if is_text(requested, seq!['p', 'l', 'a', 'i', 'n']) {
        Style::Plain
    } else if is_text(term_program, seq!['g', 'h', 'o', 's', 't', 't', 'y']) || is_text(
        term_program,
        seq!['W', 'e', 'z', 'T', 'e', 'r', 'm'],
    ) || is_text(term, seq!['x', 't', 'e', 'r', 'm', '-', 'k', 'i', 't', 't', 'y']) {
        Style::Nerd
    } else {
        Style::Plain
    }
}

/// The characters of an optional string.
pub open spec fn opt_view(s: Option<&str>) -> Option<Seq<char>> {
    match s {
        Some(v) => Some(v@),
        None => None,
    }
}

fn holds(s: Option<&str>, t: &[char]) -> (b: bool)
    ensures
        b == is_text(opt_view(s), t@),
{
    match s {
        Some(v) => {
            let cs: Vec<char> = to_chars(v);
            same_chars(&cs, t)
        },
        None => false,
    }
}

impl Style {
    /// Picks the style from the `STATUSLINE_STYLE` setting and the
    /// terminal's `TERM_PROGRAM` and `TERM`.
    pub fn pick(requested: Option<&str>, term_program: Option<&str>, term: Option<&str>) -> (s:
        Style)
        ensures
            s == style_for(opt_view(requested), opt_view(term_program), opt_view(term)),
    {
        let nerd: Vec<char> = vec!['n', 'e', 'r', 'd'];
        let plain: Vec<char> = vec!['p', 'l', 'a', 'i', 'n'];
        let ghostty: Vec<char> = vec!['g', 'h', 'o', 's', 't', 't', 'y'];
        let wezterm: Vec<char> = vec!['W', 'e', 'z', 'T', 'e', 'r', 'm'];
        let kitty: Vec<char> = vec!['x', 't', 'e', 'r', 'm', '-', 'k', 'i', 't', 't', 'y'];
        assert(nerd@ == seq!['n', 'e', 'r', 'd']);
        assert(plain@ == seq!['p', 'l', 'a', 'i', 'n']);
        assert(ghostty@ == seq!['g', 'h', 'o', 's', 't', 't', 'y']);
        assert(wezterm@ == seq!['W', 'e', 'z', 'T', 'e', 'r', 'm']);
        assert(kitty@ == seq!['x', 't', 'e', 'r', 'm', '-', 'k', 'i', 't', 't', 'y']);
        if holds(requested, &nerd) {
            Style::Nerd
        } else if holds(requested, &plain) {
            Style::Plain
        } else if holds(term_program, &ghostty) || holds(term_program, &wezterm) || holds(
            term,
            &kitty,
        ) {
            Style::Nerd
        } else {
            Style::Plain
        }
    }
}

/// A reset begins at position `i` of `s`.
pub open spec fn reset_at(s: Seq<char>, i: int) -> bool {
    0 <= i && i + 4 <= s.len() && s.subrange(i, i + 4) == reset()
}

/// How many resets `s` holds (a reset cannot overlap another, so this is
/// also the count `str::matches` gives).
pub open spec fn count_resets(s: Seq<char>) -> nat
    decreases s.len(),
{
    if s.len() == 0 {
        0
    } else {
        count_resets(s.drop_last()) + (if reset_at(s, s.len() - 4) {
            1nat
        } else {
            0nat
        })
    }
}

/// `s` holds no reset.
pub open spec fn no_reset(s: Seq<char>) -> bool {
    forall|i: int| !reset_at(s, i)
}

/// `s` holds no escape character.
pub open spec fn no_esc(s: Seq<char>) -> bool {
    forall|i: int| 0 <= i < s.len() ==> s[i] != esc()
}

/// Within `s`, a character after position `j` rules out a reset there.
pub open spec fn broken_after(s: Seq<char>, j: int) -> bool {
    ||| (j + 1 < s.len() && s[j + 1] != '[')
    ||| (j + 2 < s.len() && s[j + 2] != '0')
    ||| (j + 3 < s.len() && s[j + 3] != 'm')
}

/// Every escape among the last three characters of `s` is followed, within
/// `s`, by a character that rules out a reset: no reset can begin in `s`
/// and end in what follows it.
pub open spec fn closed(s: Seq<char>) -> bool {
    forall|j: int|
        0 <= j < s.len() && s.len() - 3 <= j && #[trigger] s[j] == esc() ==> broken_after(s, j)
}

/// `s` holds no reset, and none can begin in it and end after it.
pub open spec fn clean(s: Seq<char>) -> bool {
    count_resets(s) == 0 && closed(s)
}

proof fn lemma_count_zero(s: Seq<char>)
    requires
        forall|i: int| 0 <= i < s.len() && s[i] == esc() ==> !reset_at(s, i),
    ensures
        count_resets(s) == 0,
    decreases s.len(),
{
    if s.len() > 0 {
        let t = s.drop_last();
        assert forall|i: int| 0 <= i < t.len() && t[i] == esc() implies !reset_at(t, i) by {
            if reset_at(t, i) {
                assert(s.subrange(i, i + 4) =~= t.subrange(i, i + 4));
            }
        }
        lemma_count_zero(t);
        if reset_at(s, s.len() - 4) {
            assert(s.subrange(s.len() - 4, s.len() as int)[0] == esc());
        }
    }
}

proof fn lemma_no_reset_count(s: Seq<char>)
    requires
        no_reset(s),
    ensures
        count_resets(s) == 0,
{
    lemma_count_zero(s);
}

proof fn lemma_count_concat(a: Seq<char>, b: Seq<char>)
    requires
        closed(a),
    ensures
        count_resets(a + b) == count_resets(a) + count_resets(b),
    decreases b.len(),
{
    if b.len() == 0 {
        assert(a + b =~= a);
    } else {
        let ab = a + b;
        assert(ab.drop_last() =~= a + b.drop_last());
        lemma_count_concat(a, b.drop_last());
        let k = ab.len() - 4;
        if b.len() >= 4 {
            assert(ab.subrange(k, k + 4) =~= b.subrange(b.len() - 4, b.len() as int));
        } else if k >= 0 && reset_at(ab, k) {
            let w = ab.subrange(k, k + 4);
            assert(w[0] == ab[k] && ab[k] == a[k]);
            assert(a[k] == esc());
            assert(broken_after(a, k));
            assert(w[1] == ab[k + 1] && w[2] == ab[k + 2] && w[3] == ab[k + 3]);
            if k + 1 < a.len() {
                assert(ab[k + 1] == a[k + 1]);
            }
            if k + 2 < a.len() {
                assert(ab[k + 2] == a[k + 2]);
            }
            if k + 3 < a.len() {
                assert(ab[k + 3] == a[k + 3]);
            }
        }
    }
}

proof fn lemma_closed_concat(a: Seq<char>, b: Seq<char>)
    requires
        closed(a),
        closed(b),
    ensures
        closed(a + b),
{
    let ab = a + b;
    assert forall|j: int|
        0 <= j < ab.len() && ab.len() - 3 <= j && #[trigger] ab[j] == esc() implies broken_after(
        ab,
        j,
    ) by {
        if j >= a.len() {
            let i = j - a.len();
            assert(b[i] == ab[j]);
            assert(broken_after(b, i));
            if i + 1 < b.len() {
                assert(ab[j + 1] == b[i + 1]);
            }
            if i + 2 < b.len() {
                assert(ab[j + 2] == b[i + 2]);
            }
            if i + 3 < b.len() {
                assert(ab[j + 3] == b[i + 3]);
            }
        } else {
            assert(a[j] == ab[j]);
            assert(broken_after(a, j));
            if j + 1 < a.len() {
                assert(ab[j + 1] == a[j + 1]);
            }
            if j + 2 < a.len() {
                assert(ab[j + 2] == a[j + 2]);
            }
            if j + 3 < a.len() {
                assert(ab[j + 3] == a[j + 3]);
            }
        }
    }
}

proof fn lemma_clean_concat(a: Seq<char>, b: Seq<char>)
    requires
        clean(a),
        clean(b),
    ensures
        clean(a + b),
{
    lemma_count_concat(a, b);
    lemma_closed_concat(a, b);
}

proof fn lemma_no_esc_clean(s: Seq<char>)
    requires
        no_esc(s),
    ensures
        clean(s),
{
    lemma_count_zero(s);
}

/// An escape sequence other than a reset: an escape, `[`, a first
/// parameter character other than `0`, and no other escape.
pub open spec fn other_code(s: Seq<char>) -> bool {
    &&& s.len() >= 4
    &&& s[0] == esc()
    &&& s[2] != '0'
    &&& forall|i: int| 1 <= i < s.len() ==> s[i] != esc()
}

proof fn lemma_other_code_clean(s: Seq<char>)
    requires
        other_code(s),
    ensures
        clean(s),
{
    assert forall|i: int| 0 <= i < s.len() && s[i] == esc() implies !reset_at(s, i) by {
        assert(i == 0);
        if reset_at(s, 0) {
            assert(s.subrange(0, 4)[2] == s[2]);
        }
    }
    lemma_count_zero(s);
}

/// A segment's text between its two padding spaces: a reset can neither
/// lie inside it (the text holds none) nor run past the closing space.
proof fn lemma_padded_clean(t: Seq<char>)
    requires
        no_reset(t),
    ensures
        clean(seq![' '] + t + seq![' ']),
{
    let m = seq![' '] + t + seq![' '];
    let n = m.len();
    assert(m[0] == ' ' && m[n - 1] == ' ');
    assert forall|i: int| 0 <= i < n && m[i] == esc() implies !reset_at(m, i) by {
        if reset_at(m, i) {
            let w = m.subrange(i, i + 4);
            if i + 4 <= n - 1 {
                assert(w =~= t.subrange(i - 1, i + 3));
                assert(reset_at(t, i - 1));
            } else {
                assert(w[n - 1 - i] == ' ');
            }
        }
    }
    lemma_count_zero(m);
    assert forall|j: int| 0 <= j < n && n - 3 <= j && #[trigger] m[j] == esc() implies broken_after(
        m,
        j,
    ) by {
        if j == n - 2 {
            assert(m[j + 1] == ' ');
        } else if j == n - 3 {
            assert(m[j + 2] == ' ');
        }
    }
}

proof fn lemma_decimal_digits(n: nat)
    ensures
        forall|i: int| 0 <= i < decimal(n).len() ==> is_digit(#[trigger] decimal(n)[i]),
    decreases n,
{
    if n >= 10 {
        lemma_decimal_digits(n / 10);
        assert forall|i: int| 0 <= i < decimal(n).len() implies is_digit(#[trigger] decimal(n)[i]) by {
            if i < decimal(n / 10).len() {
                assert(decimal(n)[i] == decimal(n / 10)[i]);
            }
        }
    }
}

/// Every character of `s` is a digit or `;`.
pub open spec fn numeric(s: Seq<char>) -> bool {
    forall|i: int| 0 <= i < s.len() ==> is_digit(#[trigger] s[i]) || s[i] == ';'
}

proof fn lemma_channels_numeric(c: Rgb)
    ensures
        numeric(channels(c)),
        no_esc(channels(c)),
{
    lemma_decimal_digits(c.0 as nat);
    lemma_decimal_digits(c.1 as nat);
    lemma_decimal_digits(c.2 as nat);
    let a = decimal(c.0 as nat);
    let b = decimal(c.1 as nat);
    let d = decimal(c.2 as nat);
    let s = channels(c);
    assert forall|i: int| 0 <= i < s.len() implies is_digit(#[trigger] s[i]) || s[i] == ';' by {
        if i < a.len() {
            assert(s[i] == a[i]);
        } else if i == a.len() {
        } else if i < a.len() + 1 + b.len() {
            assert(s[i] == b[i - a.len() - 1]);
        } else if i == a.len() + 1 + b.len() {
        } else {
            assert(s[i] == d[i - a.len() - 2 - b.len()]);
        }
    }
}

proof fn lemma_fg_clean(c: Rgb)
    ensures
        other_code(fg_code(c)),
        clean(fg_code(c)),
        clean(fg_code(c).push(CAP_RIGHT)),
        clean(fg_code(c).push(CAP_LEFT)),
{
    lemma_channels_numeric(c);
    lemma_other_code_clean(fg_code(c));
    lemma_no_esc_clean(seq![CAP_RIGHT]);
    lemma_no_esc_clean(seq![CAP_LEFT]);
    lemma_clean_concat(fg_code(c), seq![CAP_RIGHT]);
    lemma_clean_concat(fg_code(c), seq![CAP_LEFT]);
    assert(fg_code(c) + seq![CAP_RIGHT] =~= fg_code(c).push(CAP_RIGHT));
    assert(fg_code(c) + seq![CAP_LEFT] =~= fg_code(c).push(CAP_LEFT));
}

proof fn lemma_fg_bg_clean(f: Rgb, b: Rgb)
    ensures
        clean(fg_bg_code(f, b)),
        clean(fg_bg_code(f, b).push(CAP_RIGHT)),
{
    lemma_channels_numeric(f);
    lemma_channels_numeric(b);
    lemma_other_code_clean(fg_bg_code(f, b));
    lemma_no_esc_clean(seq![CAP_RIGHT]);
    lemma_clean_concat(fg_bg_code(f, b), seq![CAP_RIGHT]);
    assert(fg_bg_code(f, b) + seq![CAP_RIGHT] =~= fg_bg_code(f, b).push(CAP_RIGHT));
}

proof fn lemma_body_clean(s: Segment)
    requires
        no_reset(s.text@),
    ensures
        clean(body(s)),
{
    let on = if s.bold {
        bold_on()
    } else {
        seq![]
    };
    let off = if s.bold {
        bold_off()
    } else {
        seq![]
    };
    lemma_fg_bg_clean(crust(), s.bg);
    if s.bold {
        lemma_other_code_clean(bold_on());
        lemma_other_code_clean(bold_off());
    } else {
        lemma_no_esc_clean(on);
        lemma_no_esc_clean(off);
    }
    let mid = seq![' '] + s.text@ + seq![' '];
    lemma_padded_clean(s.text@);
    lemma_clean_concat(fg_bg_code(crust(), s.bg), on);
    lemma_clean_concat(fg_bg_code(crust(), s.bg) + on, mid);
    lemma_clean_concat(fg_bg_code(crust(), s.bg) + on + mid, off);
    assert(fg_bg_code(crust(), s.bg) + on + mid + off =~= body(s));
}

proof fn lemma_blocks_clean(segs: Seq<Segment>, n: int, style: Style)
    requires
        0 <= n <= segs.len(),
        forall|i: int| 0 <= i < segs.len() ==> no_reset(#[trigger] segs[i].text@),
    ensures
        clean(blocks(segs, n, style)),
    decreases n,
{
    if n == 0 {
        lemma_no_esc_clean(seq![]);
    } else {
        lemma_blocks_clean(segs, n - 1, style);
        if style is Plain {
            lemma_no_esc_clean(seq![]);
        } else if n - 1 == 0 {
            lemma_fg_clean(segs[0].bg);
        } else {
            lemma_fg_bg_clean(segs[n - 2].bg, segs[n - 1].bg);
        }
        lemma_body_clean(segs[n - 1]);
        lemma_clean_concat(blocks(segs, n - 1, style), lead(segs, n - 1, style));
        lemma_clean_concat(
            blocks(segs, n - 1, style) + lead(segs, n - 1, style),
            body(segs[n - 1]),
        );
    }
}

/// No reset between segments: where no segment's text holds a reset, the
/// blocks hold none; the Nerd-style line holds exactly one more before its
/// closing cap and one at the end, the plain-style line (or one without
/// segments) only the one at the end; and the line ends with a reset.
pub proof fn lemma_line_resets(segs: Seq<Segment>, style: Style)
    requires
        forall|i: int| 0 <= i < segs.len() ==> no_reset(#[trigger] segs[i].text@),
    ensures
        count_resets(line_text(segs, style)) == (if style is Nerd && segs.len() > 0 {
            2nat
        } else {
            1nat
        }),
        count_resets(blocks(segs, segs.len() as int, style)) == 0,
        line_text(segs, style).len() >= 4,
        line_text(segs, style).subrange(
            line_text(segs, style).len() - 4,
            line_text(segs, style).len() as int,
        ) == reset(),
{
    let bl = blocks(segs, segs.len() as int, style);
    lemma_blocks_clean(segs, segs.len() as int, style);
    let r = reset();
    assert(reset_at(r, 0)) by {
        assert(r.subrange(0, 4) =~= r);
    }
    assert(count_resets(r) == 1) by {
        assert(count_resets(r.drop_last()) == 0) by {
            lemma_count_zero(r.drop_last());
        }
    }
    assert(closed(r)) by {
        assert forall|j: int| 0 <= j < r.len() && r.len() - 3 <= j && #[trigger] r[j] == esc()
            implies broken_after(r, j) by {
            assert(j >= 1);
        }
    }
    let cl = closing(segs, style);
    if style is Nerd && segs.len() > 0 {
        lemma_fg_clean(segs.last().bg);
        lemma_count_concat(r, fg_code(segs.last().bg).push(CAP_RIGHT));
        lemma_closed_concat(r, fg_code(segs.last().bg).push(CAP_RIGHT));
        assert(count_resets(cl) == 1);
    } else {
        assert(cl =~= seq![]);
        lemma_no_esc_clean(cl);
    }
    assert(closed(cl));
    lemma_count_concat(bl, cl);
    lemma_closed_concat(bl, cl);
    lemma_count_concat(bl + cl, r);
    let l = line_text(segs, style);
    assert(l.subrange(l.len() - 4, l.len() as int) =~= r);
}

/// A character of the Unicode Private Use Area, where the Nerd Font glyphs
/// lie.
pub open spec fn is_glyph(c: char) -> bool {
    0xE000 <= (c as u32) <= 0xF8FF
}

/// `s` holds no Private Use Area character.
pub open spec fn no_glyph(s: Seq<char>) -> bool {
    forall|i: int| 0 <= i < s.len() ==> !is_glyph(#[trigger] s[i])
}

proof fn lemma_no_glyph_concat(a: Seq<char>, b: Seq<char>)
    requires
        no_glyph(a),
        no_glyph(b),
    ensures
        no_glyph(a + b),
{
    assert forall|i: int| 0 <= i < (a + b).len() implies !is_glyph(#[trigger] (a + b)[i]) by {
        if i < a.len() {
            assert((a + b)[i] == a[i]);
        } else {
            assert((a + b)[i] == b[i - a.len()]);
        }
    }
}

proof fn lemma_fg_bg_no_glyph(f: Rgb, b: Rgb)
    ensures
        no_glyph(fg_bg_code(f, b)),
{
    lemma_channels_numeric(f);
    lemma_channels_numeric(b);
    let cf = channels(f);
    let cb = channels(b);
    assert(no_glyph(cf)) by {
        assert forall|i: int| 0 <= i < cf.len() implies !is_glyph(#[trigger] cf[i]) by {
            assert(is_digit(cf[i]) || cf[i] == ';');
        }
    }
    assert(no_glyph(cb)) by {
        assert forall|i: int| 0 <= i < cb.len() implies !is_glyph(#[trigger] cb[i]) by {
            assert(is_digit(cb[i]) || cb[i] == ';');
        }
    }
    let open = seq![esc(), '[', '3', '8', ';', '2', ';'];
    let mid = seq![';', '4', '8', ';', '2', ';'];
    assert(no_glyph(open));
    assert(no_glyph(mid));
    assert(no_glyph(seq!['m']));
    lemma_no_glyph_concat(open, cf);
    lemma_no_glyph_concat(open + cf, mid);
    lemma_no_glyph_concat(open + cf + mid, cb);
    lemma_no_glyph_concat(open + cf + mid + cb, seq!['m']);
}

proof fn lemma_body_no_glyph(s: Segment)
    requires
        no_glyph(s.text@),
    ensures
        no_glyph(body(s)),
{
    let on = if s.bold {
        bold_on()
    } else {
        seq![]
    };
    let off = if s.bold {
        bold_off()
    } else {
        seq![]
    };
    assert(no_glyph(on));
    assert(no_glyph(off));
    assert(no_glyph(seq![' ']));
    lemma_fg_bg_no_glyph(crust(), s.bg);
    lemma_no_glyph_concat(fg_bg_code(crust(), s.bg), on);
    lemma_no_glyph_concat(fg_bg_code(crust(), s.bg) + on, seq![' ']);
    lemma_no_glyph_concat(fg_bg_code(crust(), s.bg) + on + seq![' '], s.text@);
    lemma_no_glyph_concat(fg_bg_code(crust(), s.bg) + on + seq![' '] + s.text@, seq![' ']);
    lemma_no_glyph_concat(fg_bg_code(crust(), s.bg) + on + seq![' '] + s.text@ + seq![' '], off);
}

proof fn lemma_plain_blocks_no_glyph(segs: Seq<Segment>, n: int)
    requires
        0 <= n <= segs.len(),
        forall|i: int| 0 <= i < segs.len() ==> no_glyph(#[trigger] segs[i].text@),
    ensures
        no_glyph(blocks(segs, n, Style::Plain)),
    decreases n,
{
    if n > 0 {
        lemma_plain_blocks_no_glyph(segs, n - 1);
        lemma_body_no_glyph(segs[n - 1]);
        assert(lead(segs, n - 1, Style::Plain) =~= seq![]);
        assert(blocks(segs, n - 1, Style::Plain) + lead(segs, n - 1, Style::Plain)
            =~= blocks(segs, n - 1, Style::Plain));
        lemma_no_glyph_concat(blocks(segs, n - 1, Style::Plain), body(segs[n - 1]));
    }
}

/// The plain style draws no Nerd Font glyph: where no segment's text holds
/// a Private Use Area character, neither does the line; the colored blocks
/// alone separate the segments.
pub proof fn lemma_plain_has_no_glyph(segs: Seq<Segment>)
    requires
        forall|i: int| 0 <= i < segs.len() ==> no_glyph(#[trigger] segs[i].text@),
    ensures
        no_glyph(line_text(segs, Style::Plain)),
{
    lemma_plain_blocks_no_glyph(segs, segs.len() as int);
    assert(closing(segs, Style::Plain) =~= seq![]);
    assert(no_glyph(reset()));
    let bl = blocks(segs, segs.len() as int, Style::Plain);
    assert(line_text(segs, Style::Plain) =~= bl + reset());
    lemma_no_glyph_concat(bl, reset());
}

/// A reset time already past shows as `0m`.
pub proof fn lemma_until_past(secs: int)
    requires
        secs <= 0,
    ensures
        until_text(secs) == seq!['0', 'm'],
{
    assert(until_text(secs) =~= seq!['0', 'm']);
}

/// A bar always has exactly `width` cells: `filled` full ones (never more
/// than `width`), then empty ones.
pub proof fn lemma_bar_shape(filled: nat, width: nat)
    ensures
        bar_cells(filled, width).len() == width,
        forall|i: int|
            0 <= i < width ==> (#[trigger] bar_cells(filled, width)[i] == FULL_CELL) == (i
                < filled),
{
}

/// `RESET` holds the reset sequence.
pub proof fn lemma_reset_text()
    ensures
        RESET@ == reset(),
{
    reveal_strlit("\x1b[0m");
    assert(RESET@ =~= reset());
}

/// A line without segments is a lone reset.
pub proof fn lemma_empty_line(style: Style)
    ensures
        line_text(seq![], style) == reset(),
{
    assert(line_text(seq![], style) =~= reset());
}

} // verus!
