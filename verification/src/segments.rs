//! Builds the six segments from the payload and the git data. A segment
//! whose data is missing is left out.

use vstd::prelude::*;
use crate::git::{GitInfo, GitView};
use crate::input::{Payload, Percent, RateLimitWindow};
use crate::render::{
    bar_cells, green, lavender, mauve, peach, push_bar, push_until, sapphire, until_text, yellow,
    Rgb, Segment, Style,
};
use crate::text::{
    decimal, field_scan, fields, has_prefix, int_text, push_all, push_i64, push_u64, same_chars,
    split_fields, starts_with, string_from_chars, to_chars, views, Separator,
};

verus! {

/// The branch glyph of the Nerd Font style.
pub const BRANCH_GLYPH: char = '\u{e0a0}';

/// Cells of the context bar.
pub const CONTEXT_BAR_WIDTH: usize = 8;

/// Cells of each usage bar.
pub const USAGE_BAR_WIDTH: usize = 5;

/// Characters of a branch name shown before it is cut.
pub const BRANCH_MAX: usize = 30;

/// What marks a cut branch name.
pub const ELLIPSIS: char = '\u{2026}';

/// Marks the commits ahead of upstream.
pub const AHEAD_ARROW: char = '\u{21e1}';

/// Marks the commits behind upstream.
pub const BEHIND_ARROW: char = '\u{21e3}';

/// Separates the two usage windows.
pub const WINDOW_BAR: char = '\u{2502}';

/// The pieces joined by `sep`.
pub open spec fn join(parts: Seq<Seq<char>>, sep: Seq<char>) -> Seq<char>
    decreases parts.len(),
{
    if parts.len() == 0 {
        seq![]
    } else if parts.len() == 1 {
        parts[0]
    } else {
        join(parts.drop_last(), sep) + sep + parts.last()
    }
}

/// `path` lies inside `home` (or is `home`): it starts with `home`, and
/// what follows is nothing or begins a new component.
pub open spec fn inside(path: Seq<char>, home: Seq<char>) -> bool {
    &&& has_prefix(path, home)
    &&& (path.len() == home.len() || path[home.len() as int] == '/')
}

/// `path` with the home directory written `~`, where the path lies inside
/// a home that is not empty.
pub open spec fn tilde(path: Seq<char>, home: Seq<char>) -> Seq<char> {
    if home.len() > 0 && inside(path, home) {
        seq!['~'] + path.skip(home.len() as int)
    } else {
        path
    }
}

/// The first character of `s`, if any.
pub open spec fn first_char(s: Seq<char>) -> Seq<char> {
    if s.len() == 0 {
        seq![]
    } else {
        seq![s[0]]
    }
}

/// Component `i` as shown: the last two, and `~`, whole; the others cut to
/// their first character.
pub open spec fn short_part(parts: Seq<Seq<char>>, i: int) -> Seq<char> {
    if i + 2 >= parts.len() || parts[i] == seq!['~'] {
        parts[i]
    } else {
        first_char(parts[i])
    }
}

/// The fish-style path: a path inside home starts with `~` in place of
/// home; of more than two components,
/// all but the last two are cut to their first character, and a leading
/// `/` stays.
pub open spec fn shorten_text(path: Seq<char>, home: Seq<char>) -> Seq<char> {
    let p = tilde(path, home);
    let parts = fields(p, Separator::Char('/'));
    if parts.len() <= 2 {
        p
    } else {
        let joined = join(Seq::new(parts.len(), |i: int| short_part(parts, i)), seq!['/']);
        if has_prefix(p, seq!['/']) {
            seq!['/'] + joined
        } else {
            joined
        }
    }
}

/// Fish-style: home (at a component boundary) becomes ~, every component
/// except the last two is cut to its first character. `/Users/x/Developer/smoobu/wiki` ->
/// `~/D/smoobu/wiki`.
pub fn shorten(path: &str, home: &str) -> (r: String)
    ensures
        r@ == shorten_text(path@, home@),
{
    let pc: Vec<char> = to_chars(path);
    let hc: Vec<char> = to_chars(home);
    let p: Vec<char> = if hc.len() > 0 && starts_with(&pc, &hc) && (pc.len() == hc.len()
        || pc[hc.len()] == '/') {
        let mut t: Vec<char> = vec!['~'];
        let rest: Vec<char> = crate::text::copy_range(&pc, hc.len(), pc.len());
        push_all(&mut t, &rest);
        assert(t@ =~= tilde(path@, home@));
        t
    } else {
        pc
    };
    assert(p@ == tilde(path@, home@));
    let parts: Vec<Vec<char>> = split_fields(&p, Separator::Char('/'));
    let ghost pv = views(parts@);
    let n: usize = parts.len();
    if n <= 2 {
        return string_from_chars(&p);
    }
    let ghost shorts = Seq::new(n as nat, |i: int| short_part(pv, i));
    let slash: Vec<char> = vec!['/'];
    let home_mark: Vec<char> = vec!['~'];
    assert(slash@ == seq!['/']);
    assert(home_mark@ == seq!['~']);
    let lead: bool = starts_with(&p, &slash);
    let mut out: Vec<char> = Vec::new();
    if lead {
        out.push('/');
    }
    let ghost start = out@;
    let mut i: usize = 0;
    while i < n
        invariant
            i <= n == parts@.len() == pv.len(),
            n > 2,
            pv == views(parts@),
            shorts == Seq::new(n as nat, |i: int| short_part(pv, i)),
            home_mark@ == seq!['~'],
            out@ == start + join(shorts.take(i as int), seq!['/']),
        decreases n - i,
    {
        let ghost before = out@;
        if i > 0 {
            out.push('/');
        }
        let part: &Vec<char> = &parts[i];
        assert(part@ == pv[i as int]);
        if i >= n - 2 || same_chars(part, &home_mark) {
            push_all(&mut out, part);
        } else if part.len() > 0 {
            out.push(part[0]);
        }
        assert(shorts.take(i + 1).drop_last() =~= shorts.take(i as int));
        assert(out@ =~= start + join(shorts.take(i + 1), seq!['/']));
        i = i + 1;
    }
    assert(shorts.take(n as int) =~= shorts);
    assert(out@ =~= shorten_text(path@, home@));
    string_from_chars(&out)
}

/// The branch name as shown: cut after `BRANCH_MAX` characters, with an
/// ellipsis where it was cut.
pub open spec fn branch_name(b: Seq<char>) -> Seq<char> {
    if b.len() > BRANCH_MAX {
        b.take(BRANCH_MAX as int).push(ELLIPSIS)
    } else {
        b
    }
}

/// The git segment's text: the glyph (Nerd style only), the branch, ` *`
/// where the tree is dirty, and the counts ahead and behind where above
/// zero.
pub open spec fn branch_text(g: GitView, style: Style) -> Seq<char> {
    let name = branch_name(g.branch);
    let lead = match style {
        Style::Nerd => seq![BRANCH_GLYPH, ' '] + name,
        Style::Plain => name,
    };
    lead + (if g.dirty {
        seq![' ', '*']
    } else {
        seq![]
    }) + count_mark(AHEAD_ARROW, g.ahead) + count_mark(BEHIND_ARROW, g.behind)
}

/// ` <arrow><n>` where `n` is above zero, else nothing.
pub open spec fn count_mark(arrow: char, n: i64) -> Seq<char> {
    if n > 0 {
        seq![' ', arrow] + decimal(n as nat)
    } else {
        seq![]
    }
}

fn push_count(out: &mut Vec<char>, arrow: char, n: i64)
    ensures
        final(out)@ == old(out)@ + count_mark(arrow, n),
{
    if n > 0 {
        out.push(' ');
        out.push(arrow);
        push_u64(out, n as u64);
    }
    assert(out@ =~= old(out)@ + count_mark(arrow, n));
}

fn push_branch_name(out: &mut Vec<char>, name: &[char])
    ensures
        final(out)@ == old(out)@ + branch_name(name@),
{
    let keep: usize = if name.len() > BRANCH_MAX { BRANCH_MAX } else { name.len() };
    let cut: Vec<char> = crate::text::copy_range(name, 0, keep);
    push_all(out, &cut);
    if name.len() > BRANCH_MAX {
        out.push(ELLIPSIS);
    }
    assert(name@.subrange(0, name@.len() as int) =~= name@);
    assert(out@ =~= old(out)@ + branch_name(name@));
}

/// The git segment's text for `g` in `style`.
pub fn branch(g: &GitInfo, style: Style) -> (r: String)
    ensures
        r@ == branch_text(g@, style),
{
    let name: Vec<char> = to_chars(g.branch.as_str());
    let mut out: Vec<char> = Vec::new();
    if style == Style::Nerd {
        out.push(BRANCH_GLYPH);
        out.push(' ');
    }
    push_branch_name(&mut out, &name);
    if g.dirty {
        out.push(' ');
        out.push('*');
    }
    push_count(&mut out, AHEAD_ARROW, g.ahead);
    push_count(&mut out, BEHIND_ARROW, g.behind);
    assert(out@ =~= branch_text(g@, style));
    string_from_chars(&out)
}

/// The lines-changed segment's text: `+added -removed`, unless the
/// payload has no cost or both counts are zero.
pub open spec fn lines_text(payload: Payload) -> Option<Seq<char>> {
    match payload.cost {
        Some(c) => if c.total_lines_added == 0 && c.total_lines_removed == 0 {
            None
        } else {
            Some(
                seq!['+'] + int_text(c.total_lines_added as int) + seq![' ', '-'] + int_text(
                    c.total_lines_removed as int,
                ),
            )
        },
        None => None,
    }
}

/// The lines-changed segment's text; `None` where nothing changed.
pub fn lines_changed(payload: &Payload) -> (r: Option<String>)
    ensures
        match r {
            Some(t) => lines_text(*payload) == Some(t@),
            None => lines_text(*payload) is None,
        },
{
    match &payload.cost {
        Some(c) => {
            if c.total_lines_added == 0 && c.total_lines_removed == 0 {
                return None;
            }
            let mut out: Vec<char> = vec!['+'];
            push_i64(&mut out, c.total_lines_added);
            out.push(' ');
            out.push('-');
            push_i64(&mut out, c.total_lines_removed);
            assert(out@ =~= lines_text(*payload)->0);
            Some(string_from_chars(&out))
        },
        None => None,
    }
}

/// ` <time left>` where the window gives its reset time, else nothing.
pub open spec fn reset_mark(w: RateLimitWindow, now: int) -> Seq<char> {
    match w.resets_at {
        Some(r) => seq![' '] + until_text(r - now),
        None => seq![],
    }
}

/// One usage window's text: `<label> <bar> <pct>%`, then the time left
/// until it resets; nothing where the window gives no percentage.
pub open spec fn window_text(label: Seq<char>, w: RateLimitWindow, now: int) -> Option<
    Seq<char>,
> {
    match w.used_percentage {
        Some(p) => Some(
            label + seq![' '] + bar_cells(p.usage_cells as nat, USAGE_BAR_WIDTH as nat) + seq![' ']
                + p.shown@ + seq!['%'] + reset_mark(w, now),
        ),
        None => None,
    }
}

/// The time left until a shown window resets fits in an `i64`.
pub open spec fn window_fits(w: RateLimitWindow, now: int) -> bool {
    w.used_percentage is Some ==> (w.resets_at matches Some(r) ==> i64::MIN <= r - now
        <= i64::MAX)
}

/// The label of the five-hour window.
pub open spec fn five_label() -> Seq<char> {
    seq!['5', 'h']
}

/// The label of the seven-day window.
pub open spec fn seven_label() -> Seq<char> {
    seq!['7', 'd']
}

/// A window's text, where the window is there and shown.
pub open spec fn opt_window(label: Seq<char>, w: Option<RateLimitWindow>, now: int) -> Option<
    Seq<char>,
> {
    match w {
        Some(w) => window_text(label, w, now),
        None => None,
    }
}

/// The one-element list of a present value.
pub open spec fn listed(o: Option<Seq<char>>) -> Seq<Seq<char>> {
    match o {
        Some(x) => seq![x],
        None => seq![],
    }
}

/// Separates the usage windows.
pub open spec fn window_sep() -> Seq<char> {
    seq![' ', WINDOW_BAR, ' ']
}

/// The usage segment's text: the shown windows, five-hour first, joined by
/// ` │ `; nothing without rate limits or without a shown window.
pub open spec fn usage_text(payload: Payload, now: int) -> Option<Seq<char>> {
    match payload.rate_limits {
        Some(l) => {
            let parts = listed(opt_window(five_label(), l.five_hour, now)) + listed(
                opt_window(seven_label(), l.seven_day, now),
            );
            if parts.len() == 0 {
                None
            } else {
                Some(join(parts, window_sep()))
            }
        },
        None => None,
    }
}

/// The reset times of the shown windows are within reach of `now`.
pub open spec fn usage_fits(payload: Payload, now: int) -> bool {
    payload.rate_limits matches Some(l) ==> {
        &&& l.five_hour matches Some(w) ==> window_fits(w, now)
        &&& l.seven_day matches Some(w) ==> window_fits(w, now)
    }
}

fn window_part(label: &[char], w: &Option<RateLimitWindow>, now: i64) -> (r: Option<Vec<char>>)
    requires
        *w matches Some(x) ==> window_fits(x, now as int),
    ensures
        match r {
            Some(v) => opt_window(label@, *w, now as int) == Some(v@),
            None => opt_window(label@, *w, now as int) is None,
        },
{
    let w: &RateLimitWindow = match w {
        Some(w) => w,
        None => return None,
    };
    let p: &Percent = match &w.used_percentage {
        Some(p) => p,
        None => return None,
    };
    let mut out: Vec<char> = Vec::new();
    push_all(&mut out, label);
    out.push(' ');
    push_bar(&mut out, p.usage_cells, USAGE_BAR_WIDTH);
    out.push(' ');
    let shown: Vec<char> = to_chars(p.shown.as_str());
    push_all(&mut out, &shown);
    out.push('%');
    let ghost body = out@;
    match w.resets_at {
        Some(r) => {
            out.push(' ');
            push_until(&mut out, r - now);
        },
        None => {},
    }
    assert(out@ =~= body + reset_mark(*w, now as int));
    assert(out@ =~= window_text(label@, *w, now as int)->0);
    Some(out)
}

/// The usage segment's text: each rate-limit window with a percentage as
/// `<label> <bar> <pct>%` and the time until it resets, joined by ` │ `.
pub fn usage(payload: &Payload, now: i64) -> (r: Option<String>)
    requires
        usage_fits(*payload, now as int),
    ensures
        match r {
            Some(t) => usage_text(*payload, now as int) == Some(t@),
            None => usage_text(*payload, now as int) is None,
        },
{
    let limits = match &payload.rate_limits {
        Some(l) => l,
        None => return None,
    };
    let five: Vec<char> = vec!['5', 'h'];
    let seven: Vec<char> = vec!['7', 'd'];
    assert(five@ == five_label());
    assert(seven@ == seven_label());
    let a = window_part(&five, &limits.five_hour, now);
    let b = window_part(&seven, &limits.seven_day, now);
    let ghost pa = opt_window(five_label(), limits.five_hour, now as int);
    let ghost pb = opt_window(seven_label(), limits.seven_day, now as int);
    let out: Vec<char> = match (a, b) {
        (None, None) => {
            assert(listed(pa) + listed(pb) =~= seq![]);
            return None;
        },
        (Some(x), None) => {
            assert(listed(pa) + listed(pb) =~= seq![x@]);
            x
        },
        (None, Some(y)) => {
            assert(listed(pa) + listed(pb) =~= seq![y@]);
            y
        },
        (Some(x), Some(y)) => {
            let ghost parts = seq![x@, y@];
            assert(listed(pa) + listed(pb) =~= parts);
            assert(parts.drop_last() =~= seq![x@]);
            assert(join(parts.drop_last(), window_sep()) == x@);
            let mut o: Vec<char> = x;
            o.push(' ');
            o.push(WINDOW_BAR);
            o.push(' ');
            push_all(&mut o, &y);
            assert(o@ =~= join(parts, window_sep()));
            o
        },
    };
    Some(string_from_chars(&out))
}

/// The directory the payload names: the workspace's, else `cwd`.
pub open spec fn dir_of(payload: Payload) -> Option<Seq<char>> {
    if payload.workspace matches Some(w) && w.current_dir is Some {
        Some(payload.workspace->0.current_dir->0@)
    } else {
        match payload.cwd {
            Some(c) => Some(c@),
            None => None,
        }
    }
}

/// The directory segment's text: that directory, shortened.
pub open spec fn directory_text(payload: Payload, home: Seq<char>) -> Option<Seq<char>> {
    match dir_of(payload) {
        Some(d) => Some(shorten_text(d, home)),
        None => None,
    }
}

/// The directory segment's text, with `home` the user's home directory.
pub fn directory(payload: &Payload, home: &str) -> (r: Option<String>)
    ensures
        match r {
            Some(t) => directory_text(*payload, home@) == Some(t@),
            None => directory_text(*payload, home@) is None,
        },
{
    if let Some(w) = &payload.workspace {
        if let Some(d) = &w.current_dir {
            return Some(shorten(d.as_str(), home));
        }
    }
    match &payload.cwd {
        Some(c) => Some(shorten(c.as_str(), home)),
        None => None,
    }
}

/// The model segment's text: the display name, where it is given and not
/// empty.
pub open spec fn model_text(payload: Payload) -> Option<Seq<char>> {
    if payload.model matches Some(m) && m.display_name matches Some(n) && n@.len() > 0 {
        Some(payload.model->0.display_name->0@)
    } else {
        None
    }
}

/// The context segment's text: `<bar> <pct>%`, where the share used is
/// known.
pub open spec fn context_text(payload: Payload) -> Option<Seq<char>> {
    if payload.context_window matches Some(c) && c.used is Some {
        let p = payload.context_window->0.used->0;
        Some(
            bar_cells(p.context_cells as nat, CONTEXT_BAR_WIDTH as nat) + seq![' '] + p.shown@
                + seq!['%'],
        )
    } else {
        None
    }
}

/// What the line shows of one segment: its text, background and weight.
pub open spec fn seg_view(s: Segment) -> (Seq<char>, Rgb, bool) {
    (s.text@, s.bg, s.bold)
}

/// What the line shows of each segment.
pub open spec fn seg_views(v: Seq<Segment>) -> Seq<(Seq<char>, Rgb, bool)> {
    v.map_values(|s: Segment| seg_view(s))
}

/// A segment with text `t` on `bg`, where `t` is there.
pub open spec fn maybe(t: Option<Seq<char>>, bg: Rgb, bold: bool) -> Seq<(Seq<char>, Rgb, bool)> {
    match t {
        Some(x) => seq![(x, bg, bold)],
        None => seq![],
    }
}

/// The git segment's text, where there is a repository.
pub open spec fn git_text(git: Option<GitView>, style: Style) -> Option<Seq<char>> {
    match git {
        Some(g) => Some(branch_text(g, style)),
        None => None,
    }
}

/// The segments of the line, in order: directory (peach), git branch
/// (yellow), lines changed (green, bold), model (sapphire, bold), context
/// (lavender), usage (mauve); each only where its data is there.
pub open spec fn segments_of(
    payload: Payload,
    git: Option<GitView>,
    now: int,
    style: Style,
    home: Seq<char>,
) -> Seq<(Seq<char>, Rgb, bool)> {
    maybe(directory_text(payload, home), peach(), false) + maybe(git_text(git, style), yellow(), false)
        + maybe(lines_text(payload), green(), true) + maybe(model_text(payload), sapphire(), true)
        + maybe(context_text(payload), lavender(), false) + maybe(usage_text(payload, now), mauve(), false)
}

/// The view of an optional git summary.
pub open spec fn git_view(git: Option<&GitInfo>) -> Option<GitView> {
    match git {
        Some(g) => Some(g@),
        None => None,
    }
}

fn push_maybe(segs: &mut Vec<Segment>, text: Option<String>, bg: Rgb, bold: bool)
    ensures
        seg_views(final(segs)@) == seg_views(old(segs)@) + maybe(
            match text {
                Some(t) => Some(t@),
                None => None,
            },
            bg,
            bold,
        ),
{
    match text {
        Some(t) => {
            let ghost tv = t@;
            segs.push(Segment { text: t, bg, bold });
            assert(seg_views(segs@) =~= seg_views(old(segs)@) + seq![(tv, bg, bold)]);
        },
        None => {
            assert(seg_views(segs@) =~= seg_views(old(segs)@) + seq![]);
        },
    }
}

/// The segments of the line, from the payload, the git data where there
/// is a repository, the time `now` (seconds since the epoch), the style
/// and the home directory.
pub fn build(payload: &Payload, git: Option<&GitInfo>, now: i64, style: Style, home: &str) -> (r:
    Vec<Segment>)
    requires
        usage_fits(*payload, now as int),
    ensures
        seg_views(r@) == segments_of(*payload, git_view(git), now as int, style, home@),
{
    let mut segs: Vec<Segment> = Vec::new();
    assert(seg_views(segs@) =~= seq![]);
    let dir = directory(payload, home);
    push_maybe(&mut segs, dir, peach(), false);
    let g = match git {
        Some(g) => Some(branch(g, style)),
        None => None,
    };
    push_maybe(&mut segs, g, yellow(), false);
    let lines = lines_changed(payload);
    push_maybe(&mut segs, lines, green(), true);
    let model: Option<String> = match &payload.model {
        Some(m) => match &m.display_name {
            Some(n) => {
                if n.as_str().is_empty() {
                    None
                } else {
                    Some(string_from_chars(&to_chars(n.as_str())))
                }
            },
            None => None,
        },
        None => None,
    };
    push_maybe(&mut segs, model, sapphire(), true);
    let context: Option<String> = match &payload.context_window {
        Some(c) => match &c.used {
            Some(p) => {
                let mut out: Vec<char> = Vec::new();
                push_bar(&mut out, p.context_cells, CONTEXT_BAR_WIDTH);
                out.push(' ');
                let shown: Vec<char> = to_chars(p.shown.as_str());
                push_all(&mut out, &shown);
                out.push('%');
                assert(out@ =~= context_text(*payload)->0);
                Some(string_from_chars(&out))
            },
            None => None,
        },
        None => None,
    };
    push_maybe(&mut segs, context, lavender(), false);
    let u = usage(payload, now);
    push_maybe(&mut segs, u, mauve(), false);
    segs
}

/// The shown branch name has at most `BRANCH_MAX` characters of the
/// branch, and an ellipsis only where the name was longer.
pub proof fn lemma_branch_name_bounded(b: Seq<char>)
    ensures
        branch_name(b).len() <= BRANCH_MAX + 1,
        b.len() <= BRANCH_MAX ==> branch_name(b) == b,
        b.len() > BRANCH_MAX ==> branch_name(b) == b.take(BRANCH_MAX as int).push(ELLIPSIS),
{
}

/// The line has at most six segments, in a fixed order, each only where
/// its data is there: with an empty payload and no repository, none.
pub proof fn lemma_segments_shape(
    payload: Payload,
    git: Option<GitView>,
    now: int,
    style: Style,
    home: Seq<char>,
)
    ensures
        segments_of(payload, git, now, style, home).len() <= 6,
        payload.cwd is None && payload.model is None && payload.workspace is None
            && payload.cost is None && payload.context_window is None && payload.rate_limits is None
            && git is None ==> segments_of(payload, git, now, style, home).len() == 0,
{
}

/// The home directory itself shows as `~`.
pub proof fn lemma_home_is_tilde(home: Seq<char>)
    requires
        home.len() > 0,
    ensures
        shorten_text(home, home) == seq!['~'],
{
    assert(home.take(home.len() as int) =~= home);
    let p = tilde(home, home);
    assert(p =~= seq!['~']);
    assert(seq!['~'].drop_last() =~= seq![]);
    assert(fields(seq!['~'], Separator::Char('/')).len() == 1) by {
        reveal_with_fuel(crate::text::field_scan, 2);
    }
}

/// A path component as `fields` gives it: not empty, and without `/`.
pub open spec fn component(x: Seq<char>) -> bool {
    x.len() > 0 && forall|i: int| 0 <= i < x.len() ==> x[i] != '/'
}

proof fn lemma_scan_components(s: Seq<char>)
    ensures
        forall|i: int|
            0 <= i < field_scan(s, Separator::Char('/')).0.len() ==> component(
                #[trigger] field_scan(s, Separator::Char('/')).0[i],
            ),
        forall|i: int|
            0 <= i < field_scan(s, Separator::Char('/')).1.len() ==> #[trigger] field_scan(
                s,
                Separator::Char('/'),
            ).1[i] != '/',
    decreases s.len(),
{
    let k = Separator::Char('/');
    if s.len() > 0 {
        let t = s.drop_last();
        lemma_scan_components(t);
        let d = field_scan(t, k).0;
        let c = field_scan(t, k).1;
        let x = s.last();
        if x == '/' {
            if c.len() > 0 {
                assert(field_scan(s, k).0 == d.push(c));
                assert forall|i: int| 0 <= i < d.push(c).len() implies component(
                    #[trigger] d.push(c)[i],
                ) by {
                    if i < d.len() {
                        assert(d.push(c)[i] == d[i]);
                    } else {
                        assert(forall|m: int| 0 <= m < c.len() ==> c[m] != '/');
                    }
                }
            }
        } else {
            assert(field_scan(s, k).1 == c.push(x));
            assert forall|i: int| 0 <= i < c.push(x).len() implies #[trigger] c.push(x)[i] != '/' by {
                if i < c.len() {
                    assert(c.push(x)[i] == c[i]);
                }
            }
        }
    }
}

proof fn lemma_fields_components(s: Seq<char>)
    ensures
        forall|i: int|
            0 <= i < fields(s, Separator::Char('/')).len() ==> component(
                #[trigger] fields(s, Separator::Char('/'))[i],
            ),
{
    lemma_scan_components(s);
}

proof fn lemma_scan_append_plain(s: Seq<char>, b: Seq<char>)
    requires
        forall|i: int| 0 <= i < b.len() ==> b[i] != '/',
    ensures
        field_scan(s + b, Separator::Char('/')) == (
            field_scan(s, Separator::Char('/')).0,
            field_scan(s, Separator::Char('/')).1 + b,
        ),
    decreases b.len(),
{
    let k = Separator::Char('/');
    if b.len() == 0 {
        assert(s + b =~= s);
        assert(field_scan(s, k).1 + b =~= field_scan(s, k).1);
    } else {
        lemma_scan_append_plain(s, b.drop_last());
        assert((s + b).drop_last() =~= s + b.drop_last());
        assert((s + b).last() == b.last());
        assert(field_scan(s, k).1 + b =~= (field_scan(s, k).1 + b.drop_last()).push(b.last()));
    }
}

proof fn lemma_scan_join(pre: Seq<char>, xs: Seq<Seq<char>>)
    requires
        xs.len() > 0,
        field_scan(pre, Separator::Char('/')).1.len() == 0,
        forall|i: int| 0 <= i < xs.len() ==> component(#[trigger] xs[i]),
    ensures
        field_scan(pre + join(xs, seq!['/']), Separator::Char('/')) == (
            field_scan(pre, Separator::Char('/')).0 + xs.drop_last(),
            xs.last(),
        ),
    decreases xs.len(),
{
    let k = Separator::Char('/');
    let d = field_scan(pre, k).0;
    if xs.len() == 1 {
        assert(component(xs[0]));
        lemma_scan_append_plain(pre, xs[0]);
        assert(field_scan(pre, k).1 + xs[0] =~= xs[0]);
        assert(d + xs.drop_last() =~= d);
    } else {
        let dl = xs.drop_last();
        assert(forall|i: int| 0 <= i < dl.len() ==> dl[i] == xs[i]);
        lemma_scan_join(pre, dl);
        let front = pre + join(dl, seq!['/']);
        let withsep = front.push('/');
        assert(withsep.drop_last() =~= front);
        assert(component(dl.last()));
        assert(field_scan(withsep, k) == (d + dl.drop_last() + seq![dl.last()], Seq::<char>::empty()));
        assert(d + dl.drop_last() + seq![dl.last()] =~= d + dl);
        assert(component(xs.last()));
        lemma_scan_append_plain(withsep, xs.last());
        assert(pre + join(xs, seq!['/']) =~= withsep + xs.last());
        assert(Seq::<char>::empty() + xs.last() =~= xs.last());
    }
}

proof fn lemma_join_starts(xs: Seq<Seq<char>>)
    requires
        xs.len() > 0,
        xs[0].len() > 0,
    ensures
        join(xs, seq!['/']).len() > 0,
        join(xs, seq!['/'])[0] == xs[0][0],
    decreases xs.len(),
{
    if xs.len() > 1 {
        lemma_join_starts(xs.drop_last());
    }
}

/// Shortening an already shortened path (with no home) changes nothing.
pub proof fn lemma_shorten_idempotent(path: Seq<char>, home: Seq<char>)
    ensures
        shorten_text(shorten_text(path, home), seq![]) == shorten_text(path, home),
{
    let k = Separator::Char('/');
    let p = tilde(path, home);
    let parts = fields(p, k);
    let r = shorten_text(path, home);
    assert(tilde(r, seq![]) == r);
    if parts.len() > 2 {
        let n = parts.len();
        let shorts = Seq::new(n, |i: int| short_part(parts, i));
        let j = join(shorts, seq!['/']);
        lemma_fields_components(p);
        assert forall|i: int| 0 <= i < shorts.len() implies component(#[trigger] shorts[i]) by {
            assert(component(parts[i]));
            if !(i + 2 >= n || parts[i] == seq!['~']) {
                assert(shorts[i] == seq![parts[i][0]]);
            }
        }
        let lead = has_prefix(p, seq!['/']);
        let pre: Seq<char> = if lead {
            seq!['/']
        } else {
            seq![]
        };
        assert(field_scan(pre, k).1.len() == 0 && field_scan(pre, k).0.len() == 0) by {
            assert(field_scan(Seq::<char>::empty(), k) == (
                Seq::<Seq<char>>::empty(),
                Seq::<char>::empty(),
            ));
            if lead {
                assert(seq!['/'].drop_last() =~= Seq::<char>::empty());
                assert(seq!['/'].last() == '/');
            }
        }
        lemma_scan_join(pre, shorts);
        assert(r =~= pre + j);
        assert(field_scan(pre, k).0 + shorts.drop_last() =~= shorts.drop_last());
        assert(fields(r, k) =~= shorts);
        let shorts2 = Seq::new(n, |i: int| short_part(shorts, i));
        assert forall|i: int| 0 <= i < n implies shorts2[i] == shorts[i] by {
            if !(i + 2 >= n || shorts[i] == seq!['~']) {
                assert(parts[i] != seq!['~']);
                assert(shorts[i] =~= first_char(shorts[i]));
            }
        }
        assert(shorts2 =~= shorts);
        lemma_join_starts(shorts);
        if lead {
            assert(r.take(1) =~= seq!['/']);
        } else {
            assert(r == j);
            assert(j[0] == shorts[0][0]);
            assert(r.take(1)[0] == r[0]);
        }
        assert(has_prefix(r, seq!['/']) == lead);
    }
}

/// The lines-changed segment: missing exactly when the payload has no
/// cost or both counts are zero; otherwise `+added -removed`.
pub proof fn law_lines_changed(payload: Payload)
    ensures
        lines_text(payload) is None <==> (payload.cost is None || (
        payload.cost->0.total_lines_added == 0 && payload.cost->0.total_lines_removed == 0)),
        lines_text(payload) matches Some(t) ==> t == seq!['+'] + int_text(
            payload.cost->0.total_lines_added as int,
        ) + seq![' ', '-'] + int_text(payload.cost->0.total_lines_removed as int),
{
}

/// The branch name as the segment shows it, written out.
pub open spec fn shown_name(b: Seq<char>) -> Seq<char> {
    if b.len() <= 30 {
        b
    } else {
        b.take(30).push('\u{2026}')
    }
}

/// The git segment in both styles: the Nerd text is the glyph and a space
/// before the plain text; the plain text is the shown name, then ` *`
/// exactly when the tree is dirty, then ` ⇡ahead` and ` ⇣behind` for
/// counts above zero.
pub proof fn law_branch_text(g: GitView)
    ensures
        branch_text(g, Style::Nerd) == seq!['\u{e0a0}', ' '] + branch_text(g, Style::Plain),
        ({
            let plain = branch_text(g, Style::Plain);
            let name = shown_name(g.branch);
            let k = name.len() as int;
            &&& plain.len() >= k
            &&& plain.take(k) == name
            &&& g.dirty <==> (plain.len() >= k + 2 && plain[k] == ' ' && plain[k + 1] == '*')
            &&& plain.skip(if g.dirty { k + 2 } else { k }) == (if g.ahead > 0 {
                seq![' ', '\u{21e1}'] + decimal(g.ahead as nat)
            } else {
                seq![]
            }) + (if g.behind > 0 {
                seq![' ', '\u{21e3}'] + decimal(g.behind as nat)
            } else {
                seq![]
            })
        }),
{
    let plain = branch_text(g, Style::Plain);
    let name = shown_name(g.branch);
    let k = name.len() as int;
    assert(branch_name(g.branch) == name);
    let d = if g.dirty {
        seq![' ', '*']
    } else {
        seq![]
    };
    let rest = count_mark(AHEAD_ARROW, g.ahead) + count_mark(BEHIND_ARROW, g.behind);
    assert(plain =~= name + d + rest);
    assert(branch_text(g, Style::Nerd) =~= seq![BRANCH_GLYPH, ' '] + plain);
    assert(plain.take(k) =~= name);
    assert(plain.skip(if g.dirty { k + 2 } else { k }) =~= rest);
    if !g.dirty && plain.len() >= k + 2 && plain[k] == ' ' {
        assert(plain[k + 1] == rest[1]);
        if g.ahead > 0 {
            assert(rest[1] == AHEAD_ARROW);
        } else {
            assert(rest[1] == BEHIND_ARROW);
        }
    }
}

/// One shown usage window, written out: the label, the bar, the
/// percentage, and the time left where it resets.
pub open spec fn shown_window(label: Seq<char>, p: Percent, resets: Option<i64>, now: int) -> Seq<
    char,
> {
    label + seq![' '] + bar_cells(p.usage_cells as nat, 5) + seq![' '] + p.shown@ + seq!['%']
        + match resets {
        Some(r) => seq![' '] + until_text(r - now),
        None => seq![],
    }
}

/// The usage segment: nothing without rate limits or without a window that
/// gives a percentage; otherwise the five-hour window, then the seven-day
/// one, each with the time left until its reset whatever it is, joined by
/// ` │ `.
pub proof fn law_usage_windows(payload: Payload, now: int)
    requires
        payload.rate_limits is Some,
    ensures
        ({
            let l = payload.rate_limits->0;
            let five = l.five_hour matches Some(w) && w.used_percentage is Some;
            let seven = l.seven_day matches Some(w) && w.used_percentage is Some;
            let a = shown_window(
                seq!['5', 'h'],
                l.five_hour->0.used_percentage->0,
                l.five_hour->0.resets_at,
                now,
            );
            let b = shown_window(
                seq!['7', 'd'],
                l.seven_day->0.used_percentage->0,
                l.seven_day->0.resets_at,
                now,
            );
            &&& !five && !seven ==> usage_text(payload, now) is None
            &&& five && !seven ==> usage_text(payload, now) == Some(a)
            &&& !five && seven ==> usage_text(payload, now) == Some(b)
            &&& five && seven ==> usage_text(payload, now) == Some(
                a + seq![' ', '\u{2502}', ' '] + b,
            )
        }),
{
    let l = payload.rate_limits->0;
    let pa = opt_window(five_label(), l.five_hour, now);
    let pb = opt_window(seven_label(), l.seven_day, now);
    if l.five_hour matches Some(w) && w.used_percentage is Some {
        let w = l.five_hour->0;
        assert(pa->0 =~= shown_window(seq!['5', 'h'], w.used_percentage->0, w.resets_at, now));
    }
    if l.seven_day matches Some(w) && w.used_percentage is Some {
        let w = l.seven_day->0;
        assert(pb->0 =~= shown_window(seq!['7', 'd'], w.used_percentage->0, w.resets_at, now));
    }
    let parts = listed(pa) + listed(pb);
    if pa is Some && pb is Some {
        assert(parts =~= seq![pa->0, pb->0]);
        assert(parts.drop_last() =~= seq![pa->0]);
        assert(join(parts.drop_last(), window_sep()) == pa->0);
    } else if pa is Some {
        assert(parts =~= seq![pa->0]);
    } else if pb is Some {
        assert(parts =~= seq![pb->0]);
    } else {
        assert(parts =~= seq![]);
    }
}

/// A shown window that gives its reset time `r` ends its part of the
/// usage text with a space and the time left, `r - now`, in full (days
/// included).
pub proof fn law_window_ends_with_reset(label: Seq<char>, p: Percent, r: i64, now: int)
    ensures
        ({
            let t = shown_window(label, p, Some(r), now);
            let tail = seq![' '] + until_text(r - now);
            t.len() >= tail.len() && t.skip(t.len() - tail.len()) == tail
        }),
{
    let t = shown_window(label, p, Some(r), now);
    let tail = seq![' '] + until_text(r - now);
    assert(t.skip(t.len() - tail.len()) =~= tail);
}

/// The rank of a segment color in the line: peach, yellow, green,
/// sapphire, lavender, mauve.
pub open spec fn color_rank(c: Rgb) -> int {
    if c == peach() {
        0
    } else if c == yellow() {
        1
    } else if c == green() {
        2
    } else if c == sapphire() {
        3
    } else if c == lavender() {
        4
    } else {
        5
    }
}

/// No segment of `s` has color `c`.
pub open spec fn lacks(s: Seq<(Seq<char>, Rgb, bool)>, c: Rgb) -> bool {
    forall|i: int| 0 <= i < s.len() ==> (#[trigger] s[i]).1 != c
}

/// Some segment of `s` has color `c`.
pub open spec fn has_color(s: Seq<(Seq<char>, Rgb, bool)>, c: Rgb) -> bool {
    exists|i: int| 0 <= i < s.len() && (#[trigger] s[i]).1 == c
}

/// Every segment of `s` with color `c` is `(t, c, bold)`.
pub open spec fn only_as(s: Seq<(Seq<char>, Rgb, bool)>, c: Rgb, t: Seq<char>, bold: bool) -> bool {
    forall|i: int| 0 <= i < s.len() && (#[trigger] s[i]).1 == c ==> s[i] == (t, c, bold)
}

/// The colors of `s` rise strictly in rank, all below `r`.
pub open spec fn ranked_below(s: Seq<(Seq<char>, Rgb, bool)>, r: int) -> bool {
    &&& forall|i: int, j: int|
        0 <= i < j < s.len() ==> color_rank((#[trigger] s[i]).1) < color_rank((#[trigger] s[j]).1)
    &&& forall|i: int| 0 <= i < s.len() ==> color_rank((#[trigger] s[i]).1) < r
}

proof fn lemma_lacks_concat(a: Seq<(Seq<char>, Rgb, bool)>, b: Seq<(Seq<char>, Rgb, bool)>, c: Rgb)
    requires
        lacks(a, c),
        lacks(b, c),
    ensures
        lacks(a + b, c),
{
    assert forall|i: int| 0 <= i < (a + b).len() implies (#[trigger] (a + b)[i]).1 != c by {
        if i < a.len() {
            assert((a + b)[i] == a[i]);
        } else {
            assert((a + b)[i] == b[i - a.len()]);
        }
    }
}

proof fn lemma_ranked_push(
    a: Seq<(Seq<char>, Rgb, bool)>,
    t: Option<Seq<char>>,
    c: Rgb,
    bold: bool,
)
    requires
        ranked_below(a, color_rank(c)),
    ensures
        ranked_below(a + maybe(t, c, bold), color_rank(c) + 1),
{
    let s = a + maybe(t, c, bold);
    assert forall|i: int| 0 <= i < s.len() implies color_rank((#[trigger] s[i]).1) < color_rank(c)
        + 1 by {
        if i < a.len() {
            assert(s[i] == a[i]);
        }
    }
    assert forall|i: int, j: int| 0 <= i < j < s.len() implies color_rank((#[trigger] s[i]).1)
        < color_rank((#[trigger] s[j]).1) by {
        assert(s[i] == a[i]);
        if j < a.len() {
            assert(s[j] == a[j]);
        }
    }
}

proof fn lemma_slot(
    a: Seq<(Seq<char>, Rgb, bool)>,
    t: Option<Seq<char>>,
    c: Rgb,
    bold: bool,
    b: Seq<(Seq<char>, Rgb, bool)>,
)
    requires
        lacks(a, c),
        lacks(b, c),
    ensures
        has_color(a + maybe(t, c, bold) + b, c) <==> t is Some,
        t matches Some(x) ==> only_as(a + maybe(t, c, bold) + b, c, x, bold),
{
    let m = maybe(t, c, bold);
    let s = a + m + b;
    if t is Some {
        assert(s[a.len() as int] == m[0]);
        assert(has_color(s, c));
        assert forall|i: int| 0 <= i < s.len() && (#[trigger] s[i]).1 == c implies s[i] == (
            t->0,
            c,
            bold,
        ) by {
            if i < a.len() {
                assert(s[i] == a[i]);
            } else if i > a.len() {
                assert(s[i] == b[i - a.len() - 1]);
            }
        }
    } else {
        assert(m =~= seq![]);
        lemma_lacks_concat(a, b, c);
        assert(s =~= a + b);
    }
}

proof fn lemma_lacks_maybe(t: Option<Seq<char>>, c: Rgb, bold: bool, d: Rgb)
    requires
        c != d,
    ensures
        lacks(maybe(t, c, bold), d),
{
}

/// The six optional segments, each of its own color, in the line's order.
pub open spec fn slots(
    payload: Payload,
    git: Option<GitView>,
    now: int,
    style: Style,
    home: Seq<char>,
) -> Seq<Seq<(Seq<char>, Rgb, bool)>> {
    seq![
        maybe(directory_text(payload, home), peach(), false),
        maybe(git_text(git, style), yellow(), false),
        maybe(lines_text(payload), green(), true),
        maybe(model_text(payload), sapphire(), true),
        maybe(context_text(payload), lavender(), false),
        maybe(usage_text(payload, now), mauve(), false),
    ]
}

/// The segment colors, in the line's order.
pub open spec fn slot_colors() -> Seq<Rgb> {
    seq![peach(), yellow(), green(), sapphire(), lavender(), mauve()]
}

proof fn lemma_slot_of(
    payload: Payload,
    git: Option<GitView>,
    now: int,
    style: Style,
    home: Seq<char>,
    k: int,
)
    requires
        0 <= k < 6,
    ensures
        ({
            let ms = slots(payload, git, now, style, home);
            let c = slot_colors()[k];
            let segs = segments_of(payload, git, now, style, home);
            &&& ms[k].len() <= 1
            &&& forall|i: int| 0 <= i < ms[k].len() ==> (#[trigger] ms[k][i]).1 == c
            &&& forall|j: int| 0 <= j < 6 && j != k ==> lacks(#[trigger] ms[j], c)
            &&& segs == ms[0] + ms[1] + ms[2] + ms[3] + ms[4] + ms[5]
        }),
{
}

proof fn lemma_in_slot(
    ms: Seq<Seq<(Seq<char>, Rgb, bool)>>,
    c: Rgb,
    k: int,
    t: Option<Seq<char>>,
    bold: bool,
)
    requires
        ms.len() == 6,
        0 <= k < 6,
        ms[k] == maybe(t, c, bold),
        forall|j: int| 0 <= j < 6 && j != k ==> lacks(#[trigger] ms[j], c),
    ensures
        has_color(ms[0] + ms[1] + ms[2] + ms[3] + ms[4] + ms[5], c) <==> t is Some,
        t matches Some(x) ==> only_as(ms[0] + ms[1] + ms[2] + ms[3] + ms[4] + ms[5], c, x, bold),
{
    let e: Seq<(Seq<char>, Rgb, bool)> = seq![];
    let all = ms[0] + ms[1] + ms[2] + ms[3] + ms[4] + ms[5];
    assert(lacks(e, c));
    let (m0, m1, m2, m3, m4, m5) = (ms[0], ms[1], ms[2], ms[3], ms[4], ms[5]);
    if k == 0 {
        assert(lacks(m1, c) && lacks(m2, c) && lacks(m3, c) && lacks(m4, c) && lacks(m5, c));
        lemma_lacks_concat(m1, m2, c);
        lemma_lacks_concat(m1 + m2, m3, c);
        lemma_lacks_concat(m1 + m2 + m3, m4, c);
        lemma_lacks_concat(m1 + m2 + m3 + m4, m5, c);
        lemma_slot(e, t, c, bold, m1 + m2 + m3 + m4 + m5);
        assert(e + m0 + (m1 + m2 + m3 + m4 + m5) =~= all);
    } else if k == 1 {
        assert(lacks(m0, c) && lacks(m2, c) && lacks(m3, c) && lacks(m4, c) && lacks(m5, c));
        lemma_lacks_concat(m2, m3, c);
        lemma_lacks_concat(m2 + m3, m4, c);
        lemma_lacks_concat(m2 + m3 + m4, m5, c);
        lemma_slot(m0, t, c, bold, m2 + m3 + m4 + m5);
        assert(m0 + m1 + (m2 + m3 + m4 + m5) =~= all);
    } else if k == 2 {
        assert(lacks(m0, c) && lacks(m1, c) && lacks(m3, c) && lacks(m4, c) && lacks(m5, c));
        lemma_lacks_concat(m0, m1, c);
        lemma_lacks_concat(m3, m4, c);
        lemma_lacks_concat(m3 + m4, m5, c);
        lemma_slot(m0 + m1, t, c, bold, m3 + m4 + m5);
        assert(m0 + m1 + m2 + (m3 + m4 + m5) =~= all);
    } else if k == 3 {
        assert(lacks(m0, c) && lacks(m1, c) && lacks(m2, c) && lacks(m4, c) && lacks(m5, c));
        lemma_lacks_concat(m0, m1, c);
        lemma_lacks_concat(m0 + m1, m2, c);
        lemma_lacks_concat(m4, m5, c);
        lemma_slot(m0 + m1 + m2, t, c, bold, m4 + m5);
        assert(m0 + m1 + m2 + m3 + (m4 + m5) =~= all);
    } else if k == 4 {
        assert(lacks(m0, c) && lacks(m1, c) && lacks(m2, c) && lacks(m3, c) && lacks(m5, c));
        lemma_lacks_concat(m0, m1, c);
        lemma_lacks_concat(m0 + m1, m2, c);
        lemma_lacks_concat(m0 + m1 + m2, m3, c);
        lemma_slot(m0 + m1 + m2 + m3, t, c, bold, m5);
    } else {
        assert(lacks(m0, c) && lacks(m1, c) && lacks(m2, c) && lacks(m3, c) && lacks(m4, c));
        lemma_lacks_concat(m0, m1, c);
        lemma_lacks_concat(m0 + m1, m2, c);
        lemma_lacks_concat(m0 + m1 + m2, m3, c);
        lemma_lacks_concat(m0 + m1 + m2 + m3, m4, c);
        lemma_slot(m0 + m1 + m2 + m3 + m4, t, c, bold, e);
        assert(all + e =~= all);
    }
}

/// The segments come in a fixed order of colors, each color at most once:
/// peach (directory), yellow (git), green (lines changed), sapphire
/// (model), lavender (context), mauve (usage).
pub proof fn law_segment_order(
    payload: Payload,
    git: Option<GitView>,
    now: int,
    style: Style,
    home: Seq<char>,
)
    ensures
        ranked_below(segments_of(payload, git, now, style, home), 6),
{
    let ms = slots(payload, git, now, style, home);
    let e: Seq<(Seq<char>, Rgb, bool)> = seq![];
    assert(ranked_below(e, 0));
    lemma_ranked_push(e, directory_text(payload, home), peach(), false);
    assert(e + ms[0] =~= ms[0]);
    lemma_ranked_push(ms[0], git_text(git, style), yellow(), false);
    lemma_ranked_push(ms[0] + ms[1], lines_text(payload), green(), true);
    lemma_ranked_push(ms[0] + ms[1] + ms[2], model_text(payload), sapphire(), true);
    lemma_ranked_push(ms[0] + ms[1] + ms[2] + ms[3], context_text(payload), lavender(), false);
    lemma_ranked_push(
        ms[0] + ms[1] + ms[2] + ms[3] + ms[4],
        usage_text(payload, now),
        mauve(),
        false,
    );
    lemma_slot_of(payload, git, now, style, home, 0);
}

/// The context segment is there exactly when the share used is known,
/// whatever it is (an empty bar too), and shows the eight-cell bar with
/// that many full cells, a space, the percentage and `%`.
pub proof fn law_context_segment(
    payload: Payload,
    git: Option<GitView>,
    now: int,
    style: Style,
    home: Seq<char>,
)
    ensures
        ({
            let segs = segments_of(payload, git, now, style, home);
            let known = payload.context_window matches Some(c) && c.used is Some;
            &&& has_color(segs, lavender()) <==> known
            &&& known ==> only_as(
                segs,
                lavender(),
                bar_cells(payload.context_window->0.used->0.context_cells as nat, 8) + seq![' ']
                    + payload.context_window->0.used->0.shown@ + seq!['%'],
                false,
            )
        }),
{
    lemma_slot_of(payload, git, now, style, home, 4);
    lemma_in_slot(slots(payload, git, now, style, home), lavender(), 4, context_text(payload), false);
}

/// The model segment is there exactly when the payload names a model with
/// a display name that is not empty, and shows that name, in bold.
pub proof fn law_model_segment(
    payload: Payload,
    git: Option<GitView>,
    now: int,
    style: Style,
    home: Seq<char>,
)
    ensures
        ({
            let segs = segments_of(payload, git, now, style, home);
            let named = payload.model matches Some(m) && m.display_name matches Some(n) && n@.len()
                > 0;
            &&& has_color(segs, sapphire()) <==> named
            &&& named ==> only_as(segs, sapphire(), payload.model->0.display_name->0@, true)
        }),
{
    lemma_slot_of(payload, git, now, style, home, 3);
    lemma_in_slot(slots(payload, git, now, style, home), sapphire(), 3, model_text(payload), true);
}

/// The lines-changed segment is there exactly when the payload has a cost
/// with a count other than zero, and shows `+added -removed` in bold.
pub proof fn law_lines_segment(
    payload: Payload,
    git: Option<GitView>,
    now: int,
    style: Style,
    home: Seq<char>,
)
    ensures
        ({
            let segs = segments_of(payload, git, now, style, home);
            let changed = payload.cost matches Some(c) && !(c.total_lines_added == 0
                && c.total_lines_removed == 0);
            &&& has_color(segs, green()) <==> changed
            &&& changed ==> only_as(
                segs,
                green(),
                seq!['+'] + int_text(payload.cost->0.total_lines_added as int) + seq![' ', '-']
                    + int_text(payload.cost->0.total_lines_removed as int),
                true,
            )
        }),
{
    lemma_slot_of(payload, git, now, style, home, 2);
    lemma_in_slot(slots(payload, git, now, style, home), green(), 2, lines_text(payload), true);
    law_lines_changed(payload);
}

/// The git segment is there exactly when there is a repository, and shows
/// the branch text in the given style.
pub proof fn law_git_segment(
    payload: Payload,
    git: Option<GitView>,
    now: int,
    style: Style,
    home: Seq<char>,
)
    ensures
        ({
            let segs = segments_of(payload, git, now, style, home);
            &&& has_color(segs, yellow()) <==> git is Some
            &&& git matches Some(g) ==> only_as(segs, yellow(), branch_text(g, style), false)
        }),
{
    lemma_slot_of(payload, git, now, style, home, 1);
    lemma_in_slot(slots(payload, git, now, style, home), yellow(), 1, git_text(git, style), false);
}

/// The directory segment is there exactly when the payload names a
/// directory (the workspace's, else `cwd`), and shows it shortened.
pub proof fn law_directory_segment(
    payload: Payload,
    git: Option<GitView>,
    now: int,
    style: Style,
    home: Seq<char>,
)
    ensures
        ({
            let segs = segments_of(payload, git, now, style, home);
            &&& has_color(segs, peach()) <==> dir_of(payload) is Some
            &&& dir_of(payload) matches Some(d) ==> only_as(
                segs,
                peach(),
                shorten_text(d, home),
                false,
            )
        }),
{
    lemma_slot_of(payload, git, now, style, home, 0);
    lemma_in_slot(
        slots(payload, git, now, style, home),
        peach(),
        0,
        directory_text(payload, home),
        false,
    );
}

/// The usage segment is there exactly when the usage text is, and shows it.
pub proof fn law_usage_segment(
    payload: Payload,
    git: Option<GitView>,
    now: int,
    style: Style,
    home: Seq<char>,
)
    ensures
        ({
            let segs = segments_of(payload, git, now, style, home);
            &&& has_color(segs, mauve()) <==> usage_text(payload, now) is Some
            &&& usage_text(payload, now) matches Some(t) ==> only_as(segs, mauve(), t, false)
        }),
{
    lemma_slot_of(payload, git, now, style, home, 5);
    lemma_in_slot(
        slots(payload, git, now, style, home),
        mauve(),
        5,
        usage_text(payload, now),
        false,
    );
}

/// The directory shown is the workspace's where it gives one, else
/// `cwd`, shortened; with neither there is no directory segment text.
pub proof fn law_directory_source(payload: Payload, home: Seq<char>)
    ensures
        (payload.workspace matches Some(w) && w.current_dir matches Some(d)) ==> directory_text(
            payload,
            home,
        ) == Some(shorten_text(payload.workspace->0.current_dir->0@, home)),
        !(payload.workspace matches Some(w) && w.current_dir is Some) ==> directory_text(
            payload,
            home,
        ) == match payload.cwd {
            Some(c) => Some(shorten_text(c@, home)),
            None => None,
        },
{
}

} // verus!
