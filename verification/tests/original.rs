use statusline::git::{parse, GitInfo};
use statusline::input::{Cost, Payload, Percent, RateLimitWindow, RateLimits};
use statusline::render;
use statusline::render::{green, sapphire, until, Segment, Style, RESET};
use statusline::segments::{branch, lines_changed, shorten, usage};

fn empty_payload() -> Payload {
    Payload {
        cwd: None,
        model: None,
        workspace: None,
        cost: None,
        context_window: None,
        rate_limits: None,
    }
}

#[test]
fn parses_clean_branch() {
    let s = "# branch.oid abc123\n# branch.head main\n# branch.ab +0 -0\n";
    let g = parse(s).unwrap();
    assert_eq!(g.branch, "main");
    assert!(!g.dirty);
    assert_eq!((g.ahead, g.behind), (0, 0));
}

#[test]
fn parses_dirty_ahead_behind() {
    let s = "# branch.oid abc\n# branch.head test\n# branch.ab +2 -1\n1 .M N... 100644 100644 100644 x y src/main.rs\n? new.txt\n";
    let g = parse(s).unwrap();
    assert!(g.dirty);
    assert_eq!((g.ahead, g.behind), (2, 1));
}

#[test]
fn detached_head_shows_short_oid() {
    let s = "# branch.oid deadbeefcafe\n# branch.head (detached)\n";
    let g = parse(s).unwrap();
    assert_eq!(g.branch, "@deadbee");
}

#[test]
fn no_branch_line_is_none() {
    assert_eq!(parse("? foo\n"), None);
}

#[test]
fn until_formats_all_ranges() {
    assert_eq!(until(2 * 86_400 + 600), "2d0h");
    assert_eq!(until(4 * 3_600 + 53 * 60), "4h53m");
    assert_eq!(until(12 * 60), "12m");
    assert_eq!(until(-30), "0m");
}

#[test]
fn no_reset_between_segments() {
    let segs = [Segment::new("+725", green(), true), Segment::new("Fable 5", sapphire(), true)];
    let s = render::line(&segs, Style::Nerd);
    // exactly one reset before the closing cap and one at the end
    assert_eq!(s.matches("\x1b[0m").count(), 2);
    assert!(s.ends_with(RESET));
}

#[test]
fn shorten_truncates_middle_components() {
    assert_eq!(shorten("/Users/simas/Developer/smoobu/wiki", "/Users/simas"), "~/D/smoobu/wiki");
    assert_eq!(shorten("/etc/nginx/conf.d", ""), "/e/nginx/conf.d");
    assert_eq!(shorten("/Users/simas", "/Users/simas"), "~");
    assert_eq!(shorten("/tmp", ""), "/tmp");
}

#[test]
fn zero_lines_changed_is_skipped() {
    let mut p = empty_payload();
    p.cost = Some(Cost { total_lines_added: 0, total_lines_removed: 0 });
    assert_eq!(lines_changed(&p), None);
}

#[test]
fn usage_renders_both_windows() {
    // five_hour: 5% (0 of 5 cells); seven_day: 89% (4 of 5 cells)
    let mut p = empty_payload();
    p.rate_limits = Some(RateLimits {
        five_hour: Some(RateLimitWindow {
            used_percentage: Some(Percent { shown: "5".to_string(), context_cells: 0, usage_cells: 0 }),
            resets_at: Some(1000000),
        }),
        seven_day: Some(RateLimitWindow {
            used_percentage: Some(Percent { shown: "89".to_string(), context_cells: 7, usage_cells: 4 }),
            resets_at: Some(2000000),
        }),
    });
    let s = usage(&p, 1000000 - (4 * 3600 + 53 * 60)).unwrap();
    assert!(s.starts_with("5h ◻◻◻◻◻ 5% 4h53m"), "got: {s}");
    assert!(s.contains("\u{2502} 7d ◼◼◼◼◻ 89%"), "got: {s}");
}

#[test]
fn missing_rate_limits_is_skipped() {
    let p = empty_payload();
    assert_eq!(usage(&p, 0), None);
}

#[test]
fn branch_marks_dirty_and_counts() {
    let g = GitInfo { branch: "main".into(), dirty: true, ahead: 0, behind: 1 };
    assert_eq!(branch(&g, Style::Nerd), "\u{e0a0} main * \u{21e3}1");
}

#[test]
fn plain_branch_drops_the_glyph() {
    let g = GitInfo { branch: "main".into(), dirty: false, ahead: 2, behind: 0 };
    assert_eq!(branch(&g, Style::Plain), "main \u{21e1}2");
}
