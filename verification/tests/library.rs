use statusline::git::{from_output, parse, GitInfo};
use statusline::input::{
    usage_ratio, ContextWindow, Cost, CurrentUsage, Model, Payload, Percent, RateLimitWindow,
    RateLimits, Workspace,
};
use statusline::render;
use statusline::render::{
    bar_from_cells, crust, fg, fg_bg, green, lavender, mauve, peach, sapphire, until, yellow,
    Segment, Style, RESET,
};
use statusline::segments::{branch, build, directory, lines_changed, shorten, usage};
use statusline::text::{parse_int, split_fields, split_lines, to_chars, trimmed, Separator};

fn empty_payload() -> Payload {
    Payload {
        cwd: None,
        model: None,
        workspace: None,
        cost: None,
        context_window: None,
        rate_limits: None,
    }
}

fn pct(shown: &str, context_cells: usize, usage_cells: usize) -> Percent {
    Percent { shown: shown.to_string(), context_cells, usage_cells }
}

fn chars(s: &str) -> Vec<char> {
    s.chars().collect()
}

// ---- git porcelain ----

#[test]
fn crlf_line_endings_are_read() {
    let g = parse("# branch.head main\r\n# branch.ab +3 -4\r\n").unwrap();
    assert_eq!(g.branch, "main");
    assert_eq!((g.ahead, g.behind), (3, 4));
    assert!(!g.dirty);
}

#[test]
fn counts_that_do_not_parse_are_zero() {
    let g = parse("# branch.head main\n# branch.ab +x -99999999999999999999\n").unwrap();
    assert_eq!((g.ahead, g.behind), (0, 0));
}

#[test]
fn signed_counts_follow_integer_parsing() {
    // `++5` leaves `+5`, which parses as 5; `--2` leaves `-2`.
    let g = parse("# branch.head main\n# branch.ab ++5 --2\n").unwrap();
    assert_eq!((g.ahead, g.behind), (5, -2));
}

#[test]
fn empty_branch_name_is_none() {
    assert_eq!(parse("# branch.head   \n1 .M x\n"), None);
    assert_eq!(parse(""), None);
}

#[test]
fn last_head_line_wins_and_is_trimmed() {
    let g = parse("# branch.head one\n# branch.head  two \u{a0}\n").unwrap();
    assert_eq!(g.branch, "two");
}

#[test]
fn detached_head_with_short_oid() {
    let g = parse("# branch.head (detached)\n# branch.oid abc\n").unwrap();
    assert_eq!(g.branch, "@abc");
    let g = parse("# branch.head (detached)\n").unwrap();
    assert_eq!(g.branch, "@");
}

#[test]
fn final_newline_changes_nothing() {
    let s = "# branch.head main\n# branch.ab +1 -0\n? new.txt";
    assert_eq!(parse(s), parse(&format!("{s}\n")));
    assert_eq!(parse(""), parse("\n"));
}

#[test]
fn lone_carriage_return_counts_as_an_entry() {
    let g = parse("# branch.head main\n\r").unwrap();
    assert!(g.dirty);
    let g = parse("# branch.head main\n\r\n").unwrap();
    assert!(!g.dirty);
}

#[test]
fn header_lines_do_not_make_dirty() {
    let g = parse("# branch.head main\n# branch.upstream origin/main\n\n").unwrap();
    assert!(!g.dirty);
    assert_eq!(g, GitInfo { branch: "main".to_string(), dirty: false, ahead: 0, behind: 0 });
}

#[test]
fn command_output_is_decoded_then_read() {
    assert_eq!(from_output(false, b"# branch.head main\n"), None);
    assert_eq!(from_output(true, b"# branch.head main\n").unwrap().branch, "main");
    assert_eq!(from_output(true, b"# branch.head ma\xffin\n").unwrap().branch, "ma\u{fffd}in");
    assert_eq!(from_output(true, b""), None);
}

// ---- text helpers ----

#[test]
fn integers_parse_as_std_does() {
    for s in ["0", "-0", "+7", "42", "-9223372036854775808", "9223372036854775807", "007"] {
        assert_eq!(parse_int(&chars(s)), s.parse::<i64>().ok(), "{s}");
    }
    for s in ["", "+", "-", " 1", "1 ", "9223372036854775808", "-9223372036854775809", "1a", "+-1"] {
        assert_eq!(parse_int(&chars(s)), None, "{s}");
        assert_eq!(s.parse::<i64>().ok(), None, "{s}");
    }
}

#[test]
fn fields_drop_empty_pieces() {
    let f = split_fields(&chars("//a//bc/"), Separator::Char('/'));
    assert_eq!(f, vec![chars("a"), chars("bc")]);
    let w = split_fields(&chars(" +2\t -1 \u{3000}"), Separator::Whitespace);
    assert_eq!(w, vec![chars("+2"), chars("-1")]);
}

#[test]
fn lines_match_std() {
    for s in ["", "\n", "a", "a\n", "a\r\nb", "a\rb\r", "\n\n", "x\r\n\r\n"] {
        let ours: Vec<String> = split_lines(&chars(s)).iter().map(|l| l.iter().collect()).collect();
        let std_lines: Vec<String> = s.lines().map(|l| l.to_string()).collect();
        assert_eq!(ours, std_lines, "{s:?}");
    }
}

#[test]
fn trim_matches_std() {
    for s in ["", "  ", " a b ", "\u{2003}x\u{85}", "y"] {
        let t: String = trimmed(&chars(s)).into_iter().collect();
        assert_eq!(t, s.trim());
    }
    assert_eq!(to_chars("äb"), vec!['ä', 'b']);
}

// ---- rendering ----

#[test]
fn color_codes() {
    assert_eq!(fg(green()), "\x1b[38;2;166;227;161m");
    assert_eq!(fg_bg(crust(), peach()), "\x1b[38;2;30;30;46;48;2;250;179;135m");
}

#[test]
fn empty_line_is_one_reset() {
    assert_eq!(render::line(&[], Style::Nerd), RESET);
    assert_eq!(render::line(&[], Style::Plain), RESET);
}

#[test]
fn single_segment_line() {
    let s = render::line(&[Segment::new("x", yellow(), false)], Style::Nerd);
    assert_eq!(
        s,
        "\x1b[38;2;249;226;175m\u{e0b6}\x1b[38;2;30;30;46;48;2;249;226;175m x \x1b[0m\x1b[38;2;249;226;175m\u{e0b4}\x1b[0m"
    );
}

#[test]
fn bold_segments_switch_bold_off_again() {
    let s = render::line(&[Segment::new("a", green(), true), Segment::new("b", mauve(), false)], Style::Nerd);
    assert!(s.contains("\x1b[1m a \x1b[22m"));
    assert!(s.contains(" b \x1b[0m"));
    assert!(s.contains("\x1b[38;2;166;227;161;48;2;203;166;247m\u{e0b4}"));
}

#[test]
fn resets_only_at_the_close() {
    let segs = [
        Segment::new("one", peach(), false),
        Segment::new("two", lavender(), true),
        Segment::new("", sapphire(), false),
    ];
    let s = render::line(&segs, Style::Nerd);
    assert_eq!(s.matches(RESET).count(), 2);
    assert!(s.ends_with(RESET));
    let p = render::line(&segs, Style::Plain);
    assert_eq!(p.matches(RESET).count(), 1);
    assert!(p.ends_with(RESET));
    // an escape character that does not start a reset is no reset
    let odd = [Segment::new("a\x1b", peach(), false), Segment::new("\x1b[0", green(), true)];
    assert_eq!(render::line(&odd, Style::Nerd).matches(RESET).count(), 2);
}

#[test]
fn plain_line_has_no_nerd_glyph() {
    let segs = [Segment::new("one", peach(), false), Segment::new("two", green(), true)];
    let s = render::line(&segs, Style::Plain);
    assert!(!s.chars().any(|c| ('\u{e000}'..='\u{f8ff}').contains(&c)));
    assert_eq!(
        s,
        "\x1b[38;2;30;30;46;48;2;250;179;135m one \x1b[38;2;30;30;46;48;2;166;227;161m\x1b[1m two \x1b[22m\x1b[0m"
    );
    let n = render::line(&segs, Style::Nerd);
    assert!(n.contains('\u{e0b6}') && n.contains('\u{e0b4}'));
}

#[test]
fn bars_have_width_cells() {
    assert_eq!(bar_from_cells(0, 5), "◻◻◻◻◻");
    assert_eq!(bar_from_cells(3, 5), "◼◼◼◻◻");
    assert_eq!(bar_from_cells(9, 5), "◼◼◼◼◼");
    assert_eq!(bar_from_cells(2, 8), "◼◼◻◻◻◻◻◻");
    assert_eq!(bar_from_cells(4, 0), "");
}

#[test]
fn until_edges() {
    assert_eq!(until(0), "0m");
    assert_eq!(until(59), "0m");
    assert_eq!(until(3_600), "1h0m");
    assert_eq!(until(86_399), "23h59m");
    assert_eq!(until(86_400), "1d0h");
    assert_eq!(until(i64::MIN), "0m");
    assert_eq!(until(i64::MAX), "106751991167300d15h");
}

#[test]
fn style_is_picked_from_the_environment() {
    assert_eq!(Style::pick(Some("nerd"), None, None), Style::Nerd);
    assert_eq!(Style::pick(Some("plain"), Some("ghostty"), None), Style::Plain);
    assert_eq!(Style::pick(None, Some("ghostty"), None), Style::Nerd);
    assert_eq!(Style::pick(None, Some("WezTerm"), None), Style::Nerd);
    assert_eq!(Style::pick(None, None, Some("xterm-kitty")), Style::Nerd);
    assert_eq!(Style::pick(None, Some("Apple_Terminal"), Some("xterm-256color")), Style::Plain);
    assert_eq!(Style::pick(Some("fancy"), Some("vscode"), None), Style::Plain);
}

// ---- segments ----

#[test]
fn shorten_edges() {
    assert_eq!(shorten("alpha/beta/gamma/delta", ""), "a/b/gamma/delta");
    assert_eq!(shorten("/h/xxx/yyy/zzz", "/h"), "~/x/yyy/zzz");
    assert_eq!(shorten("//a//b", ""), "//a//b");
    assert_eq!(shorten("/ünï/b/c", ""), "/ü/b/c");
    assert_eq!(shorten("/home2/a/b", "/home"), "/h/a/b");
    assert_eq!(shorten("/hx/a", "/h"), "/hx/a");
    assert_eq!(shorten("/h/x", "/h"), "~/x");
    assert_eq!(shorten("/Users/simasX/a", "/Users/simas"), "/U/simasX/a");
    assert_eq!(shorten("", ""), "");
}

#[test]
fn shortening_twice_changes_nothing() {
    for (p, h) in [
        ("/Users/simas/Developer/smoobu/wiki", "/Users/simas"),
        ("/etc/nginx/conf.d", ""),
        ("//a//b//c//d", ""),
        ("~x/y/z/w", ""),
        ("rel/a/b/c", "rel"),
    ] {
        let once = shorten(p, h);
        assert_eq!(shorten(&once, ""), once, "{p}");
    }
}

#[test]
fn long_branch_is_cut() {
    let long = "x".repeat(31);
    let g = GitInfo { branch: long, dirty: false, ahead: -1, behind: 0 };
    assert_eq!(branch(&g, Style::Plain), format!("{}\u{2026}", "x".repeat(30)));
    let g = GitInfo { branch: "x".repeat(30), dirty: false, ahead: 0, behind: 0 };
    assert_eq!(branch(&g, Style::Plain), "x".repeat(30));
}

#[test]
fn branch_with_everything() {
    let g = GitInfo { branch: "dev".into(), dirty: true, ahead: 12, behind: 3 };
    assert_eq!(branch(&g, Style::Nerd), "\u{e0a0} dev * \u{21e1}12 \u{21e3}3");
}

#[test]
fn lines_changed_texts() {
    let mut p = empty_payload();
    assert_eq!(lines_changed(&p), None);
    p.cost = Some(Cost { total_lines_added: 7, total_lines_removed: 2 });
    assert_eq!(lines_changed(&p).unwrap(), "+7 -2");
    p.cost = Some(Cost { total_lines_added: 0, total_lines_removed: -3 });
    assert_eq!(lines_changed(&p).unwrap(), "+0 --3");
}

#[test]
fn usage_single_and_missing_windows() {
    let mut p = empty_payload();
    p.rate_limits = Some(RateLimits {
        five_hour: Some(RateLimitWindow { used_percentage: None, resets_at: Some(10) }),
        seven_day: Some(RateLimitWindow {
            used_percentage: Some(pct("100", 8, 5)),
            resets_at: Some(10),
        }),
    });
    assert_eq!(usage(&p, 100).unwrap(), "7d ◼◼◼◼◼ 100% 0m");
    p.rate_limits = Some(RateLimits {
        five_hour: Some(RateLimitWindow { used_percentage: Some(pct("23", 2, 1)), resets_at: None }),
        seven_day: None,
    });
    assert_eq!(usage(&p, 0).unwrap(), "5h ◼◻◻◻◻ 23%");
    p.rate_limits = Some(RateLimits { five_hour: None, seven_day: None });
    assert_eq!(usage(&p, 0), None);
}

#[test]
fn directory_prefers_the_workspace() {
    let mut p = empty_payload();
    assert_eq!(directory(&p, "/home/u"), None);
    p.cwd = Some("/home/u/a/b/c".to_string());
    assert_eq!(directory(&p, "/home/u").unwrap(), "~/a/b/c");
    p.workspace = Some(Workspace { current_dir: None });
    assert_eq!(directory(&p, "/home/u").unwrap(), "~/a/b/c");
    p.workspace = Some(Workspace { current_dir: Some("/srv/x/y/z".to_string()) });
    assert_eq!(directory(&p, "/home/u").unwrap(), "/s/x/y/z");
}

#[test]
fn build_all_six_segments_in_order() {
    let p = Payload {
        cwd: None,
        model: Some(Model { display_name: Some("Fable 5".to_string()) }),
        workspace: Some(Workspace { current_dir: Some("/w/proj".to_string()) }),
        cost: Some(Cost { total_lines_added: 7, total_lines_removed: 2 }),
        context_window: Some(ContextWindow { used: Some(pct("23", 2, 1)) }),
        rate_limits: Some(RateLimits {
            five_hour: Some(RateLimitWindow { used_percentage: Some(pct("5", 0, 0)), resets_at: None }),
            seven_day: None,
        }),
    };
    let g = GitInfo { branch: "main".into(), dirty: false, ahead: 0, behind: 0 };
    let segs = build(&p, Some(&g), 0, Style::Plain, "/nowhere");
    let texts: Vec<&str> = segs.iter().map(|s| s.text.as_str()).collect();
    assert_eq!(texts, vec!["/w/proj", "main", "+7 -2", "Fable 5", "◼◼◻◻◻◻◻◻ 23%", "5h ◻◻◻◻◻ 5%"]);
    let colors: Vec<_> = segs.iter().map(|s| (s.bg, s.bold)).collect();
    assert_eq!(
        colors,
        vec![
            (peach(), false),
            (yellow(), false),
            (green(), true),
            (sapphire(), true),
            (lavender(), false),
            (mauve(), false)
        ]
    );
}

#[test]
fn build_skips_missing_data() {
    let segs = build(&empty_payload(), None, 0, Style::Nerd, "");
    assert!(segs.is_empty());
    assert_eq!(render::line(&segs, Style::Nerd), RESET);
    let mut p = empty_payload();
    p.model = Some(Model { display_name: Some(String::new()) });
    p.context_window = Some(ContextWindow { used: None });
    p.cost = Some(Cost { total_lines_added: 0, total_lines_removed: 0 });
    assert!(build(&p, None, 0, Style::Nerd, "").is_empty());
}

#[test]
fn usage_ratio_needs_a_positive_size() {
    let u = CurrentUsage { input_tokens: 1, cache_creation_input_tokens: 2, cache_read_input_tokens: 3 };
    assert_eq!(usage_ratio(Some(&u), Some(200)), Some((6, 200)));
    assert_eq!(usage_ratio(Some(&u), Some(0)), None);
    assert_eq!(usage_ratio(Some(&u), None), None);
    assert_eq!(usage_ratio(None, Some(5)), None);
    assert_eq!(u.input_total(), 6);
}
