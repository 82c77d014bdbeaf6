use foldterm::commands::split_commands;
use foldterm::content::{LineClass, Node, RegionState};
use foldterm::display::{DisplayDescription, DisplayKind, DisplayLine};
use foldterm::matchers::{ConfigError, Matcher, Matchers, TitleRule};
use foldterm::options::{resolve_input, Input};
use foldterm::program::Program;
use foldterm::schedule::{final_rows, InterruptAction, Interrupts, RedrawAction, Scheduler};
use foldterm::screen::layout_screen;
use foldterm::util::most_equal_divide;

fn strings(v: &[&str]) -> Vec<String> {
    v.iter().map(|s| s.to_string()).collect()
}

fn begin_end() -> Matchers {
    Matchers::new(
        &strings(&[r"BEGIN\((.*)\)"]),
        &strings(&[r"END\((.*)\)"]),
        &Vec::new(),
    )
    .unwrap()
}

fn feed(lines: &[&str], m: &Matchers) -> Program {
    let mut p = Program::new("src".to_string());
    for l in lines {
        p.append_line(l.to_string(), m);
    }
    p
}

fn row_text(l: &DisplayLine) -> String {
    l.fragments().concat()
}

#[test]
fn most_equal_divide_values() {
    assert_eq!(most_equal_divide(7, 3, 0), 3);
    assert_eq!(most_equal_divide(7, 3, 1), 2);
    assert_eq!(most_equal_divide(7, 3, 2), 2);
    assert_eq!(most_equal_divide(0, 5, 4), 0);
    assert_eq!(most_equal_divide(5, 1, 0), 5);
}

#[test]
fn most_equal_divide_sums_to_total() {
    for total in 0..40u64 {
        for n in 1..9u64 {
            let shares: Vec<u64> = (0..n).map(|i| most_equal_divide(total, n, i)).collect();
            assert_eq!(shares.iter().sum::<u64>(), total);
            let max = *shares.iter().max().unwrap();
            let min = *shares.iter().min().unwrap();
            assert!(max - min <= 1);
        }
    }
}

#[test]
fn round_trip_builds_tree_and_replays() {
    let m = begin_end();
    let input = ["A", "BEGIN(x)", "inner1", "inner2", "END(x)"];
    let p = feed(&input, &m);
    let nodes = p.content().nodes_ref();
    assert_eq!(nodes.len(), 4);
    match &nodes[0] {
        Node::Line { depth, text } => {
            assert_eq!(*depth, 0);
            assert_eq!(text, "A");
        }
        _ => panic!("expected a line"),
    }
    match &nodes[1] {
        Node::Region { depth, region } => {
            assert_eq!(*depth, 0);
            assert_eq!(region.start_title, "x");
            assert_eq!(region.start_line, "BEGIN(x)");
            assert!(region.is_ended());
            match &region.state {
                RegionState::Closed { end_title, end_line } => {
                    assert_eq!(end_title, "x");
                    assert_eq!(end_line, "END(x)");
                }
                RegionState::Open => panic!("expected a closed region"),
            }
        }
        _ => panic!("expected a region"),
    }
    for (k, want) in [(2, "inner1"), (3, "inner2")] {
        match &nodes[k] {
            Node::Line { depth, text } => {
                assert_eq!(*depth, 1);
                assert_eq!(text, want);
            }
            _ => panic!("expected a line"),
        }
    }
    assert_eq!(p.content().replay_lines(), strings(&input));
}

#[test]
fn dangling_end_is_dropped() {
    let m = begin_end();
    let p = feed(&["END(x)"], &m);
    assert_eq!(p.content().nodes_ref().len(), 0);
    assert_eq!(p.content().open_depth(), 0);
    assert!(p.content().replay_lines().is_empty());
}

#[test]
fn end_closes_nearest_open_region() {
    let m = begin_end();
    let mut p = feed(&["BEGIN(A)", "BEGIN(B)", "END(1)"], &m);
    {
        let nodes = p.content().nodes_ref();
        match (&nodes[0], &nodes[1]) {
            (Node::Region { region: a, .. }, Node::Region { region: b, depth }) => {
                assert_eq!(a.start_title, "A");
                assert!(!a.is_ended());
                assert_eq!(b.start_title, "B");
                assert_eq!(*depth, 1);
                assert!(b.is_ended());
            }
            _ => panic!("expected two regions"),
        }
        assert_eq!(p.content().open_depth(), 1);
    }
    p.append_line("END(2)".to_string(), &m);
    match &p.content().nodes_ref()[0] {
        Node::Region { region, .. } => {
            assert!(region.is_ended());
            match &region.state {
                RegionState::Closed { end_title, .. } => assert_eq!(end_title, "2"),
                RegionState::Open => panic!("expected a closed region"),
            }
        }
        _ => panic!("expected a region"),
    }
    assert_eq!(p.content().open_depth(), 0);
}

#[test]
fn line_after_closed_region_starts_new_run() {
    let m = begin_end();
    let p = feed(&["BEGIN(a)", "x", "END()", "y"], &m);
    let nodes = p.content().nodes_ref();
    assert_eq!(nodes.len(), 3);
    match &nodes[2] {
        Node::Line { depth, text } => {
            assert_eq!(*depth, 0);
            assert_eq!(text, "y");
        }
        _ => panic!("expected a line"),
    }
}

fn plain_program(n: usize) -> Program {
    let mut p = Program::new("prog".to_string());
    for i in 0..n {
        p.push_classified(format!("line{}", i), LineClass::Plain);
    }
    p
}

#[test]
fn short_run_is_shown_whole() {
    let p = plain_program(3);
    let d = p.calc_display_description(80, 0);
    let lines = d.lines();
    assert_eq!(lines.len(), 4);
    assert_eq!(lines[0].kind, DisplayKind::ProgramTitle);
    assert_eq!(row_text(&lines[0]), "prog");
    for i in 0..3 {
        assert_eq!(lines[i + 1].kind, DisplayKind::Text(true));
        assert_eq!(row_text(&lines[i + 1]), format!("line{}", i));
    }
}

#[test]
fn long_run_is_truncated_to_threshold() {
    let p = plain_program(10);
    let d = p.calc_display_description(80, 2);
    let lines = d.lines();
    // threshold 3 + 2 slack: first line, marker, last three
    assert_eq!(lines.len(), 1 + 5);
    assert_eq!(row_text(&lines[1]), "line0");
    assert_eq!(lines[2].kind, DisplayKind::MiddleTextCut(true));
    assert_eq!(row_text(&lines[3]), "line7");
    assert_eq!(row_text(&lines[4]), "line8");
    assert_eq!(row_text(&lines[5]), "line9");
}

#[test]
fn slack_goes_only_to_trailing_spine() {
    let m = begin_end();
    let mut p = Program::new("p".to_string());
    for i in 0..6 {
        p.append_line(format!("a{}", i), &m);
    }
    p.append_line("BEGIN(r)".to_string(), &m);
    let d = p.calc_display_description(80, 10);
    let lines = d.lines();
    // the first run is not on the spine: threshold 3
    assert_eq!(lines.len(), 1 + 3 + 1);
    assert_eq!(lines[1].kind, DisplayKind::Text(false));
    assert_eq!(lines[2].kind, DisplayKind::MiddleTextCut(false));
    assert_eq!(row_text(&lines[3]), "a5");
    assert_eq!(lines[4].kind, DisplayKind::Title(true));
    assert_eq!(lines[4].indent, 0);
}

#[test]
fn closed_title_carries_end_title() {
    let m = begin_end();
    let p = feed(&["BEGIN(build)", "x", "END(ok)"], &m);
    let d = p.calc_display_description(80, 0);
    let lines = d.lines();
    assert_eq!(lines[1].kind, DisplayKind::Title(false));
    assert_eq!(lines[1].fragments(), strings(&["build", " ", "ok"]));
    assert_eq!(lines[1].prefix, "└── ");
    assert_eq!(lines[2].indent, 4);
    assert_eq!(lines[2].prefix, "⫼ ");
}

#[test]
fn allocation_reduces_every_source() {
    let m = begin_end();
    let mut big = Vec::new();
    for _ in 0..2 {
        let mut p = Program::new("big".to_string());
        for i in 0..9 {
            p.append_line(format!("BEGIN({})", i), &m);
            p.append_line("END()".to_string(), &m);
        }
        big.push(p);
    }
    let small = Program::new("small".to_string());
    for p in &big {
        assert_eq!(p.calc_display_description(80, 0).len(), 10);
    }
    assert_eq!(small.calc_display_description(80, 0).len(), 1);
    let programs = vec![big.remove(0), big.remove(0), small];
    let screen = layout_screen(&programs, 80, 7);
    assert_eq!(screen.len(), 3);
    // shares 3, 2, 2: the title, a marker and the last share - 1 rows
    assert_eq!(screen[0].len(), 4);
    assert_eq!(screen[1].len(), 3);
    assert_eq!(screen[2].len(), 2);
    for d in &screen {
        assert_eq!(d.lines()[1].kind, DisplayKind::WholeScreenCut);
    }
    assert_eq!(row_text(&screen[2].lines()[0]), "small");
    assert_eq!(row_text(&screen[0].lines()[3]), "8");
}

#[test]
fn allocation_spreads_spare_rows() {
    let programs = vec![plain_program(10), plain_program(10)];
    // at no slack each takes 1 + 3 rows; 12 rows leave 4 spare, 2 each
    let screen = layout_screen(&programs, 80, 12);
    assert_eq!(screen[0].len(), 6);
    assert_eq!(screen[1].len(), 6);
    let exact = layout_screen(&programs, 80, 8);
    assert_eq!(exact[0].len(), 4);
}

#[test]
fn reduce_to_count_keeps_title_and_tail() {
    let mut d = plain_program(10).calc_display_description(80, 20);
    assert_eq!(d.len(), 11);
    d.reduce_to_count(3);
    assert_eq!(d.len(), 4);
    assert_eq!(row_text(&d.lines()[0]), "prog");
    assert_eq!(d.lines()[1].kind, DisplayKind::WholeScreenCut);
    assert_eq!(row_text(&d.lines()[2]), "line8");
    assert_eq!(row_text(&d.lines()[3]), "line9");
    let mut e = plain_program(2).calc_display_description(80, 0);
    e.reduce_to_count(0);
    assert_eq!(e.len(), 2);
}

#[test]
fn width_fitting_is_character_exact() {
    let mut d = DisplayDescription::new(10);
    d.add_line(DisplayLine::new(
        0,
        DisplayKind::Text(false),
        String::new(),
        strings(&["abcdefghijklmnop"]),
    ));
    let l = &d.lines()[0];
    assert_eq!(l.fragments(), strings(&["abcdefg", "..."]));
    assert_eq!(row_text(l).chars().count(), 10);
}

#[test]
fn width_fitting_counts_indent_prefix_and_characters() {
    let mut d = DisplayDescription::new(12);
    d.add_line(DisplayLine::new(
        2,
        DisplayKind::Text(false),
        "⫼ ".to_string(),
        strings(&["ééé", "ßßßßßßßß"]),
    ));
    // 12 - 2 - 2 = 8 columns: 5 characters and the ellipsis
    let l = &d.lines()[0];
    assert_eq!(l.fragments(), strings(&["ééé", "ßß", "..."]));
    let mut e = DisplayDescription::new(12);
    e.add_line(DisplayLine::new(2, DisplayKind::Text(false), "⫼ ".to_string(), strings(&["12345678"])));
    assert_eq!(e.lines()[0].fragments(), strings(&["12345678"]));
}

#[test]
fn tabs_expand_to_multiples_of_eight() {
    let mut d = DisplayDescription::new(80);
    d.add_line(DisplayLine::new(0, DisplayKind::Text(false), String::new(), strings(&["a\tb", "cd\te"])));
    assert_eq!(d.lines()[0].fragments(), strings(&["a       b", "cd     e"]));
}

#[test]
fn title_rules_and_errors() {
    match Matcher::new(&"abc".to_string()) {
        Err(ConfigError::ExpectedCaptures(t)) => assert_eq!(t, "abc"),
        _ => panic!("expected ExpectedCaptures"),
    }
    match Matcher::new(&"(a)(b)".to_string()) {
        Err(ConfigError::CaptureNameNotFound(t)) => assert_eq!(t, "(a)(b)"),
        _ => panic!("expected CaptureNameNotFound"),
    }
    match Matcher::new(&"(".to_string()) {
        Err(ConfigError::InvalidPattern(t)) => assert_eq!(t, "("),
        _ => panic!("expected InvalidPattern"),
    }
    let positional = Matcher::new(&"s:(.*)".to_string()).unwrap();
    assert_eq!(positional.title, TitleRule::Positional);
    assert_eq!(positional.title_of_line(&"s:abc".to_string()), Some("abc".to_string()));
    assert_eq!(positional.title_of_line(&"xs:abc".to_string()), None);
    let named = Matcher::new(&"(a)-(?P<M>.*)-(c)".to_string()).unwrap();
    assert_eq!(named.title, TitleRule::Named(2));
    assert_eq!(named.title_of_line(&"a-mid-c".to_string()), Some("mid".to_string()));
}

#[test]
fn matchers_configuration_errors() {
    match Matchers::new(&strings(&["(a)"]), &Vec::new(), &Vec::new()) {
        Err(ConfigError::MatchPairInvalid(s, e)) => {
            assert_eq!(s, 1);
            assert_eq!(e, 0);
        }
        _ => panic!("expected MatchPairInvalid"),
    }
    match Matchers::new(&Vec::new(), &Vec::new(), &strings(&["<(.*)>", "</(.*)>", "\\[(.*)"])) {
        Err(ConfigError::UnpairedRegexInFile(t)) => assert_eq!(t, "\\[(.*)"),
        _ => panic!("expected UnpairedRegexInFile"),
    }
    let m = Matchers::new(&Vec::new(), &Vec::new(), &strings(&["<([a-z]*)>", "</(.*)>"])).unwrap();
    match m.classify(&"<a>".to_string()) {
        LineClass::Start { pair_id, title } => {
            assert_eq!(pair_id, 0);
            assert_eq!(title, "a");
        }
        _ => panic!("expected a start"),
    }
    match m.classify(&"</a>".to_string()) {
        LineClass::End { title } => assert_eq!(title, "a"),
        _ => panic!("expected an end"),
    }
    assert!(matches!(m.classify(&"x<a>".to_string()), LineClass::Plain));
}

#[test]
fn first_matching_pair_wins() {
    let m = Matchers::new(
        &strings(&["a(.*)", "(.*)"]),
        &strings(&["z(.*)", "q(.*)"]),
        &Vec::new(),
    )
    .unwrap();
    match m.classify(&"abc".to_string()) {
        LineClass::Start { pair_id, title } => {
            assert_eq!(pair_id, 0);
            assert_eq!(title, "bc");
        }
        _ => panic!("expected a start"),
    }
    match m.classify(&"zed".to_string()) {
        LineClass::End { title } => assert_eq!(title, "ed"),
        _ => panic!("expected an end"),
    }
}

#[test]
fn commands_split_at_separators() {
    let r = split_commands(&strings(&["ls", "-l", "-/-", "echo", "-//-", "-///-"]));
    assert_eq!(r, vec![strings(&["ls", "-l"]), strings(&["echo", "-/-", "-//-"])]);
    let t = split_commands(&strings(&["a", "-/-"]));
    assert_eq!(t, vec![strings(&["a"])]);
    assert_eq!(split_commands(&strings(&["-/", "--"])), vec![strings(&["-/", "--"])]);
}

#[test]
fn scheduler_coalesces_redraws() {
    let mut s = Scheduler::new(100, 4, 1000, true);
    assert_eq!(s.wait_ms(), 1000);
    assert_eq!(s.on_line(102), RedrawAction::Wait);
    assert_eq!(s.wait_ms(), 4);
    assert_eq!(s.on_line(103), RedrawAction::Wait);
    assert_eq!(s.on_timer(103), RedrawAction::Wait);
    assert_eq!(s.on_timer(104), RedrawAction::Redraw);
    assert_eq!(s.on_timer(200), RedrawAction::Wait);
    assert_eq!(s.on_line(200), RedrawAction::Redraw);
    let mut quiet = Scheduler::new(0, 4, 1000, false);
    assert_eq!(quiet.on_line(50), RedrawAction::Wait);
    assert_eq!(quiet.on_timer(60), RedrawAction::Wait);
}

#[test]
fn interrupts_stop_then_exit() {
    let mut i = Interrupts::new();
    assert_eq!(i.on_interrupt(), InterruptAction::GracefulStop);
    assert_eq!(i.on_interrupt(), InterruptAction::ForceExit);
    assert_eq!(i.on_interrupt(), InterruptAction::ForceExit);
}

#[test]
fn final_rows_leave_room_for_prompt() {
    assert_eq!(final_rows(24, 2), 22);
    assert_eq!(final_rows(1, 2), 0);
}

#[test]
fn input_source_resolution() {
    assert!(matches!(resolve_input(2, true), Ok(Input::Programs)));
    assert!(matches!(resolve_input(0, false), Ok(Input::Stdin)));
    assert!(matches!(resolve_input(0, true), Err(ConfigError::NoPrograms)));
}

#[test]
fn replay_keeps_every_line_but_dangling_ends() {
    let m = begin_end();
    let input = ["A", "END(x)", "BEGIN(a)", "BEGIN(b)", "b1", "END(b)", "a1", "END(a)", "z", "END(y)"];
    let p = feed(&input, &m);
    let want: Vec<String> = input
        .iter()
        .enumerate()
        .filter(|(i, _)| *i != 1 && *i != 9)
        .map(|(_, s)| s.to_string())
        .collect();
    assert_eq!(p.content().replay_lines(), want);
}

#[test]
fn alternation_matches_whole_lines_only() {
    let m = Matchers::new(&strings(&["(a)|(b)"]), &strings(&["end(.*)"]), &Vec::new());
    assert!(m.is_err());
    let m = Matchers::new(&strings(&["x(?P<M>a)|y(b)"]), &strings(&["end(.*)"]), &Vec::new()).unwrap();
    assert!(matches!(m.classify(&"xa".to_string()), LineClass::Start { .. }));
    assert!(matches!(m.classify(&"yb".to_string()), LineClass::Start { .. }));
    assert!(matches!(m.classify(&"xaz".to_string()), LineClass::Plain));
    assert!(matches!(m.classify(&"zyb".to_string()), LineClass::Plain));
    let single = Matcher::new(&"s:(.*)|t:(?P<M>.*)".to_string()).unwrap();
    assert_eq!(single.title_of_line(&"t:go".to_string()), Some("go".to_string()));
    assert_eq!(single.title_of_line(&"s:a|t:b".to_string()), Some(String::new()));
}
