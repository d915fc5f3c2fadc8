use xentool::hud::chordnam::{
    embed12_for_edo, find_chord_names, parse_chordnam, best_name, has_cents_err_mark, is_step_pattern_line, mod_pos, name_score, norm_pc,
    parse_ratio_token, split_two_spaces, step_pattern_from_pcs, step_pattern_from_rel_pcs,
    strip_eq_prefix, template_def, uniq_sorted, Ratio, TemplateDef,
};

fn chars(s: &str) -> Vec<char> {
    s.chars().collect()
}

#[test]
fn parses_step_pattern_marker() {
    assert!(is_step_pattern_line("4-3-3 Major Triad 1st inversion"));
    assert!(is_step_pattern_line("2-2-2-1 Some Tetrachord"));
    assert!(!is_step_pattern_line("4:5:6 Major Triad"));
    assert!(!is_step_pattern_line("Just words"));
    assert!(!is_step_pattern_line("4 Without dashes"));
}

#[test]
fn parses_split_two_spaces() {
    let (a, b) = split_two_spaces("foo  bar baz").unwrap();
    assert_eq!(a, "foo");
    assert_eq!(b, "bar baz");
    assert!(split_two_spaces("foo bar").is_none());
}

#[test]
fn name_score_prefers_shorter_canonical_names() {
    let canonical = name_score("Major Triad");
    let busy = name_score("Some Very Verbose, Many-Comma, (Parenthesised) Variant");
    assert!(canonical < busy, "canonical={canonical} busy={busy}");
}

#[test]
fn best_name_picks_lowest_score() {
    let names = vec![
        "Some Verbose Variant Name (with parentheses)".to_string(),
        "Major Triad".to_string(),
    ];
    assert_eq!(best_name(&names), "Major Triad");
}

#[test]
fn step_pattern_edge_cases() {
    assert!(!is_step_pattern_line("4-3-3"));
    assert!(!is_step_pattern_line("-4-3 x"));
    assert!(!is_step_pattern_line("4--3 x"));
    assert!(!is_step_pattern_line("4-3- x"));
    assert!(is_step_pattern_line("10-8\tname"));
}

#[test]
fn split_two_spaces_skips_runs_without_text_on_both_sides() {
    let (a, b) = split_two_spaces("  lead  def\t\tname").unwrap();
    assert_eq!(a, "  lead");
    assert_eq!(b, "def\t\tname");
    assert!(split_two_spaces("trailing   ").is_none());
}

#[test]
fn name_score_exact_values() {
    // "Major Triad": -1200 for the quality, 2 * 11 for the length.
    assert_eq!(name_score("Major Triad"), -1200 + 22);
    // length 25 (> 22): 50 + 18, one comma 40, two brackets 20.
    assert_eq!(name_score("abc, (defghijklmnopqrst)x"), 50 + 18 + 40 + 20);
    // a cents-error mark costs 220.
    assert_eq!(name_score("x~5c"), 220 + 8);
    assert_eq!(name_score("x~5cz"), 10);
    // neutral triad at the start is worth more than inside.
    assert_eq!(name_score("Neutral Triad"), -2200 + 26);
    assert_eq!(name_score("A Neutral Triad"), -1600 + 30);
    // non-ASCII names count UTF-8 bytes.
    assert_eq!(name_score("é"), 4);
}

#[test]
fn best_name_of_empty_or_blank_list_is_empty() {
    assert_eq!(best_name(&[]), "");
    assert_eq!(best_name(&["".to_string()]), "");
    let tie = vec!["bb".to_string(), "ab".to_string()];
    assert_eq!(best_name(&tie), "ab");
}

#[test]
fn cents_mark_detection() {
    assert!(has_cents_err_mark(&chars("minor~12c")));
    assert!(has_cents_err_mark(&chars("minor~12c, x")));
    assert!(!has_cents_err_mark(&chars("minor~12cx")));
    assert!(!has_cents_err_mark(&chars("minor~c")));
}

#[test]
fn pitch_class_helpers() {
    assert_eq!(mod_pos(-1, 12), 11);
    assert_eq!(norm_pc(31, 40), 9);
    assert_eq!(uniq_sorted(&[7, 0, 4, 7, -1]), vec![-1, 0, 4, 7]);
    assert_eq!(step_pattern_from_rel_pcs(&[0, 4, 7]), "4-3");
    assert_eq!(step_pattern_from_rel_pcs(&[0]), "");
    let (rel, pat) = step_pattern_from_pcs(12, 4, &[0, 4, 7]);
    assert_eq!(rel, vec![0, 3, 8]);
    assert_eq!(pat, "3-5");
    let (rel, pat) = step_pattern_from_pcs(12, 0, &[0]);
    assert_eq!(rel, vec![0]);
    assert_eq!(pat, "");
}

#[test]
fn ratio_tokens() {
    assert_eq!(parse_ratio_token(&chars(" 5/4 ")), Some(Ratio { num: 5, den: 4 }));
    assert_eq!(parse_ratio_token(&chars("(3")), Some(Ratio { num: 3, den: 1 }));
    assert_eq!(parse_ratio_token(&chars("0/4")), None);
    assert_eq!(parse_ratio_token(&chars("a/4")), None);
    assert_eq!(parse_ratio_token(&chars("")), None);
    assert_eq!(strip_eq_prefix(&chars("=  Name")), chars("Name"));
}

#[test]
fn template_lines() {
    match template_def("4:5:6 Major Triad") {
        Some(TemplateDef::Chord { ratios, name }) => {
            assert_eq!(ratios.len(), 3);
            assert_eq!(ratios[2], Ratio { num: 6, den: 1 });
            assert_eq!(name, "Major Triad");
        }
        _ => panic!("expected a chord"),
    }
    match template_def("386.3 315.6  = Some Triad") {
        Some(TemplateDef::CentSteps { steps, name }) => {
            assert_eq!(steps, vec!["386.3".to_string(), "315.6".to_string()]);
            assert_eq!(name, "Some Triad");
        }
        _ => panic!("expected cent steps"),
    }
    match template_def("5/4 6/5  Triad") {
        Some(TemplateDef::RatioSteps { ratios, .. }) => {
            assert_eq!(ratios, vec![Ratio { num: 5, den: 4 }, Ratio { num: 6, den: 5 }]);
        }
        _ => panic!("expected ratio steps"),
    }
    assert!(template_def("! comment").is_none());
    assert!(template_def("4-3 Major Triad").is_none());
    assert!(template_def("5/4 x/5  Triad").is_none());
    assert!(template_def("4:x Bad").is_none());
}

#[test]
fn chordnam_tables_and_lookup() {
    let text = "! comment\n<SCALA_SCALE_DEF 2^(1/12)>\n4-3 Major Triad\n4-3 =  Major Triad\n3-4 Minor Triad\n4-3 Another\n<OTHER>\n<SCALA_SCALE_DEF 2^(1/0)>\n2-2 Ignored Here\n4:5:6 Just Major\n";
    let f = parse_chordnam(text);
    assert_eq!(f.exact.len(), 2);
    assert_eq!(f.exact[0].edo, 12);
    assert_eq!(f.exact[0].pattern, "4-3");
    assert_eq!(f.exact[0].names, vec!["Major Triad".to_string(), "Another".to_string()]);
    assert_eq!(f.exact[1].pattern, "3-4");
    assert_eq!(f.templates.len(), 1);

    let embed = embed12_for_edo(&f.exact, 24);
    assert_eq!(embed.len(), 2);
    assert_eq!(embed[0].edo, 24);
    assert_eq!(embed[0].pattern, "8-6");
    assert_eq!(embed[0].names, vec!["Major Triad-EDO12".to_string(), "Another-EDO12".to_string()]);
    assert!(embed12_for_edo(&f.exact, 12).is_empty());
    assert!(embed12_for_edo(&f.exact, 31).is_empty());

    let r = find_chord_names(&f.exact, &Vec::new(), &Vec::new(), 12, &[0, 4, 7, 12]);
    assert_eq!(r.len(), 3);
    assert_eq!(r[0].root_pc, 0);
    assert_eq!(r[0].rel, vec![0, 4, 7]);
    assert_eq!(r[0].pattern, "4-3");
    assert_eq!(r[0].names, vec!["Major Triad".to_string(), "Another".to_string()]);
    assert_eq!(r[1].root_pc, 4);
    assert_eq!(r[1].pattern, "3-5");
    assert!(r[1].names.is_empty());

    let r24 = find_chord_names(&f.exact, &embed, &Vec::new(), 24, &[0, 8, 14]);
    assert_eq!(r24[0].names, vec!["Major Triad-EDO12".to_string(), "Another-EDO12".to_string()]);
    assert!(find_chord_names(&f.exact, &embed, &Vec::new(), 0, &[0]).is_empty());
    assert!(find_chord_names(&f.exact, &embed, &Vec::new(), 12, &[]).is_empty());
}
