use rill::chip0::{resync_frame, PodCell, PodGrid};
use rill::look::{
    apply_theme, chrome_surface_rgba, light_theme_name, look_file_candidates_for, normalize_theme, overlay_surface,
    parse_bool, parse_hex, push_dir, resolve_look, scan_look_keys, theme_file_names_for, theme_from_look, SurfaceLook,
    ThemeColors,
};
use rill::viewport::LiveGrid;

#[test]
fn pod_cell_is_flat_and_sixteen_bytes() {
    assert_eq!(std::mem::size_of::<PodCell>(), 16);
    assert_eq!(std::mem::align_of::<PodCell>(), 4);
}

#[test]
fn look_t_ghostty_look_user_file_is_config_rill() {
    let candidates = look_file_candidates_for(Some("/home/test"), Some("fixtures/look/rill.config".into()));
    assert_eq!(candidates[0], "fixtures/look/rill.config");
}

#[test]
fn look_paint_tests_t_ghostty_look_user_file_is_config_rill() {
    let paths = look_file_candidates_for(Some("/Users/tester"), None);
    assert_eq!(paths, vec!["/Users/tester/.config/rill/config".to_string()]);
    let override_paths = look_file_candidates_for(Some("/Users/tester"), Some("/tmp/rill-test-config".into()));
    assert_eq!(override_paths[0], "/tmp/rill-test-config", "RILL_CONFIG must win");
    assert!(
        !paths.iter().any(|p| p.contains("ghostty") || p.contains("cmux")),
        "must not live-read Ghostty or cmux config: {paths:?}"
    );
}

#[test]
fn t_look_user_file_is_config_rill() {
    let paths = look_file_candidates_for(Some("/Users/tester"), None);
    assert_eq!(paths, vec!["/Users/tester/.config/rill/config".to_string()]);
    assert!(
        !paths.iter().any(|p| p.contains("ghostty") || p.contains("cmux")),
        "must not live-read Ghostty or cmux config: {paths:?}"
    );
}

#[test]
fn home_with_a_trailing_slash_joins_without_a_double_slash() {
    assert_eq!(look_file_candidates_for(Some("/h/"), None), vec!["/h/.config/rill/config".to_string()]);
    assert!(look_file_candidates_for(None, None).is_empty());
}

#[test]
fn look_paint_tests_unquoted_hash_hex_is_a_colour_not_a_comment() {
    let keys = scan_look_keys("split-divider-color = #5c5f77\n");
    let look = resolve_look(&keys, None);
    assert_eq!(look.split_divider, parse_hex("#5c5f77"));
}

#[test]
fn t_look_file_unquoted_hash_hex_is_a_colour_not_a_comment() {
    let keys = scan_look_keys("split-divider-color = #5c5f77\n");
    assert!(keys.saw);
    let look = resolve_look(&keys, None);
    assert_eq!(look.split_divider, parse_hex("#5c5f77"));
}

#[test]
fn parse_hex_reads_six_and_three_digit_colours() {
    assert_eq!(parse_hex("#5c5f77"), Some(0x5c5f77ff));
    assert_eq!(parse_hex("  ##abc "), Some(0xaabbccff));
    assert_eq!(parse_hex("12345"), None);
    assert_eq!(parse_hex("#12345g"), None);
    assert_eq!(parse_hex(""), None);
}

#[test]
fn chrome_surface_lowers_each_channel_by_nine() {
    assert_eq!(chrome_surface_rgba(0xeff1f5ff), 0xe6e8ecff);
    assert_eq!(chrome_surface_rgba(0x05101bff), 0x000712ff);
    assert_eq!(chrome_surface_rgba(0x1e1e2e80), 0x15152580);
}

#[test]
fn look_keys_are_scanned_line_by_line() {
    let text = "# comment\nfont-family = \"Iosevka\"\nfont-size = 16\nbackground = eff1f5 # trailing note\nFOREGROUND=4c4f69\npalette = 2=#40a02b\npalette.3 = #df8e1d\ntheme = dark:Mocha,light:Latte\nmacos-option-as-alt = yes\nwindow-padding-x = 12, 14\nbackground-opacity = 0.9\nnot a key\n";
    let keys = scan_look_keys(text);
    assert_eq!(keys.font_family.as_deref(), Some("Iosevka"));
    assert_eq!(keys.font_sizes, vec!["16".to_string()]);
    assert_eq!(keys.background, Some(0xeff1f5ff));
    assert_eq!(keys.foreground, Some(0x4c4f69ff));
    assert_eq!(keys.ansi[2], 0x40a02bff);
    assert!(keys.ansi_set[2] && keys.ansi_set[3] && !keys.ansi_set[4]);
    assert_eq!(keys.theme_name.as_deref(), Some("Latte"));
    assert_eq!(keys.macos_option_as_alt, Some(true));
    assert_eq!(keys.padding_x, vec!["12".to_string()]);
    assert_eq!(keys.opacities, vec!["0.9".to_string()]);
    assert!(keys.saw);
    assert!(!scan_look_keys("font-size = 14\n").saw);
}

#[test]
fn theme_names_pick_light_then_lone_dark_then_first_plain() {
    let v = |s: &str| s.chars().collect::<Vec<char>>();
    assert_eq!(light_theme_name(&v("dark:Mocha, light:Latte")), v("Latte"));
    assert_eq!(light_theme_name(&v("dark:Mocha")), v("Mocha"));
    assert_eq!(light_theme_name(&v("dark:A,Plain")), v("Plain"));
    assert_eq!(light_theme_name(&v("Catppuccin Latte")), v("Catppuccin Latte"));
    assert_eq!(parse_bool(&v("No")), Some(false));
    assert_eq!(parse_bool(&v("maybe")), None);
}

#[test]
fn theme_files_are_tried_by_name_and_by_slug() {
    assert_eq!(normalize_theme(" Catppuccin_Latte.conf "), "catppuccin latte".chars().collect::<Vec<char>>());
    assert_eq!(
        theme_file_names_for("Catppuccin Latte"),
        vec![
            "Catppuccin Latte".to_string(),
            "Catppuccin Latte.conf".to_string(),
            "catppuccin-latte".to_string(),
            "catppuccin-latte.conf".to_string()
        ]
    );
    let mut dirs = Vec::new();
    push_dir(&mut dirs, "a".into());
    push_dir(&mut dirs, "a".into());
    push_dir(&mut dirs, "".into());
    push_dir(&mut dirs, "b".into());
    assert_eq!(dirs, vec!["a".to_string(), "b".to_string()]);
}

fn latte() -> ThemeColors {
    ThemeColors { background: 0xeff1f5ff, foreground: 0x4c4f69ff, cursor: 0xdc8a78ff, ansi: None, split_divider: None }
}

#[test]
fn explicit_colours_win_over_the_theme() {
    let keys = scan_look_keys("theme = Latte\nforeground = #000000\n");
    let look = resolve_look(&keys, Some(latte()));
    assert_eq!(look.background, Some(0xeff1f5ff));
    assert_eq!(look.foreground, Some(0x000000ff));
    let theme = theme_from_look(&look).expect("theme");
    assert_eq!(theme.cursor, 0xdc8a78ff);
    let bare = resolve_look(&scan_look_keys("background = #111111\n"), None);
    assert!(theme_from_look(&bare).is_none());
}

#[test]
fn unknown_theme_does_not_replace_surface_colours() {
    let base = SurfaceLook {
        font_family: "Mono".into(),
        font_fallbacks: vec![],
        cols: 80,
        rows: 24,
        theme: Some("Latte".into()),
        macos_option_as_alt: false,
        colors: Some(latte()),
    };
    let look = resolve_look(&scan_look_keys("theme = NotARealTheme\n"), None);
    let resolved = overlay_surface(base.clone(), &look);
    assert_eq!(resolved.colors, Some(latte()));
    assert_eq!(resolved.theme.as_deref(), Some("Latte"));
    let dark = resolve_look(&scan_look_keys("background = #1e1e2e\nfont-family = Iosevka\n"), None);
    let over = overlay_surface(base, &dark);
    assert_eq!(over.colors.expect("colors").background, 0x1e1e2eff);
    assert_eq!(over.font_family, "Iosevka");
}

#[test]
fn themed_grid_remaps_only_default_cells() {
    let cell = |fg, bg| PodCell { codepoint: 32, fg, bg, attrs: 0, _pad: 0 };
    let mut grid = LiveGrid {
        cols: 2,
        rows: 1,
        cursor_col: 0,
        cursor_row: 0,
        cursor_visible: true,
        full_damage: false,
        damage_row0: 0,
        damage_row1: 0,
        default_fg: 1,
        default_bg: 2,
        grapheme_truncated: 0,
        replies_dropped: 0,
        cells: vec![cell(1, 2), cell(7, 8)],
    };
    apply_theme(&mut grid, &Some(latte()));
    assert_eq!(grid.cells[0].fg, 0x4c4f69ff);
    assert_eq!(grid.cells[0].bg, 0xeff1f5ff);
    assert_eq!(grid.cells[1].fg, 7);
    apply_theme(&mut grid, &None);
    assert_eq!(grid.cells[1].bg, 8);
}

#[test]
fn pod_grid_cell_is_row_major() {
    let grid = PodGrid {
        cols: 2,
        rows: 2,
        cursor_col: 0,
        cursor_row: 0,
        cursor_visible: true,
        full_damage: true,
        damage_row0: 0,
        damage_row1: 1,
        grapheme_truncated: 0,
        cells: (0..4).map(|i| PodCell { codepoint: 65 + i, fg: 0, bg: 0, attrs: 0, _pad: 0 }).collect(),
    };
    assert_eq!(grid.cell(1, 1).map(|c| c.codepoint), Some(68));
    assert_eq!(grid.cell(0, 1).map(|c| c.codepoint), Some(67));
    assert!(grid.cell(0, 2).is_none());
}

#[test]
fn resync_clears_and_homes_before_the_repaint() {
    assert_eq!(resync_frame(b"MARK"), b"\x1b[2J\x1b[HMARK".to_vec());
}
