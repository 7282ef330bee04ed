use wallbash::dispatch::{Action, Dispatcher};
use wallbash::ipc::{set_command_line, Command, PaletteMode, ScalingMode, FIELD_SEP};

fn set_fields(r: Result<Command, String>) -> (PaletteMode, String, ScalingMode, String, String, String) {
    match r {
        Ok(Command::SetWallpaper { palette, bezier, scale, anchor_x, anchor_y, path }) => {
            (palette, bezier, scale, anchor_x, anchor_y, path)
        }
        Ok(Command::Stop) => panic!("expected a set command, got stop"),
        Err(e) => panic!("expected a set command, got error {}", e),
    }
}

fn error_of(r: Result<Command, String>) -> String {
    match r {
        Err(e) => e,
        Ok(_) => panic!("expected an error"),
    }
}

#[test]
fn scaling_mode_reads_its_names() {
    assert_eq!(ScalingMode::from_str("fit"), ScalingMode::Fit);
    assert_eq!(ScalingMode::from_str("original"), ScalingMode::Original);
    assert_eq!(ScalingMode::from_str("cover"), ScalingMode::Cover);
    assert_eq!(ScalingMode::from_str("  FIT \t"), ScalingMode::Fit);
    assert_eq!(ScalingMode::from_str("Original"), ScalingMode::Original);
    assert_eq!(ScalingMode::from_str("stretch"), ScalingMode::Cover);
    assert_eq!(ScalingMode::from_str(""), ScalingMode::Cover);
}

#[test]
fn scaling_mode_folds_the_kelvin_sign() {
    // U+212A lowercases to 'k'; no mode name holds a 'k', so this stays cover
    assert_eq!(ScalingMode::from_str("\u{212A}"), ScalingMode::Cover);
    assert_eq!(PaletteMode::from_str("DAR\u{212A}"), PaletteMode::Dark);
}

#[test]
fn palette_mode_reads_its_names() {
    assert_eq!(PaletteMode::from_str("auto"), PaletteMode::Auto);
    assert_eq!(PaletteMode::from_str("dark"), PaletteMode::Dark);
    assert_eq!(PaletteMode::from_str(" Light\n"), PaletteMode::Light);
    assert_eq!(PaletteMode::from_str("skip"), PaletteMode::Skip);
    assert_eq!(PaletteMode::from_str("neon"), PaletteMode::Skip);
}

#[test]
fn mode_names_round_trip() {
    for m in [ScalingMode::Cover, ScalingMode::Fit, ScalingMode::Original] {
        assert_eq!(ScalingMode::from_str(m.as_str()), m);
    }
    for m in [PaletteMode::Auto, PaletteMode::Dark, PaletteMode::Light, PaletteMode::Skip] {
        assert_eq!(PaletteMode::from_str(m.as_str()), m);
    }
    assert_eq!(ScalingMode::Original.as_str(), "original");
    assert_eq!(PaletteMode::Skip.as_str(), "skip");
}

#[test]
fn mode_flags() {
    assert!(!ScalingMode::Cover.needs_background());
    assert!(ScalingMode::Fit.needs_background());
    assert!(ScalingMode::Original.needs_background());
    assert!(!PaletteMode::Skip.generates());
    assert!(PaletteMode::Auto.generates());
}

#[test]
fn stop_command_parses() {
    assert!(matches!(Command::parse_raw("stop"), Ok(Command::Stop)));
    assert!(matches!(Command::parse_raw("  stop\n"), Ok(Command::Stop)));
}

#[test]
fn set_command_parses_all_fields() {
    let raw = "setdark\u{1}0.64,0.56,0.17,0.84\u{1}fit\u{1}0.5\u{1}1\u{1}/walls/a b.png";
    let (palette, bezier, scale, ax, ay, path) = set_fields(Command::parse_raw(raw));
    assert_eq!(palette, PaletteMode::Dark);
    assert_eq!(bezier, "0.64,0.56,0.17,0.84");
    assert_eq!(scale, ScalingMode::Fit);
    assert_eq!(ax, "0.5");
    assert_eq!(ay, "1");
    assert_eq!(path, "/walls/a b.png");
}

#[test]
fn set_command_path_keeps_separators() {
    let raw = "setskip\u{1}\u{1}cover\u{1}0\u{1}0\u{1}odd\u{1}name.jpg";
    let (palette, bezier, scale, _, _, path) = set_fields(Command::parse_raw(raw));
    assert_eq!(palette, PaletteMode::Skip);
    assert_eq!(bezier, "");
    assert_eq!(scale, ScalingMode::Cover);
    assert_eq!(path, "odd\u{1}name.jpg");
}

#[test]
fn set_command_errors() {
    assert_eq!(error_of(Command::parse_raw("set")), "missing bezier");
    assert_eq!(error_of(Command::parse_raw("setauto")), "missing bezier");
    assert_eq!(error_of(Command::parse_raw("setauto\u{1}b")), "missing mode");
    assert_eq!(error_of(Command::parse_raw("setauto\u{1}b\u{1}fit")), "missing anchor_x");
    assert_eq!(error_of(Command::parse_raw("setauto\u{1}b\u{1}fit\u{1}x")), "invalid anchor_x");
    assert_eq!(error_of(Command::parse_raw("setauto\u{1}b\u{1}fit\u{1}0.5")), "missing anchor_y");
    assert_eq!(error_of(Command::parse_raw("setauto\u{1}b\u{1}fit\u{1}0.5\u{1}.")), "invalid anchor_y");
    assert_eq!(error_of(Command::parse_raw("setauto\u{1}b\u{1}fit\u{1}0.5\u{1}1e3")), "missing path");
}

#[test]
fn unknown_command_is_reported() {
    assert_eq!(error_of(Command::parse_raw("  hello  ")), "unknown internal command: hello");
    assert_eq!(error_of(Command::parse_raw("")), "unknown internal command: ");
}

#[test]
fn anchors_accept_float_literals() {
    for a in ["1", "-0.25", "+3.", ".5", "2e-3", "1E+2", "inf", "-Infinity", "NaN"] {
        let raw = format!("setauto{s}b{s}fit{s}{a}{s}{a}{s}/p.png", s = FIELD_SEP, a = a);
        let (_, _, _, ax, ay, _) = set_fields(Command::parse_raw(&raw));
        assert_eq!(ax, a);
        assert_eq!(ay, a);
    }
    for a in ["", "-", "1.2.3", "e5", "1e", "0x10", "1_000", " 1"] {
        let raw = format!("setauto{s}b{s}fit{s}{a}{s}0{s}/p.png", s = FIELD_SEP, a = a);
        assert_eq!(error_of(Command::parse_raw(&raw)), "invalid anchor_x");
    }
}

#[test]
fn set_line_round_trips() {
    let line = set_command_line("light", "0.1,0.2,0.3,0.4", "original", "0", "0.5", "/home/me/w.webp");
    assert_eq!(line, "setlight\u{1}0.1,0.2,0.3,0.4\u{1}original\u{1}0\u{1}0.5\u{1}/home/me/w.webp");
    let (palette, bezier, scale, ax, ay, path) = set_fields(Command::parse_raw(&line));
    assert_eq!(palette, PaletteMode::Light);
    assert_eq!(bezier, "0.1,0.2,0.3,0.4");
    assert_eq!(scale, ScalingMode::Original);
    assert_eq!(ax, "0");
    assert_eq!(ay, "0.5");
    assert_eq!(path, "/home/me/w.webp");
}

fn applied(a: Action) -> Option<String> {
    match a {
        Action::Apply(Command::SetWallpaper { path, .. }) => Some(path),
        Action::ApplyDiscarding(Command::SetWallpaper { path, .. }) => Some(path),
        Action::ApplyThenStop(Command::SetWallpaper { path, .. }) => Some(path),
        _ => None,
    }
}

fn set_line_for(path: &str) -> String {
    set_command_line("skip", "", "cover", "0.5", "0.5", path)
}

#[test]
fn dispatcher_stops_and_rejects() {
    let mut d = Dispatcher::new();
    assert!(matches!(d.on_message("stop"), Action::Stop));
    assert!(!d.holding());
    match d.on_message("bogus") {
        Action::Reject(e) => assert_eq!(e, "unknown internal command: bogus"),
        _ => panic!("expected a rejection"),
    }
    assert!(d.on_empty().is_none());
}

#[test]
fn dispatcher_applies_only_the_newest_set() {
    let mut d = Dispatcher::new();
    assert!(matches!(d.on_message(&set_line_for("/a.png")), Action::Hold));
    assert!(matches!(d.on_message(&set_line_for("/b.png")), Action::Supersede));
    assert!(matches!(d.on_message(&set_line_for("/c.png")), Action::Supersede));
    assert!(d.holding());
    let a = d.on_empty().expect("the held set is applied");
    assert!(matches!(a, Action::Apply(_)));
    assert_eq!(applied(a), Some("/c.png".to_string()));
    assert!(!d.holding());
}

#[test]
fn dispatcher_applies_held_set_then_stops() {
    let mut d = Dispatcher::new();
    assert!(matches!(d.on_message(&set_line_for("/a.png")), Action::Hold));
    let a = d.on_message("stop");
    assert!(matches!(a, Action::ApplyThenStop(_)));
    assert_eq!(applied(a), Some("/a.png".to_string()));
    assert!(!d.holding());
    assert!(matches!(d.on_message(&set_line_for("/b.png")), Action::Hold));
    let a = d.on_message("set");
    assert!(matches!(a, Action::ApplyDiscarding(_)));
    assert_eq!(applied(a), Some("/b.png".to_string()));
}
