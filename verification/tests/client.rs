use wallbash::cli::{apply_options, awaits_reply, cycle_argument, find_flag, subcommand, wall_argument, wall_check, Subcommand, WallCheck};
use wallbash::state::{cache_dir_path, cache_log, cache_state, join, parse_state, render_state, CachedState};

fn args(v: &[&str]) -> Vec<String> {
    v.iter().map(|s| s.to_string()).collect()
}

fn fields(s: &CachedState) -> [String; 6] {
    [
        s.wall.clone(),
        s.palette.clone(),
        s.bezier.clone(),
        s.mode.clone(),
        s.anchor_x.clone(),
        s.anchor_y.clone(),
    ]
}

#[test]
fn default_state_values() {
    let d = CachedState::default();
    assert_eq!(fields(&d), ["", "skip", "0.64,0.56,0.17,0.84", "cover", "0.5", "0.5"]);
}

#[test]
fn cache_paths() {
    assert_eq!(cache_dir_path(Some("/x/cache"), Some("/home/u")), "/x/cache/wallbash");
    assert_eq!(cache_dir_path(None, Some("/home/u")), "/home/u/.cache/wallbash");
    assert_eq!(cache_dir_path(None, None), "wallbash");
    assert_eq!(cache_dir_path(Some("/x/"), None), "/x/wallbash");
    assert_eq!(cache_state("/c/wallbash"), "/c/wallbash/state");
    assert_eq!(cache_log("/c/wallbash"), "/c/wallbash/wallbash.log");
    assert_eq!(join("", "a"), "a");
    assert_eq!(join("/", "a"), "/a");
}

#[test]
fn state_renders_one_field_per_line() {
    let s = CachedState {
        wall: "/w/a.png".to_string(),
        palette: "dark".to_string(),
        bezier: "0,0,1,1".to_string(),
        mode: "fit".to_string(),
        anchor_x: "0".to_string(),
        anchor_y: "1".to_string(),
    };
    assert_eq!(render_state(&s), "/w/a.png\ndark\n0,0,1,1\nfit\n0\n1");
}

#[test]
fn state_round_trips() {
    let s = CachedState {
        wall: "/w/b c.jpg".to_string(),
        palette: "auto".to_string(),
        bezier: "0.64,0.56,0.17,0.84".to_string(),
        mode: "original".to_string(),
        anchor_x: "0.5".to_string(),
        anchor_y: "-2e1".to_string(),
    };
    let back = parse_state(Some(&render_state(&s)));
    assert_eq!(fields(&back), fields(&s));
}

#[test]
fn state_file_missing_or_short() {
    assert_eq!(fields(&parse_state(None)), fields(&CachedState::default()));
    assert_eq!(fields(&parse_state(Some(""))), fields(&CachedState::default()));
    let s = parse_state(Some("/a.png\r\nlight\n"));
    assert_eq!(fields(&s), ["/a.png", "light", "0.64,0.56,0.17,0.84", "cover", "0.5", "0.5"]);
}

#[test]
fn state_file_bad_anchor_takes_default() {
    let s = parse_state(Some("/a.png\nauto\nb\nfit\nleft\n1"));
    assert_eq!(fields(&s), ["/a.png", "auto", "b", "fit", "0.5", "1"]);
}

#[test]
fn subcommands() {
    assert_eq!(subcommand(&args(&["wallbash"])), Subcommand::Usage);
    assert_eq!(subcommand(&args(&["wallbash", "start"])), Subcommand::Start);
    assert_eq!(subcommand(&args(&["wallbash", "set", "x"])), Subcommand::SetWallpaper);
    assert_eq!(subcommand(&args(&["wallbash", "stop"])), Subcommand::Stop);
    assert_eq!(subcommand(&args(&["wallbash", "status"])), Subcommand::Status);
    assert_eq!(subcommand(&args(&["wallbash", "help"])), Subcommand::Usage);
}

#[test]
fn only_set_waits_for_reply() {
    assert!(awaits_reply("setauto\u{1}x"));
    assert!(!awaits_reply("stop"));
    assert!(!awaits_reply(" set"));
}

#[test]
fn flags_are_found_by_either_spelling() {
    let a = args(&["wallbash", "set", "-m", "fit", "--mode", "cover"]);
    assert_eq!(find_flag(&a, "--mode", "-m"), 2);
    assert_eq!(find_flag(&a, "--wall", "-w"), 6);
}

#[test]
fn wall_from_flag_or_bare_argument() {
    assert_eq!(wall_argument(&args(&["wallbash", "set", "-w", "/a.png", "/b.png"])), Some("/a.png".to_string()));
    assert_eq!(wall_argument(&args(&["wallbash", "set", "/b.png"])), Some("/b.png".to_string()));
    assert_eq!(wall_argument(&args(&["wallbash", "set", "/b.png", "-m", "fit", "/c.png"])), Some("/c.png".to_string()));
    assert_eq!(wall_argument(&args(&["wallbash", "set", "-m", "fit"])), None);
    assert_eq!(wall_argument(&args(&["wallbash", "set", "--wall"])), None);
    assert_eq!(wall_argument(&args(&["wallbash", "set", "--wall", "-p", "dark"])), Some("-p".to_string()));
}

#[test]
fn cycle_values() {
    assert_eq!(cycle_argument(&args(&["wallbash", "set", "-c", "+1"])), 1);
    assert_eq!(cycle_argument(&args(&["wallbash", "set", "--cycle", "-2"])), -2);
    assert_eq!(cycle_argument(&args(&["wallbash", "set", "--cycle", "two"])), 0);
    assert_eq!(cycle_argument(&args(&["wallbash", "set", "--cycle"])), 0);
    assert_eq!(cycle_argument(&args(&["wallbash", "set", "-c", "-2147483648"])), i32::MIN);
    assert_eq!(cycle_argument(&args(&["wallbash", "set", "-c", "2147483648"])), 0);
    assert_eq!(cycle_argument(&args(&["wallbash", "set"])), 0);
}

#[test]
fn options_change_only_what_is_given() {
    let mut s = CachedState::default();
    apply_options(&args(&["wallbash", "set", "/w.png"]), &mut s);
    assert_eq!(fields(&s), fields(&CachedState::default()));

    apply_options(&args(&["wallbash", "set", "-p", "dark", "-m", "fit", "-a", "3", "-b", "0,0,1,1"]), &mut s);
    assert_eq!(fields(&s), ["", "dark", "0,0,1,1", "fit", "1", "0"]);

    apply_options(&args(&["wallbash", "set", "-p", "pink", "-m", "zoom", "-a", "7"]), &mut s);
    assert_eq!(fields(&s), ["", "skip", "0,0,1,1", "cover", "0", "1"]);
}

#[test]
fn anchor_points_run_row_by_row() {
    let expect = [
        ("1", "0", "0"),
        ("2", "0.5", "0"),
        ("3", "1", "0"),
        ("4", "0", "0.5"),
        ("5", "0.5", "0.5"),
        ("6", "1", "0.5"),
        ("7", "0", "1"),
        ("8", "0.5", "1"),
        ("9", "1", "1"),
        ("0", "0.5", "0.5"),
        ("10", "0.5", "0.5"),
        ("+9", "1", "1"),
    ];
    for (n, x, y) in expect {
        let mut s = CachedState::default();
        apply_options(&args(&["wallbash", "set", "--anchor", n]), &mut s);
        assert_eq!((s.anchor_x.as_str(), s.anchor_y.as_str()), (x, y), "anchor {}", n);
    }
}

#[test]
fn options_without_value_take_defaults() {
    let mut s = CachedState::default();
    s.bezier = "1,1,1,1".to_string();
    s.palette = "auto".to_string();
    apply_options(&args(&["wallbash", "set", "-b"]), &mut s);
    assert_eq!(s.bezier, "0.64,0.56,0.17,0.84");
    apply_options(&args(&["wallbash", "set", "--palette"]), &mut s);
    assert_eq!(s.palette, "skip");
}

#[test]
fn wallpaper_checks() {
    assert_eq!(wall_check("", 1), WallCheck::NoCachedWallpaper);
    assert_eq!(wall_check("", -3), WallCheck::NoCachedWallpaper);
    assert_eq!(wall_check("/w/a.png", 2), WallCheck::CycleFrom);
    assert_eq!(wall_check("", 0), WallCheck::MissingWallpaper);
    assert_eq!(wall_check("/w/a.png", 0), WallCheck::Ready);
}
