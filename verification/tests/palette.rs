use wallbash::colors::{
    argb_channels, cluster_sizes, hex_color, palette_roles, resolve_palette, rgb_to_argb, seed_indices, ChromaLevel,
    HueSource, ROLE_COUNT,
};
use wallbash::template::{
    deploy_script, parse_template, render_template, template_dir, template_path, ClaimedOutputs, PaletteColor,
};

#[test]
fn packing_colors() {
    assert_eq!(rgb_to_argb(0x12, 0x34, 0x56), 0xFF12_3456);
    assert_eq!(rgb_to_argb(0, 0, 0), 0xFF00_0000);
    assert_eq!(rgb_to_argb(255, 255, 255), 0xFFFF_FFFF);
    assert_eq!(argb_channels(0x80AB_CDEF), (0xAB, 0xCD, 0xEF));
}

#[test]
fn packing_round_trips() {
    for (r, g, b) in [(0u8, 0u8, 0u8), (1, 2, 3), (255, 0, 128), (17, 255, 254)] {
        assert_eq!(argb_channels(rgb_to_argb(r, g, b)), (r, g, b));
    }
}

#[test]
fn hex_names() {
    assert_eq!(hex_color(0xFF12_3456), "#123456");
    assert_eq!(hex_color(0x00AB_CDEF), "#ABCDEF");
    assert_eq!(hex_color(0xFF00_0000), "#000000");
    assert_eq!(hex_color(0x0000_000A), "#00000A");
}

#[test]
fn role_table() {
    let roles = palette_roles();
    assert_eq!(roles.len(), ROLE_COUNT);
    assert_eq!(roles[0].group, "Primary");
    assert_eq!(roles[0].name, "Primary");
    assert_eq!(roles[0].hue, HueSource::Source);
    assert_eq!(roles[0].chroma, ChromaLevel::Primary);
    assert_eq!((roles[0].tone(true), roles[0].tone(false)), (80, 40));
    assert_eq!(roles[8].name, "Tertiary");
    assert_eq!(roles[8].hue, HueSource::Tertiary);
    assert_eq!(roles[12].hue, HueSource::Error);
    assert_eq!(roles[16].name, "Background");
    assert_eq!((roles[16].tone(true), roles[16].tone(false)), (6, 98));
    assert_eq!(roles[21].name, "On Surface Variant");
    assert_eq!((roles[21].tone(true), roles[21].tone(false)), (80, 30));
    assert_eq!(roles[27].name, "Inverse Primary");
    assert_eq!(roles[27].chroma, ChromaLevel::Primary);
}

#[test]
fn dark_or_light() {
    assert_eq!(resolve_palette("dark", false), "dark");
    assert_eq!(resolve_palette("light", true), "light");
    assert_eq!(resolve_palette("auto", true), "dark");
    assert_eq!(resolve_palette("auto", false), "light");
    assert_eq!(resolve_palette("whatever", true), "dark");
}

#[test]
fn seeding_follows_the_generator() {
    let mut lcg: u32 = 42;
    let mut expect = Vec::new();
    for _ in 0..8 {
        lcg = lcg.wrapping_mul(1664525).wrapping_add(1013904223);
        expect.push(lcg as usize % 4096);
    }
    assert_eq!(seed_indices(4096, 8), expect);
    // 42 * 1664525 + 1013904223 = 1083814273
    assert_eq!(seed_indices(1_000_000_000, 1), vec![83_814_273]);
    assert!(seed_indices(5, 0).is_empty());
}

#[test]
fn cluster_counts() {
    assert_eq!(cluster_sizes(&vec![0, 2, 2, 1, 2], 4), vec![1, 1, 3, 0]);
    assert_eq!(cluster_sizes(&vec![], 3), vec![0, 0, 0]);
}

#[test]
fn template_locations() {
    assert_eq!(template_dir(Some("/cfg"), Some("/home/u")), "/cfg/wallbash");
    assert_eq!(template_dir(None, Some("/home/u")), "/home/u/.config/wallbash");
    assert_eq!(template_dir(None, None), "");
    assert!(template_path("/cfg/wallbash/kitty.t2"));
    assert!(template_path("a.b.t2"));
    assert!(!template_path("/cfg/wallbash/kitty.T2"));
    assert!(!template_path("/cfg/wallbash/.t2"));
    assert!(!template_path("/cfg/wallbash/kitty.t2.bak"));
    assert!(!template_path("/cfg/x.t2/file"));
}

#[test]
fn template_headers() {
    let t = parse_template("[::HyDE::]|/home/u/.config/kitty/theme.conf|kill -USR1 kitty\nfg [::Primary::]\n").unwrap();
    assert_eq!(t.out, Some("/home/u/.config/kitty/theme.conf".to_string()));
    assert_eq!(t.cmd, Some("kill -USR1 kitty".to_string()));
    assert_eq!(t.body, "fg [::Primary::]\n");

    let t = parse_template("[::HyDE::]||\nbody").unwrap();
    assert_eq!(t.out, None);
    assert_eq!(t.cmd, None);
    assert_eq!(t.body, "body");

    let t = parse_template("[::HyDE::]|/o\n").unwrap();
    assert_eq!(t.out, Some("/o".to_string()));
    assert_eq!(t.cmd, None);
    assert_eq!(t.body, "");

    assert!(parse_template("[::HyDE::]|/o|cmd").is_none());
    assert!(parse_template("# plain file\n[::HyDE::]|/o\n").is_none());
    assert!(parse_template("").is_none());
}

#[test]
fn claimed_outputs() {
    let mut c = ClaimedOutputs::new();
    assert!(c.claim("/a"));
    assert!(c.claim("/b"));
    assert!(!c.claim("/a"));
    assert!(!c.claim("/a"));
}

#[test]
fn rendering_substitutes_tags() {
    let colors = [
        PaletteColor { group: "Primary", name: "Primary", argb: 0xFF11_2233 },
        PaletteColor { group: "Surface", name: "On Primary", argb: 0xFFAB_CDEF },
    ];
    let body = "a=[::Primary::] b=[::On Primary::] c=[::Primary::] d=[::Unknown::] [::Primary:]";
    assert_eq!(render_template(body, &colors), "a=#112233 b=#ABCDEF c=#112233 d=[::Unknown::] [::Primary:]");
    assert_eq!(render_template("no tags", &colors), "no tags");
    assert_eq!(render_template("[::Primary::]", &[]), "[::Primary::]");
}

#[test]
fn rendering_applies_colors_in_order() {
    // the first color's hex text could only match a later tag if it were
    // itself a tag; a tag produced by an earlier substitution is not re-read
    let colors = [
        PaletteColor { group: "g", name: "A", argb: 0xFF00_0001 },
        PaletteColor { group: "g", name: "B", argb: 0xFF00_0002 },
    ];
    assert_eq!(render_template("[::A::][::B::][::A::]", &colors), "#000001#000002#000001");
}

#[test]
fn deploy_scripts() {
    let s = deploy_script(&Some("/o.conf".to_string()), &Some("reload".to_string()), "x=1");
    assert_eq!(
        s,
        "if [ -f \"/o.conf\" ]; then\ncat > \"/o.conf\" << 'EOF'\nx=1\nEOF\necho \"[shell] deployed -> /o.conf\"\nreload\nelse\necho '[shell] skipped (file not found) -> /o.conf'\nfi\n"
    );
    let s = deploy_script(&Some("/o.conf".to_string()), &None, "");
    assert_eq!(
        s,
        "if [ -f \"/o.conf\" ]; then\ncat > \"/o.conf\" << 'EOF'\n\nEOF\necho \"[shell] deployed -> /o.conf\"\nelse\necho '[shell] skipped (file not found) -> /o.conf'\nfi\n"
    );
    assert_eq!(deploy_script(&None, &Some("reload".to_string()), "x=1"), "");
}
