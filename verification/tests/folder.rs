use wallbash::folder::{image_path, pick_cycled, sort_texts, text_le_exec};

fn chars(s: &str) -> Vec<char> {
    s.chars().collect()
}

fn listing(v: &[&str]) -> Vec<String> {
    v.iter().map(|s| s.to_string()).collect()
}

#[test]
fn image_extensions_in_any_case() {
    for p in ["/w/a.jpg", "/w/a.JPEG", "/w/b.Png", "/w/c.bmp", "/w/d.gif", "/w/e.WebP", "x.tar.png"] {
        assert!(image_path(&chars(p)), "{}", p);
    }
    for p in ["/w/a.txt", "/w/png", "/w/.png", "/w.png/readme", "/w/a.", "/w/a.pngx", ""] {
        assert!(!image_path(&chars(p)), "{}", p);
    }
}

#[test]
fn texts_sort_by_code_point() {
    assert!(text_le_exec(&chars("a"), &chars("b")));
    assert!(text_le_exec(&chars("ab"), &chars("abc")));
    assert!(!text_le_exec(&chars("b"), &chars("B")));
    let sorted = sort_texts(vec![chars("/w/c.png"), chars("/w/B.png"), chars("/w/a.png"), chars("/w/a.png")]);
    let back: Vec<String> = sorted.iter().map(|v| v.iter().collect()).collect();
    assert_eq!(back, ["/w/B.png", "/w/a.png", "/w/a.png", "/w/c.png"]);
}

#[test]
fn cycling_moves_through_sorted_images() {
    let entries = listing(&["/w/c.png", "/w/notes.txt", "/w/a.jpg", "/w/b.gif"]);
    assert_eq!(pick_cycled(&entries, "/w/a.jpg", 1), Some("/w/b.gif".to_string()));
    assert_eq!(pick_cycled(&entries, "/w/a.jpg", 2), Some("/w/c.png".to_string()));
    assert_eq!(pick_cycled(&entries, "/w/a.jpg", 3), Some("/w/a.jpg".to_string()));
    assert_eq!(pick_cycled(&entries, "/w/a.jpg", -1), Some("/w/c.png".to_string()));
    assert_eq!(pick_cycled(&entries, "/w/b.gif", -4), Some("/w/a.jpg".to_string()));
    assert_eq!(pick_cycled(&entries, "/w/c.png", 0), Some("/w/c.png".to_string()));
}

#[test]
fn cycling_from_an_unknown_wallpaper_starts_at_the_first() {
    let entries = listing(&["/w/b.png", "/w/a.png"]);
    assert_eq!(pick_cycled(&entries, "/elsewhere/z.png", 1), Some("/w/b.png".to_string()));
    assert_eq!(pick_cycled(&entries, "/elsewhere/z.png", -1), Some("/w/b.png".to_string()));
}

#[test]
fn cycling_in_a_folder_without_images() {
    assert_eq!(pick_cycled(&listing(&["/w/readme.md"]), "/w/a.png", 1), None);
    assert_eq!(pick_cycled(&[], "/w/a.png", 1), None);
}

#[test]
fn cycling_there_and_back() {
    let entries = listing(&["/w/1.png", "/w/2.png", "/w/3.png", "/w/4.png", "/w/5.png"]);
    for c in [-7, -1, 1, 3, 11, 1000] {
        let there = pick_cycled(&entries, "/w/2.png", c).unwrap();
        assert_eq!(pick_cycled(&entries, &there, -c), Some("/w/2.png".to_string()), "cycle {}", c);
    }
}

#[test]
fn cycling_extreme_steps() {
    let entries = listing(&["/w/1.png", "/w/2.png", "/w/3.png"]);
    // (0 + i32::MIN) mod 3 == 1, (0 + i32::MAX) mod 3 == 1
    assert_eq!(pick_cycled(&entries, "/w/1.png", i32::MIN), Some("/w/2.png".to_string()));
    assert_eq!(pick_cycled(&entries, "/w/1.png", i32::MAX), Some("/w/2.png".to_string()));
}
