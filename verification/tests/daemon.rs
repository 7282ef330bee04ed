use wallbash::cache::{DecodeCache, CACHE_CAPACITY};
use wallbash::gpu::{
    clamp_u32, filter_kind, memory_type, mode_id, pick_device, pick_surface_format, queue_family, spv_words, words_in_order,
    swapchain_extent, swapchain_image_count, workgroups, FilterKind,
};
use wallbash::outputs::{global_kind, GlobalKind, MonitorInfo};
use wallbash::transition::{bezier_points, find_transition, FrameCounter, TransitionNone};

#[test]
fn device_choice() {
    // 1 = integrated, 2 = discrete, 4 = cpu
    assert_eq!(pick_device(&vec![1, 2, 2], 2), 1);
    assert_eq!(pick_device(&vec![1, 4], 2), 0);
    assert_eq!(pick_device(&vec![2], 2), 0);
}

#[test]
fn graphics_queue_choice() {
    let graphics = 0x1;
    assert_eq!(queue_family(&vec![0x4, 0x3, 0x1], graphics), Some(1));
    assert_eq!(queue_family(&vec![0x4, 0x2], graphics), None);
    assert_eq!(queue_family(&vec![], graphics), None);
}

#[test]
fn memory_type_choice() {
    let host = 0x2 | 0x4;
    let local = 0x1;
    let props = vec![0x1, 0x6, 0x7, 0x0];
    assert_eq!(memory_type(0b1111, &props, host), Some(1));
    assert_eq!(memory_type(0b1101, &props, host), Some(2));
    assert_eq!(memory_type(0b0001, &props, host), None);
    assert_eq!(memory_type(0b1110, &props, local), Some(2));
    assert_eq!(memory_type(0, &props, 0), None);
    assert_eq!(memory_type(0b1000, &props, 0), Some(3));
}

#[test]
fn surface_format_choice() {
    let wanted = (43, 0);
    assert_eq!(pick_surface_format(&vec![(44, 0), (43, 0), (43, 0)], wanted), 1);
    assert_eq!(pick_surface_format(&vec![(44, 0), (43, 1)], wanted), 0);
}

#[test]
fn swapchain_size_and_count() {
    assert_eq!(swapchain_extent((1920, 1080), (1, 1), (4096, 4096), (800, 600)), (1920, 1080));
    assert_eq!(swapchain_extent((u32::MAX, u32::MAX), (1, 1), (4096, 2048), (800, 6000)), (800, 2048));
    assert_eq!(swapchain_extent((u32::MAX, 7), (100, 100), (200, 200), (5, 500)), (100, 200));
    assert_eq!(clamp_u32(5, 1, 3), 3);
    assert_eq!(clamp_u32(0, 1, 3), 1);
    assert_eq!(swapchain_image_count(0), 2);
    assert_eq!(swapchain_image_count(2), 2);
    assert_eq!(swapchain_image_count(3), 3);
}

#[test]
fn shader_dispatch_values() {
    assert_eq!(mode_id("cover"), 0);
    assert_eq!(mode_id("fit"), 1);
    assert_eq!(mode_id("original"), 2);
    assert_eq!(mode_id("Fit"), 0);
    assert_eq!(workgroups(0), 0);
    assert_eq!(workgroups(1), 1);
    assert_eq!(workgroups(16), 1);
    assert_eq!(workgroups(17), 2);
    assert_eq!(workgroups(1920), 120);
}

#[test]
fn filters_by_name() {
    assert_eq!(filter_kind("blur"), Ok(FilterKind::Blur));
    assert_eq!(filter_kind("sharpen"), Err("unknown filter: sharpen".to_string()));
}

#[test]
fn shader_words() {
    let bytes = [0x03u8, 0x02, 0x23, 0x07, 0x00, 0x00, 0x01, 0x00, 0xAA];
    let words = spv_words(&bytes);
    assert_eq!(words, vec![u32::from_ne_bytes([3, 2, 0x23, 7]), u32::from_ne_bytes([0, 0, 1, 0])]);
    // the SPIR-V magic number, stored little-endian, read in either byte order
    assert!(words[0] == 0x0723_0203 || words[0] == 0x0302_2307);
    assert!(spv_words(&[1, 2, 3]).is_empty());
}

#[test]
fn decode_cache_lookups() {
    let mut c: DecodeCache<u32> = DecodeCache::new();
    assert_eq!(c.len(), 0);
    c.store("/a".to_string(), 1);
    c.store("/b".to_string(), 2);
    assert!(c.contains("/a"));
    assert!(!c.contains("/c"));
    assert_eq!(c.take("/a"), Some(1));
    assert!(!c.contains("/a"));
    assert_eq!(c.take("/a"), None);
    assert_eq!(c.len(), 1);
    c.store("/a".to_string(), 3);
    assert_eq!(c.take("/a"), Some(3));
}

#[test]
fn decode_cache_drops_the_oldest() {
    let mut c: DecodeCache<usize> = DecodeCache::new();
    for i in 0..CACHE_CAPACITY + 2 {
        c.store(format!("/{}", i), i);
    }
    assert_eq!(c.len(), CACHE_CAPACITY);
    assert!(!c.contains("/0"));
    assert!(!c.contains("/1"));
    assert!(c.contains("/2"));
    assert_eq!(c.take(&format!("/{}", CACHE_CAPACITY + 1)), Some(CACHE_CAPACITY + 1));
}

#[test]
fn globals_by_interface() {
    assert_eq!(global_kind("wl_compositor"), GlobalKind::Compositor);
    assert_eq!(global_kind("zwlr_layer_shell_v1"), GlobalKind::LayerShell);
    assert_eq!(global_kind("wl_output"), GlobalKind::Output);
    assert_eq!(global_kind("wl_seat"), GlobalKind::Other);
}

#[test]
fn monitor_events() {
    let mut m = MonitorInfo::new();
    m.on_mode(2560, 1440, 144000);
    m.on_name("DP-1".to_string());
    assert_eq!((m.width, m.height, m.refresh), (2560, 1440, 144000));
    assert_eq!(m.name.as_deref(), Some("DP-1"));
    assert!(m.on_done());
    assert!(!m.on_done());
    assert!(m.detected);
}

#[test]
fn curve_points() {
    assert_eq!(
        bezier_points("0.64,0.56,0.17,0.84"),
        Some(vec!["0.64".to_string(), "0.56".to_string(), "0.17".to_string(), "0.84".to_string()])
    );
    assert_eq!(
        bezier_points(" 1 , x, 2,3 ,4"),
        Some(vec!["1".to_string(), "2".to_string(), "3".to_string(), "4".to_string()])
    );
    assert_eq!(bezier_points(""), None);
    assert_eq!(bezier_points("1,2,3"), None);
    assert_eq!(bezier_points("1,2,3,4,5"), None);
}

#[test]
fn transitions_by_name() {
    let names = ["zoom", "fade"];
    assert_eq!(find_transition(&names, "zoom"), Some(0));
    assert_eq!(find_transition(&names, "fade"), Some(1));
    assert_eq!(find_transition(&names, "wipe"), None);
    assert_eq!(TransitionNone.name(), "none");
}

#[test]
fn frame_counter_draws_every_frame_once() {
    let mut c = FrameCounter::new(3);
    let mut drawn = Vec::new();
    while let Some(f) = c.next_frame() {
        drawn.push(f);
    }
    assert_eq!(drawn, vec![0, 1, 2, 3]);
    assert_eq!(c.next_frame(), None);
    let mut z = FrameCounter::new(0);
    assert_eq!(z.next_frame(), Some(0));
    assert_eq!(z.next_frame(), None);
}

#[test]
fn decode_cache_load_moves_the_path_to_the_newest() {
    let mut c: DecodeCache<usize> = DecodeCache::new();
    for i in 0..CACHE_CAPACITY {
        c.store(format!("/{}", i), i);
    }
    // loading "/0" again takes it out and stores it as the newest entry
    let v = c.take("/0").unwrap();
    c.store("/0".to_string(), v);
    assert_eq!(c.len(), CACHE_CAPACITY);
    // the next new image now pushes out "/1", the oldest, and keeps "/0"
    c.store("/new".to_string(), 99);
    assert_eq!(c.len(), CACHE_CAPACITY);
    assert!(c.contains("/0"));
    assert!(!c.contains("/1"));
    assert_eq!(c.take("/0"), Some(0));
    assert_eq!(c.take("/0"), None);
}

#[test]
fn shader_words_share_one_byte_order() {
    let bytes = [1u8, 0, 0, 0, 0, 0, 0, 2, 0x12, 0x34, 0x56, 0x78];
    let words = spv_words(&bytes);
    let le = vec![1u32, 0x0200_0000, 0x7856_3412];
    let be = vec![0x0100_0000u32, 2, 0x1234_5678];
    assert!(words == le || words == be);
}

#[test]
fn words_in_either_order() {
    let bytes = [0x03u8, 0x02, 0x23, 0x07, 0x01, 0x00, 0x00, 0x00, 0xFF];
    assert_eq!(words_in_order(&bytes, true), vec![0x0723_0203, 1]);
    assert_eq!(words_in_order(&bytes, false), vec![0x0302_2307, 0x0100_0000]);
    assert!(words_in_order(&[9, 9], true).is_empty());
    // the shader words are the native reading of each chunk
    assert_eq!(spv_words(&bytes), vec![u32::from_ne_bytes([3, 2, 0x23, 7]), u32::from_ne_bytes([1, 0, 0, 0])]);
}
