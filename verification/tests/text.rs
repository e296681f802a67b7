use voxer::render::renderer::helpers::shader as helpers_shader;
use voxer::render::renderer::shader::main_shader_source;
use voxer::renderer::gpu::malloc::common::{malloc_fmt, DebugFmtMemSlot};

#[test]
fn shader_source_joins_the_stages() {
    assert_eq!(main_shader_source("vert", "frag"), "vert\nfrag");
    assert_eq!(helpers_shader::main_shader_source("", ""), "\n");
}

#[test]
fn malloc_fmt_of_an_empty_arena() {
    let text = malloc_fmt(512, 0, 1, &[DebugFmtMemSlot { offset: 0, size: 512 }]);
    let bar: String = (0..512).map(|i| if i % 51 == 0 { "\n-".to_string() } else { "-".to_string() }).collect();
    let expected = format!(
        "~used:      0 /    512\nalloc:      0 ~avg:      0\nfree:       1 ~avg:    512\n{}",
        bar
    );
    assert_eq!(text, expected);
}

#[test]
fn malloc_fmt_draws_used_space_before_free_blocks() {
    // 1024 bytes: two bytes per character, 51 characters per row
    let slots = [DebugFmtMemSlot { offset: 200, size: 100 }, DebugFmtMemSlot { offset: 1000, size: 24 }];
    let text = malloc_fmt(1024, 3, 2, &slots);
    let mut bar = String::new();
    let mut pos = 0usize;
    let mut push = |c: char, n: usize| {
        for _ in 0..n {
            if pos % 51 == 0 {
                bar.push('\n');
            }
            bar.push(c);
            pos += 1;
        }
    };
    push('#', 100);
    push('-', 50);
    push('#', 350);
    push('-', 12);
    let expected = format!(
        "~used:    900 /   1024\nalloc:      3 ~avg:    300\nfree:       2 ~avg:    512\n{}",
        bar
    );
    assert_eq!(text, expected);
}

#[test]
fn malloc_fmt_pads_to_six_and_keeps_longer_numbers() {
    let text = malloc_fmt(10_000_000, 1, 0, &[]);
    assert!(text.starts_with("~used: 10000000 / 10000000\nalloc:      1 ~avg: 10000000\nfree:       0 ~avg: 10000000\n"));
}

#[test]
fn debug_slots_order_by_offset() {
    let a = DebugFmtMemSlot { offset: 1, size: 50 };
    let b = DebugFmtMemSlot { offset: 2, size: 10 };
    assert!(a < b);
    assert_eq!(a.partial_cmp(&DebugFmtMemSlot { offset: 1, size: 7 }), Some(std::cmp::Ordering::Equal));
    assert_ne!(a, DebugFmtMemSlot { offset: 1, size: 7 });
}
