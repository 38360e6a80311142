use bruecke::rng::Rng;
use bruecke::scene::{count_nonblank_lines, total_vertices, vertex_count, ShapeKind, SEGS};
use bruecke::status::{error_report, fps_target, ok_report, FrameOutcome, Overlay, RunStatus};

fn xorshift(mut s: u64) -> u64 {
    s ^= s << 13;
    s ^= s >> 7;
    s ^= s << 17;
    s
}

#[test]
fn rng_seeds_from_clock_bits() {
    let mut r = Rng::new();
    assert!(r.is_unseeded());
    let a = r.next_u64(12345);
    assert_eq!(a, xorshift(12345));
    assert!(!r.is_unseeded());
    let b = r.next_u64(999);
    assert_eq!(b, xorshift(a));
}

#[test]
fn rng_zero_clock_uses_fallback_seed() {
    let mut r = Rng::new();
    assert_eq!(r.next_u64(0), xorshift(0x9e3779b97f4a7c15));
}

#[test]
fn rng_never_returns_zero() {
    let mut r = Rng::from_state(1);
    for _ in 0..10000 {
        assert_ne!(r.next_u64(0), 0);
    }
}

#[test]
fn rng_unit_bits_below_two_pow_53() {
    let mut r = Rng::from_state(0xdead_beef);
    let mut s = 0xdead_beefu64;
    for _ in 0..1000 {
        s = xorshift(s);
        let v = r.next_unit_bits(0);
        assert_eq!(v, s >> 11);
        assert!(v < (1u64 << 53));
    }
}

#[test]
fn rng_range_inclusive_and_ordered() {
    let mut r = Rng::from_state(77);
    for _ in 0..2000 {
        let v = r.next_in_range(3, 7, 0);
        assert!((3..=7).contains(&v));
        let w = r.next_in_range(7, 3, 0);
        assert!((3..=7).contains(&w));
        let x = r.next_in_range(-5, -5, 0);
        assert_eq!(x, -5);
    }
    let full = r.next_in_range(i64::MIN, i64::MAX, 0);
    let _ = full;
}

#[test]
fn rng_range_exact_value() {
    let mut r = Rng::from_state(5);
    let draw = xorshift(5);
    assert_eq!(r.next_in_range(10, 19, 0), 10 + (draw % 10) as i64);
}

#[test]
fn rng_index_within_len() {
    let mut r = Rng::from_state(9);
    let draw = xorshift(9);
    assert_eq!(r.next_index(7, 0), (draw % 7) as usize);
}

#[test]
fn shuffle_is_permutation() {
    let mut r = Rng::from_state(2024);
    let mut v: Vec<u32> = (0..50).collect();
    r.shuffle(&mut v, 0);
    let mut sorted = v.clone();
    sorted.sort();
    assert_eq!(sorted, (0..50).collect::<Vec<u32>>());
    assert_ne!(v, (0..50).collect::<Vec<u32>>());
}

#[test]
fn shuffle_follows_fisher_yates() {
    let mut r = Rng::from_state(31);
    let mut v = vec!['a', 'b', 'c', 'd'];
    r.shuffle(&mut v, 0);
    let mut s = 31u64;
    let mut w = vec!['a', 'b', 'c', 'd'];
    for i in (1..4usize).rev() {
        s = xorshift(s);
        let j = (s % (i as u64 + 1)) as usize;
        w.swap(i, j);
    }
    assert_eq!(v, w);
}

#[test]
fn shuffle_short_lists_untouched() {
    let mut r = Rng::new();
    let mut empty: Vec<u8> = vec![];
    r.shuffle(&mut empty, 1);
    let mut one = vec![5u8];
    r.shuffle(&mut one, 1);
    assert_eq!(one, vec![5]);
    assert!(r.is_unseeded());
}

#[test]
fn vertex_counts() {
    assert_eq!(vertex_count(ShapeKind::Rect), 6);
    assert_eq!(vertex_count(ShapeKind::Line), 6);
    assert_eq!(vertex_count(ShapeKind::Circle), SEGS * 3);
    assert_eq!(total_vertices(&vec![]), 0);
    assert_eq!(
        total_vertices(&vec![ShapeKind::Circle, ShapeKind::Rect, ShapeKind::Line]),
        SEGS * 3 + 12
    );
}

#[test]
fn nonblank_lines_counted() {
    assert_eq!(count_nonblank_lines(""), 0);
    assert_eq!(count_nonblank_lines("a"), 1);
    assert_eq!(count_nonblank_lines("a\n\n  \n\tb\r\n"), 2);
    assert_eq!(count_nonblank_lines("\n\n"), 0);
    assert_eq!(count_nonblank_lines("x = 1\ndef frame(t):\n    pass\n"), 3);
    let src = "a\n \u{3000}\nb\u{00a0}\n";
    let expected = src.lines().filter(|l| !l.trim().is_empty()).count();
    assert_eq!(count_nonblank_lines(src), expected);
}

#[test]
fn reports() {
    assert_eq!(error_report("bad \"x\"\\\n\r\t"), "{\"ok\":false,\"error\":\"bad \\\"x\\\"\\\\\\n\\r\t\"}");
    assert_eq!(
        ok_report(2, 12, "1.500", 10, 120),
        r#"{"ok":true,"shapes":2,"vertices":12,"compile_ms":1.500,"source_lines":10,"source_bytes":120}"#
    );
    assert_eq!(fps_target(), 60);
}

#[test]
fn run_status_transitions() {
    let mut st = RunStatus::new();
    assert_eq!(st.record_frame(Err("__no_script__".into())), FrameOutcome::Stale);
    assert!(st.error_msg.is_none());
    assert!(!st.record_compile(Err("SyntaxError".into()), 3, 30));
    assert_eq!(st.error_msg.as_deref(), Some("SyntaxError"));
    assert_eq!(st.record_frame(Err("__no_script__".into())), FrameOutcome::Stale);
    assert_eq!(st.error_msg.as_deref(), Some("SyntaxError"));
    assert!(st.record_compile(Ok(()), 3, 30));
    assert!(st.error_msg.is_none());
    assert_eq!((st.source_lines, st.source_bytes), (3, 30));
    assert_eq!(st.record_frame(Err("NameError".into())), FrameOutcome::Stale);
    assert_eq!(st.report(0, 0, "0.000"), "{\"ok\":false,\"error\":\"NameError\"}");
    assert_eq!(st.record_frame(Ok(())), FrameOutcome::Fresh);
    assert_eq!(
        st.report(1, 6, "0.250"),
        r#"{"ok":true,"shapes":1,"vertices":6,"compile_ms":0.250,"source_lines":3,"source_bytes":30}"#
    );
}

#[test]
fn overlay_selection_consumed_once() {
    let mut o = Overlay::new();
    assert_eq!(o.take_selected(), -1);
    o.select(2);
    o.set_items("Reset|Explode".to_string());
    assert_eq!(o.take_selected(), 2);
    assert_eq!(o.take_selected(), -1);
    assert_eq!(o.items(), "Reset|Explode");
    assert!(!o.cursor_custom());
    o.set_cursor_custom(true);
    assert!(o.cursor_custom());
}
