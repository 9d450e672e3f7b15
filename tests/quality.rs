use raytracer::quality::QualityControl;

fn auto_control() -> QualityControl {
    let mut q = QualityControl::new();
    q.toggle_auto();
    q
}

#[test]
fn starts_at_middle_level() {
    let q = QualityControl::new();
    assert_eq!(q.level, 1);
    assert_eq!(q.manual_level, 1);
    assert!(!q.auto);
    assert_eq!(q.render_scale(), 2);
}

#[test]
fn render_scale_per_level() {
    let mut q = QualityControl::new();
    q.select_level(0);
    assert_eq!(q.render_scale(), 4);
    q.select_level(1);
    assert_eq!(q.render_scale(), 2);
    q.select_level(2);
    assert_eq!(q.render_scale(), 1);
}

#[test]
fn manual_choice_waits_while_automatic() {
    let mut q = auto_control();
    q.select_level(2);
    assert_eq!(q.manual_level, 2);
    assert_eq!(q.level, 1);
    q.toggle_auto();
    assert!(!q.auto);
    assert_eq!(q.level, 2);
}

#[test]
fn manual_mode_ignores_frame_rates() {
    let mut q = QualityControl::new();
    assert!(!q.record_frame(5, true));
    assert!(q.fps_history.is_empty());
    assert_eq!(q.level, 1);
}

#[test]
fn no_check_before_five_samples() {
    let mut q = auto_control();
    for _ in 0..4 {
        assert!(!q.record_frame(10, true));
    }
    assert_eq!(q.level, 1);
    assert!(q.record_frame(10, true));
    assert_eq!(q.level, 2);
}

#[test]
fn no_check_until_due() {
    let mut q = auto_control();
    for _ in 0..6 {
        assert!(!q.record_frame(10, false));
    }
    assert_eq!(q.level, 1);
}

#[test]
fn low_rate_raises_level_up_to_two() {
    let mut q = auto_control();
    for _ in 0..5 {
        q.record_frame(19, false);
    }
    assert!(q.record_frame(19, true));
    assert_eq!(q.level, 2);
    assert!(q.record_frame(19, true));
    assert_eq!(q.level, 2);
}

#[test]
fn high_rate_lowers_level_to_manual_only() {
    let mut q = auto_control();
    for _ in 0..5 {
        q.record_frame(10, false);
    }
    assert!(q.record_frame(10, true));
    assert_eq!(q.level, 2);
    for _ in 0..10 {
        q.record_frame(60, false);
    }
    assert!(q.record_frame(60, true));
    assert_eq!(q.level, 1);
    assert!(q.record_frame(60, true));
    assert_eq!(q.level, 1);
}

#[test]
fn average_between_thresholds_keeps_level() {
    let mut q = auto_control();
    for _ in 0..5 {
        q.record_frame(20, false);
    }
    assert!(q.record_frame(45, true));
    assert_eq!(q.level, 1);
}

#[test]
fn average_rounds_down() {
    // (20 * 5 + 19) / 6 = 19.83..., which rounds down to 19 and so counts as low.
    let mut q = auto_control();
    for _ in 0..5 {
        q.record_frame(20, false);
    }
    assert!(q.record_frame(19, true));
    assert_eq!(q.level, 2);
}

#[test]
fn history_keeps_last_ten() {
    let mut q = auto_control();
    for fps in 1..=12u32 {
        q.record_frame(fps, false);
    }
    assert_eq!(q.fps_history, (3..=12).collect::<Vec<u32>>());
}

#[test]
fn huge_rates_do_not_overflow() {
    let mut q = auto_control();
    q.select_level(0);
    q.level = 2;
    for _ in 0..10 {
        q.record_frame(u32::MAX, false);
    }
    assert!(q.record_frame(u32::MAX, true));
    assert_eq!(q.level, 1);
}
