use resume_dock::anim::{decay_per_mille, progress_per_mille};

#[test]
fn progress_starts_at_zero_and_ends_full() {
    assert_eq!(progress_per_mille(0, 1000), 0);
    assert_eq!(progress_per_mille(1000, 1000), 1000);
    assert_eq!(progress_per_mille(2500, 1000), 1000);
}

#[test]
fn progress_is_linear_in_elapsed_time() {
    assert_eq!(progress_per_mille(250, 1000), 250);
    assert_eq!(progress_per_mille(500, 1000), 500);
    assert_eq!(progress_per_mille(1, 3), 333);
}

#[test]
fn progress_never_decreases() {
    let mut last = 0;
    for e in 0..2000u64 {
        let p = progress_per_mille(e, 777);
        assert!(p >= last);
        assert!(p <= 1000);
        last = p;
    }
}

#[test]
fn decay_is_the_complement_of_the_ramp() {
    for e in [0u64, 100, 400, 700, 1000, 5000] {
        let up = progress_per_mille(e, 1000);
        let down = decay_per_mille(e, 1000);
        assert_eq!(up + down, 1000);
    }
}
