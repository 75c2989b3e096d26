use rtracer::raycast_info::{RayCastInfo, INDIRECT_DEPTH_LIMIT, REFLECTION_DEPTH_LIMIT};

#[test]
fn depth_starts_at_zero_and_counts_hits() {
    let mut info = RayCastInfo::new();
    assert_eq!(info.ray_depth(), 0);
    info.increment_ray_number();
    info.increment_ray_number();
    assert_eq!(info.ray_depth(), 2);
}

#[test]
fn recursion_gates_follow_the_limits() {
    let mut info = RayCastInfo::new();
    // walk the depth up and check both gates at every step
    for depth in 0..=(REFLECTION_DEPTH_LIMIT + 2) {
        assert_eq!(info.ray_depth(), depth);
        assert_eq!(info.may_recurse_reflection(), depth <= REFLECTION_DEPTH_LIMIT);
        assert_eq!(info.may_recurse_indirect(), depth <= INDIRECT_DEPTH_LIMIT);
        info.increment_ray_number();
    }
}

#[test]
fn past_both_limits_no_gate_opens() {
    let mut info = RayCastInfo::new();
    let larger = if REFLECTION_DEPTH_LIMIT > INDIRECT_DEPTH_LIMIT {
        REFLECTION_DEPTH_LIMIT
    } else {
        INDIRECT_DEPTH_LIMIT
    };
    for _ in 0..(larger + 1) {
        info.increment_ray_number();
    }
    assert!(!info.may_recurse_reflection());
    assert!(!info.may_recurse_indirect());
}
