use leftright::anim::{display_size, ease_out, lerp_coord, lerp_scale, Animation, AnimationController};

#[test]
fn ease_out_endpoints_and_midpoint() {
    assert_eq!(ease_out(0), 0);
    assert_eq!(ease_out(1000), 1000);
    assert_eq!(ease_out(500), 875);
}

#[test]
fn lerp_moves_between_endpoints() {
    assert_eq!(lerp_coord(0, 100, 0), 0);
    assert_eq!(lerp_coord(0, 100, 1000), 100);
    assert_eq!(lerp_coord(0, 100, 500), 50);
    assert_eq!(lerp_coord(100, 0, 875), 13);
    assert_eq!(lerp_coord(-100, 100, 500), 0);
    assert_eq!(lerp_scale(1200, 600, 1000), 600);
    assert_eq!(lerp_scale(1200, 600, 0), 1200);
}

#[test]
fn animations_complete_exactly_at_their_duration() {
    let mut ctl = AnimationController::new();
    ctl.push(Animation {
        path: "a.jpg".to_string(),
        start_x: 0,
        start_y: 0,
        end_x: 100,
        end_y: 50,
        start_scale: 1200,
        end_scale: 600,
        start_time: 1000,
        duration: 500,
    });
    // Mid-flight: one frame, nothing finished.
    let (frames, done) = ctl.tick(1250);
    assert_eq!(frames.len(), 1);
    assert_eq!(done.len(), 0);
    assert_eq!(ctl.count(), 1);
    assert_eq!(frames[0].path, "a.jpg".to_string());
    assert_eq!(frames[0].x, 87); // eased 875 of the way to 100
    assert_eq!(frames[0].scale, 675);
    // One millisecond before the end it is still running.
    let (_, done) = ctl.tick(1499);
    assert_eq!(done.len(), 0);
    // At start + duration it completes and is retired.
    let (frames, done) = ctl.tick(1500);
    assert_eq!(frames.len(), 1);
    assert_eq!(frames[0].x, 100);
    assert_eq!(frames[0].shadow_alpha, 0);
    assert_eq!(done, vec!["a.jpg".to_string()]);
    assert_eq!(ctl.count(), 0);
}

#[test]
fn display_size_follows_the_aspect_ratio() {
    // A 4:3 texture in a 600-high panel: 240 high, 320 wide.
    assert_eq!(display_size(800, 600, 600), (320, 240));
    // A tall texture narrows accordingly.
    assert_eq!(display_size(600, 1200, 600), (120, 240));
}
