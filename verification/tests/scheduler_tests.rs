use anim_bntx_player::container::parse_animation_bntx;
use anim_bntx_player::playback::{advance_cursor, wrap_cursor, Cursor, LoopPolicy};
use anim_bntx_player::registry::{group_key_of, Registry};

fn le32(v: u32) -> [u8; 4] {
    v.to_le_bytes()
}

#[allow(clippy::too_many_arguments)]
fn build_container(
    group_number: u32,
    frame_count: u32,
    loop_animation: u32,
    loop_count: i32,
    loop_start: u32,
    loop_end: u32,
    frames: &[(u32, u32)],
    image_count: u32,
    image_size: u32,
) -> Vec<u8> {
    let atlas: Vec<u8> = (0..image_count * image_size).map(|x| x as u8).collect();
    let mut d: Vec<u8> = Vec::new();
    d.extend_from_slice(b"AnimBNTX");
    d.extend_from_slice(&le32(2));
    d.extend_from_slice(&le32(0));
    d.extend_from_slice(&le32(group_number));
    d.extend_from_slice(&le32(frame_count));
    d.extend_from_slice(&le32(loop_animation));
    d.extend_from_slice(&le32(loop_count as u32));
    d.extend_from_slice(&le32(loop_start));
    d.extend_from_slice(&le32(loop_end));
    d.extend_from_slice(&le32(2)); // footer length
    d.extend_from_slice(&le32(image_count));
    d.extend_from_slice(&le32(image_size));
    d.extend_from_slice(&le32(10.0f32.to_bits()));
    for &(kf, ii) in frames {
        d.extend_from_slice(&le32(kf));
        d.extend_from_slice(&le32(ii));
    }
    d.extend_from_slice(&[0u8; 4096]);
    d.extend_from_slice(&[0xEE, 0xEF]);
    d.extend_from_slice(&atlas);
    d
}

fn policy(
    frame_count: u32,
    loop_enabled: bool,
    loop_count: i32,
    loop_start: u32,
    loop_end: u32,
) -> LoopPolicy {
    LoopPolicy {
        frame_count,
        loop_enabled,
        loop_count,
        loop_start,
        loop_end,
    }
}

#[test]
fn loop_scenario_visits_expected_frames() {
    // frame_count 4, loop segment [1, 3), one allowed loop re-entry.
    let p = policy(4, true, 1, 1, 3);
    let mut c = Cursor {
        current_frame: 0,
        current_loop_count: 0,
    };
    let mut shown: Vec<u32> = Vec::new();
    let mut counts: Vec<i32> = Vec::new();
    for _ in 0..9 {
        let w = wrap_cursor(p, c);
        shown.push(w.current_frame);
        counts.push(w.current_loop_count);
        c = advance_cursor(w);
    }
    assert_eq!(shown, vec![0, 1, 2, 1, 2, 3, 1, 2, 3]);
    // the loop counter becomes 1 exactly once and never passes it
    assert_eq!(counts.iter().filter(|&&x| x == 1).count(), 6);
    assert_eq!(*counts.iter().max().unwrap(), 1);
    assert_eq!(counts, vec![0, 0, 0, 1, 1, 1, 1, 1, 1]);
}

#[test]
fn disabled_looping_clamps_forever() {
    let p = policy(4, false, 0, 1, 3);
    let mut c = Cursor {
        current_frame: 4,
        current_loop_count: 0,
    };
    for _ in 0..20 {
        let w = wrap_cursor(p, c);
        assert_eq!(w.current_frame, 3);
        assert_eq!(w.current_loop_count, 0);
        c = advance_cursor(w);
    }
}

#[test]
fn unlimited_looping_never_stops() {
    let p = policy(4, true, -1, 1, 3);
    let mut c = Cursor {
        current_frame: 0,
        current_loop_count: 0,
    };
    let mut reentries = 0;
    for _ in 0..50 {
        let w = wrap_cursor(p, c);
        if w.current_frame == 1 && c.current_frame >= 3 {
            reentries += 1;
        }
        c = advance_cursor(w);
    }
    assert!(reentries >= 20);
}

#[test]
fn bucket_lifecycle_terminates_and_purges() {
    let bytes = build_container(7, 2, 1, -1, 0, 1, &[(0, 0), (1, 1)], 2, 4);
    let a = parse_animation_bntx(&bytes).unwrap();
    let key = group_key_of(7, true);
    let mut reg = Registry::new();
    reg.register(11, a, 100);
    assert!(reg.has_bucket(100));
    assert!(reg.contains_resource(11));
    assert!(reg.group_cursor(100, key).is_some());

    // the member goes inactive: pruned on this tick, no refresh for it
    let out = reg.tick_bucket(100, &vec![false]).unwrap();
    assert_eq!(out.len(), 0);
    assert!(!reg.contains_resource(11));
    assert!(reg.resource_cursor(11).is_none());
    assert!(reg.has_bucket(100));

    // the next tick finds the bucket empty and terminates it
    assert!(reg.member_hashes(100).is_empty());
    let out2 = reg.tick_bucket(100, &Vec::new());
    assert!(out2.is_none());
    assert!(!reg.has_bucket(100));
    assert!(reg.group_cursor(100, key).is_none());
}

#[test]
fn inactive_resource_never_refreshed_again() {
    let b1 = build_container(0, 2, 1, -1, 0, 1, &[(0, 0), (1, 1)], 2, 4);
    let b2 = build_container(0, 2, 1, -1, 0, 1, &[(0, 1), (1, 0)], 2, 4);
    let a1 = parse_animation_bntx(&b1).unwrap();
    let a2 = parse_animation_bntx(&b2).unwrap();
    let mut reg = Registry::new();
    reg.register(1, a1, 50);
    reg.register(2, a2, 50);

    let out = reg.tick_bucket(50, &vec![true, true]).unwrap();
    assert_eq!(out.len(), 2);
    assert_eq!(out[0].hash, 1);
    assert_eq!(out[1].hash, 2);

    // resource 1 reported gone between ticks: no refresh from now on
    let out = reg.tick_bucket(50, &vec![false, true]).unwrap();
    assert_eq!(out.len(), 1);
    assert_eq!(out[0].hash, 2);
    assert!(reg.resource_cursor(1).is_none());
    assert!(reg.contains_resource(2));

    let out = reg.tick_bucket(50, &vec![true]).unwrap();
    assert_eq!(out.len(), 1);
    assert_eq!(out[0].hash, 2);
}

#[test]
fn grouped_resources_stay_in_lockstep() {
    let b1 = build_container(3, 4, 1, 1, 1, 3, &[(0, 0), (1, 1), (2, 0), (3, 1)], 2, 4);
    let b2 = build_container(3, 4, 1, 1, 1, 3, &[(0, 1), (1, 0), (2, 1), (3, 0)], 2, 4);
    let a1 = parse_animation_bntx(&b1).unwrap();
    let a2 = parse_animation_bntx(&b2).unwrap();
    let key = group_key_of(3, true);
    let mut reg = Registry::new();
    reg.register(21, a1, 100);
    reg.register(22, a2, 100);

    // one shared cursor for the pair, wrapped and advanced exactly once
    // per tick whatever the group's size
    let g0 = reg.group_cursor(100, key).unwrap();
    assert_eq!((g0.current_frame, g0.current_loop_count), (0, 0));
    let mut frames: Vec<u32> = Vec::new();
    let mut counts: Vec<i32> = Vec::new();
    for _ in 0..6 {
        let out = reg.tick_bucket(100, &vec![true, true]).unwrap();
        assert_eq!(out.len(), 2);
        let g = reg.group_cursor(100, key).unwrap();
        frames.push(g.current_frame);
        counts.push(g.current_loop_count);
    }
    assert_eq!(frames, vec![1, 2, 3, 2, 3, 4]);
    assert_eq!(counts, vec![0, 0, 0, 1, 1, 1]);
}

#[test]
fn ungrouped_cursor_advances_once_per_tick() {
    let bytes = build_container(0, 4, 0, 0, 0, 3, &[(0, 0), (1, 1), (2, 0), (3, 1)], 2, 4);
    let a = parse_animation_bntx(&bytes).unwrap();
    let mut reg = Registry::new();
    reg.register(9, a, 33);
    assert_eq!(reg.resource_cursor(9).unwrap().current_frame, 0);
    let out = reg.tick_bucket(33, &vec![true]).unwrap();
    assert_eq!(out.len(), 1);
    // shows frame 0: header ++ slice 0 ++ footer
    assert_eq!(out[0].data.len(), 4096 + 4 + 2);
    assert_eq!(&out[0].data[4096..4100], &[0, 1, 2, 3]);
    assert_eq!(reg.resource_cursor(9).unwrap().current_frame, 1);
    let out = reg.tick_bucket(33, &vec![true]).unwrap();
    assert_eq!(&out[0].data[4096..4100], &[4, 5, 6, 7]);
    assert_eq!(reg.resource_cursor(9).unwrap().current_frame, 2);
}

#[test]
fn out_of_range_image_index_skips_refresh() {
    // frame 1 points at image 9 of a 2-slice atlas: that tick emits nothing
    let bytes = build_container(0, 2, 1, -1, 0, 2, &[(0, 0), (1, 9)], 2, 4);
    let a = parse_animation_bntx(&bytes).unwrap();
    let mut reg = Registry::new();
    reg.register(5, a, 40);
    let out = reg.tick_bucket(40, &vec![true]).unwrap();
    assert_eq!(out.len(), 1); // frame 0 in range
    let out = reg.tick_bucket(40, &vec![true]).unwrap();
    assert_eq!(out.len(), 0); // frame 1 skipped, scheduling continues
    assert!(reg.contains_resource(5));
    let out = reg.tick_bucket(40, &vec![true]).unwrap();
    assert_eq!(out.len(), 1); // wrapped back to frame 0
}

#[test]
fn out_of_table_frame_skips_refresh() {
    // loop_start points past the frame table: after the first wrap the
    // cursor leaves the table, the tick emits nothing and scheduling
    // continues
    let bytes = build_container(0, 2, 1, -1, 5, 1, &[(0, 0), (1, 1)], 2, 4);
    let a = parse_animation_bntx(&bytes).unwrap();
    let mut reg = Registry::new();
    reg.register(6, a, 25);
    let out = reg.tick_bucket(25, &vec![true]).unwrap();
    assert_eq!(out.len(), 1); // frame 0 still in range
    for _ in 0..5 {
        let out = reg.tick_bucket(25, &vec![true]).unwrap();
        assert_eq!(out.len(), 0); // cursor pinned outside the table
        assert!(reg.contains_resource(6));
    }
}

#[test]
fn cursor_fields_saturate_instead_of_wrapping() {
    let c = advance_cursor(Cursor {
        current_frame: u32::MAX,
        current_loop_count: 0,
    });
    assert_eq!(c.current_frame, u32::MAX);

    // unlimited looping with a counter at its ceiling: the counter holds
    let p = policy(8, true, -1, 1, 3);
    let w = wrap_cursor(
        p,
        Cursor {
            current_frame: 3,
            current_loop_count: i32::MAX,
        },
    );
    assert_eq!(w.current_frame, 1);
    assert_eq!(w.current_loop_count, i32::MAX);
}
