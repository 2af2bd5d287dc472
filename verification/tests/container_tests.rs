use anim_bntx_player::container::{assemble_buffer, parse_animation_bntx, AnimError};

fn le32(v: u32) -> [u8; 4] {
    v.to_le_bytes()
}

#[allow(clippy::too_many_arguments)]
fn build_container(
    group_number: u32,
    frame_count: u32,
    loop_animation: u32,
    loop_count: i32,
    loop_start: u32,
    loop_end: u32,
    frames: &[(u32, u32)],
    footer: &[u8],
    image_count: u32,
    image_size: u32,
    atlas: &[u8],
    frame_rate: f32,
) -> Vec<u8> {
    assert_eq!(frames.len(), frame_count as usize);
    assert_eq!(atlas.len(), (image_count * image_size) as usize);
    let mut d: Vec<u8> = Vec::new();
    d.extend_from_slice(b"AnimBNTX");
    d.extend_from_slice(&le32(2)); // version_major
    d.extend_from_slice(&le32(1)); // version_minor
    d.extend_from_slice(&le32(group_number));
    d.extend_from_slice(&le32(frame_count));
    d.extend_from_slice(&le32(loop_animation));
    d.extend_from_slice(&le32(loop_count as u32));
    d.extend_from_slice(&le32(loop_start));
    d.extend_from_slice(&le32(loop_end));
    d.extend_from_slice(&le32(footer.len() as u32));
    d.extend_from_slice(&le32(image_count));
    d.extend_from_slice(&le32(image_size));
    d.extend_from_slice(&le32(frame_rate.to_bits()));
    for &(kf, ii) in frames {
        d.extend_from_slice(&le32(kf));
        d.extend_from_slice(&le32(ii));
    }
    let mut header = vec![0u8; 4096];
    header[0] = 0xB0;
    header[4095] = 0xB1;
    d.extend_from_slice(&header);
    d.extend_from_slice(footer);
    d.extend_from_slice(atlas);
    d
}

fn sample() -> Vec<u8> {
    // three 4-byte slices with distinct contents
    let atlas: Vec<u8> = (0u8..12u8).collect();
    build_container(
        0,
        2,
        1,
        -1,
        0,
        1,
        &[(0, 0), (1, 2)],
        &[0xF0, 0xF1, 0xF2],
        3,
        4,
        &atlas,
        10.0,
    )
}

#[test]
fn parses_every_field() {
    let bytes = sample();
    let a = parse_animation_bntx(&bytes).unwrap();
    assert_eq!(a.version_major, 2);
    assert_eq!(a.version_minor, 1);
    assert_eq!(a.group_number, 0);
    assert_eq!(a.frame_count, 2);
    assert_eq!(a.loop_animation, 1);
    assert_eq!(a.loop_count, -1);
    assert_eq!(a.starting_frame_loop, 0);
    assert_eq!(a.ending_frame_loop, 1);
    assert_eq!(a.relocation_table_size, 3);
    assert_eq!(a.image_data_count, 3);
    assert_eq!(a.image_data_size, 4);
    assert_eq!(a.frame_rate_bits, 10.0f32.to_bits());
    assert_eq!(a.frame_datas.len(), 2);
    assert_eq!(a.frame_datas[1].keyframe_num, 1);
    assert_eq!(a.frame_datas[1].image_index, 2);
    assert_eq!(a.bntx_template_header.len(), 4096);
    assert_eq!(a.bntx_template_header[0], 0xB0);
    assert_eq!(a.bntx_template_header[4095], 0xB1);
    assert_eq!(a.bntx_template_footer, vec![0xF0, 0xF1, 0xF2]);
    assert_eq!(a.image_datas, (0u8..12u8).collect::<Vec<u8>>());
}

#[test]
fn image_slices_are_distinct_and_sized() {
    let bytes = sample();
    let a = parse_animation_bntx(&bytes).unwrap();
    let s0 = a.image_data_at_index(0).unwrap().to_vec();
    let s1 = a.image_data_at_index(1).unwrap().to_vec();
    let s2 = a.image_data_at_index(2).unwrap().to_vec();
    assert_eq!(s0, vec![0, 1, 2, 3]);
    assert_eq!(s1, vec![4, 5, 6, 7]);
    assert_eq!(s2, vec![8, 9, 10, 11]);
    assert_eq!(s0.len(), 4);
    assert_ne!(s0, s1);
    assert_ne!(s1, s2);
    assert!(matches!(
        a.image_data_at_index(3),
        Err(AnimError::IndexOutOfRange)
    ));
}

#[test]
fn assembled_output_has_exact_layout() {
    let bytes = sample();
    let a = parse_animation_bntx(&bytes).unwrap();
    for i in 0..3usize {
        let out = a.assembled_frame(i).unwrap();
        assert_eq!(out.len(), 4096 + 4 + 3);
        assert_eq!(out.len(), a.output_size());
        assert_eq!(&out[..4096], &a.bntx_template_header[..]);
        assert_eq!(&out[4096..4100], a.image_data_at_index(i).unwrap());
        assert_eq!(&out[4100..], &a.bntx_template_footer[..]);
    }
    assert!(matches!(
        a.assembled_frame(9),
        Err(AnimError::IndexOutOfRange)
    ));
}

#[test]
fn assemble_buffer_concatenates() {
    let out = assemble_buffer(&[1, 2], &[3], &[4, 5, 6]);
    assert_eq!(out, vec![1, 2, 3, 4, 5, 6]);
}

#[test]
fn rejects_bad_magic() {
    let mut bytes = sample();
    bytes[0] = b'X';
    assert!(matches!(
        parse_animation_bntx(&bytes),
        Err(AnimError::MalformedContainer)
    ));
}

#[test]
fn rejects_truncated_stream() {
    let bytes = sample();
    let short = bytes[..bytes.len() - 1].to_vec();
    assert!(matches!(
        parse_animation_bntx(&short),
        Err(AnimError::MalformedContainer)
    ));
    let tiny = bytes[..20].to_vec();
    assert!(matches!(
        parse_animation_bntx(&tiny),
        Err(AnimError::MalformedContainer)
    ));
}

#[test]
fn capacity_check_reports_small_buffers() {
    let bytes = sample();
    let a = parse_animation_bntx(&bytes).unwrap();
    assert!(a.verify_capacity(a.output_size()).is_ok());
    assert!(a.verify_capacity(a.output_size() + 10).is_ok());
    assert!(matches!(
        a.verify_capacity(a.output_size() - 1),
        Err(AnimError::BufferTooSmall)
    ));
}
