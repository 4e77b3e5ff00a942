use telegram_backup::mp4_boxes::{
    box_is, box_size_at, find_box, find_box_in_range, read_u32_be, scan_video_tkhd_dimensions,
    trak_contains_vmhd, try_scan_video_tkhd_dimensions,
};

fn be(n: u32) -> Vec<u8> {
    n.to_be_bytes().to_vec()
}

fn boxed(tag: &[u8; 4], payload: &[u8]) -> Vec<u8> {
    let mut out = be(8 + payload.len() as u32);
    out.extend_from_slice(tag);
    out.extend_from_slice(payload);
    out
}

fn tkhd(version: u8, width: u32, height: u32) -> Vec<u8> {
    let mut data = vec![version, 0, 0, 0];
    let gap = if version == 1 { 84 } else { 72 };
    data.extend(std::iter::repeat(0u8).take(gap));
    data.extend_from_slice(&be(width << 16));
    data.extend_from_slice(&be(height << 16));
    boxed(b"tkhd", &data)
}

fn trak(version: u8, width: u32, height: u32, media_header: &[u8; 4]) -> Vec<u8> {
    let minf = boxed(b"minf", &boxed(media_header, &[0u8; 12]));
    let mdia = boxed(b"mdia", &minf);
    let mut children = tkhd(version, width, height);
    children.extend_from_slice(&mdia);
    boxed(b"trak", &children)
}

fn movie(traks: &[Vec<u8>]) -> Vec<u8> {
    let mut out = boxed(b"ftyp", b"isom\0\0\0\0");
    out.extend_from_slice(&boxed(b"moov", &traks.concat()));
    out
}

/// A movie whose track claims more bytes than the buffer has, and whose
/// second child header is cut off by the end of the buffer.
fn straddling() -> Vec<u8> {
    let mut out = boxed(b"ftyp", b"isom\0\0\0\0");
    out.extend_from_slice(&be(1000));
    out.extend_from_slice(b"moov");
    out.extend_from_slice(&be(900));
    out.extend_from_slice(b"trak");
    out.extend_from_slice(&boxed(b"free", &[0u8; 8]));
    out.extend_from_slice(&be(40));
    out
}

#[test]
fn reads_big_endian_words() {
    let data = [0x12, 0x34, 0x56, 0x78, 0x9a];
    assert_eq!(read_u32_be(&data, 0), Some(0x1234_5678));
    assert_eq!(read_u32_be(&data, 1), Some(0x3456_789a));
    assert_eq!(read_u32_be(&data, 2), None);
    assert_eq!(read_u32_be(&data, 100), None);
}

#[test]
fn compares_box_types() {
    let data = boxed(b"moov", &[]);
    assert!(box_is(&data, 4, b"moov"));
    assert!(!box_is(&data, 4, b"trak"));
    assert!(!box_is(&data, 6, b"ov\0\0"));
}

#[test]
fn reads_size_of_the_box_ending_there() {
    let mut data = be(16);
    data.extend_from_slice(b"moov");
    data.extend_from_slice(&[0u8; 8]);
    assert_eq!(box_size_at(&data, 16), Some(16));
    assert_eq!(box_size_at(&data, 8), None);
    let mut chain = boxed(b"free", &[0u8; 4]);
    chain.extend_from_slice(&boxed(b"moov", &[1, 2, 3]));
    assert_eq!(box_size_at(&chain, 12), Some(12));
    assert_eq!(box_size_at(&chain, 23), Some(11));
    assert_eq!(box_size_at(&chain, 20), None);
    assert_eq!(box_size_at(&chain, usize::MAX), None);
    assert_eq!(box_size_at(&[], 0), None);
    // a box nested inside another: the enclosing box is entered
    let mut inner = boxed(b"mdia", &[0u8; 8]);
    inner.extend_from_slice(&boxed(b"free", &[]));
    let outer = boxed(b"trak", &inner);
    assert_eq!(outer.len(), 32);
    assert_eq!(box_size_at(&outer, 24), Some(16));
    assert_eq!(box_size_at(&outer, 32), Some(32));
    assert_eq!(box_size_at(&outer, 28), None);
    // the outermost box that ends there answers
    let nested = boxed(b"moov", &boxed(b"trak", &[0u8; 4]));
    assert_eq!(box_size_at(&nested, 20), Some(20));
}

#[test]
fn finds_boxes_by_type() {
    let mut data = boxed(b"free", &[0u8; 4]);
    data.extend_from_slice(&boxed(b"moov", &[1, 2, 3]));
    assert_eq!(find_box(&data, 0, b"moov"), Some(12 + 11));
    assert_eq!(find_box(&data, 0, b"free"), Some(12));
    assert_eq!(find_box(&data, 0, b"trak"), None);
    assert_eq!(find_box_in_range(&data, 0, 12, b"moov"), None);
    assert_eq!(find_box_in_range(&data, 12, 20, b"moov"), Some(23));
}

#[test]
fn stops_at_sizes_below_eight() {
    let mut data = be(4);
    data.extend_from_slice(b"free");
    data.extend_from_slice(&boxed(b"moov", &[]));
    assert_eq!(find_box(&data, 0, b"moov"), None);
    assert_eq!(find_box(&data, 8, b"moov"), Some(16));
}

#[test]
fn recognises_video_tracks() {
    let video = trak(0, 1, 1, b"vmhd");
    assert!(trak_contains_vmhd(&video, 8, video.len()));
    let bare = boxed(b"trak", &boxed(b"mdia", &boxed(b"minf", &boxed(b"vmhd", &[0u8; 12]))));
    assert_eq!(bare.len(), 44);
    assert!(trak_contains_vmhd(&bare, 8, 44));
    let no_minf = boxed(b"trak", &boxed(b"mdia", &boxed(b"vmhd", &[0u8; 12])));
    assert!(!trak_contains_vmhd(&no_minf, 8, no_minf.len()));
    let audio = trak(0, 1, 1, b"smhd");
    assert!(!trak_contains_vmhd(&audio, 8, audio.len()));
}

#[test]
fn scans_version_zero_track_header() {
    let data = movie(&[trak(0, 1920, 1080, b"vmhd")]);
    assert_eq!(scan_video_tkhd_dimensions(&data), (Some(1920), Some(1080)));
}

#[test]
fn scans_version_one_track_header() {
    let data = movie(&[trak(1, 1280, 720, b"vmhd")]);
    assert_eq!(scan_video_tkhd_dimensions(&data), (Some(1280), Some(720)));
}

#[test]
fn skips_tracks_without_video_header() {
    let data = movie(&[trak(0, 10, 20, b"smhd"), trak(0, 640, 480, b"vmhd")]);
    assert_eq!(scan_video_tkhd_dimensions(&data), (Some(640), Some(480)));
    let audio_only = movie(&[trak(0, 10, 20, b"smhd")]);
    assert_eq!(scan_video_tkhd_dimensions(&audio_only), (None, None));
}

#[test]
fn no_movie_box_gives_nothing() {
    assert_eq!(scan_video_tkhd_dimensions(&[]), (None, None));
    assert_eq!(scan_video_tkhd_dimensions(&boxed(b"ftyp", b"isom")), (None, None));
}

#[test]
fn cut_off_header_is_reported() {
    let data = straddling();
    assert_eq!(data.len(), 52);
    assert_eq!(try_scan_video_tkhd_dimensions(&data), None);
    let whole = movie(&[trak(0, 320, 240, b"vmhd")]);
    assert_eq!(try_scan_video_tkhd_dimensions(&whole), Some((Some(320), Some(240))));
}

#[test]
fn leading_boxes_do_not_matter() {
    let movie_only = boxed(b"moov", &trak(0, 1920, 1080, b"vmhd"));
    assert_eq!(scan_video_tkhd_dimensions(&movie_only), (Some(1920), Some(1080)));
    let mut prefixed = boxed(b"free", &[0u8; 8]);
    prefixed.extend_from_slice(&movie_only);
    assert_eq!(scan_video_tkhd_dimensions(&prefixed), (Some(1920), Some(1080)));
}

#[test]
fn only_the_movie_box_children_count() {
    // a video track hidden inside a free box is not a child of moov
    let fake = trak(0, 7, 7, b"vmhd");
    let mut children = boxed(b"free", &fake);
    children.extend_from_slice(&trak(0, 1280, 720, b"vmhd"));
    let data = boxed(b"moov", &children);
    assert_eq!(scan_video_tkhd_dimensions(&data), (Some(1280), Some(720)));
    // a track outside moov is not looked at
    let mut outside = trak(0, 5, 5, b"vmhd");
    outside.extend_from_slice(&boxed(b"moov", &[]));
    assert_eq!(scan_video_tkhd_dimensions(&outside), (None, None));
}

#[test]
fn far_offsets_find_nothing() {
    let data = boxed(b"moov", &[]);
    assert_eq!(find_box_in_range(&data, usize::MAX - 8, usize::MAX, b"moov"), None);
    assert_eq!(find_box(&data, usize::MAX, b"moov"), None);
    assert_eq!(read_u32_be(&data, usize::MAX), None);
    assert!(!box_is(&data, usize::MAX - 1, b"moov"));
}

#[test]
fn dimensions_are_integer_parts() {
    let data = movie(&[trak(0, 0xffff, 1, b"vmhd")]);
    assert_eq!(scan_video_tkhd_dimensions(&data), (Some(0xffff), Some(1)));
}

#[test]
fn whole_buffer_search_stops_at_a_cut_off_header() {
    let mut data = boxed(b"free", &[0u8; 8]);
    data.extend_from_slice(&[0, 0, 0, 9, b'm']);
    assert_eq!(find_box(&data, 0, b"moov"), None);
    assert_eq!(find_box(&data, 16, b"moov"), None);
}

#[test]
fn reported_box_end_is_start_plus_size() {
    let mut data = boxed(b"skip", &[9u8; 3]);
    data.extend_from_slice(&boxed(b"trak", &[1u8; 20]));
    let end = find_box(&data, 0, b"trak").unwrap();
    assert_eq!(end, data.len());
    let start = 11;
    assert!(box_is(&data, start + 4, b"trak"));
    assert_eq!(read_u32_be(&data, start), Some((end - start) as u32));
}
