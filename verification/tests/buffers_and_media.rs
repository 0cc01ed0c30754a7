use phire::ring::RingBuffer;
use phire::render::{audio_chunk_end, parse_render_settings};
use phire::avc::{check_rgba_frame, check_video_format, AudioFramer, WriterError};
use phire::line::{GifFrames, JudgeLineCache, UIElement};

#[test]
fn ring_buffer_keeps_the_latest_samples() {
    let mut r: RingBuffer<f32> = RingBuffer::new(4);
    r.push_samples(&[1.0, 2.0, 3.0]);
    assert_eq!(r.read_range(0, 10), vec![1.0, 2.0, 3.0]);
    r.push_samples(&[4.0, 5.0, 6.0]);
    // positions 0 and 1 fell out of the window
    assert_eq!(r.read_range(0, 10), vec![3.0, 4.0, 5.0, 6.0]);
    assert_eq!(r.read_range(3, 2), vec![4.0, 5.0]);
    assert_eq!(r.read_range(6, 2), Vec::<f32>::new());
    let mut z: RingBuffer<f32> = RingBuffer::new(0);
    z.push_samples(&[1.0]);
    assert_eq!(z.read_range(0, 1), Vec::<f32>::new());
}

#[test]
fn render_settings_are_checked() {
    assert_eq!(parse_render_settings("1920x1080", "60", "24"), Some(((1920, 1080), 60, 24)));
    assert_eq!(parse_render_settings("1280X720", "240", "0"), Some(((1280, 720), 240, 0)));
    assert_eq!(parse_render_settings("1921x1080", "60", "24"), None);
    assert_eq!(parse_render_settings("0x1080", "60", "24"), None);
    assert_eq!(parse_render_settings("1920x1080", "0", "24"), None);
    assert_eq!(parse_render_settings("1920x1080", "241", "24"), None);
    assert_eq!(parse_render_settings("1920x1080", "60", "52"), None);
    assert_eq!(parse_render_settings("1920x1080", "60", "-1"), None);
    assert_eq!(parse_render_settings("1920*1080", "60", "24"), None);
    assert_eq!(parse_render_settings("1920x1080x2", "60", "24"), None);
}

#[test]
fn audio_chunks_follow_the_frames() {
    assert_eq!(audio_chunk_end(0, 60, 1_000_000), 800);
    assert_eq!(audio_chunk_end(1, 60, 1_000_000), 1600);
    assert_eq!(audio_chunk_end(0, 7, 1_000_000), 6857);
    assert_eq!(audio_chunk_end(10, 60, 5000), 5000);
}

#[test]
fn video_format_and_frame_checks() {
    assert!(check_video_format(1920, 1080, 60).is_ok());
    assert_eq!(check_video_format(1921, 1080, 60), Err(WriterError::InvalidVideoFormat));
    assert_eq!(check_video_format(1920, 0, 60), Err(WriterError::InvalidVideoFormat));
    assert_eq!(check_video_format(1920, 1080, 0), Err(WriterError::InvalidVideoFormat));
    assert!(check_rgba_frame(8, 16, 2, 2).is_ok());
    assert_eq!(check_rgba_frame(7, 100, 2, 2), Err(WriterError::InvalidVideoFrame));
    assert_eq!(check_rgba_frame(8, 15, 2, 2), Err(WriterError::InvalidVideoFrame));
}

#[test]
fn audio_is_cut_into_whole_frames() {
    let mut f: AudioFramer<i32> = AudioFramer::new(3);
    assert_eq!(f.write(&[1, 2]), Vec::<Vec<i32>>::new());
    assert_eq!(f.pts(), 0);
    assert_eq!(f.write(&[3, 4, 5, 6, 7]), vec![vec![1, 2, 3], vec![4, 5, 6]]);
    assert_eq!(f.pts(), 6);
    assert_eq!(f.finish(0), Some(vec![7, 0, 0]));
    assert_eq!(f.pts(), 9);
    assert_eq!(f.finish(0), None);
}

#[test]
fn ui_element_codes() {
    assert_eq!(UIElement::from_u8(1), Some(UIElement::Pause));
    assert_eq!(UIElement::from_u8(7), Some(UIElement::Level));
    assert_eq!(UIElement::from_u8(0), None);
    assert_eq!(UIElement::from_u8(8), None);
}

#[test]
fn gif_frames_by_time() {
    let g = GifFrames::new(vec![10, 20, 30]);
    assert_eq!(g.total_time(), 60);
    assert_eq!(g.get_time_frame(0), 0);
    assert_eq!(g.get_time_frame(9), 0);
    assert_eq!(g.get_time_frame(10), 1);
    assert_eq!(g.get_time_frame(29), 1);
    assert_eq!(g.get_time_frame(30), 2);
    assert_eq!(g.get_time_frame(65), 0);
    assert_eq!(g.get_time_frame(119), 2);
}

#[test]
fn line_cache_groups_runs_of_one_speed() {
    let mut c = JudgeLineCache { update_order: vec![], above_indices: vec![], below_indices: vec![] };
    let above = [true, true, true, false, false, false];
    let speed = [1, 1, 2, 2, 2, 3];
    c.reset(&above, &speed);
    assert_eq!(c.update_order, vec![0, 1, 2, 3, 4, 5]);
    assert_eq!(c.above_indices, vec![0, 2]);
    assert_eq!(c.below_indices, vec![3, 5]);
    c.reset(&[], &[]);
    assert!(c.above_indices.is_empty() && c.below_indices.is_empty());
}
