use vidcrop::ffmpeg::clip_duration;
use vidcrop::ffmpeg::codecs_for_output;
use vidcrop::ffmpeg::derive_output;
use vidcrop::ffmpeg::ffmpeg_args;
use vidcrop::ffmpeg::format_timestamp;
use vidcrop::parser::parse_time;
use vidcrop::parser::validate_range;
use vidcrop::Args;
use vidcrop::Duration;

#[test]
fn format_zero() {
    assert_eq!(format_timestamp(Duration::from_secs(0)), "00:00:00");
}

#[test]
fn format_basic() {
    assert_eq!(format_timestamp(Duration::from_secs(3723)), "01:02:03");
}

#[test]
fn format_wide_hours() {
    assert_eq!(format_timestamp(Duration::from_secs(360000)), "100:00:00");
}

#[test]
fn format_drops_subseconds() {
    let d = Duration { secs: 61, nanos: 900_000_000 };
    assert_eq!(format_timestamp(d), "00:01:01");
}

#[test]
fn format_parse_round_trip() {
    for secs in [0u64, 1, 59, 60, 90, 3599, 3600, 3723, 86400, 359999] {
        let d = Duration::from_secs(secs);
        let rendered = format_timestamp(d);
        assert_eq!(parse_time(&rendered).unwrap(), d);
    }
}

#[test]
fn derive_output_simple() {
    assert_eq!(derive_output("demo.mp4"), "democlip.mp4");
}

#[test]
fn derive_output_strips_directories() {
    assert_eq!(derive_output("videos/demo.mkv"), "democlip.mkv");
}

#[test]
fn derive_output_defaults_to_mp4() {
    assert_eq!(derive_output("noext"), "noextclip.mp4");
}

#[test]
fn derive_output_hidden_file() {
    assert_eq!(derive_output(".hidden"), ".hiddenclip.mp4");
}

#[test]
fn derive_output_keeps_inner_dots() {
    assert_eq!(derive_output("a.b.c"), "a.bclip.c");
}

#[test]
fn codecs_for_avi() {
    assert_eq!(codecs_for_output("out.avi"), ("mpeg4", "mp3"));
}

#[test]
fn codecs_for_avi_ignores_case() {
    assert_eq!(codecs_for_output("out.AVI"), ("mpeg4", "mp3"));
}

#[test]
fn codecs_for_mov() {
    assert_eq!(codecs_for_output("out.mov"), ("libx264", "aac"));
}

#[test]
fn codecs_default() {
    assert_eq!(codecs_for_output("out.mp4"), ("libx264", "aac"));
    assert_eq!(codecs_for_output("noext"), ("libx264", "aac"));
}

#[test]
fn clip_duration_whole_seconds() {
    let d = clip_duration(Duration::from_secs(60), Duration::from_secs(90));
    assert_eq!(d, Duration::from_secs(30));
}

#[test]
fn clip_duration_borrows_nanos() {
    let s = Duration { secs: 1, nanos: 750_000_000 };
    let e = Duration { secs: 3, nanos: 250_000_000 };
    assert_eq!(clip_duration(s, e), Duration { secs: 1, nanos: 500_000_000 });
}

#[test]
fn ffmpeg_args_layout() {
    let args = ffmpeg_args(
        "in.mp4",
        Duration::from_secs(60),
        Duration::from_secs(90),
        "out.avi",
    );
    let expect = [
        "-ss", "00:01:00", "-i", "in.mp4", "-t", "00:00:30", "-c:v", "mpeg4", "-c:a", "mp3",
        "-y", "out.avi",
    ];
    assert_eq!(args.len(), expect.len());
    for (got, want) in args.iter().zip(expect.iter()) {
        assert_eq!(got, want);
    }
}

#[test]
fn end_to_end_trim_scenario() {
    let args = Args {
        input: "clip.mp4".to_string(),
        start: "1:00".to_string(),
        end: "1:30".to_string(),
    };
    let start = parse_time(&args.start).unwrap();
    let end = parse_time(&args.end).unwrap();
    assert_eq!(start, Duration::from_secs(60));
    assert_eq!(end, Duration::from_secs(90));
    assert_eq!(validate_range(start, end), Ok(()));
    assert_eq!(format_timestamp(start), "00:01:00");
    let span = clip_duration(start, end);
    assert_eq!(format_timestamp(span), "00:00:30");
    assert_eq!(derive_output(&args.input), "clipclip.mp4");
}
