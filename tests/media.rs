use scheng::controls::{OscActionKind, OscBindingConfig, Oscmap};
use scheng::host::Host;
use scheng::media::{
    check_video_config, default_fps, default_height, default_loop, default_width, is_blank,
    VideoClock, VideoConfig, VideoError, WebcamError,
};

fn config(file: &str) -> VideoConfig {
    VideoConfig {
        width: default_width(),
        height: default_height(),
        fps: default_fps(),
        file: file.to_string(),
        looping: default_loop(),
        ffmpeg_path: None,
    }
}

#[test]
fn video_config_defaults_and_checks() {
    assert_eq!((default_width(), default_height(), default_fps(), default_loop()), (640, 360, 30, true));
    assert!(check_video_config(&config("clip.mp4")).is_ok());
    let msg = |e: VideoError| e.message();
    assert_eq!(msg(check_video_config(&config(" \t\n")).unwrap_err()), "invalid config: file is empty");
    assert_eq!(msg(check_video_config(&config("\u{3000}")).unwrap_err()), "invalid config: file is empty");
    let mut c = config("clip.mp4");
    c.height = 0;
    assert_eq!(msg(check_video_config(&c).unwrap_err()), "invalid config: width/height must be > 0");
    let mut c = config("clip.mp4");
    c.fps = 0;
    assert_eq!(msg(check_video_config(&c).unwrap_err()), "invalid config: fps must be > 0");
    assert!(is_blank(""));
    assert!(!is_blank(" a "));
}

#[test]
fn video_clock_holds_the_frame_while_time_stands_still() {
    let mut clock = VideoClock::new();
    assert!(clock.wants_frame(0));
    clock.frame_taken(0);
    assert!(!clock.wants_frame(0));
    assert!(clock.wants_frame(1));
    clock.frame_taken(5);
    assert!(!clock.wants_frame(3));
    assert!(!clock.wants_frame(5));
    assert!(clock.wants_frame(-1));
    clock.frame_taken(-1);
    assert_eq!(clock.last_frame_index, 0);
}

#[test]
fn oscmap_last_binding_wins() {
    let cfgs = vec![
        OscBindingConfig { addr: "/transport/speed".to_string(), kind: OscActionKind::SetSpeedFromArg },
        OscBindingConfig { addr: "/color/brightness_delta".to_string(), kind: OscActionKind::BrightnessDeltaFromArg },
        OscBindingConfig { addr: "/transport/speed".to_string(), kind: OscActionKind::NudgeSpeedFromArg },
    ];
    let map = Oscmap::from_config(&cfgs);
    assert_eq!(map.kind_for("/transport/speed"), Some(OscActionKind::NudgeSpeedFromArg));
    assert_eq!(map.kind_for("/color/brightness_delta"), Some(OscActionKind::BrightnessDeltaFromArg));
    assert_eq!(map.kind_for("/nothing"), None);
}

#[test]
fn error_messages_and_host() {
    assert_eq!(WebcamError::Backend("busy".to_string()).message(), "busy");
    assert!(WebcamError::NotEnabled.message().contains("not enabled"));
    assert_eq!(VideoError::NoFrameYet.message(), "no frame available yet");
    let _host = Host::new();
}
