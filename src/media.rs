use vstd::prelude::*;
use vstd::string::{StrSliceExecFns, StringExecFns};

verus! {

/// One decoded frame: RGBA, row-major, tightly packed.
#[derive(Debug, Clone)]
pub struct VideoFrame {
    pub width: u32,
    pub height: u32,
    pub bytes: Vec<u8>,
}

/// Configuration of a streaming video source.
#[derive(Debug, Clone)]
pub struct VideoConfig {
    /// Output width (pixels).
    pub width: u32,
    /// Output height (pixels).
    pub height: u32,
    /// Nominal output rate (frames per second).
    pub fps: u32,
    /// Input file path.
    pub file: String,
    /// Whether to loop the video.
    pub looping: bool,
    /// Optional explicit decoder binary path.
    pub ffmpeg_path: Option<String>,
}

pub fn default_width() -> (r: u32)
    ensures
        r == 640,
{
    640
}

pub fn default_height() -> (r: u32)
    ensures
        r == 360,
{
    360
}

pub fn default_fps() -> (r: u32)
    ensures
        r == 30,
{
    30
}

pub fn default_loop() -> (r: bool)
    ensures
        r,
{
    true
}

#[derive(Debug, Clone)]
pub enum VideoError {
    FfmpegNotFound,
    Spawn(String),
    FfmpegExited,
    NoFrameYet,
    InvalidConfig(String),
}

impl VideoError {
    /// Human-readable description of the error.
    pub fn message(&self) -> (r: String)
        ensures
            self is InvalidConfig ==> r@ == "invalid config: "@ + self->InvalidConfig_0@,
    {
        match self {
            VideoError::FfmpegNotFound => String::from_str(
                "ffmpeg not found (set scheng_FFMPEG, config.ffmpeg_path, or ensure bundled ffmpeg exists)",
            ),
            VideoError::Spawn(m) => String::from_str("failed to spawn ffmpeg: ").concat(m.as_str()),
            VideoError::FfmpegExited => String::from_str("ffmpeg exited early"),
            VideoError::NoFrameYet => String::from_str("no frame available yet"),
            VideoError::InvalidConfig(m) => String::from_str("invalid config: ").concat(m.as_str()),
        }
    }
}

/// The characters with the Unicode `White_Space` property.
pub open spec fn white_space(c: char) -> bool {
    ('\u{9}' <= c && c <= '\u{d}') || c == ' ' || c == '\u{85}' || c == '\u{a0}' || c == '\u{1680}'
        || ('\u{2000}' <= c && c <= '\u{200a}') || c == '\u{2028}' || c == '\u{2029}'
        || c == '\u{202f}' || c == '\u{205f}' || c == '\u{3000}'
}

fn is_white_space(c: char) -> (r: bool)
    ensures
        r == white_space(c),
{
    ('\u{9}' <= c && c <= '\u{d}') || c == ' ' || c == '\u{85}' || c == '\u{a0}' || c == '\u{1680}'
        || ('\u{2000}' <= c && c <= '\u{200a}') || c == '\u{2028}' || c == '\u{2029}'
        || c == '\u{202f}' || c == '\u{205f}' || c == '\u{3000}'
}

/// Whether a text holds nothing but white space.
pub open spec fn blank(s: Seq<char>) -> bool {
    forall|i: int| 0 <= i < s.len() ==> white_space(#[trigger] s[i])
}

pub fn is_blank(s: &str) -> (r: bool)
    ensures
        r == blank(s@),
{
    let n = s.unicode_len();
    let mut k: usize = 0;
    while k < n
        invariant
            n == s@.len(),
            0 <= k <= n,
            forall|i: int| 0 <= i < k ==> white_space(#[trigger] s@[i]),
        decreases n - k,
    {
        if !is_white_space(s.get_char(k)) {
            return false;
        }
        k = k + 1;
    }
    true
}

/// The first rule a video configuration breaks, as the message of its error.
pub open spec fn config_problem(cfg: VideoConfig) -> Option<Seq<char>> {
    if blank(cfg.file@) {
        Some("file is empty"@)
    } else if cfg.width == 0 || cfg.height == 0 {
        Some("width/height must be > 0"@)
    } else if cfg.fps == 0 {
        Some("fps must be > 0"@)
    } else {
        None
    }
}

/// Checks a video configuration before a decoding session is started for it.
pub fn check_video_config(cfg: &VideoConfig) -> (r: Result<(), VideoError>)
    ensures
        match config_problem(*cfg) {
            Some(m) => r is Err && r->Err_0 is InvalidConfig && r->Err_0->InvalidConfig_0@ == m,
            None => r is Ok,
        },
{
    if is_blank(cfg.file.as_str()) {
        return Err(VideoError::InvalidConfig(String::from_str("file is empty")));
    }
    if cfg.width == 0 || cfg.height == 0 {
        return Err(VideoError::InvalidConfig(String::from_str("width/height must be > 0")));
    }
    if cfg.fps == 0 {
        return Err(VideoError::InvalidConfig(String::from_str("fps must be > 0")));
    }
    Ok(())
}

/// Maps a streaming source's timeline onto its decoded frames: a new frame is taken only when
/// the timeline index moves past the last one taken, so an unchanged time keeps the image.
#[derive(Debug, Clone, Copy)]
pub struct VideoClock {
    pub last_frame_index: i64,
}

impl VideoClock {
    /// A clock that has taken no frame yet.
    pub fn new() -> (r: VideoClock)
        ensures
            r.last_frame_index == -1,
    {
        VideoClock { last_frame_index: -1 }
    }

    /// Whether the frame at `timeline_index` is to be sampled.
    pub fn wants_frame(&self, timeline_index: i64) -> (r: bool)
        ensures
            r == (timeline_index < 0 || timeline_index > self.last_frame_index),
    {
        timeline_index < 0 || timeline_index > self.last_frame_index
    }

    /// Records that the frame for `timeline_index` was taken.
    pub fn frame_taken(&mut self, timeline_index: i64)
        ensures
            final(self).last_frame_index == if timeline_index < 0 { 0 } else { timeline_index },
    {
        self.last_frame_index = if timeline_index < 0 { 0 } else { timeline_index };
    }
}

/// Once the frame at index `idx` was taken, the same index takes no new frame (a paused
/// timeline keeps its image), and any later index does.
pub proof fn lemma_paused_time_keeps_frame(c: VideoClock, idx: i64, later: i64)
    requires
        idx >= 0,
        c.last_frame_index == idx,
        later > idx,
    ensures
        !(idx < 0 || idx > c.last_frame_index),
        later < 0 || later > c.last_frame_index,
{
}

#[derive(Debug, Clone)]
pub enum WebcamError {
    NotEnabled,
    Backend(String),
}

impl WebcamError {
    /// Human-readable description of the error.
    pub fn message(&self) -> (r: String)
        ensures
            self is Backend ==> r@ == self->Backend_0@,
    {
        match self {
            WebcamError::NotEnabled => String::from_str(
                "webcam support not enabled in this build",
            ),
            WebcamError::Backend(m) => m.clone(),
        }
    }
}

/// One captured frame: RGBA8.
#[derive(Debug, Clone)]
pub struct RgbaFrame {
    pub width: u32,
    pub height: u32,
    pub bytes: Vec<u8>,
}

} // verus!
