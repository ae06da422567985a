//! Splits extended M3U playlists into one playlist per `group-title`.
pub mod grouping;
pub mod playlist;
pub mod render;
pub mod run;
pub mod sanitize;
pub mod text;

pub use grouping::{group_channels, ChannelGroup};
pub use playlist::{parse_group_name, parse_m3u, Channel};
pub use render::render_group;
pub use run::{plan_run, RunAction};
pub use sanitize::{output_file_name, sanitize_filename};
