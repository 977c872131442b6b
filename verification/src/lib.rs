//! Verified core of a driver for the WeAct Studio Display FS V1 family of
//! small USB LCD panels: canvas geometry, RGB565 frame encoding, the serial
//! command protocol, word-aware text wrapping and pagination, and the
//! decision logic of the command-line front end.

pub mod cli;
pub mod image;
pub mod port;
pub mod protocol;
pub mod spotify;
pub mod strings;
pub mod text;

pub use cli::{all_presets, pages_or_text, OrientationArg, PageSchedule, PresetName};
pub use image::{
    auto_fit_half_points, create_blank_image, image_to_rgb565_bytes, rgb_to_rgb565, Orientation,
    Rgb, RgbImage, MAX_FONT_HALF_POINTS, MIN_FONT_HALF_POINTS,
};
pub use port::{
    connection_target, detect_display_model, manual_port_info, select_display_port, DisplayConfig,
    DisplayModel, PortInfo, SerialPortEntry, UsbPortInfo,
};
pub use protocol::{create_bitmap_header, create_orientation_command, transfer_steps, ProtocolError, TransferStep};
pub use spotify::{
    format_spotify_text, needs_redraw, parse_now_playing, spotify_text, trim_to_width, NowPlaying,
};
pub use text::{paginate, wrap_text};
