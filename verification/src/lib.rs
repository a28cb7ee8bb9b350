//! Brightness control for Wayland desktops: parsing brightness changes,
//! mapping backlights and DDC/CI monitors to outputs, and the text protocols
//! of the brightness and dimming daemons.
pub mod text;
pub mod level;
pub mod table;
pub mod edid;
pub mod drm;
pub mod backlight;
pub mod ddcci;
pub mod devices;
pub mod waybright_lib;
pub mod protocol;
pub mod waydim;
pub mod waydark;
pub mod combined;
pub mod focus;
pub mod outputs;
