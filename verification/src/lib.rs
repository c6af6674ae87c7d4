//! Verified core of the OHOS platform layer.

pub mod atlas;
pub mod dispatcher;
pub mod draw;
pub mod gpu;
pub mod host;
pub mod inputmethod;
pub mod keyboard;
pub mod ohos;
pub mod picked_fs;
pub mod platform;
pub mod text;
pub mod translations;
pub mod window;
