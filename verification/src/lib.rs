//! An encoder for the CoolLED 1248 display: it turns a text, a picture or
//! an animation into the framed, escaped and checksummed packets that the
//! display takes over Bluetooth or a serial line. The library writes bytes
//! into buffers of its caller and does no input or output itself.

pub mod colors;
pub mod coolled;
pub mod font;
pub mod ncycle;
pub mod packets;
pub mod stream;
pub mod util;
