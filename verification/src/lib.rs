//! A small webcam streaming toolkit: the streamer hands YUYV frames to a client
//! that presented the shared secret, and the client converts them to RGB.

pub mod secret;
pub mod session;
pub mod yuyv;
pub mod ip;
pub mod log;
pub mod login;
pub mod settings;

use vstd::prelude::*;

verus! {

/// Width in pixels of the frames that the streamer requests from the camera.
pub const WIDTH: usize = 640;

/// Height in pixels of the frames that the streamer requests from the camera.
pub const HEIGHT: usize = 480;

/// Number of bytes of the secret that a client sends when it connects.
pub const SECRET_SIZE: usize = 40;

} // verus!
