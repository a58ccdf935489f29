//! The streamer's settings, from what was given on its command line.

use vstd::prelude::*;
use vstd::utf8::encode_utf8;
use crate::ip::{ascii_chars, listen_address, listen_text, Ip};
use crate::secret::{make_secret, secret_block};

verus! {

/// The port the streamer listens on when none is given.
pub const DEFAULT_PORT: usize = 3333;

/// The settings the streamer runs with.
pub struct StreamerSettings {
    /// The camera: `/dev/video<dev_id>`.
    pub dev_id: usize,
    /// The port to listen on.
    pub port: usize,
    /// `host:port` to listen on.
    pub address: String,
    /// The secret block clients must present.
    pub secret_bytes: Vec<u8>,
    /// Whether no secret was given, so that the well-known `TEST` is in use.
    pub default_secret: bool,
}

impl StreamerSettings {
    /// The settings from the optional camera number, address, port and secret
    /// text: camera 0, the loopback address, port 3333 and the secret `TEST`
    /// stand in for what is missing.
    pub fn resolve(
        dev_id: Option<usize>,
        ip: Option<Ip>,
        port: Option<usize>,
        secret: Option<String>,
    ) -> (settings: StreamerSettings)
        ensures
            settings.dev_id == match dev_id {
                Some(d) => d,
                None => 0,
            },
            settings.port == match port {
                Some(p) => p,
                None => DEFAULT_PORT,
            },
            settings.address@ == ascii_chars(
                listen_text(
                    match ip {
                        Some(ip) => Some(ip.addr@),
                        None => None,
                    },
                    settings.port as nat,
                ),
            ),
            settings.secret_bytes@ == secret_block(
                encode_utf8(
                    match secret {
                        Some(s) => s@,
                        None => "TEST"@,
                    },
                ),
            ),
            settings.default_secret == secret is None,
    {
        let dev_id = match dev_id {
            Some(d) => d,
            None => 0,
        };
        let port = match port {
            Some(p) => p,
            None => DEFAULT_PORT,
        };
        let default_secret = secret.is_none();
        let secret_bytes = match secret {
            Some(s) => make_secret(s),
            None => make_secret(String::from_str("TEST")),
        };
        let address = listen_address(ip, port);
        StreamerSettings { dev_id, port, address, secret_bytes, default_secret }
    }
}

} // verus!
