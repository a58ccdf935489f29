//! What the client's login form holds.

use vstd::prelude::*;
use vstd::utf8::encode_utf8;
use crate::secret::{make_secret, secret_block};

verus! {

/// The address of the streamer to connect to and the secret text to present.
pub struct LoginData {
    /// `host:port` of the streamer.
    pub address: String,
    /// The secret text, as the user typed it.
    pub secret: String,
}

impl LoginData {
    /// The form as it first appears: the streamer on this machine at its
    /// default port, and no secret.
    pub fn new() -> (login: LoginData)
        ensures
            login.address@ == "localhost:3333"@,
            login.secret@ == Seq::<char>::empty(),
    {
        LoginData { address: String::from_str("localhost:3333"), secret: String::new() }
    }

    /// The secret block the client sends after connecting.
    pub fn secret_bytes(&self) -> (secret: Vec<u8>)
        ensures
            secret@ == secret_block(encode_utf8(self.secret@)),
    {
        make_secret(self.secret.clone())
    }
}

} // verus!
