//! The shared secret: a fixed-size byte block made from a text.

use vstd::prelude::*;
use vstd::utf8::encode_utf8;
use crate::SECRET_SIZE;

verus! {

/// The secret block made from bytes `bytes` (the UTF-8 encoding of a text): the first
/// `SECRET_SIZE` bytes, followed by zero bytes where the text is shorter.
pub open spec fn secret_block(bytes: Seq<u8>) -> Seq<u8> {
    Seq::new(SECRET_SIZE as nat, |i: int| if i < bytes.len() { bytes[i] } else { 0u8 })
}

/// The secret block of a text is `SECRET_SIZE` bytes long; byte `i` is byte
/// `i` of the text while the text lasts, and zero after it.
pub proof fn lemma_secret_block_bytes(bytes: Seq<u8>, i: int)
    ensures
        secret_block(bytes).len() == SECRET_SIZE,
        0 <= i < SECRET_SIZE && i < bytes.len() ==> secret_block(bytes)[i] == bytes[i],
        0 <= i < SECRET_SIZE && bytes.len() <= i ==> secret_block(bytes)[i] == 0u8,
{
}

/// Two texts give the same secret block exactly when, over the first
/// `SECRET_SIZE` bytes, they have the same bytes, counting a byte past the end
/// of a text as zero. So texts that differ in one of their first
/// `SECRET_SIZE` bytes (where neither has a zero byte there) give different
/// blocks.
pub proof fn lemma_secret_blocks_equal_iff(a: Seq<u8>, b: Seq<u8>)
    ensures
        secret_block(a) == secret_block(b) <==> forall|i: int|
            0 <= i < SECRET_SIZE ==> (if i < a.len() {
                a[i]
            } else {
                0u8
            }) == (if i < b.len() {
                b[i]
            } else {
                0u8
            }),
{
    if secret_block(a) == secret_block(b) {
        assert forall|i: int| 0 <= i < SECRET_SIZE implies (if i < a.len() {
            a[i]
        } else {
            0u8
        }) == (if i < b.len() {
            b[i]
        } else {
            0u8
        }) by {
            lemma_secret_block_bytes(a, i);
            lemma_secret_block_bytes(b, i);
            assert(secret_block(a)[i] == secret_block(b)[i]);
        }
    }
    if forall|i: int|
        0 <= i < SECRET_SIZE ==> (if i < a.len() {
            a[i]
        } else {
            0u8
        }) == (if i < b.len() {
            b[i]
        } else {
            0u8
        }) {
        assert(secret_block(a) =~= secret_block(b));
    }
}

/// Only the first `SECRET_SIZE` bytes of a text count: two texts that are at
/// least that long and agree on those bytes give the same secret block.
pub proof fn lemma_only_leading_bytes_count(a: Seq<u8>, b: Seq<u8>)
    requires
        a.len() >= SECRET_SIZE,
        b.len() >= SECRET_SIZE,
        a.take(SECRET_SIZE as int) == b.take(SECRET_SIZE as int),
    ensures
        secret_block(a) == secret_block(b),
{
    assert forall|i: int| 0 <= i < SECRET_SIZE implies a[i] == b[i] by {
        let n = SECRET_SIZE as int;
        assert(a.take(n)[i] == a[i]);
        assert(b.take(n)[i] == b[i]);
        assert(a.take(n)[i] == b.take(n)[i]);
    }
    assert(secret_block(a) =~= secret_block(b));
}

/// A text shorter than `SECRET_SIZE` bytes is padded with zero bytes, so it
/// gives the same secret block as the text followed by zero bytes.
pub proof fn lemma_zero_padding(a: Seq<u8>, zeros: nat)
    requires
        a.len() + zeros <= SECRET_SIZE,
    ensures
        secret_block(a + Seq::new(zeros, |i: int| 0u8)) == secret_block(a),
{
    assert(secret_block(a + Seq::new(zeros, |i: int| 0u8)) =~= secret_block(a));
}

/// Turns a text into the secret block that client and streamer compare.
pub fn make_secret(secret_str: String) -> (secret: Vec<u8>)
    ensures
        secret@ == secret_block(encode_utf8(secret_str@)),
        secret@.len() == SECRET_SIZE,
        forall|i: int|
            0 <= i < SECRET_SIZE ==> #[trigger] secret@[i] == if i < encode_utf8(
                secret_str@,
            ).len() {
                encode_utf8(secret_str@)[i]
            } else {
                0u8
            },
{
    let bytes = secret_str.as_str().as_bytes();
    let n = bytes.len();
    let mut secret: Vec<u8> = Vec::new();
    let mut i: usize = 0;
    while i < SECRET_SIZE
        invariant
            i <= SECRET_SIZE,
            n == bytes@.len(),
            bytes@ == encode_utf8(secret_str@),
            secret@ == secret_block(bytes@).take(i as int),
        decreases SECRET_SIZE - i,
    {
        if i < n {
            secret.push(bytes[i]);
        } else {
            secret.push(0u8);
        }
        i = i + 1;
        assert(secret@ =~= secret_block(bytes@).take(i as int));
    }
    assert(secret@ =~= secret_block(bytes@));
    secret
}

} // verus!
