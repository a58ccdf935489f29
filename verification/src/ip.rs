//! IPv4 addresses written as dotted text, such as `192.168.0.7`.
//!
//! The text is read as its UTF-8 bytes, split at every `.`; each piece must be
//! a decimal number from 0 to 255, optionally preceded by `+`. Pieces past the
//! fourth are not used.

use vstd::prelude::*;
use vstd::utf8::encode_utf8;

verus! {

/// The byte of `.`.
pub const DOT: u8 = 46;

/// The byte of `+`.
pub const PLUS: u8 = 43;

/// The byte of `0`.
pub const ZERO_DIGIT: u8 = 48;

/// Whether `b` is the byte of a decimal digit.
pub open spec fn is_digit(b: u8) -> bool {
    ZERO_DIGIT <= b <= ZERO_DIGIT + 9
}

/// Whether every byte of `d` is a decimal digit.
pub open spec fn all_digits(d: Seq<u8>) -> bool {
    forall|i: int| 0 <= i < d.len() ==> is_digit(#[trigger] d[i])
}

/// The number that the decimal digits `d` stand for (0 for no digits).
pub open spec fn digits_value(d: Seq<u8>) -> nat
    decreases d.len(),
{
    if d.len() == 0 {
        0
    } else {
        digits_value(d.drop_last()) * 10 + (d.last() - ZERO_DIGIT) as nat
    }
}

/// `piece` without one leading `+`, if it has one.
pub open spec fn unsigned_part(piece: Seq<u8>) -> Seq<u8> {
    if piece.len() > 0 && piece[0] == PLUS {
        piece.drop_first()
    } else {
        piece
    }
}

/// The byte value that `piece` stands for: an optional `+` and then at least one
/// decimal digit, with a value of at most 255.
pub open spec fn byte_value(piece: Seq<u8>) -> Option<u8> {
    let d = unsigned_part(piece);
    if d.len() > 0 && all_digits(d) && digits_value(d) <= 255 {
        Some(digits_value(d) as u8)
    } else {
        None
    }
}

/// The pieces of `text` between its `.` bytes, from left to right. A text with
/// `n` dots has `n + 1` pieces, some of which may be empty.
pub open spec fn split_dots(text: Seq<u8>) -> Seq<Seq<u8>>
    decreases text.len(),
{
    if text.len() == 0 {
        seq![Seq::empty()]
    } else {
        let front = split_dots(text.drop_last());
        if text.last() == DOT {
            front.push(Seq::empty())
        } else {
            front.update(front.len() - 1, front.last().push(text.last()))
        }
    }
}

/// Why a text is not an address.
#[derive(Clone, Copy, Debug, PartialEq, Eq, Structural)]
pub enum IpError {
    /// A piece between dots is not a number from 0 to 255 ("Not (u8) integer value.").
    NotAnInteger,
    /// Fewer than four pieces ("Not enough values.").
    TooFewValues,
}

/// The four address bytes that the UTF-8 bytes `text` stand for.
pub open spec fn address_value(text: Seq<u8>) -> Result<Seq<u8>, IpError> {
    let pieces = split_dots(text);
    if exists|i: int| 0 <= i < pieces.len() && byte_value(#[trigger] pieces[i]) is None {
        Err(IpError::NotAnInteger)
    } else if pieces.len() < 4 {
        Err(IpError::TooFewValues)
    } else {
        Ok(
            seq![
                byte_value(pieces[0])->0,
                byte_value(pieces[1])->0,
                byte_value(pieces[2])->0,
                byte_value(pieces[3])->0,
            ],
        )
    }
}

/// The byte of `:`.
pub const COLON: u8 = 58;

/// The decimal digits of `n`, without leading zeros.
pub open spec fn decimal(n: nat) -> Seq<u8>
    decreases n,
{
    if n < 10 {
        seq![(ZERO_DIGIT + n) as u8]
    } else {
        decimal(n / 10).push((ZERO_DIGIT + n % 10) as u8)
    }
}

/// The dotted text of the four address bytes `addr`, such as `192.168.0.7`.
pub open spec fn address_text(addr: Seq<u8>) -> Seq<u8> {
    decimal(addr[0] as nat) + seq![DOT] + decimal(addr[1] as nat) + seq![DOT] + decimal(
        addr[2] as nat,
    ) + seq![DOT] + decimal(addr[3] as nat)
}

/// The address that the streamer listens on when none is given: `127.0.0.1`.
pub open spec fn loopback() -> Seq<u8> {
    seq![127u8, 0u8, 0u8, 1u8]
}

/// The text `host:port` of the address to listen on: `addr`, or the loopback
/// address where there is none, and the port in decimal.
pub open spec fn listen_text(addr: Option<Seq<u8>>, port: nat) -> Seq<u8> {
    let host = match addr {
        Some(a) => a,
        None => loopback(),
    };
    address_text(host) + seq![COLON] + decimal(port)
}

/// The characters of the ASCII bytes `bytes`.
pub open spec fn ascii_chars(bytes: Seq<u8>) -> Seq<char> {
    bytes.map_values(|b: u8| b as char)
}

/// The decimal digits of a number are digits, at least one, and stand for it.
proof fn lemma_decimal_reads_back(n: nat)
    ensures
        decimal(n).len() >= 1,
        all_digits(decimal(n)),
        digits_value(decimal(n)) == n,
    decreases n,
{
    if n >= 10 {
        lemma_decimal_reads_back(n / 10);
        let d = decimal(n);
        assert(d.drop_last() =~= decimal(n / 10));
        assert(d.last() == (ZERO_DIGIT + n % 10) as u8);
        assert((d.last() - ZERO_DIGIT) as nat == n % 10);
        assert(n == (n / 10) * 10 + n % 10);
        assert forall|i: int| 0 <= i < d.len() implies is_digit(#[trigger] d[i]) by {
            if i < d.len() - 1 {
                assert(d[i] == decimal(n / 10)[i]);
            }
        }
    } else {
        assert(decimal(n).drop_last() =~= Seq::<u8>::empty());
        assert(digits_value(Seq::<u8>::empty()) == 0);
    }
}

/// A text without dots is a single piece.
proof fn lemma_split_without_dots(d: Seq<u8>)
    requires
        forall|i: int| 0 <= i < d.len() ==> d[i] != DOT,
    ensures
        split_dots(d) == seq![d],
    decreases d.len(),
{
    if d.len() > 0 {
        lemma_split_without_dots(d.drop_last());
        assert(d.drop_last().push(d.last()) =~= d);
        assert(split_dots(d) =~= seq![d]);
    } else {
        assert(d =~= Seq::<u8>::empty());
    }
}

/// The pieces of a text joined at a dot are the pieces of either side.
proof fn lemma_split_at_dot(a: Seq<u8>, b: Seq<u8>)
    ensures
        split_dots(a + seq![DOT] + b) == split_dots(a) + split_dots(b),
    decreases b.len(),
{
    lemma_split_nonempty(a);
    let whole = a + seq![DOT] + b;
    if b.len() == 0 {
        assert(whole.drop_last() =~= a);
        assert(split_dots(whole) =~= split_dots(a) + split_dots(b));
    } else {
        let front = b.drop_last();
        lemma_split_at_dot(a, front);
        lemma_split_nonempty(front);
        assert(whole.drop_last() =~= a + seq![DOT] + front);
        assert(whole.last() == b.last());
        assert(split_dots(whole) =~= split_dots(a) + split_dots(b));
    }
}

/// The decimal digits of a byte are its byte value as a piece.
proof fn lemma_decimal_byte_value(v: u8)
    ensures
        byte_value(decimal(v as nat)) == Some(v),
        forall|i: int| 0 <= i < decimal(v as nat).len() ==> decimal(v as nat)[i] != DOT,
{
    lemma_decimal_reads_back(v as nat);
    let d = decimal(v as nat);
    assert(is_digit(d[0]));
    assert(unsigned_part(d) == d);
    assert forall|i: int| 0 <= i < d.len() implies d[i] != DOT by {
        assert(is_digit(d[i]));
    }
}

/// Written as dotted text, an address reads back as itself.
pub proof fn lemma_address_text_reads_back(addr: Seq<u8>)
    requires
        addr.len() == 4,
    ensures
        address_value(address_text(addr)) == Ok::<Seq<u8>, IpError>(addr),
{
    let d0 = decimal(addr[0] as nat);
    let d1 = decimal(addr[1] as nat);
    let d2 = decimal(addr[2] as nat);
    let d3 = decimal(addr[3] as nat);
    lemma_decimal_byte_value(addr[0]);
    lemma_decimal_byte_value(addr[1]);
    lemma_decimal_byte_value(addr[2]);
    lemma_decimal_byte_value(addr[3]);
    lemma_split_without_dots(d0);
    lemma_split_without_dots(d1);
    lemma_split_without_dots(d2);
    lemma_split_without_dots(d3);
    lemma_split_at_dot(d0, d1);
    lemma_split_at_dot(d0 + seq![DOT] + d1, d2);
    lemma_split_at_dot(d0 + seq![DOT] + d1 + seq![DOT] + d2, d3);
    let pieces = split_dots(address_text(addr));
    assert(pieces =~= seq![d0, d1, d2, d3]);
    assert forall|i: int| 0 <= i < pieces.len() implies !(byte_value(
        #[trigger] pieces[i],
    ) is None) by {
        assert(pieces[i] == seq![d0, d1, d2, d3][i]);
    }
    assert(seq![
        byte_value(pieces[0])->0,
        byte_value(pieces[1])->0,
        byte_value(pieces[2])->0,
        byte_value(pieces[3])->0,
    ] =~= addr);
}

/// The UTF-8 bytes of the characters of ASCII bytes are those bytes.
proof fn lemma_ascii_encoding(bytes: Seq<u8>)
    requires
        forall|i: int| 0 <= i < bytes.len() ==> bytes[i] < 128,
    ensures
        encode_utf8(ascii_chars(bytes)) == bytes,
{
    let chars = ascii_chars(bytes);
    assert(vstd::utf8::is_ascii_chars(chars));
    vstd::utf8::is_ascii_chars_encode_utf8(chars);
    assert(encode_utf8(chars) =~= bytes);
}

/// The decimal digits of a number are at least one digit, all digits, and
/// stand for the number.
pub proof fn lemma_decimal_digits(n: nat)
    ensures
        decimal(n).len() >= 1,
        all_digits(decimal(n)),
        digits_value(decimal(n)) == n,
{
    lemma_decimal_reads_back(n);
}

/// The listening text is the host, `:`, and the port's decimal digits: it ends
/// with `:` and then digits that stand for `port`, whether or not an address
/// is given, and its host part is the given address, or `127.0.0.1` when none
/// is given; that host part reads back as the address.
pub proof fn lemma_listen_text_parts(addr: Option<Seq<u8>>, port: nat)
    requires
        addr matches Some(a) ==> a.len() == 4,
    ensures
        ({
            let host = match addr {
                Some(a) => a,
                None => seq![127u8, 0u8, 0u8, 1u8],
            };
            let text = listen_text(addr, port);
            let digits = decimal(port);
            let host_len = text.len() - digits.len() - 1;
            &&& text.len() > digits.len()
            &&& text[host_len] == COLON
            &&& text.subrange(host_len + 1, text.len() as int) == digits
            &&& all_digits(digits)
            &&& digits_value(digits) == port
            &&& address_value(text.subrange(0, host_len)) == Ok::<Seq<u8>, IpError>(host)
        }),
{
    let host = match addr {
        Some(a) => a,
        None => seq![127u8, 0u8, 0u8, 1u8],
    };
    assert(host.len() == 4);
    assert(match addr {
        Some(a) => a,
        None => loopback(),
    } == host);
    lemma_decimal_reads_back(port);
    lemma_address_text_reads_back(host);
    let text = listen_text(addr, port);
    let h = address_text(host);
    assert(text == h + seq![COLON] + decimal(port));
    assert(text.subrange(0, h.len() as int) =~= h);
    assert(text.subrange(h.len() as int + 1, text.len() as int) =~= decimal(port));
}

/// An IPv4 address.
#[derive(Clone, Copy, Debug, PartialEq, Eq)]
pub struct Ip {
    /// The four bytes, most significant first.
    pub addr: [u8; 4],
}

/// Every text has at least one piece.
proof fn lemma_split_nonempty(text: Seq<u8>)
    ensures
        split_dots(text).len() >= 1,
    decreases text.len(),
{
    if text.len() > 0 {
        lemma_split_nonempty(text.drop_last());
    }
}

/// A longer run of digits has at least the value of its prefixes.
proof fn lemma_digits_prefix_le(d: Seq<u8>, m: int)
    requires
        0 <= m <= d.len(),
        all_digits(d),
    ensures
        digits_value(d.take(m)) <= digits_value(d),
    decreases d.len(),
{
    if m < d.len() {
        let front = d.drop_last();
        assert(all_digits(front)) by {
            assert forall|i: int| 0 <= i < front.len() implies is_digit(#[trigger] front[i]) by {
                assert(front[i] == d[i]);
            }
        }
        lemma_digits_prefix_le(front, m);
        assert(front.take(m) =~= d.take(m));
    } else {
        assert(d.take(m) =~= d);
    }
}

/// The byte value of `piece`, read from its bytes.
fn parse_byte(piece: &[u8]) -> (value: Option<u8>)
    ensures
        value == byte_value(piece@),
{
    let len = piece.len();
    let start: usize = if len > 0 && piece[0] == PLUS {
        1
    } else {
        0
    };
    let ghost d = unsigned_part(piece@);
    assert(d =~= piece@.subrange(start as int, len as int));
    if start == len {
        return None;
    }
    let mut i: usize = start;
    let mut acc: u32 = 0;
    while i < len
        invariant
            start <= i <= len,
            start < len,
            len == piece@.len(),
            d == piece@.subrange(start as int, len as int),
            d == unsigned_part(piece@),
            all_digits(d.take(i - start)),
            acc == digits_value(d.take(i - start)),
            acc <= 255,
        decreases len - i,
    {
        let c = piece[i];
        if c < ZERO_DIGIT || c > ZERO_DIGIT + 9 {
            assert(!is_digit(d[i - start]));
            assert(!all_digits(d));
            return None;
        }
        let ghost k = i - start;
        assert(d.take(k + 1).drop_last() =~= d.take(k));
        assert(d.take(k + 1).last() == c);
        acc = acc * 10 + (c - ZERO_DIGIT) as u32;
        i = i + 1;
        assert(acc == digits_value(d.take(i - start)));
        assert(all_digits(d.take(i - start))) by {
            assert forall|j: int| 0 <= j < d.take(i - start).len() implies is_digit(
                #[trigger] d.take(i - start)[j],
            ) by {
                if j < k {
                    assert(d.take(i - start)[j] == d.take(k)[j]);
                }
            }
        }
        if acc > 255 {
            proof {
                if all_digits(d) {
                    lemma_digits_prefix_le(d, i - start);
                }
            }
            return None;
        }
    }
    assert(d.take(i - start) =~= d);
    Some(acc as u8)
}

/// Appends the decimal digit `d` to `text`.
fn push_digit(text: &mut String, d: u8)
    requires
        d < 10,
    ensures
        final(text)@ == old(text)@.push((ZERO_DIGIT + d) as u8 as char),
{
    let digit: &str = match d {
        0 => {
            proof {
                reveal_strlit("0");
            }
            "0"
        },
        1 => {
            proof {
                reveal_strlit("1");
            }
            "1"
        },
        2 => {
            proof {
                reveal_strlit("2");
            }
            "2"
        },
        3 => {
            proof {
                reveal_strlit("3");
            }
            "3"
        },
        4 => {
            proof {
                reveal_strlit("4");
            }
            "4"
        },
        5 => {
            proof {
                reveal_strlit("5");
            }
            "5"
        },
        6 => {
            proof {
                reveal_strlit("6");
            }
            "6"
        },
        7 => {
            proof {
                reveal_strlit("7");
            }
            "7"
        },
        8 => {
            proof {
                reveal_strlit("8");
            }
            "8"
        },
        _ => {
            proof {
                reveal_strlit("9");
            }
            "9"
        },
    };
    text.append(digit);
    assert(text@ =~= old(text)@.push((ZERO_DIGIT + d) as u8 as char));
}

/// Appends the decimal digits of `n` to `text`.
fn push_decimal(text: &mut String, n: usize)
    ensures
        final(text)@ == old(text)@ + ascii_chars(decimal(n as nat)),
    decreases n,
{
    if n >= 10 {
        push_decimal(text, n / 10);
    }
    push_digit(text, (n % 10) as u8);
    proof {
        if n >= 10 {
            assert(ascii_chars(decimal(n as nat)) =~= ascii_chars(decimal((n / 10) as nat)).push(
                (ZERO_DIGIT + n % 10) as u8 as char,
            ));
        } else {
            assert(ascii_chars(decimal(n as nat)) =~= seq![(ZERO_DIGIT + n) as u8 as char]);
        }
    }
}

/// Appends `.` to `text`.
fn push_dot(text: &mut String)
    ensures
        final(text)@ == old(text)@.push(DOT as char),
{
    proof {
        reveal_strlit(".");
    }
    text.append(".");
    assert(text@ =~= old(text)@.push(DOT as char));
}

/// The text `host:port` of the address the streamer listens on: `ip`, or
/// `127.0.0.1` where none is given, and `port` in decimal.
pub fn listen_address(ip: Option<Ip>, port: usize) -> (address: String)
    ensures
        address@ == ascii_chars(
            listen_text(
                match ip {
                    Some(ip) => Some(ip.addr@),
                    None => None,
                },
                port as nat,
            ),
        ),
{
    let addr: [u8; 4] = match ip {
        Some(ip) => ip.addr,
        None => [127u8, 0u8, 0u8, 1u8],
    };
    let ghost host = addr@;
    assert(match ip {
        Some(ip) => host == ip.addr@,
        None => host =~= loopback(),
    });
    let mut text = String::new();
    push_decimal(&mut text, addr[0] as usize);
    push_dot(&mut text);
    push_decimal(&mut text, addr[1] as usize);
    push_dot(&mut text);
    push_decimal(&mut text, addr[2] as usize);
    push_dot(&mut text);
    push_decimal(&mut text, addr[3] as usize);
    proof {
        reveal_strlit(":");
    }
    text.append(":");
    push_decimal(&mut text, port);
    assert(text@ =~= ascii_chars(address_text(host) + seq![COLON] + decimal(port as nat)));
    text
}

/// The address part of the text the streamer listens on reads back as the
/// address it was given.
pub proof fn lemma_listen_host_reads_back(addr: Seq<u8>, port: nat)
    requires
        addr.len() == 4,
    ensures
        listen_text(Some(addr), port) == address_text(addr) + seq![COLON] + decimal(port),
        address_value(encode_utf8(ascii_chars(address_text(addr)))) == Ok::<Seq<u8>, IpError>(
            addr,
        ),
{
    lemma_address_text_reads_back(addr);
    let t = address_text(addr);
    lemma_decimal_reads_back(addr[0] as nat);
    lemma_decimal_reads_back(addr[1] as nat);
    lemma_decimal_reads_back(addr[2] as nat);
    lemma_decimal_reads_back(addr[3] as nat);
    assert forall|i: int| 0 <= i < t.len() implies t[i] < 128 by {
        let d0 = decimal(addr[0] as nat);
        let d1 = decimal(addr[1] as nat);
        let d2 = decimal(addr[2] as nat);
        let d3 = decimal(addr[3] as nat);
        if i < d0.len() {
            assert(is_digit(d0[i]));
        } else if i == d0.len() {
        } else if i < d0.len() + 1 + d1.len() {
            assert(is_digit(d1[i - d0.len() - 1]));
        } else if i == d0.len() + 1 + d1.len() {
        } else if i < d0.len() + 2 + d1.len() + d2.len() {
            assert(is_digit(d2[i - d0.len() - d1.len() - 2]));
        } else if i == d0.len() + 2 + d1.len() + d2.len() {
        } else {
            assert(is_digit(d3[i - d0.len() - d1.len() - d2.len() - 3]));
        }
    }
    lemma_ascii_encoding(t);
}

impl Ip {
    /// Reads an address from dotted text such as `192.168.0.7`.
    pub fn parse(value: &str) -> (res: Result<Ip, IpError>)
        ensures
            match res {
                Ok(ip) => address_value(encode_utf8(value@)) == Ok::<Seq<u8>, IpError>(ip.addr@),
                Err(e) => address_value(encode_utf8(value@)) == Err::<Seq<u8>, IpError>(e),
            },
    {
        let text = value.as_bytes();
        let len = text.len();
        let mut pieces: Vec<Vec<u8>> = Vec::new();
        pieces.push(Vec::new());
        let mut i: usize = 0;
        assert(text@.take(0) =~= Seq::<u8>::empty());
        while i < len
            invariant
                i <= len,
                len == text@.len(),
                pieces@.len() == split_dots(text@.take(i as int)).len(),
                forall|j: int|
                    0 <= j < pieces@.len() ==> #[trigger] pieces@[j]@ == split_dots(
                        text@.take(i as int),
                    )[j],
            decreases len - i,
        {
            let b = text[i];
            proof {
                lemma_split_nonempty(text@.take(i as int));
                assert(text@.take(i + 1).drop_last() =~= text@.take(i as int));
            }
            if b == DOT {
                pieces.push(Vec::new());
            } else {
                let mut last = pieces.pop().unwrap();
                last.push(b);
                pieces.push(last);
            }
            i = i + 1;
        }
        assert(text@.take(len as int) =~= text@);
        let ghost all = split_dots(text@);
        assert(text@ == encode_utf8(value@));
        let count = pieces.len();
        let mut values: Vec<u8> = Vec::new();
        let mut j: usize = 0;
        while j < count
            invariant
                j <= count,
                count == pieces@.len(),
                count == all.len(),
                all == split_dots(text@),
                text@ == encode_utf8(value@),
                forall|k: int| 0 <= k < count ==> #[trigger] pieces@[k]@ == all[k],
                values@.len() == j,
                forall|k: int| 0 <= k < j ==> byte_value(all[k]) == Some(#[trigger] values@[k]),
            decreases count - j,
        {
            match parse_byte(pieces[j].as_slice()) {
                Some(v) => values.push(v),
                None => {
                    assert(pieces@[j as int]@ == all[j as int]);
                    assert(byte_value(all[j as int]) is None);
                    assert(text@ == encode_utf8(value@));
                    return Err(IpError::NotAnInteger);
                },
            }
            j = j + 1;
        }
        assert(!exists|k: int| 0 <= k < all.len() && byte_value(#[trigger] all[k]) is None) by {
            assert forall|k: int| 0 <= k < all.len() implies !(byte_value(
                #[trigger] all[k],
            ) is None) by {
                assert(byte_value(all[k]) == Some(values@[k]));
            }
        }
        if count < 4 {
            return Err(IpError::TooFewValues);
        }
        let ip = Ip { addr: [values[0], values[1], values[2], values[3]] };
        assert(byte_value(all[0]) == Some(values@[0]));
        assert(byte_value(all[1]) == Some(values@[1]));
        assert(byte_value(all[2]) == Some(values@[2]));
        assert(byte_value(all[3]) == Some(values@[3]));
        assert(ip.addr@ =~= seq![values@[0], values@[1], values@[2], values@[3]]);
        Ok(ip)
    }
}

} // verus!
