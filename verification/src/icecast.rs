//! The text of the Icecast source protocol: the requests that the streamer
//! sends and the checks it makes on the server's answer.

use vstd::prelude::*;
use vstd::string::StringExecFns;
use vstd::utf8::encode_utf8;
use crate::base64::{base64, base64_decode, base64_encode, lemma_base64_encode_injective, lemma_base64_round_trip};
use crate::config::{Config, ConfigSpec};
use crate::text::{decimal, decimal_string, push_char};

verus! {

/// `host:port`, where the streamer connects.
pub open spec fn address_text(host: Seq<char>, port: u16) -> Seq<char> {
    host + ":"@ + decimal(port as nat)
}

/// The address of the Icecast server, `host:port`.
pub fn server_address(cfg: &Config) -> (r: String)
    ensures
        r@ == address_text(cfg.host@, cfg.port),
{
    let mut r = cfg.host.clone();
    r.append(":");
    let port = decimal_string(cfg.port as u64);
    r.append(port.as_str());
    r
}

/// The Basic credentials of the source user: `source:password` in Base64.
pub open spec fn credentials_text(password: Seq<char>) -> Seq<char> {
    base64(encode_utf8("source:"@ + password))
}

/// The Basic credentials of the source user for `password`.
pub fn source_credentials(password: &str) -> (r: String)
    ensures
        r@ == credentials_text(password@),
{
    let mut s = "source:".to_owned();
    s.append(password);
    base64_encode(s.as_str())
}

/// Decoding the credentials gives exactly the UTF-8 bytes of `source:`
/// followed by the password, unchanged.
pub proof fn lemma_credentials_decode(password: Seq<char>)
    ensures
        base64_decode(credentials_text(password)) == encode_utf8("source:"@ + password),
{
    lemma_base64_round_trip(encode_utf8("source:"@ + password));
}

/// Different passwords give different credentials.
pub proof fn lemma_credentials_distinct(p1: Seq<char>, p2: Seq<char>)
    requires
        p1 != p2,
    ensures
        credentials_text(p1) != credentials_text(p2),
{
    let prefix = "source:"@;
    if credentials_text(p1) == credentials_text(p2) {
        lemma_base64_encode_injective(prefix + p1, prefix + p2);
        assert((prefix + p1).skip(prefix.len() as int) =~= p1);
        assert((prefix + p2).skip(prefix.len() as int) =~= p2);
    }
}

/// The request that opens the source stream on the mount point.
pub open spec fn source_request_text(c: ConfigSpec) -> Seq<char> {
    "PUT "@ + c.mount + " HTTP/1.0\r\nAuthorization: Basic "@ + credentials_text(c.password)
        + "\r\nHost: "@ + c.host
        + "\r\nUser-Agent: RustStreamer/1.0\r\nAccept: */*\r\nTransfer-Encoding: chunked\r\nContent-Type: audio/mpeg\r\nIce-Name: "@
        + c.name + "\r\nIce-BitRate: "@ + decimal(c.bitrate as nat) + "\r\nIce-Public: 0\r\n\r\n"@
}

/// The request that opens the source stream, with its headers.
pub fn source_request(cfg: &Config) -> (r: String)
    ensures
        r@ == source_request_text(cfg@),
{
    let credentials = source_credentials(cfg.password.as_str());
    let bitrate = decimal_string(cfg.bitrate);
    let mut r = "PUT ".to_owned();
    r.append(cfg.mount.as_str());
    r.append(" HTTP/1.0\r\nAuthorization: Basic ");
    r.append(credentials.as_str());
    r.append("\r\nHost: ");
    r.append(cfg.host.as_str());
    r.append(
        "\r\nUser-Agent: RustStreamer/1.0\r\nAccept: */*\r\nTransfer-Encoding: chunked\r\nContent-Type: audio/mpeg\r\nIce-Name: ",
    );
    r.append(cfg.name.as_str());
    r.append("\r\nIce-BitRate: ");
    r.append(bitrate.as_str());
    r.append("\r\nIce-Public: 0\r\n\r\n");
    r
}

/// The stream's byte rate for a bitrate in kbit/s.
pub fn bytes_per_second(bitrate: u64) -> (r: u64)
    requires
        bitrate * 1000 <= u64::MAX,
    ensures
        r == bitrate * 1000 / 8,
{
    bitrate * 1000 / 8
}

// ---------------------------------------------------------------
// Metadata updates
// ---------------------------------------------------------------

/// The bytes that a metadata title keeps as they are: ASCII letters and
/// digits, `-`, `_` and `.`; everything else, the space included, is
/// percent-encoded so that the title cannot break the request line.
pub open spec fn kept_in_url(b: u8) -> bool {
    ||| 48 <= b <= 57
    ||| 65 <= b <= 90
    ||| 97 <= b <= 122
    ||| b == 45 || b == 95 || b == 46
}

/// The upper-case hexadecimal digit for `d < 16`.
pub open spec fn hex_digit(d: nat) -> char {
    if d < 10 {
        (48 + d) as char
    } else {
        (55 + d) as char
    }
}

/// The text that stands for byte `b` in the title: itself, or `%XX`.
pub open spec fn url_byte(b: u8) -> Seq<char> {
    if kept_in_url(b) {
        seq![b as char]
    } else {
        seq!['%', hex_digit(b as nat / 16), hex_digit(b as nat % 16)]
    }
}

/// The percent-encoding of `bytes`, byte by byte.
pub open spec fn url_encoded(bytes: Seq<u8>) -> Seq<char>
    decreases bytes.len(),
{
    if bytes.len() == 0 {
        Seq::empty()
    } else {
        url_encoded(bytes.drop_last()) + url_byte(bytes.last())
    }
}

/// The value of a hexadecimal digit (0 for any other character).
pub open spec fn hex_value(c: char) -> nat {
    if '0' <= c <= '9' {
        (c as nat - 48) as nat
    } else if 'A' <= c <= 'F' {
        (c as nat - 55) as nat
    } else if 'a' <= c <= 'f' {
        (c as nat - 87) as nat
    } else {
        0
    }
}

/// How a query string value is decoded: `%XY` is the byte `0xXY`, `+` is a
/// space, and any other character stands for its own code.
pub open spec fn query_decode(s: Seq<char>) -> Seq<u8>
    decreases s.len(),
{
    if s.len() == 0 {
        Seq::empty()
    } else if s[0] == '%' && s.len() >= 3 {
        seq![(hex_value(s[1]) * 16 + hex_value(s[2])) as u8] + query_decode(s.skip(3))
    } else if s[0] == '+' {
        seq![32u8] + query_decode(s.skip(1))
    } else {
        seq![(s[0] as u32) as u8] + query_decode(s.skip(1))
    }
}

/// The characters that may stand in an encoded query value as they are:
/// ASCII letters and digits, `-`, `_`, `.`, and the `%` of an escape.
pub open spec fn is_query_safe(c: char) -> bool {
    ||| '0' <= c <= '9'
    ||| 'A' <= c <= 'Z'
    ||| 'a' <= c <= 'z'
    ||| c == '-' || c == '_' || c == '.' || c == '%'
}

proof fn lemma_url_encoded_prepend(b: u8, rest: Seq<u8>)
    ensures
        url_encoded(seq![b] + rest) == url_byte(b) + url_encoded(rest),
    decreases rest.len(),
{
    if rest.len() == 0 {
        assert(seq![b] + rest =~= seq![b]);
        assert(seq![b].drop_last() =~= Seq::<u8>::empty());
        assert(url_byte(b) + url_encoded(rest) =~= url_byte(b));
        assert(url_encoded(seq![b]) =~= url_encoded(Seq::<u8>::empty()) + url_byte(b));
    } else {
        let whole = seq![b] + rest;
        assert(whole.drop_last() =~= seq![b] + rest.drop_last());
        assert(whole.last() == rest.last());
        lemma_url_encoded_prepend(b, rest.drop_last());
        assert(url_encoded(whole) =~= url_byte(b) + url_encoded(rest.drop_last()) + url_byte(rest.last()));
    }
}

proof fn lemma_hex_digit_value(d: nat)
    requires
        d < 16,
    ensures
        hex_value(hex_digit(d)) == d,
        hex_digit(d) != '%' && hex_digit(d) != '+',
        is_query_safe(hex_digit(d)),
{
}

proof fn lemma_decode_url_byte(b: u8, t: Seq<char>)
    ensures
        query_decode(url_byte(b) + t) == seq![b] + query_decode(t),
{
    let u = url_byte(b) + t;
    if kept_in_url(b) {
        assert(u[0] == b as char);
        assert((b as char) as u32 == b);
        assert(u.skip(1) =~= t);
    } else {
        lemma_hex_digit_value(b as nat / 16);
        lemma_hex_digit_value(b as nat % 16);
        assert(u[0] == '%' && u[1] == hex_digit(b as nat / 16) && u[2] == hex_digit(b as nat % 16));
        assert(u.skip(3) =~= t);
        assert((b as nat / 16) * 16 + b as nat % 16 == b);
    }
}

/// Query-decoding the encoded title gives back the title's bytes: no byte is
/// lost or read as another one (a `+`, for instance, would read as a space).
pub proof fn lemma_url_encoded_round_trip(bytes: Seq<u8>)
    ensures
        query_decode(url_encoded(bytes)) == bytes,
    decreases bytes.len(),
{
    if bytes.len() > 0 {
        let rest = bytes.drop_first();
        assert(bytes =~= seq![bytes[0]] + rest);
        lemma_url_encoded_prepend(bytes[0], rest);
        lemma_decode_url_byte(bytes[0], url_encoded(rest));
        lemma_url_encoded_round_trip(rest);
    }
}

/// An encoded title holds only ASCII letters, digits, `-`, `_`, `.` and `%`:
/// every other byte (a space or `+` among them) is written as `%XX`.
pub proof fn lemma_url_encoded_safe(bytes: Seq<u8>)
    ensures
        forall|i: int| 0 <= i < url_encoded(bytes).len() ==> is_query_safe(#[trigger] url_encoded(bytes)[i]),
    decreases bytes.len(),
{
    if bytes.len() > 0 {
        lemma_url_encoded_safe(bytes.drop_last());
        let b = bytes.last();
        if !kept_in_url(b) {
            lemma_hex_digit_value(b as nat / 16);
            lemma_hex_digit_value(b as nat % 16);
        }
        let prev = url_encoded(bytes.drop_last());
        let e = url_encoded(bytes);
        assert forall|i: int| 0 <= i < e.len() implies is_query_safe(#[trigger] e[i]) by {
            if i < prev.len() {
                assert(e[i] == prev[i]);
            } else {
                assert(e[i] == url_byte(b)[i - prev.len()]);
            }
        }
    }
}

fn hex_char(d: u8) -> (c: char)
    requires
        d < 16,
    ensures
        c == hex_digit(d as nat),
{
    if d < 10 {
        (48 + d) as char
    } else {
        (55 + d) as char
    }
}

/// Percent-encodes the UTF-8 bytes of `title` for the metadata URL.
pub fn url_encode(title: &str) -> (r: String)
    ensures
        r@ == url_encoded(encode_utf8(title@)),
{
    let bytes = title.as_bytes();
    let mut r = String::new();
    let mut i: usize = 0;
    while i < bytes.len()
        invariant
            i <= bytes@.len(),
            r@ == url_encoded(bytes@.take(i as int)),
        decreases bytes@.len() - i,
    {
        let b = bytes[i];
        assert(bytes@.take(i + 1).drop_last() =~= bytes@.take(i as int));
        let ghost before = r@;
        if (48 <= b && b <= 57) || (65 <= b && b <= 90) || (97 <= b && b <= 122) || b == 45 || b == 95
            || b == 46 {
            push_char(&mut r, b as char);
        } else {
            push_char(&mut r, '%');
            push_char(&mut r, hex_char(b / 16));
            push_char(&mut r, hex_char(b % 16));
        }
        assert(r@ =~= before + url_byte(b));
        i = i + 1;
    }
    assert(bytes@.take(bytes@.len() as int) =~= bytes@);
    r
}

/// The request that sets the "now playing" title of the mount point.
pub open spec fn metadata_request_text(c: ConfigSpec, title: Seq<char>) -> Seq<char> {
    "GET "@ + "/admin/metadata?mount="@ + c.mount + "&mode=updinfo&song="@ + url_encoded(
        encode_utf8(title),
    ) + " HTTP/1.0\r\nAuthorization: Basic "@ + credentials_text(c.password) + "\r\nHost: "@ + c.host
        + "\r\nUser-Agent: RustStreamer/1.0\r\n\r\n"@
}

/// The request that sets the "now playing" title of the mount point.
pub fn metadata_request(cfg: &Config, title: &str) -> (r: String)
    ensures
        r@ == metadata_request_text(cfg@, title@),
{
    let encoded = url_encode(title);
    let credentials = source_credentials(cfg.password.as_str());
    let mut r = "GET ".to_owned();
    r.append("/admin/metadata?mount=");
    r.append(cfg.mount.as_str());
    r.append("&mode=updinfo&song=");
    r.append(encoded.as_str());
    r.append(" HTTP/1.0\r\nAuthorization: Basic ");
    r.append(credentials.as_str());
    r.append("\r\nHost: ");
    r.append(cfg.host.as_str());
    r.append("\r\nUser-Agent: RustStreamer/1.0\r\n\r\n");
    r
}

// ---------------------------------------------------------------
// Where the password goes
// ---------------------------------------------------------------

/// Two configurations that differ at most in the password.
pub open spec fn same_but_password(c1: ConfigSpec, c2: ConfigSpec) -> bool {
    &&& c1.host == c2.host
    &&& c1.port == c2.port
    &&& c1.mount == c2.mount
    &&& c1.name == c2.name
    &&& c1.bitrate == c2.bitrate
    &&& c1.folder_truck_e == c2.folder_truck_e
    &&& c1.folder_truck_1 == c2.folder_truck_1
    &&& c1.folder_truck_3 == c2.folder_truck_3
    &&& c1.folder_options == c2.folder_options
}

/// The password leaves only as the Base64 credentials: the requests of two
/// configurations that differ only in the password are the same text around
/// their credentials.
pub proof fn lemma_password_only_in_credentials(c1: ConfigSpec, c2: ConfigSpec, title: Seq<char>)
    requires
        same_but_password(c1, c2),
    ensures
        exists|before: Seq<char>, after: Seq<char>|
            source_request_text(c1) == before + credentials_text(c1.password) + after
            && source_request_text(c2) == before + credentials_text(c2.password) + after,
        exists|before: Seq<char>, after: Seq<char>|
            metadata_request_text(c1, title) == before + credentials_text(c1.password) + after
            && metadata_request_text(c2, title) == before + credentials_text(c2.password) + after,
{
    let before = "PUT "@ + c1.mount + " HTTP/1.0\r\nAuthorization: Basic "@;
    let after = "\r\nHost: "@ + c1.host
        + "\r\nUser-Agent: RustStreamer/1.0\r\nAccept: */*\r\nTransfer-Encoding: chunked\r\nContent-Type: audio/mpeg\r\nIce-Name: "@
        + c1.name + "\r\nIce-BitRate: "@ + decimal(c1.bitrate as nat) + "\r\nIce-Public: 0\r\n\r\n"@;
    assert(source_request_text(c1) =~= before + credentials_text(c1.password) + after);
    assert(source_request_text(c2) =~= before + credentials_text(c2.password) + after);
    let mbefore = "GET "@ + "/admin/metadata?mount="@ + c1.mount + "&mode=updinfo&song="@ + url_encoded(
        encode_utf8(title),
    ) + " HTTP/1.0\r\nAuthorization: Basic "@;
    let mafter = "\r\nHost: "@ + c1.host + "\r\nUser-Agent: RustStreamer/1.0\r\n\r\n"@;
    assert(metadata_request_text(c1, title) =~= mbefore + credentials_text(c1.password) + mafter);
    assert(metadata_request_text(c2, title) =~= mbefore + credentials_text(c2.password) + mafter);
}

// ---------------------------------------------------------------
// The server's answer
// ---------------------------------------------------------------

/// The blank line that ends the answer's header: CR LF CR LF.
pub open spec fn header_end() -> Seq<u8> {
    seq![13u8, 10u8, 13u8, 10u8]
}

/// The status text of an accepted source: `200 OK`.
pub open spec fn accepted_status() -> Seq<u8> {
    seq![50u8, 48u8, 48u8, 32u8, 79u8, 75u8]
}

/// Whether `pattern` occurs in `s` at position `k`.
pub open spec fn occurs_at(s: Seq<u8>, pattern: Seq<u8>, k: int) -> bool {
    0 <= k && k + pattern.len() <= s.len() && s.subrange(k, k + pattern.len()) == pattern
}

/// Whether the answer read so far ends with its header's blank line.
///
/// Each byte of the answer stands for the character of the same code, so a
/// test on ASCII text is a test on the bytes.
pub fn header_complete(answer: &[u8]) -> (r: bool)
    ensures
        r == (answer@.len() >= 4 && occurs_at(answer@, header_end(), answer@.len() - 4)),
{
    let n = answer.len();
    if n < 4 {
        return false;
    }
    let r = answer[n - 4] == 13 && answer[n - 3] == 10 && answer[n - 2] == 13 && answer[n - 1] == 10;
    assert(r == (answer@.subrange(n - 4, n as int) =~= header_end()));
    r
}

/// Whether the answer contains `200 OK`, the sign that the source was accepted.
pub fn answer_accepted(answer: &[u8]) -> (r: bool)
    ensures
        r == exists|k: int| occurs_at(answer@, accepted_status(), k),
{
    let n = answer.len();
    if n < 6 {
        return false;
    }
    let mut k: usize = 0;
    while k <= n - 6
        invariant
            n == answer@.len() >= 6,
            k <= n - 5,
            forall|j: int| 0 <= j < k ==> !occurs_at(answer@, accepted_status(), j),
        decreases n - k,
    {
        if answer[k] == 50 && answer[k + 1] == 48 && answer[k + 2] == 48 && answer[k + 3] == 32
            && answer[k + 4] == 79 && answer[k + 5] == 75 {
            assert(occurs_at(answer@, accepted_status(), k as int)) by {
                assert(answer@.subrange(k as int, k + 6) =~= accepted_status());
            }
            return true;
        }
        assert(!occurs_at(answer@, accepted_status(), k as int)) by {
            if answer@.subrange(k as int, k + 6) == accepted_status() {
                assert(answer@.subrange(k as int, k + 6)[0] == answer@[k as int]);
                assert(answer@.subrange(k as int, k + 6)[1] == answer@[k + 1]);
                assert(answer@.subrange(k as int, k + 6)[2] == answer@[k + 2]);
                assert(answer@.subrange(k as int, k + 6)[3] == answer@[k + 3]);
                assert(answer@.subrange(k as int, k + 6)[4] == answer@[k + 4]);
                assert(answer@.subrange(k as int, k + 6)[5] == answer@[k + 5]);
            }
        }
        k = k + 1;
    }
    false
}

} // verus!
