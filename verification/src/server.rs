use vstd::prelude::*;
use vstd::string::StringExecFns;
use crate::text::{decimal, decimal_string, push_char};

verus! {

/// A TCP server that listens on a fixed address.
pub struct Server {
    addr: String,
}

impl Server {
    /// The address the server was created with.
    pub closed spec fn spec_addr(&self) -> Seq<char> {
        self.addr@
    }

    /// Creates a server that will listen on `addr`.
    pub fn new(addr: String) -> (s: Self)
        ensures
            s.spec_addr() == addr@,
    {
        Self { addr }
    }

    /// The address this server listens on.
    pub fn addr(&self) -> (a: &str)
        ensures
            a@ == self.spec_addr(),
    {
        self.addr.as_str()
    }

    /// The line announced when the server starts.
    pub fn listening_message(&self) -> (r: String)
        ensures
            r@ == "Listening on "@ + self.spec_addr(),
    {
        let mut r = "Listening on ".to_owned();
        r.append(self.addr.as_str());
        r
    }
}

/// The line reported for an accepted connection: the first byte of `a`.
pub fn array_report(a: &[u8]) -> (r: String)
    requires
        a@.len() > 0,
    ensures
        r@ == "array: "@ + decimal(a@[0] as nat),
{
    let mut r = "array: ".to_owned();
    let first = decimal_string(a[0] as u64);
    r.append(first.as_str());
    r
}

// ---------------------------------------------------------------
// Serving the files of the public folder
// ---------------------------------------------------------------

/// A space, carriage return or line feed: the bytes that end a request target.
pub open spec fn ends_target(b: u8) -> bool {
    b == 32 || b == 13 || b == 10
}

/// The position of the first byte of `s` that ends a request target.
pub open spec fn target_end(s: Seq<u8>) -> Option<int> {
    if exists|k: int| 0 <= k < s.len() && ends_target(s[k]) && forall|j: int| 0 <= j < k ==> !ends_target(s[j]) {
        Some(choose|k: int| 0 <= k < s.len() && ends_target(s[k]) && forall|j: int| 0 <= j < k ==> !ends_target(s[j]))
    } else {
        None
    }
}

/// The target of a `GET` request: the text between `GET ` and the next
/// space, where that space comes before the end of the request line.
pub open spec fn request_target_of(request: Seq<u8>) -> Option<Seq<u8>> {
    if request.len() >= 4 && request.take(4) == seq![71u8, 69u8, 84u8, 32u8] {
        let rest = request.skip(4);
        match target_end(rest) {
            Some(k) => if rest[k] == 32 { Some(rest.take(k)) } else { None },
            None => None,
        }
    } else {
        None
    }
}

/// The target of the `GET` request `request`, if it is one.
pub fn request_target(request: &[u8]) -> (r: Option<Vec<u8>>)
    ensures
        match r {
            Some(t) => request_target_of(request@) == Some(t@),
            None => request_target_of(request@) is None,
        },
{
    let n = request.len();
    if n < 4 || !(request[0] == 71 && request[1] == 69 && request[2] == 84 && request[3] == 32) {
        proof {
            if n >= 4 {
                assert(request@.take(4)[0] == request@[0] && request@.take(4)[1] == request@[1]);
                assert(request@.take(4)[2] == request@[2] && request@.take(4)[3] == request@[3]);
            }
        }
        return None;
    }
    assert(request@.take(4) =~= seq![71u8, 69u8, 84u8, 32u8]);
    let ghost rest = request@.skip(4);
    let mut k: usize = 4;
    while k < n && !(request[k] == 32 || request[k] == 13 || request[k] == 10)
        invariant
            4 <= k <= n == request@.len(),
            rest == request@.skip(4),
            forall|j: int| 4 <= j < k ==> !ends_target(request@[j]),
        decreases n - k,
    {
        k = k + 1;
    }
    if k == n {
        assert(target_end(rest) is None) by {
            assert forall|x: int| 0 <= x < rest.len() implies !ends_target(rest[x]) by {
                assert(rest[x] == request@[x + 4]);
            }
        }
        return None;
    }
    let ghost kk = (k - 4) as int;
    assert(rest[kk] == request@[k as int]);
    assert(forall|j: int| 0 <= j < kk ==> rest[j] == request@[j + 4]);
    assert(target_end(rest) == Some(kk)) by {
        let c = choose|x: int| 0 <= x < rest.len() && ends_target(rest[x]) && forall|j: int| 0 <= j < x ==> !ends_target(rest[j]);
        assert(!(c < kk));
        assert(!(kk < c));
    }
    if request[k] != 32 {
        return None;
    }
    let mut t: Vec<u8> = Vec::new();
    let mut i: usize = 4;
    while i < k
        invariant
            4 <= i <= k < n == request@.len(),
            t@ =~= request@.subrange(4, i as int),
        decreases k - i,
    {
        t.push(request[i]);
        i = i + 1;
    }
    assert(rest.take(kk) =~= request@.subrange(4, k as int));
    Some(t)
}

/// A target that names a file inside the public folder: it starts with `/`,
/// holds only visible ASCII characters, and never `..`.
pub open spec fn safe_target(t: Seq<u8>) -> bool {
    &&& t.len() > 0
    &&& t[0] == 47
    &&& forall|i: int| 0 <= i < t.len() ==> 0x21 <= #[trigger] t[i] <= 0x7e
    &&& forall|i: int| 0 <= i < t.len() - 1 ==> !(#[trigger] t[i] == 46 && t[i + 1] == 46)
}

/// The file that a target names under the public folder `public`: the
/// folder's `index.html` for `/`, nothing for an unsafe target.
pub open spec fn public_file_of(public: Seq<char>, t: Seq<u8>) -> Option<Seq<char>> {
    if !safe_target(t) {
        None
    } else if t == seq![47u8] {
        Some(public + "/index.html"@)
    } else {
        Some(public + t.map_values(|b: u8| b as char))
    }
}

/// The path of the file that `target` names under `public_path`.
pub fn public_file(public_path: &str, target: &[u8]) -> (r: Option<String>)
    ensures
        match r {
            Some(p) => public_file_of(public_path@, target@) == Some(p@),
            None => public_file_of(public_path@, target@) is None,
        },
{
    let n = target.len();
    if n == 0 || target[0] != 47 {
        return None;
    }
    let mut i: usize = 0;
    while i < n
        invariant
            i <= n == target@.len(),
            forall|j: int| 0 <= j < i ==> 0x21 <= #[trigger] target@[j] <= 0x7e,
            forall|j: int| 0 <= j < i && j < n - 1 ==> !(#[trigger] target@[j] == 46 && target@[j + 1] == 46),
        decreases n - i,
    {
        let b = target[i];
        if b < 0x21 || b > 0x7e {
            assert(!(0x21 <= target@[i as int] <= 0x7e));
            return None;
        }
        if b == 46 && i + 1 < n && target[i + 1] == 46 {
            assert(target@[i as int] == 46 && target@[i + 1] == 46);
            return None;
        }
        i = i + 1;
    }
    assert(safe_target(target@));
    let mut p = public_path.to_owned();
    if n == 1 {
        assert(target@ =~= seq![47u8]);
        p.append("/index.html");
        return Some(p);
    }
    assert(target@ != seq![47u8]);
    let ghost base = p@;
    let mut j: usize = 0;
    while j < n
        invariant
            j <= n == target@.len(),
            p@ =~= base + target@.take(j as int).map_values(|b: u8| b as char),
        decreases n - j,
    {
        push_char(&mut p, target[j] as char);
        assert(target@.take(j + 1).map_values(|b: u8| b as char) =~= target@.take(j as int).map_values(
            |b: u8| b as char,
        ).push(target@[j as int] as char));
        j = j + 1;
    }
    assert(target@.take(n as int) =~= target@);
    Some(p)
}

/// Whether `s` ends with `suffix`.
pub open spec fn ends_with(s: Seq<char>, suffix: Seq<char>) -> bool {
    suffix.len() <= s.len() && s.skip(s.len() - suffix.len()) == suffix
}

fn has_suffix(s: &[char], suffix: &str) -> (r: bool)
    ensures
        r == ends_with(s@, suffix@),
{
    let x = crate::text::chars_of(suffix);
    if x.len() > s.len() {
        return false;
    }
    let off = s.len() - x.len();
    let mut i: usize = 0;
    while i < x.len()
        invariant
            off + x@.len() == s@.len(),
            s@.len() == s.len(),
            x@.len() == x.len(),
            i <= x@.len(),
            x@ == suffix@,
            forall|j: int| 0 <= j < i ==> s@[off + j] == x@[j],
        decreases x@.len() - i,
    {
        if s[off + i] != x[i] {
            assert(s@.skip(off as int)[i as int] != x@[i as int]);
            return false;
        }
        i = i + 1;
    }
    assert(s@.skip(off as int) =~= x@);
    true
}

/// The media type of a served file, by its name: HTML, CSS, JavaScript, or
/// plain bytes.
pub open spec fn content_type_of(path: Seq<char>) -> Seq<char> {
    if ends_with(path, ".html"@) || ends_with(path, ".htm"@) {
        "text/html"@
    } else if ends_with(path, ".css"@) {
        "text/css"@
    } else if ends_with(path, ".js"@) {
        "application/javascript"@
    } else {
        "application/octet-stream"@
    }
}

/// The media type of the file at `path`.
pub fn content_type(path: &str) -> (r: String)
    ensures
        r@ == content_type_of(path@),
{
    let cs = crate::text::chars_of(path);
    let cs = cs.as_slice();
    if has_suffix(cs, ".html") || has_suffix(cs, ".htm") {
        "text/html".to_owned()
    } else if has_suffix(cs, ".css") {
        "text/css".to_owned()
    } else if has_suffix(cs, ".js") {
        "application/javascript".to_owned()
    } else {
        "application/octet-stream".to_owned()
    }
}

/// The head of a response that carries a file of `length` bytes.
pub fn ok_response_head(content_type: &str, length: usize) -> (r: String)
    ensures
        r@ == "HTTP/1.1 200 OK\r\nContent-Type: "@ + content_type@ + "\r\nContent-Length: "@
            + decimal(length as nat) + "\r\n\r\n"@,
{
    let len = decimal_string(length as u64);
    let mut r = "HTTP/1.1 200 OK\r\nContent-Type: ".to_owned();
    r.append(content_type);
    r.append("\r\nContent-Length: ");
    r.append(len.as_str());
    r.append("\r\n\r\n");
    r
}

/// The response for a request that names no servable file.
pub fn not_found_response() -> (r: String)
    ensures
        r@ == "HTTP/1.1 404 Not Found\r\nContent-Length: 0\r\n\r\n"@,
{
    "HTTP/1.1 404 Not Found\r\nContent-Length: 0\r\n\r\n".to_owned()
}

} // verus!
