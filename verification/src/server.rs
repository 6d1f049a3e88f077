//! Decisions of the local static server that serves the web front end:
//! routing, the path-traversal guard, the standalone marker that goes into
//! `index.html`, content types, the `X-Filename` header and the reply to a save.

use vstd::prelude::*;
use vstd::string::StringSliceAdditionalSpecFns;
use vstd::utf8::{decode_utf8, encode_utf8, valid_utf8};
use crate::text::{
    ascii_lower, ascii_lower_char, chars_of, first_at, lemma_first_at_unique, push_char, str_eq,
    string_from_chars,
};

verus! {

/// ASCII lower case of a byte.
pub open spec fn lower_byte(b: u8) -> u8 {
    if 65 <= b <= 90 {
        (b + 32) as u8
    } else {
        b
    }
}

/// `</head>`, matched without regard to ASCII case.
pub open spec fn head_end_at(b: Seq<u8>, p: int) -> bool {
    &&& 0 <= p
    &&& p + 7 <= b.len()
    &&& lower_byte(b[p]) == 60u8
    &&& lower_byte(b[p + 1]) == 47u8
    &&& lower_byte(b[p + 2]) == 104u8
    &&& lower_byte(b[p + 3]) == 101u8
    &&& lower_byte(b[p + 4]) == 97u8
    &&& lower_byte(b[p + 5]) == 100u8
    &&& lower_byte(b[p + 6]) == 62u8
}

pub open spec fn first_head_end(b: Seq<u8>, p: int) -> bool {
    &&& head_end_at(b, p)
    &&& forall|q: int| 0 <= q < p ==> !head_end_at(b, q)
}

fn lower(b: u8) -> (r: u8)
    ensures
        r == lower_byte(b),
{
    if 65 <= b && b <= 90 {
        b + 32
    } else {
        b
    }
}

fn head_end_here(b: &[u8], p: usize) -> (r: bool)
    requires
        p + 7 <= b.len(),
    ensures
        r == head_end_at(b@, p as int),
{
    lower(b[p]) == 60 && lower(b[p + 1]) == 47 && lower(b[p + 2]) == 104 && lower(b[p + 3]) == 101
        && lower(b[p + 4]) == 97 && lower(b[p + 5]) == 100 && lower(b[p + 6]) == 62
}

/// Where `</head>` starts (ASCII case-insensitive), if anywhere.
pub fn find_head_end(bytes: &[u8]) -> (r: Option<usize>)
    ensures
        r matches Some(p) ==> first_head_end(bytes@, p as int),
        r is None ==> forall|q: int| !head_end_at(bytes@, q),
{
    let n = bytes.len();
    if n < 7 {
        return None;
    }
    let mut p: usize = 0;
    while p <= n - 7
        invariant
            n == bytes@.len(),
            n >= 7,
            p <= n - 6,
            forall|q: int| 0 <= q < p ==> !head_end_at(bytes@, q),
        decreases n - p,
    {
        if head_end_here(bytes, p) {
            return Some(p);
        }
        p += 1;
    }
    None
}

/// The standalone-app marker script.
pub const MARKER: &'static str = "<script>window.__WBMAKER_STANDALONE__=true</script>";

pub open spec fn with_marker(page: Seq<u8>) -> Seq<u8> {
    if exists|p: int| first_head_end(page, p) {
        let p = choose|p: int| first_head_end(page, p);
        page.take(p) + MARKER.spec_bytes() + page.skip(p)
    } else {
        page
    }
}

proof fn lemma_first_head_end_unique(b: Seq<u8>, p: int)
    requires
        first_head_end(b, p),
    ensures
        with_marker(b) == b.take(p) + MARKER.spec_bytes() + b.skip(p),
{
    let q = choose|q: int| first_head_end(b, q);
    assert(first_head_end(b, q));
    if q < p {
        assert(head_end_at(b, q));
    } else if p < q {
        assert(head_end_at(b, p));
    }
}

/// Inserts the standalone marker right before `</head>`; a page without
/// `</head>` is left as it is.
pub fn inject_marker(page: &[u8]) -> (out: Vec<u8>)
    ensures
        out@ == with_marker(page@),
{
    let marker = MARKER.as_bytes();
    match find_head_end(page) {
        Some(pos) => {
            proof {
                lemma_first_head_end_unique(page@, pos as int);
            }
            let mut out: Vec<u8> = Vec::new();
            let mut i: usize = 0;
            while i < pos
                invariant
                    pos <= page@.len(),
                    i <= pos,
                    out@ == page@.take(i as int),
                decreases pos - i,
            {
                out.push(page[i]);
                i += 1;
                assert(out@ =~= page@.take(i as int));
            }
            let mut k: usize = 0;
            while k < marker.len()
                invariant
                    k <= marker@.len(),
                    out@ == page@.take(pos as int) + marker@.take(k as int),
                decreases marker@.len() - k,
            {
                out.push(marker[k]);
                k += 1;
                assert(out@ =~= page@.take(pos as int) + marker@.take(k as int));
            }
            assert(marker@.take(marker@.len() as int) =~= marker@);
            let mut j: usize = pos;
            while j < page.len()
                invariant
                    pos <= j <= page@.len(),
                    out@ == page@.take(pos as int) + marker@ + page@.subrange(pos as int, j as int),
                decreases page@.len() - j,
            {
                out.push(page[j]);
                j += 1;
                assert(out@ =~= page@.take(pos as int) + marker@ + page@.subrange(
                    pos as int,
                    j as int,
                ));
            }
            assert(page@.subrange(pos as int, page@.len() as int) =~= page@.skip(pos as int));
            out
        },
        None => {
            let mut out: Vec<u8> = Vec::new();
            let mut i: usize = 0;
            while i < page.len()
                invariant
                    i <= page@.len(),
                    out@ == page@.take(i as int),
                decreases page@.len() - i,
            {
                out.push(page[i]);
                i += 1;
                assert(out@ =~= page@.take(i as int));
            }
            assert(page@.take(page@.len() as int) =~= page@);
            out
        },
    }
}


/// The value of an ASCII hexadecimal digit (`0-9`, `a-f`, `A-F`).
pub open spec fn hex_value(b: u8) -> Option<u8> {
    if 48 <= b <= 57 {
        Some((b - 48) as u8)
    } else if 97 <= b <= 102 {
        Some((b - 87) as u8)
    } else if 65 <= b <= 70 {
        Some((b - 55) as u8)
    } else {
        None
    }
}

fn hex_digit(b: u8) -> (r: Option<u8>)
    ensures
        r == hex_value(b),
        r matches Some(v) ==> v < 16,
{
    if 48 <= b && b <= 57 {
        Some(b - 48)
    } else if 97 <= b && b <= 102 {
        Some(b - 87)
    } else if 65 <= b && b <= 70 {
        Some(b - 55)
    } else {
        None
    }
}

/// `%XY` becomes the byte `0xXY` when `X` and `Y` are hexadecimal digits;
/// every other byte is kept.
pub open spec fn pct_decode(b: Seq<u8>) -> Seq<u8>
    decreases b.len(),
{
    if b.len() == 0 {
        seq![]
    } else if b[0] == 37 && 2 < b.len() && hex_value(b[1]) is Some && hex_value(b[2]) is Some {
        seq![(hex_value(b[1])->0 * 16 + hex_value(b[2])->0) as u8] + pct_decode(b.skip(3))
    } else {
        seq![b[0]] + pct_decode(b.skip(1))
    }
}

/// Decodes `%XY` escapes in `bytes`.
pub fn percent_decode_bytes(bytes: &[u8]) -> (out: Vec<u8>)
    ensures
        out@ == pct_decode(bytes@),
{
    let n = bytes.len();
    let mut out: Vec<u8> = Vec::new();
    let mut i: usize = 0;
    assert(bytes@.skip(0) =~= bytes@);
    while i < n
        invariant
            n == bytes@.len(),
            i <= n,
            pct_decode(bytes@) == out@ + pct_decode(bytes@.skip(i as int)),
        decreases n - i,
    {
        let ghost rest = bytes@.skip(i as int);
        let ghost out0 = out@;
        assert(rest[0] == bytes@[i as int]);
        if bytes[i] == 37 && n - i > 2 {
            assert(rest[1] == bytes@[i + 1] && rest[2] == bytes@[i + 2]);
            let h1 = hex_digit(bytes[i + 1]);
            let h2 = hex_digit(bytes[i + 2]);
            match (h1, h2) {
                (Some(hi), Some(lo)) => {
                    assert(hi < 16 && lo < 16);
                    out.push(hi * 16 + lo);
                    assert(rest.skip(3) =~= bytes@.skip(i + 3));
                    assert(out@ =~= out0 + seq![(hi * 16 + lo) as u8]);
                    i += 3;
                    continue;
                },
                _ => {},
            }
        }
        out.push(bytes[i]);
        assert(rest.skip(1) =~= bytes@.skip(i + 1));
        assert(out@ =~= out0 + seq![bytes@[i as int]]);
        i += 1;
    }
    assert(bytes@.skip(n as int) =~= Seq::<u8>::empty());
    assert(out@ + Seq::<u8>::empty() =~= out@);
    out
}

/// The text `String::from_utf8_lossy` makes of `bytes`.
pub uninterp spec fn utf8_lossy(bytes: Seq<u8>) -> Seq<char>;

/// `String::from_utf8_lossy`: the text is named by `utf8_lossy`; valid UTF-8
/// is decoded as it is, and bytes that are not valid UTF-8 give a text holding
/// U+FFFD (where each replacement stands is left unstated).
#[verifier::external_body]
fn lossy_string(bytes: &[u8]) -> (s: String)
    ensures
        s@ == utf8_lossy(bytes@),
        valid_utf8(bytes@) ==> s@ == decode_utf8(bytes@),
        !valid_utf8(bytes@) ==> s@.contains('\u{FFFD}'),
{
    String::from_utf8_lossy(bytes).into_owned()
}

/// Minimal percent decoding of the `X-Filename` header (the front end sends
/// the name through `encodeURIComponent`).
pub fn percent_decode(s: &str) -> (r: String)
    ensures
        r@ == utf8_lossy(pct_decode(s.spec_bytes())),
        valid_utf8(pct_decode(s.spec_bytes())) ==> r@ == decode_utf8(pct_decode(s.spec_bytes())),
        !valid_utf8(pct_decode(s.spec_bytes())) ==> r@.contains('\u{FFFD}'),
{
    let bytes = percent_decode_bytes(s.as_bytes());
    lossy_string(bytes.as_slice())
}


/// The request methods the server tells apart.
#[derive(Clone, Copy, Debug, PartialEq, Eq, Structural)]
pub enum HttpMethod {
    Get,
    Post,
    Other,
}

/// What the server does with a request.
pub enum Route {
    /// `POST /api/save_png`: hand the body to the save callback.
    SavePng,
    /// Any method but `GET` elsewhere: 405.
    MethodNotAllowed,
    /// `GET`: serve the file under this URL path.
    Static(String),
}

/// The path part of a URL: everything before the first `?`.
pub open spec fn url_path(url: Seq<char>) -> Seq<char> {
    if exists|k: int| first_at(url, '?', k) {
        url.take(choose|k: int| first_at(url, '?', k))
    } else {
        url
    }
}

pub open spec fn route_is(r: Route, method: HttpMethod, url: Seq<char>) -> bool {
    let path = url_path(url);
    if method == HttpMethod::Post && path == "/api/save_png"@ {
        r is SavePng
    } else if method != HttpMethod::Get {
        r is MethodNotAllowed
    } else {
        r matches Route::Static(p) && p@ == path
    }
}

/// The path of `url` (before the first `?`).
pub fn url_path_of(url: &str) -> (p: String)
    ensures
        p@ == url_path(url@),
{
    let cs = chars_of(url);
    let mut k: usize = 0;
    while k < cs.len() && cs[k] != '?'
        invariant
            k <= cs@.len(),
            forall|j: int| 0 <= j < k ==> cs@[j] != '?',
        decreases cs@.len() - k,
    {
        k += 1;
    }
    if k < cs.len() {
        assert(first_at(url@, '?', k as int));
        proof {
            lemma_first_at_unique(url@, '?', k as int);
        }
    } else {
        assert forall|j: int| !first_at(url@, '?', j) by {
            if first_at(url@, '?', j) {
                assert(cs@[j] == '?');
            }
        }
        assert(cs@.subrange(0, k as int) =~= cs@);
    }
    assert(cs@.subrange(0, k as int) =~= cs@.take(k as int));
    string_from_chars(&cs, 0, k)
}

/// Routes a request.
pub fn route(method: HttpMethod, url: &str) -> (r: Route)
    ensures
        route_is(r, method, url@),
{
    let path = url_path_of(url);
    if method == HttpMethod::Post && str_eq(path.as_str(), "/api/save_png") {
        Route::SavePng
    } else if method != HttpMethod::Get {
        Route::MethodNotAllowed
    } else {
        Route::Static(path)
    }
}

/// A path with its leading `/`s removed.
pub open spec fn trim_slashes(p: Seq<char>) -> Seq<char>
    decreases p.len(),
{
    if p.len() > 0 && p[0] == '/' {
        trim_slashes(p.skip(1))
    } else {
        p
    }
}

/// The file a URL path names, relative to the front-end root.
pub open spec fn static_rel(path: Seq<char>) -> Seq<char> {
    if path == "/"@ || path.len() == 0 {
        "index.html"@
    } else {
        trim_slashes(path)
    }
}

/// A `/`-separated segment of `r` that is `..` starts at `i`.
pub open spec fn dotdot_at(r: Seq<char>, i: int) -> bool {
    &&& 0 <= i
    &&& i + 2 <= r.len()
    &&& r[i] == '.'
    &&& r[i + 1] == '.'
    &&& (i == 0 || r[i - 1] == '/')
    &&& (i + 2 == r.len() || r[i + 2] == '/')
}

/// A `..` segment or a backslash: the path would leave the root.
pub open spec fn escapes_root(r: Seq<char>) -> bool {
    (exists|i: int| dotdot_at(r, i)) || r.contains('\\')
}

fn dotdot_here(cs: &Vec<char>, i: usize) -> (b: bool)
    requires
        i < cs.len(),
    ensures
        b == dotdot_at(cs@, i as int),
{
    let n = cs.len();
    n - i >= 2 && cs[i] == '.' && cs[i + 1] == '.' && (i == 0 || cs[i - 1] == '/') && (n - i == 2
        || cs[i + 2] == '/')
}

fn escapes_root_chars(cs: &Vec<char>) -> (b: bool)
    ensures
        b == escapes_root(cs@),
{
    let mut i: usize = 0;
    while i < cs.len()
        invariant
            i <= cs@.len(),
            forall|j: int| 0 <= j < i ==> !dotdot_at(cs@, j) && cs@[j] != '\\',
        decreases cs@.len() - i,
    {
        if cs[i] == '\\' {
            assert(cs@.contains('\\'));
            return true;
        }
        if dotdot_here(cs, i) {
            return true;
        }
        i += 1;
    }
    assert forall|j: int| !dotdot_at(cs@, j) by {
        if dotdot_at(cs@, j) {
            assert(0 <= j < cs@.len());
        }
    }
    assert(!cs@.contains('\\')) by {
        if cs@.contains('\\') {
            let j = choose|j: int| 0 <= j < cs@.len() && cs@[j] == '\\';
        }
    }
    false
}

/// The file to serve for a `GET` of `path`, or `None` (403) when the path
/// would leave the root.
pub fn static_target(path: &str) -> (r: Option<String>)
    ensures
        r is None <==> escapes_root(static_rel(path@)),
        r matches Some(f) ==> f@ == static_rel(path@),
{
    let cs = if str_eq(path, "/") || path.is_empty() {
        chars_of("index.html")
    } else {
        let cs = chars_of(path);
        let mut k: usize = 0;
        assert(cs@.subrange(0, cs@.len() as int) =~= cs@);
        while k < cs.len() && cs[k] == '/'
            invariant
                k <= cs@.len(),
                trim_slashes(path@) == trim_slashes(cs@.subrange(k as int, cs@.len() as int)),
            decreases cs@.len() - k,
        {
            assert(cs@.subrange(k as int, cs@.len() as int).skip(1) =~= cs@.subrange(
                k + 1,
                cs@.len() as int,
            ));
            k += 1;
        }
        assert(cs@.subrange(0, cs@.len() as int) =~= cs@);
        let mut rel: Vec<char> = Vec::new();
        let mut j = k;
        while j < cs.len()
            invariant
                k <= j <= cs@.len(),
                rel@ == cs@.subrange(k as int, j as int),
            decreases cs@.len() - j,
        {
            rel.push(cs[j]);
            j += 1;
            assert(rel@ =~= cs@.subrange(k as int, j as int));
        }
        rel
    };
    assert(cs@ == static_rel(path@));
    assert(cs@.subrange(0, cs@.len() as int) =~= cs@);
    if escapes_root_chars(&cs) {
        None
    } else {
        Some(string_from_chars(&cs, 0, cs.len()))
    }
}


/// `k` is the index of the last `.` in `s`.
pub open spec fn last_dot(s: Seq<char>, k: int) -> bool {
    &&& 0 <= k < s.len()
    &&& s[k] == '.'
    &&& forall|j: int| k < j < s.len() ==> s[j] != '.'
}

/// What follows the last `.` (the whole name when there is none).
pub open spec fn extension(name: Seq<char>) -> Seq<char> {
    if exists|k: int| last_dot(name, k) {
        name.skip((choose|k: int| last_dot(name, k)) + 1)
    } else {
        name
    }
}

pub open spec fn lower_text(s: Seq<char>) -> Seq<char> {
    s.map_values(|c: char| ascii_lower(c))
}

/// The content type of a lower-case extension.
pub open spec fn mime_for(ext: Seq<char>) -> Seq<char> {
    if ext == "html"@ {
        "text/html; charset=utf-8"@
    } else if ext == "css"@ {
        "text/css; charset=utf-8"@
    } else if ext == "js"@ || ext == "mjs"@ {
        "text/javascript; charset=utf-8"@
    } else if ext == "json"@ {
        "application/json"@
    } else if ext == "wasm"@ {
        "application/wasm"@
    } else if ext == "png"@ {
        "image/png"@
    } else if ext == "jpg"@ || ext == "jpeg"@ {
        "image/jpeg"@
    } else if ext == "webp"@ {
        "image/webp"@
    } else if ext == "svg"@ {
        "image/svg+xml"@
    } else if ext == "ico"@ {
        "image/x-icon"@
    } else if ext == "otf"@ {
        "font/otf"@
    } else if ext == "ttf"@ {
        "font/ttf"@
    } else if ext == "ttc"@ {
        "font/collection"@
    } else if ext == "map"@ {
        "application/json"@
    } else {
        "application/octet-stream"@
    }
}

fn mime_for_ext(e: &str) -> (r: &'static str)
    ensures
        r@ == mime_for(e@),
{
    if str_eq(e, "html") {
        "text/html; charset=utf-8"
    } else if str_eq(e, "css") {
        "text/css; charset=utf-8"
    } else if str_eq(e, "js") || str_eq(e, "mjs") {
        "text/javascript; charset=utf-8"
    } else if str_eq(e, "json") {
        "application/json"
    } else if str_eq(e, "wasm") {
        "application/wasm"
    } else if str_eq(e, "png") {
        "image/png"
    } else if str_eq(e, "jpg") || str_eq(e, "jpeg") {
        "image/jpeg"
    } else if str_eq(e, "webp") {
        "image/webp"
    } else if str_eq(e, "svg") {
        "image/svg+xml"
    } else if str_eq(e, "ico") {
        "image/x-icon"
    } else if str_eq(e, "otf") {
        "font/otf"
    } else if str_eq(e, "ttf") {
        "font/ttf"
    } else if str_eq(e, "ttc") {
        "font/collection"
    } else if str_eq(e, "map") {
        "application/json"
    } else {
        "application/octet-stream"
    }
}

/// The content type of a file, by its extension (ASCII case-insensitive).
pub fn mime_of(name: &str) -> (r: &'static str)
    ensures
        r@ == mime_for(lower_text(extension(name@))),
{
    let cs = chars_of(name);
    let n = cs.len();
    let mut k = n;
    while k > 0 && cs[k - 1] != '.'
        invariant
            k <= n == cs@.len(),
            forall|j: int| k <= j < n ==> cs@[j] != '.',
        decreases k,
    {
        k -= 1;
    }
    if k > 0 {
        assert(last_dot(name@, k - 1));
        assert((choose|q: int| last_dot(name@, q)) == k - 1) by {
            let q = choose|q: int| last_dot(name@, q);
            assert(last_dot(name@, q));
            if q < k - 1 {
                assert(cs@[k - 1] == '.');
            } else if q > k - 1 {
                assert(cs@[q] == '.');
            }
        }
    } else {
        assert forall|q: int| !last_dot(name@, q) by {
            if last_dot(name@, q) {
                assert(cs@[q] == '.');
            }
        }
        assert(cs@.skip(0) =~= cs@);
    }
    let ghost ext = cs@.skip(k as int);
    assert(ext == extension(name@));
    let mut lowered = String::new();
    let mut i = k;
    while i < n
        invariant
            k <= i <= n == cs@.len(),
            ext == cs@.skip(k as int),
            lowered@ == lower_text(cs@.subrange(k as int, i as int)),
        decreases n - i,
    {
        push_char(&mut lowered, ascii_lower_char(cs[i]));
        i += 1;
        assert(lowered@ =~= lower_text(cs@.subrange(k as int, i as int)));
    }
    assert(cs@.subrange(k as int, n as int) =~= ext);
    mime_for_ext(lowered.as_str())
}

/// How a save request ended.
pub enum SaveReply {
    /// Saved at this path (200, `{"ok":true,"path":..}`).
    Saved(String),
    /// The user cancelled the dialog (200, `{"ok":false,"cancelled":true}`).
    Cancelled,
    /// Saving failed with this message (500, `{"ok":false,"error":..}`).
    Failed(String),
}

impl SaveReply {
    /// The HTTP status of the reply.
    pub fn status(&self) -> (s: u16)
        ensures
            s == (if self is Failed {
                500u16
            } else {
                200u16
            }),
    {
        match self {
            SaveReply::Failed(_) => 500,
            _ => 200,
        }
    }
}

/// The reply to a save callback's result; the error `cancelled` means the
/// user cancelled.
pub fn save_reply(result: Result<String, String>) -> (r: SaveReply)
    ensures
        result matches Ok(p) ==> (r matches SaveReply::Saved(q) && q@ == p@),
        result matches Err(e) ==> (e@ == "cancelled"@ ==> r is Cancelled),
        result matches Err(e) ==> (e@ != "cancelled"@ ==> (r matches SaveReply::Failed(m) && m@
            == e@)),
{
    match result {
        Ok(p) => SaveReply::Saved(p),
        Err(e) => {
            if str_eq(e.as_str(), "cancelled") {
                SaveReply::Cancelled
            } else {
                SaveReply::Failed(e)
            }
        },
    }
}


proof fn lemma_trim_slashes_head(p: Seq<char>)
    ensures
        trim_slashes(p).len() == 0 || trim_slashes(p)[0] != '/',
    decreases p.len(),
{
    if p.len() > 0 && p[0] == '/' {
        lemma_trim_slashes_head(p.skip(1));
    }
}

/// The file a `GET` names is always relative to the front-end root: it never
/// starts with `/` (joined onto the root, an absolute path would replace it).
pub proof fn law_static_file_is_relative(path: Seq<char>)
    ensures
        static_rel(path).len() > 0 ==> static_rel(path)[0] != '/',
{
    reveal_strlit("index.html");
    lemma_trim_slashes_head(path);
}

/// Bytes without a `%` come out of the decoding unchanged.
pub proof fn law_percent_decode_keeps_plain_bytes(b: Seq<u8>)
    requires
        forall|i: int| 0 <= i < b.len() ==> b[i] != 37u8,
    ensures
        pct_decode(b) == b,
    decreases b.len(),
{
    if b.len() > 0 {
        assert forall|i: int| 0 <= i < b.skip(1).len() implies b.skip(1)[i] != 37u8 by {
            assert(b.skip(1)[i] == b[i + 1]);
        }
        law_percent_decode_keeps_plain_bytes(b.skip(1));
        assert(seq![b[0]] + b.skip(1) =~= b);
    }
}


/// An upper-case hexadecimal digit of a value below 16.
pub open spec fn hex_digit_byte(v: int) -> u8 {
    if v < 10 {
        (48 + v) as u8
    } else {
        (55 + v) as u8
    }
}

/// Percent-encoding of `b` where `escape` picks the bytes written as `%XY`;
/// the others are written as they are.
pub open spec fn pct_encode(b: Seq<u8>, escape: Seq<bool>) -> Seq<u8>
    decreases b.len(),
{
    if b.len() == 0 {
        seq![]
    } else if escape[0] {
        seq![37u8, hex_digit_byte((b[0] / 16) as int), hex_digit_byte((b[0] % 16) as int)] + pct_encode(
            b.skip(1),
            escape.skip(1),
        )
    } else {
        seq![b[0]] + pct_encode(b.skip(1), escape.skip(1))
    }
}

/// Decoding undoes percent-encoding (as `encodeURIComponent` writes it): every
/// `%` of the plain bytes is escaped, and any other byte may be escaped or not.
pub proof fn law_percent_decode_undoes_encoding(b: Seq<u8>, escape: Seq<bool>)
    requires
        escape.len() == b.len(),
        forall|i: int| 0 <= i < b.len() && b[i] == 37u8 ==> escape[i],
    ensures
        pct_decode(pct_encode(b, escape)) == b,
    decreases b.len(),
{
    if b.len() > 0 {
        assert forall|i: int| 0 <= i < b.skip(1).len() && b.skip(1)[i] == 37u8 implies escape.skip(
            1,
        )[i] by {
            assert(b.skip(1)[i] == b[i + 1]);
        }
        law_percent_decode_undoes_encoding(b.skip(1), escape.skip(1));
        let e = pct_encode(b, escape);
        let rest = pct_encode(b.skip(1), escape.skip(1));
        if escape[0] {
            let hi = b[0] / 16;
            let lo = b[0] % 16;
            assert(hex_value(hex_digit_byte(hi as int)) == Some(hi));
            assert(hex_value(hex_digit_byte(lo as int)) == Some(lo));
            assert(e.skip(3) =~= rest);
            assert(e[0] == 37u8 && 2 < e.len());
            assert((hi * 16 + lo) as u8 == b[0]);
        } else {
            assert(e.skip(1) =~= rest);
            assert(e[0] == b[0]);
            assert(b[0] != 37u8);
        }
        assert(seq![b[0]] + b.skip(1) =~= b);
    }
}

/// Decoding undoes percent-encoding at the level of text: when `encoded` is
/// the UTF-8 of `text` percent-encoded (every `%` escaped, any other byte
/// escaped or not), its decoded bytes are valid UTF-8 and spell `text` again,
/// so `percent_decode(encoded)` gives back `text`.
pub proof fn law_percent_decode_text_round_trip(text: Seq<char>, escape: Seq<bool>, encoded: Seq<char>)
    requires
        escape.len() == encode_utf8(text).len(),
        forall|i: int| 0 <= i < escape.len() && encode_utf8(text)[i] == 37u8 ==> escape[i],
        encode_utf8(encoded) == pct_encode(encode_utf8(text), escape),
    ensures
        valid_utf8(pct_decode(encode_utf8(encoded))),
        decode_utf8(pct_decode(encode_utf8(encoded))) == text,
{
    law_percent_decode_undoes_encoding(encode_utf8(text), escape);
    vstd::utf8::encode_utf8_valid_utf8(text);
    vstd::utf8::encode_utf8_decode_utf8(text);
}


/// The content type served for a file name (what `mime_of` returns).
pub open spec fn content_type(name: Seq<char>) -> Seq<char> {
    mime_for(lower_text(extension(name)))
}

/// `e` spells `t` (lower-case ASCII letters) in any mix of upper and lower
/// case.
pub open spec fn case_blind(e: Seq<char>, t: Seq<char>) -> bool {
    &&& e.len() == t.len()
    &&& forall|i: int|
        0 <= i < e.len() ==> e[i] == t[i] || (e[i] as int) + 32 == (#[trigger] t[i]) as int
}

proof fn lemma_case_blind_lower(e: Seq<char>, t: Seq<char>)
    requires
        forall|i: int| 0 <= i < t.len() ==> 'a' <= #[trigger] t[i] <= 'z',
    ensures
        case_blind(e, t) <==> lower_text(e) == t,
{
    if case_blind(e, t) {
        assert forall|i: int| 0 <= i < e.len() implies lower_text(e)[i] == t[i] by {
            let c = e[i];
            if e[i] != t[i] {
                assert('A' <= c <= 'Z');
                assert(((c as u8) + 32) as char == t[i]);
            }
        }
        assert(lower_text(e) =~= t);
    }
    if lower_text(e) == t {
        assert forall|i: int| 0 <= i < e.len() implies e[i] == t[i] || (e[i] as int) + 32
            == (#[trigger] t[i]) as int by {
            assert(lower_text(e)[i] == ascii_lower(e[i]));
        }
    }
}

/// The extension of `stem.ext` (with no `.` in `ext`) is `ext`: only the part
/// after the last dot counts.
proof fn lemma_extension_after_last_dot(stem: Seq<char>, ext: Seq<char>)
    requires
        forall|i: int| 0 <= i < ext.len() ==> ext[i] != '.',
    ensures
        extension(stem + seq!['.'] + ext) == ext,
{
    let name = stem + seq!['.'] + ext;
    let k = stem.len() as int;
    assert(last_dot(name, k)) by {
        assert forall|j: int| k < j < name.len() implies name[j] != '.' by {
            assert(name[j] == ext[j - k - 1]);
        }
    }
    let q = choose|q: int| last_dot(name, q);
    assert(last_dot(name, q));
    if q < k {
        assert(name[k] == '.');
    } else if q > k {
        assert(name[q] == ext[q - k - 1]);
    }
    assert(name.skip(k + 1) =~= ext);
}

/// The content-type table: a file whose extension (after its last dot) spells
/// one of the known extensions in any ASCII case is served with that
/// extension's type; every other file is `application/octet-stream`.
pub proof fn law_content_type_table(stem: Seq<char>, ext: Seq<char>)
    requires
        forall|i: int| 0 <= i < ext.len() ==> ext[i] != '.',
    ensures
        case_blind(ext, "html"@) ==> content_type(stem + seq!['.'] + ext) == "text/html; charset=utf-8"@,
        case_blind(ext, "css"@) ==> content_type(stem + seq!['.'] + ext) == "text/css; charset=utf-8"@,
        case_blind(ext, "js"@) ==> content_type(stem + seq!['.'] + ext) == "text/javascript; charset=utf-8"@,
        case_blind(ext, "mjs"@) ==> content_type(stem + seq!['.'] + ext) == "text/javascript; charset=utf-8"@,
        case_blind(ext, "json"@) ==> content_type(stem + seq!['.'] + ext) == "application/json"@,
        case_blind(ext, "wasm"@) ==> content_type(stem + seq!['.'] + ext) == "application/wasm"@,
        case_blind(ext, "png"@) ==> content_type(stem + seq!['.'] + ext) == "image/png"@,
        case_blind(ext, "jpg"@) ==> content_type(stem + seq!['.'] + ext) == "image/jpeg"@,
        case_blind(ext, "jpeg"@) ==> content_type(stem + seq!['.'] + ext) == "image/jpeg"@,
        case_blind(ext, "webp"@) ==> content_type(stem + seq!['.'] + ext) == "image/webp"@,
        case_blind(ext, "svg"@) ==> content_type(stem + seq!['.'] + ext) == "image/svg+xml"@,
        case_blind(ext, "ico"@) ==> content_type(stem + seq!['.'] + ext) == "image/x-icon"@,
        case_blind(ext, "otf"@) ==> content_type(stem + seq!['.'] + ext) == "font/otf"@,
        case_blind(ext, "ttf"@) ==> content_type(stem + seq!['.'] + ext) == "font/ttf"@,
        case_blind(ext, "ttc"@) ==> content_type(stem + seq!['.'] + ext) == "font/collection"@,
        case_blind(ext, "map"@) ==> content_type(stem + seq!['.'] + ext) == "application/json"@,
        (!case_blind(ext, "html"@) && !case_blind(ext, "css"@) && !case_blind(ext, "js"@) && !case_blind(ext, "mjs"@) && !case_blind(ext, "json"@) && !case_blind(ext, "wasm"@) && !case_blind(ext, "png"@) && !case_blind(ext, "jpg"@) && !case_blind(ext, "jpeg"@) && !case_blind(ext, "webp"@) && !case_blind(ext, "svg"@) && !case_blind(ext, "ico"@) && !case_blind(ext, "otf"@) && !case_blind(ext, "ttf"@) && !case_blind(ext, "ttc"@) && !case_blind(ext, "map"@)) ==> content_type(stem + seq!['.'] + ext) == "application/octet-stream"@,
{
    reveal_strlit("css");
    reveal_strlit("html");
    reveal_strlit("ico");
    reveal_strlit("jpeg");
    reveal_strlit("jpg");
    reveal_strlit("js");
    reveal_strlit("json");
    reveal_strlit("map");
    reveal_strlit("mjs");
    reveal_strlit("otf");
    reveal_strlit("png");
    reveal_strlit("svg");
    reveal_strlit("ttc");
    reveal_strlit("ttf");
    reveal_strlit("wasm");
    reveal_strlit("webp");
    reveal_strlit("application/json");
    reveal_strlit("application/octet-stream");
    reveal_strlit("application/wasm");
    reveal_strlit("font/collection");
    reveal_strlit("font/otf");
    reveal_strlit("font/ttf");
    reveal_strlit("image/jpeg");
    reveal_strlit("image/png");
    reveal_strlit("image/svg+xml");
    reveal_strlit("image/webp");
    reveal_strlit("image/x-icon");
    reveal_strlit("text/css; charset=utf-8");
    reveal_strlit("text/html; charset=utf-8");
    reveal_strlit("text/javascript; charset=utf-8");
    lemma_extension_after_last_dot(stem, ext);
    let name = stem + seq!['.'] + ext;
    assert(case_blind(ext, "html"@) ==> content_type(name) == "text/html; charset=utf-8"@) by {
        if case_blind(ext, "html"@) {
            lemma_case_blind_lower(ext, "html"@);
            assert(lower_text(ext) == "html"@);

        }
    }
    assert(case_blind(ext, "css"@) ==> content_type(name) == "text/css; charset=utf-8"@) by {
        if case_blind(ext, "css"@) {
            lemma_case_blind_lower(ext, "css"@);
            assert(lower_text(ext) == "css"@);
            assert("css"@.len() != "html"@.len());
        }
    }
    assert(case_blind(ext, "js"@) ==> content_type(name) == "text/javascript; charset=utf-8"@) by {
        if case_blind(ext, "js"@) {
            lemma_case_blind_lower(ext, "js"@);
            assert(lower_text(ext) == "js"@);
            assert("js"@.len() != "html"@.len());
            assert("js"@.len() != "css"@.len());
        }
    }
    assert(case_blind(ext, "mjs"@) ==> content_type(name) == "text/javascript; charset=utf-8"@) by {
        if case_blind(ext, "mjs"@) {
            lemma_case_blind_lower(ext, "mjs"@);
            assert(lower_text(ext) == "mjs"@);
            assert("mjs"@.len() != "html"@.len());
            assert("mjs"@[0] != "css"@[0]);
            assert("mjs"@.len() != "js"@.len());
        }
    }
    assert(case_blind(ext, "json"@) ==> content_type(name) == "application/json"@) by {
        if case_blind(ext, "json"@) {
            lemma_case_blind_lower(ext, "json"@);
            assert(lower_text(ext) == "json"@);
            assert("json"@[0] != "html"@[0]);
            assert("json"@.len() != "css"@.len());
            assert("json"@.len() != "js"@.len());
            assert("json"@.len() != "mjs"@.len());
        }
    }
    assert(case_blind(ext, "wasm"@) ==> content_type(name) == "application/wasm"@) by {
        if case_blind(ext, "wasm"@) {
            lemma_case_blind_lower(ext, "wasm"@);
            assert(lower_text(ext) == "wasm"@);
            assert("wasm"@[0] != "html"@[0]);
            assert("wasm"@.len() != "css"@.len());
            assert("wasm"@.len() != "js"@.len());
            assert("wasm"@.len() != "mjs"@.len());
            assert("wasm"@[0] != "json"@[0]);
        }
    }
    assert(case_blind(ext, "png"@) ==> content_type(name) == "image/png"@) by {
        if case_blind(ext, "png"@) {
            lemma_case_blind_lower(ext, "png"@);
            assert(lower_text(ext) == "png"@);
            assert("png"@.len() != "html"@.len());
            assert("png"@[0] != "css"@[0]);
            assert("png"@.len() != "js"@.len());
            assert("png"@[0] != "mjs"@[0]);
            assert("png"@.len() != "json"@.len());
            assert("png"@.len() != "wasm"@.len());
        }
    }
    assert(case_blind(ext, "jpg"@) ==> content_type(name) == "image/jpeg"@) by {
        if case_blind(ext, "jpg"@) {
            lemma_case_blind_lower(ext, "jpg"@);
            assert(lower_text(ext) == "jpg"@);
            assert("jpg"@.len() != "html"@.len());
            assert("jpg"@[0] != "css"@[0]);
            assert("jpg"@.len() != "js"@.len());
            assert("jpg"@[0] != "mjs"@[0]);
            assert("jpg"@.len() != "json"@.len());
            assert("jpg"@.len() != "wasm"@.len());
            assert("jpg"@[0] != "png"@[0]);
        }
    }
    assert(case_blind(ext, "jpeg"@) ==> content_type(name) == "image/jpeg"@) by {
        if case_blind(ext, "jpeg"@) {
            lemma_case_blind_lower(ext, "jpeg"@);
            assert(lower_text(ext) == "jpeg"@);
            assert("jpeg"@[0] != "html"@[0]);
            assert("jpeg"@.len() != "css"@.len());
            assert("jpeg"@.len() != "js"@.len());
            assert("jpeg"@.len() != "mjs"@.len());
            assert("jpeg"@[1] != "json"@[1]);
            assert("jpeg"@[0] != "wasm"@[0]);
            assert("jpeg"@.len() != "png"@.len());
            assert("jpeg"@.len() != "jpg"@.len());
        }
    }
    assert(case_blind(ext, "webp"@) ==> content_type(name) == "image/webp"@) by {
        if case_blind(ext, "webp"@) {
            lemma_case_blind_lower(ext, "webp"@);
            assert(lower_text(ext) == "webp"@);
            assert("webp"@[0] != "html"@[0]);
            assert("webp"@.len() != "css"@.len());
            assert("webp"@.len() != "js"@.len());
            assert("webp"@.len() != "mjs"@.len());
            assert("webp"@[0] != "json"@[0]);
            assert("webp"@[1] != "wasm"@[1]);
            assert("webp"@.len() != "png"@.len());
            assert("webp"@.len() != "jpg"@.len());
            assert("webp"@[0] != "jpeg"@[0]);
        }
    }
    assert(case_blind(ext, "svg"@) ==> content_type(name) == "image/svg+xml"@) by {
        if case_blind(ext, "svg"@) {
            lemma_case_blind_lower(ext, "svg"@);
            assert(lower_text(ext) == "svg"@);
            assert("svg"@.len() != "html"@.len());
            assert("svg"@[0] != "css"@[0]);
            assert("svg"@.len() != "js"@.len());
            assert("svg"@[0] != "mjs"@[0]);
            assert("svg"@.len() != "json"@.len());
            assert("svg"@.len() != "wasm"@.len());
            assert("svg"@[0] != "png"@[0]);
            assert("svg"@[0] != "jpg"@[0]);
            assert("svg"@.len() != "jpeg"@.len());
            assert("svg"@.len() != "webp"@.len());
        }
    }
    assert(case_blind(ext, "ico"@) ==> content_type(name) == "image/x-icon"@) by {
        if case_blind(ext, "ico"@) {
            lemma_case_blind_lower(ext, "ico"@);
            assert(lower_text(ext) == "ico"@);
            assert("ico"@.len() != "html"@.len());
            assert("ico"@[0] != "css"@[0]);
            assert("ico"@.len() != "js"@.len());
            assert("ico"@[0] != "mjs"@[0]);
            assert("ico"@.len() != "json"@.len());
            assert("ico"@.len() != "wasm"@.len());
            assert("ico"@[0] != "png"@[0]);
            assert("ico"@[0] != "jpg"@[0]);
            assert("ico"@.len() != "jpeg"@.len());
            assert("ico"@.len() != "webp"@.len());
            assert("ico"@[0] != "svg"@[0]);
        }
    }
    assert(case_blind(ext, "otf"@) ==> content_type(name) == "font/otf"@) by {
        if case_blind(ext, "otf"@) {
            lemma_case_blind_lower(ext, "otf"@);
            assert(lower_text(ext) == "otf"@);
            assert("otf"@.len() != "html"@.len());
            assert("otf"@[0] != "css"@[0]);
            assert("otf"@.len() != "js"@.len());
            assert("otf"@[0] != "mjs"@[0]);
            assert("otf"@.len() != "json"@.len());
            assert("otf"@.len() != "wasm"@.len());
            assert("otf"@[0] != "png"@[0]);
            assert("otf"@[0] != "jpg"@[0]);
            assert("otf"@.len() != "jpeg"@.len());
            assert("otf"@.len() != "webp"@.len());
            assert("otf"@[0] != "svg"@[0]);
            assert("otf"@[0] != "ico"@[0]);
        }
    }
    assert(case_blind(ext, "ttf"@) ==> content_type(name) == "font/ttf"@) by {
        if case_blind(ext, "ttf"@) {
            lemma_case_blind_lower(ext, "ttf"@);
            assert(lower_text(ext) == "ttf"@);
            assert("ttf"@.len() != "html"@.len());
            assert("ttf"@[0] != "css"@[0]);
            assert("ttf"@.len() != "js"@.len());
            assert("ttf"@[0] != "mjs"@[0]);
            assert("ttf"@.len() != "json"@.len());
            assert("ttf"@.len() != "wasm"@.len());
            assert("ttf"@[0] != "png"@[0]);
            assert("ttf"@[0] != "jpg"@[0]);
            assert("ttf"@.len() != "jpeg"@.len());
            assert("ttf"@.len() != "webp"@.len());
            assert("ttf"@[0] != "svg"@[0]);
            assert("ttf"@[0] != "ico"@[0]);
            assert("ttf"@[0] != "otf"@[0]);
        }
    }
    assert(case_blind(ext, "ttc"@) ==> content_type(name) == "font/collection"@) by {
        if case_blind(ext, "ttc"@) {
            lemma_case_blind_lower(ext, "ttc"@);
            assert(lower_text(ext) == "ttc"@);
            assert("ttc"@.len() != "html"@.len());
            assert("ttc"@[0] != "css"@[0]);
            assert("ttc"@.len() != "js"@.len());
            assert("ttc"@[0] != "mjs"@[0]);
            assert("ttc"@.len() != "json"@.len());
            assert("ttc"@.len() != "wasm"@.len());
            assert("ttc"@[0] != "png"@[0]);
            assert("ttc"@[0] != "jpg"@[0]);
            assert("ttc"@.len() != "jpeg"@.len());
            assert("ttc"@.len() != "webp"@.len());
            assert("ttc"@[0] != "svg"@[0]);
            assert("ttc"@[0] != "ico"@[0]);
            assert("ttc"@[0] != "otf"@[0]);
            assert("ttc"@[2] != "ttf"@[2]);
        }
    }
    assert(case_blind(ext, "map"@) ==> content_type(name) == "application/json"@) by {
        if case_blind(ext, "map"@) {
            lemma_case_blind_lower(ext, "map"@);
            assert(lower_text(ext) == "map"@);
            assert("map"@.len() != "html"@.len());
            assert("map"@[0] != "css"@[0]);
            assert("map"@.len() != "js"@.len());
            assert("map"@[1] != "mjs"@[1]);
            assert("map"@.len() != "json"@.len());
            assert("map"@.len() != "wasm"@.len());
            assert("map"@[0] != "png"@[0]);
            assert("map"@[0] != "jpg"@[0]);
            assert("map"@.len() != "jpeg"@.len());
            assert("map"@.len() != "webp"@.len());
            assert("map"@[0] != "svg"@[0]);
            assert("map"@[0] != "ico"@[0]);
            assert("map"@[0] != "otf"@[0]);
            assert("map"@[0] != "ttf"@[0]);
            assert("map"@[0] != "ttc"@[0]);
        }
    }
    assert((!case_blind(ext, "html"@) && !case_blind(ext, "css"@) && !case_blind(ext, "js"@) && !case_blind(ext, "mjs"@) && !case_blind(ext, "json"@) && !case_blind(ext, "wasm"@) && !case_blind(ext, "png"@) && !case_blind(ext, "jpg"@) && !case_blind(ext, "jpeg"@) && !case_blind(ext, "webp"@) && !case_blind(ext, "svg"@) && !case_blind(ext, "ico"@) && !case_blind(ext, "otf"@) && !case_blind(ext, "ttf"@) && !case_blind(ext, "ttc"@) && !case_blind(ext, "map"@)) ==> content_type(name) == "application/octet-stream"@) by {
        lemma_case_blind_lower(ext, "html"@);
        lemma_case_blind_lower(ext, "css"@);
        lemma_case_blind_lower(ext, "js"@);
        lemma_case_blind_lower(ext, "mjs"@);
        lemma_case_blind_lower(ext, "json"@);
        lemma_case_blind_lower(ext, "wasm"@);
        lemma_case_blind_lower(ext, "png"@);
        lemma_case_blind_lower(ext, "jpg"@);
        lemma_case_blind_lower(ext, "jpeg"@);
        lemma_case_blind_lower(ext, "webp"@);
        lemma_case_blind_lower(ext, "svg"@);
        lemma_case_blind_lower(ext, "ico"@);
        lemma_case_blind_lower(ext, "otf"@);
        lemma_case_blind_lower(ext, "ttf"@);
        lemma_case_blind_lower(ext, "ttc"@);
        lemma_case_blind_lower(ext, "map"@);
    }
}


/// The bytes of `</head>`.
pub open spec fn head_close() -> Seq<u8> {
    seq![60u8, 47u8, 104u8, 101u8, 97u8, 100u8, 62u8]
}

/// The marker goes right before the first `</head>`: a page made of `a`
/// (holding no `</head>` in any case), `</head>` and `b` becomes `a`, the
/// marker, `</head>` and `b`.
pub proof fn law_marker_before_first_head_close(a: Seq<u8>, b: Seq<u8>)
    requires
        forall|q: int| !head_end_at(a, q),
    ensures
        with_marker(a + head_close() + b) == a + MARKER.spec_bytes() + head_close() + b,
{
    let page = a + head_close() + b;
    let n = a.len() as int;
    assert(head_end_at(page, n)) by {
        assert(page[n] == 60u8 && page[n + 1] == 47u8 && page[n + 2] == 104u8);
        assert(page[n + 3] == 101u8 && page[n + 4] == 97u8 && page[n + 5] == 100u8);
        assert(page[n + 6] == 62u8);
    }
    assert forall|q: int| 0 <= q < n implies !head_end_at(page, q) by {
        if q + 7 <= n {
            if head_end_at(page, q) {
                assert(page[q] == a[q] && page[q + 1] == a[q + 1] && page[q + 2] == a[q + 2]);
                assert(page[q + 3] == a[q + 3] && page[q + 4] == a[q + 4] && page[q + 5] == a[q + 5]);
                assert(page[q + 6] == a[q + 6]);
                assert(head_end_at(a, q));
            }
        } else {
            // the `<` that opens `</head>` would have to be one of the
            // pattern's later bytes
            assert(page[n] == 60u8);
        }
    }
    assert(first_head_end(page, n));
    lemma_first_head_end_unique(page, n);
    assert(page.take(n) =~= a);
    assert(page.skip(n) =~= head_close() + b);
    assert(a + MARKER.spec_bytes() + (head_close() + b) =~= a + MARKER.spec_bytes() + head_close() + b);
}

/// Routing looks only at the part of the URL before the first `?`: a `POST`
/// of `/api/save_png` saves, any other `POST` or other method is refused, and
/// a `GET` serves the path.
pub proof fn law_route_by_path(r: Route, method: HttpMethod, path: Seq<char>, query: Seq<char>)
    requires
        forall|i: int| 0 <= i < path.len() ==> path[i] != '?',
        route_is(r, method, path + seq!['?'] + query),
    ensures
        (method == HttpMethod::Post && path == "/api/save_png"@) ==> r is SavePng,
        (method == HttpMethod::Post && path != "/api/save_png"@) ==> r is MethodNotAllowed,
        method == HttpMethod::Other ==> r is MethodNotAllowed,
        method == HttpMethod::Get ==> (r matches Route::Static(p) && p@ == path),
{
    let url = path + seq!['?'] + query;
    assert(first_at(url, '?', path.len() as int));
    lemma_first_at_unique(url, '?', path.len() as int);
    assert(url.take(path.len() as int) =~= path);
}

/// Which URL paths are served and which refused: `/` (and the empty path)
/// is `index.html`; a path is served from the root with its leading `/`s cut;
/// a path with a backslash or a `..` segment is refused, and one with neither
/// a backslash nor any `.` is served.
pub proof fn law_static_paths(rest: Seq<char>, a: Seq<char>, b: Seq<char>)
    requires
        rest.len() > 0,
        rest[0] != '/',
    ensures
        static_rel("/"@) == "index.html"@,
        static_rel(seq![]) == "index.html"@,
        static_rel(seq!['/'] + rest) == rest,
        static_rel(seq!['/', '/'] + rest) == rest,
        (forall|i: int| 0 <= i < rest.len() ==> rest[i] != '.' && rest[i] != '\\') ==> !escapes_root(
            rest,
        ),
        rest.contains('\\') ==> escapes_root(rest),
        escapes_root(seq!['.', '.']),
        escapes_root(seq!['.', '.', '/'] + b),
        escapes_root(a + seq!['/', '.', '.']),
        escapes_root(a + seq!['/', '.', '.', '/'] + b),
{
    reveal_strlit("/");
    reveal_strlit("index.html");
    let p1 = seq!['/'] + rest;
    assert(p1 != "/"@) by {
        if p1 == "/"@ {
            assert(p1.len() == 1);
        }
    }
    assert(p1.skip(1) =~= rest);
    assert(trim_slashes(rest) == rest);
    assert(trim_slashes(p1) == trim_slashes(rest));
    let p2 = seq!['/', '/'] + rest;
    assert(p2 != "/"@) by {
        if p2 == "/"@ {
            assert(p2.len() == 1);
        }
    }
    assert(p2.skip(1) =~= p1);
    assert(trim_slashes(p2) == trim_slashes(p1));
    if forall|i: int| 0 <= i < rest.len() ==> rest[i] != '.' && rest[i] != '\\' {
        assert forall|i: int| !dotdot_at(rest, i) by {
            if dotdot_at(rest, i) {
                assert(rest[i] == '.');
            }
        }
        assert(!rest.contains('\\')) by {
            if rest.contains('\\') {
                let j = choose|j: int| 0 <= j < rest.len() && rest[j] == '\\';
                assert(rest[j] != '\\');
            }
        }
    }
    assert(dotdot_at(seq!['.', '.'], 0));
    assert(dotdot_at(seq!['.', '.', '/'] + b, 0));
    let c = a + seq!['/', '.', '.'];
    assert(dotdot_at(c, a.len() as int + 1));
    let d = a + seq!['/', '.', '.', '/'] + b;
    assert(dotdot_at(d, a.len() as int + 1));
}

/// The upper-case form of a lower-case hex letter byte (`a`-`f`); other
/// bytes as they are.
pub open spec fn upper_hex(b: u8) -> u8 {
    if 97 <= b <= 102 {
        (b - 32) as u8
    } else {
        b
    }
}

/// Hex digits of an escape are read in either case: `%xy` decodes exactly as
/// `%XY` does, for hex digits `x` and `y` (`0`-`9`, `a`-`f`, `A`-`F`).
pub proof fn law_percent_hex_case_blind(h: u8, l: u8, rest: Seq<u8>)
    requires
        (48 <= h <= 57) || (97 <= h <= 102) || (65 <= h <= 70),
        (48 <= l <= 57) || (97 <= l <= 102) || (65 <= l <= 70),
    ensures
        pct_decode(seq![37u8, h, l] + rest) == pct_decode(seq![37u8, upper_hex(h), upper_hex(l)] + rest),
{
    let hu = upper_hex(h);
    let lu = upper_hex(l);
    assert(hex_value(h) == hex_value(hu));
    assert(hex_value(l) == hex_value(lu));
    let x = seq![37u8, h, l] + rest;
    let y = seq![37u8, hu, lu] + rest;
    assert(x[0] == 37u8 && x[1] == h && x[2] == l && y[0] == 37u8 && y[1] == hu && y[2] == lu);
    assert(x.skip(3) =~= rest && y.skip(3) =~= rest);
    assert(hex_value(h) is Some && hex_value(l) is Some);
    let v = (hex_value(h)->0 * 16 + hex_value(l)->0) as u8;
    assert(pct_decode(x) == seq![v] + pct_decode(rest));
    assert(pct_decode(y) == seq![v] + pct_decode(rest));
}

} // verus!
