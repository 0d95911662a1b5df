//! The development server's decisions: which request goes where, how a
//! response is framed, the media type of a file, and the live-reload script
//! put into pages.
use vstd::prelude::*;
use crate::text::{chars_of, push_all, push_str, string_of};

verus! {

// ---------------------------------------------------------------------------
// bytes as text
/// What `String::from_utf8_lossy` makes of some bytes.
pub uninterp spec fn utf8_lossy(b: Seq<u8>) -> Seq<char>;

/// `String::from_utf8_lossy(b).into_owned()`: the bytes read as UTF-8, each
/// invalid sequence replaced by U+FFFD. The contract names the text, and
/// says, as its documentation does, that valid UTF-8 is read as it is.
#[verifier::external_body]
fn lossy_string(b: &[u8]) -> (r: String)
    ensures
        r@ == utf8_lossy(b@),
        vstd::utf8::valid_utf8(b@) ==> r@ == vstd::utf8::decode_utf8(b@),
{
    String::from_utf8_lossy(b).into_owned()
}

// ---------------------------------------------------------------------------
// percent-decoding
pub open spec fn hex_val(b: u8) -> Option<u8> {
    if 48 <= b <= 57 {
        Some((b - 48) as u8)
    } else if 97 <= b <= 102 {
        Some((b - 97 + 10) as u8)
    } else if 65 <= b <= 70 {
        Some((b - 65 + 10) as u8)
    } else {
        None
    }
}

/// `%XY` becomes the byte `XY`, `+` a space, from the `i`-th byte on.
pub open spec fn pct_go(b: Seq<u8>, i: int) -> Seq<u8>
    decreases b.len() - i,
{
    if i < 0 || i >= b.len() {
        Seq::empty()
    } else if b[i] == 37 && i + 2 < b.len() && hex_val(b[i + 1]) is Some && hex_val(
        b[i + 2],
    ) is Some {
        seq![
            (hex_val(b[i + 1])->Some_0 * 16 + hex_val(b[i + 2])->Some_0) as u8,
        ] + pct_go(b, i + 3)
    } else if b[i] == 43 {
        seq![32u8] + pct_go(b, i + 1)
    } else {
        seq![b[i]] + pct_go(b, i + 1)
    }
}

pub open spec fn percent_decode_of(s: Seq<char>) -> Seq<char> {
    utf8_lossy(pct_go(vstd::utf8::encode_utf8(s), 0))
}

fn hex_exec(b: u8) -> (r: Option<u8>)
    ensures
        r == hex_val(b),
{
    if 48 <= b && b <= 57 {
        Some(b - 48)
    } else if 97 <= b && b <= 102 {
        Some(b - 97 + 10)
    } else if 65 <= b && b <= 70 {
        Some(b - 65 + 10)
    } else {
        None
    }
}

/// Decodes `%XY` escapes and `+` in a request path.
pub fn percent_decode(s: &str) -> (r: String)
    ensures
        r@ == percent_decode_of(s@),
        vstd::utf8::valid_utf8(pct_go(vstd::utf8::encode_utf8(s@), 0)) ==> r@
            == vstd::utf8::decode_utf8(pct_go(vstd::utf8::encode_utf8(s@), 0)),
{
    let bytes = s.as_bytes();
    let ghost bs = bytes@;
    let n = bytes.len();
    let mut out: Vec<u8> = Vec::new();
    let mut i: usize = 0;
    while i < n
        invariant
            n == bs.len(),
            bs == bytes@,
            i <= n,
            pct_go(bs, 0) == out@ + pct_go(bs, i as int),
        decreases n - i,
    {
        let ghost before = out@;
        let ghost gi = i as int;
        let room = n - i > 2;
        let h1 = if room { hex_exec(bytes[i + 1]) } else { None };
        let h2 = if room { hex_exec(bytes[i + 2]) } else { None };
        let x: u8;
        if bytes[i] == 37 && room && h1.is_some() && h2.is_some() {
            let a = h1.unwrap();
            let c = h2.unwrap();
            x = a * 16 + c;
            i = i + 3;
        } else if bytes[i] == 43 {
            x = 32;
            i = i + 1;
        } else {
            x = bytes[i];
            i = i + 1;
        }
        out.push(x);
        assert(pct_go(bs, gi) == seq![x] + pct_go(bs, i as int));
        assert(before + pct_go(bs, gi) =~= out@ + pct_go(bs, i as int));
    }
    assert(out@ + pct_go(bs, n as int) =~= out@);
    lossy_string(&out)
}

// ---------------------------------------------------------------------------
// the live-reload script
pub open spec fn reload_script() -> Seq<char> {
    "<script>\n(function(){\n  var last = null;\n  var ws = null;\n  function connect(){\n    ws = new WebSocket('ws://'+location.host+'/__dreamfish__ws');\n    ws.onmessage = function(e){\n      var j; try { j = JSON.parse(e.data); } catch (_) { return; }\n      if (j.type === 'hello') { if (last === null) last = j.version; return; }\n      if (j.type === 'reload' && j.version !== last) { last = j.version; location.reload(); }\n    };\n    ws.onclose = function(){ ws = null; setTimeout(connect, 1000); };\n  }\n  connect();\n})();\n</script>"@
}

fn reload_script_exec() -> (r: &'static str)
    ensures
        r@ == reload_script(),
{
    "<script>\n(function(){\n  var last = null;\n  var ws = null;\n  function connect(){\n    ws = new WebSocket('ws://'+location.host+'/__dreamfish__ws');\n    ws.onmessage = function(e){\n      var j; try { j = JSON.parse(e.data); } catch (_) { return; }\n      if (j.type === 'hello') { if (last === null) last = j.version; return; }\n      if (j.type === 'reload' && j.version !== last) { last = j.version; location.reload(); }\n    };\n    ws.onclose = function(){ ws = null; setTimeout(connect, 1000); };\n  }\n  connect();\n})();\n</script>"
}

/// The last index at or below `i` where `pat` starts in `s`.
pub open spec fn last_sub(s: Seq<char>, pat: Seq<char>, i: int) -> Option<int>
    decreases i + 1,
{
    if i < 0 {
        None
    } else if i + pat.len() <= s.len() && s.subrange(i, i + pat.len()) == pat {
        Some(i)
    } else {
        last_sub(s, pat, i - 1)
    }
}

pub open spec fn lower_chars(s: Seq<char>) -> Seq<char> {
    s.map_values(|c: char| crate::text::ascii_lower(c))
}

/// A page with the live-reload script put before its last `</body>`
/// (matched in any case, and written in lower case), or at its end.
pub open spec fn inject_of(html: Seq<char>) -> Seq<char> {
    match last_sub(lower_chars(html), "</body>"@, html.len() as int) {
        Some(i) => html.take(i) + reload_script() + "</body>"@ + html.skip(i + 7),
        None => html + reload_script(),
    }
}

/// The page with the live-reload script, as bytes.
pub fn inject_reload(html: &str) -> (r: Vec<u8>)
    ensures
        r@ == vstd::utf8::encode_utf8(inject_of(html@)),
{
    let h = chars_of(html);
    let mut lower: Vec<char> = Vec::new();
    let mut k: usize = 0;
    while k < h.len()
        invariant
            k <= h@.len(),
            h@ == html@,
            lower@ == lower_chars(html@).take(k as int),
        decreases h@.len() - k,
    {
        lower.push(crate::text::ascii_lower_exec(h[k]));
        k = k + 1;
        assert(lower@ =~= lower_chars(html@).take(k as int));
    }
    assert(lower@ =~= lower_chars(html@));
    let pat = chars_of("</body>");
    proof {
        reveal_strlit("</body>");
    }
    let n = h.len();
    let mut i: usize = n;
    let mut found = false;
    let mut go = true;
    while go
        invariant
            i <= n,
            n == h@.len(),
            lower@ == lower_chars(html@),
            lower@.len() == n,
            pat@ == "</body>"@,
            pat@.len() == 7,
            go ==> !found,
            go ==> last_sub(lower@, pat@, n as int) == last_sub(lower@, pat@, i as int),
            !go && found ==> last_sub(lower@, pat@, n as int) == Some(i as int) && i + 7 <= n,
            !go && !found ==> last_sub(lower@, pat@, n as int) is None,
        decreases i + (if go { 1int } else { 0int }),
    {
        let mut hit = false;
        if n - i >= 7 {
            let part = crate::text::slice_of(&lower, i, i + 7);
            hit = crate::text::same(&part, &pat);
        }
        if hit {
            found = true;
            go = false;
        } else if i == 0 {
            assert(last_sub(lower@, pat@, -1) is None);
            assert(last_sub(lower@, pat@, 0) is None);
            go = false;
        } else {
            i = i - 1;
        }
    }
    let script = reload_script_exec();
    let mut out: Vec<char>;
    if found {
        out = crate::text::slice_of(&h, 0, i);
        push_str(&mut out, script);
        push_str(&mut out, "</body>");
        let tail = crate::text::slice_of(&h, i + 7, n);
        push_all(&mut out, &tail);
        assert(out@ =~= inject_of(html@));
    } else {
        out = h;
        push_str(&mut out, script);
        assert(out@ =~= inject_of(html@));
    }
    let s = string_of(&out);
    let r = crate::text::utf8_bytes(s.as_str());
    r
}

} // verus!

verus! {

// ---------------------------------------------------------------------------
// media types
/// `Path::extension` of a file name: what follows its last `.`, unless the
/// name has no `.` but a leading one, or is `..`.
pub open spec fn ext_of(name: Seq<char>) -> Option<Seq<char>> {
    if name == ".."@ {
        None
    } else {
        match last_sub(name, "."@, name.len() as int) {
            None => None,
            Some(i) => if i == 0 {
                None
            } else {
                Some(name.skip(i + 1))
            },
        }
    }
}

pub open spec fn media_type_of(ext: Seq<char>) -> Seq<char> {
    if ext == "html"@ || ext == "htm"@ {
        "text/html; charset=utf-8"@
    } else if ext == "css"@ {
        "text/css; charset=utf-8"@
    } else if ext == "js"@ || ext == "mjs"@ {
        "text/javascript; charset=utf-8"@
    } else if ext == "json"@ {
        "application/json"@
    } else if ext == "svg"@ {
        "image/svg+xml"@
    } else if ext == "png"@ {
        "image/png"@
    } else if ext == "jpg"@ || ext == "jpeg"@ {
        "image/jpeg"@
    } else if ext == "gif"@ {
        "image/gif"@
    } else if ext == "webp"@ {
        "image/webp"@
    } else if ext == "ico"@ {
        "image/x-icon"@
    } else if ext == "woff"@ || ext == "woff2"@ {
        "font/woff2"@
    } else if ext == "txt"@ {
        "text/plain; charset=utf-8"@
    } else if ext == "xml"@ {
        "application/xml"@
    } else if ext == "pdf"@ {
        "application/pdf"@
    } else {
        "application/octet-stream"@
    }
}

pub open spec fn content_type_of(name: Seq<char>) -> Seq<char> {
    match ext_of(name) {
        Some(e) => media_type_of(e),
        None => media_type_of(Seq::empty()),
    }
}

fn media_type(ext: &str) -> (r: &'static str)
    ensures
        r@ == media_type_of(ext@),
{
    if crate::text::str_is(ext, "html") || crate::text::str_is(ext, "htm") {
        "text/html; charset=utf-8"
    } else if crate::text::str_is(ext, "css") {
        "text/css; charset=utf-8"
    } else if crate::text::str_is(ext, "js") || crate::text::str_is(ext, "mjs") {
        "text/javascript; charset=utf-8"
    } else if crate::text::str_is(ext, "json") {
        "application/json"
    } else if crate::text::str_is(ext, "svg") {
        "image/svg+xml"
    } else if crate::text::str_is(ext, "png") {
        "image/png"
    } else if crate::text::str_is(ext, "jpg") || crate::text::str_is(ext, "jpeg") {
        "image/jpeg"
    } else if crate::text::str_is(ext, "gif") {
        "image/gif"
    } else if crate::text::str_is(ext, "webp") {
        "image/webp"
    } else if crate::text::str_is(ext, "ico") {
        "image/x-icon"
    } else if crate::text::str_is(ext, "woff") || crate::text::str_is(ext, "woff2") {
        "font/woff2"
    } else if crate::text::str_is(ext, "txt") {
        "text/plain; charset=utf-8"
    } else if crate::text::str_is(ext, "xml") {
        "application/xml"
    } else if crate::text::str_is(ext, "pdf") {
        "application/pdf"
    } else {
        "application/octet-stream"
    }
}

/// The media type of a file, by the extension of its name.
pub fn content_type(name: &str) -> (r: &'static str)
    ensures
        r@ == content_type_of(name@),
{
    let nc = chars_of(name);
    let dot = chars_of(".");
    proof {
        reveal_strlit(".");
        reveal_strlit("..");
        reveal_strlit("");
    }
    assert(dot@ =~= seq!['.']);
    assert(""@ =~= Seq::<char>::empty());
    let dd = chars_of("..");
    if crate::text::same(&nc, &dd) {
        return media_type("");
    }
    let n = nc.len();
    let mut i: usize = n;
    let mut found = false;
    let mut go = true;
    while go
        invariant
            i <= n,
            n == nc@.len(),
            nc@ == name@,
            dot@ == "."@,
            dot@ == seq!['.'],
            ""@ == Seq::<char>::empty(),
            go ==> !found,
            go ==> last_sub(nc@, dot@, n as int) == last_sub(nc@, dot@, i as int),
            !go && found ==> last_sub(nc@, dot@, n as int) == Some(i as int) && i < n,
            !go && !found ==> last_sub(nc@, dot@, n as int) is None,
        decreases i + (if go { 1int } else { 0int }),
    {
        let mut hit = false;
        if i < n {
            hit = nc[i] == '.';
            assert(nc@.subrange(i as int, i + 1) =~= seq![nc@[i as int]]);
            assert(nc@.subrange(i as int, i + 1)[0] == nc@[i as int]);
            assert(hit <==> nc@.subrange(i as int, i + 1) == dot@);
        }
        if hit {
            found = true;
            go = false;
        } else if i == 0 {
            assert(last_sub(nc@, dot@, -1) is None);
            assert(last_sub(nc@, dot@, 0) is None);
            go = false;
        } else {
            i = i - 1;
        }
    }
    if !found || i == 0 {
        return media_type("");
    }
    let e = crate::text::slice_of(&nc, i + 1, n);
    assert(e@ =~= name@.skip(i + 1));
    let es = string_of(&e);
    media_type(es.as_str())
}

// ---------------------------------------------------------------------------
// requests
/// `str::split_whitespace`, from the `i`-th character on.
pub open spec fn words_go(s: Seq<char>, i: int, words: Seq<Seq<char>>, cur: Seq<char>) -> Seq<
    Seq<char>,
>
    decreases s.len() - i,
{
    if i >= s.len() || i < 0 {
        if cur.len() > 0 {
            words.push(cur)
        } else {
            words
        }
    } else if crate::text::is_ws(s[i]) {
        words_go(s, i + 1, if cur.len() > 0 { words.push(cur) } else { words }, Seq::empty())
    } else {
        words_go(s, i + 1, words, cur.push(s[i]))
    }
}

pub open spec fn words_of(s: Seq<char>) -> Seq<Seq<char>> {
    words_go(s, 0, Seq::empty(), Seq::empty())
}

pub fn words_exec(s: &[char]) -> (r: Vec<Vec<char>>)
    ensures
        crate::text::vv_chars(r@) == words_of(s@),
{
    let mut words: Vec<Vec<char>> = Vec::new();
    let mut cur: Vec<char> = Vec::new();
    let mut i: usize = 0;
    assert(crate::text::vv_chars(words@) =~= Seq::<Seq<char>>::empty());
    while i < s.len()
        invariant
            i <= s@.len(),
            words_go(s@, i as int, crate::text::vv_chars(words@), cur@) == words_of(s@),
        decreases s@.len() - i,
    {
        if crate::text::is_whitespace(s[i]) {
            if cur.len() > 0 {
                assert(crate::text::vv_chars(words@.push(cur)) =~= crate::text::vv_chars(
                    words@,
                ).push(cur@));
                words.push(cur);
            }
            cur = Vec::new();
        } else {
            cur.push(s[i]);
        }
        i = i + 1;
    }
    if cur.len() > 0 {
        assert(crate::text::vv_chars(words@.push(cur)) =~= crate::text::vv_chars(words@).push(
            cur@,
        ));
        words.push(cur);
    }
    words
}

/// Where a request goes.
#[derive(Debug)]
pub enum Route {
    /// Neither `GET` nor `HEAD`.
    MethodNotAllowed,
    /// The live-reload socket.
    WebSocket,
    /// A path that climbs out of the site or holds a NUL.
    Forbidden { head_only: bool },
    /// A file of the site, by its decoded path relative to the output.
    File { rel: String, head_only: bool },
}

pub enum RouteM {
    MethodNotAllowed,
    WebSocket,
    Forbidden { head_only: bool },
    File { rel: Seq<char>, head_only: bool },
}

impl View for Route {
    type V = RouteM;

    open spec fn view(&self) -> RouteM {
        match self {
            Route::MethodNotAllowed => RouteM::MethodNotAllowed,
            Route::WebSocket => RouteM::WebSocket,
            Route::Forbidden { head_only } => RouteM::Forbidden { head_only: *head_only },
            Route::File { rel, head_only } => RouteM::File { rel: rel@, head_only: *head_only },
        }
    }
}

/// The first line of a request head, trimmed.
pub open spec fn request_line_of(head: Seq<char>) -> Seq<char> {
    let ls = crate::text::std_lines(head);
    crate::text::trim(if ls.len() > 0 { ls[0] } else { Seq::empty() })
}

/// Index of the first `?` or `#`, or the length.
pub open spec fn query_start(s: Seq<char>) -> nat
    decreases s.len(),
{
    if s.len() == 0 || s[0] == '?' || s[0] == '#' {
        0
    } else {
        1 + query_start(s.drop_first())
    }
}

/// `str::trim_start_matches('/')`.
pub open spec fn trim_slashes(s: Seq<char>) -> Seq<char>
    decreases s.len(),
{
    if s.len() > 0 && s[0] == '/' {
        trim_slashes(s.drop_first())
    } else {
        s
    }
}

/// A decoded path that goes up a directory or holds a NUL.
pub open spec fn forbidden_path(rel: Seq<char>) -> bool {
    crate::compiler::split_slash_go(rel, 0, Seq::empty(), Seq::empty()).contains(".."@)
        || rel.contains('\0')
}

pub open spec fn route_of(head: Seq<char>) -> RouteM {
    let words = words_of(request_line_of(head));
    let method = if words.len() > 0 { words[0] } else { Seq::empty() };
    let target = if words.len() > 1 { words[1] } else { "/"@ };
    let head_only = method == "HEAD"@;
    if method != "GET"@ && method != "HEAD"@ {
        RouteM::MethodNotAllowed
    } else {
        let path = target.take(query_start(target) as int);
        if path == "/__dreamfish__ws"@ {
            RouteM::WebSocket
        } else {
            let rel = percent_decode_of(trim_slashes(path));
            if forbidden_path(rel) {
                RouteM::Forbidden { head_only }
            } else {
                RouteM::File { rel, head_only }
            }
        }
    }
}

proof fn lemma_query_start(s: Seq<char>, i: int)
    requires
        0 <= i <= s.len(),
        forall|j: int| 0 <= j < i ==> #[trigger] s[j] != '?' && s[j] != '#',
        i < s.len() ==> (s[i] == '?' || s[i] == '#'),
    ensures
        query_start(s) == i,
    decreases i,
{
    if i > 0 {
        assert forall|j: int| 0 <= j < i - 1 implies #[trigger] s.drop_first()[j] != '?'
            && s.drop_first()[j] != '#' by {
            assert(s.drop_first()[j] == s[j + 1]);
        }
        lemma_query_start(s.drop_first(), i - 1);
    }
}

proof fn lemma_trim_slashes(s: Seq<char>, i: int)
    requires
        0 <= i <= s.len(),
        forall|j: int| 0 <= j < i ==> #[trigger] s[j] == '/',
        i < s.len() ==> s[i] != '/',
    ensures
        trim_slashes(s) == s.skip(i),
    decreases i,
{
    if i > 0 {
        assert forall|j: int| 0 <= j < i - 1 implies #[trigger] s.drop_first()[j] == '/' by {
            assert(s.drop_first()[j] == s[j + 1]);
        }
        lemma_trim_slashes(s.drop_first(), i - 1);
        assert(s.drop_first().skip(i - 1) =~= s.skip(i));
    } else {
        assert(s.skip(0) =~= s);
    }
}

/// Whether some part between `/` is `..`.
fn has_dotdot(rel: &[char]) -> (r: bool)
    ensures
        r == crate::compiler::split_slash_go(rel@, 0, Seq::empty(), Seq::empty()).contains(".."@),
{
    let dd = chars_of("..");
    let mut cur: Vec<char> = Vec::new();
    let mut found = false;
    let ghost mut parts: Seq<Seq<char>> = Seq::empty();
    let mut i: usize = 0;
    while i < rel.len()
        invariant
            i <= rel@.len(),
            dd@ == ".."@,
            found == parts.contains(".."@),
            crate::compiler::split_slash_go(rel@, i as int, parts, cur@)
                == crate::compiler::split_slash_go(rel@, 0, Seq::empty(), Seq::empty()),
        decreases rel@.len() - i,
    {
        if rel[i] == '/' {
            let is_dd = crate::text::same(&cur, &dd);
            proof {
                assert(parts.push(cur@).contains(".."@) == (parts.contains(".."@) || cur@
                    == ".."@)) by {
                    if parts.push(cur@).contains(".."@) {
                        let k = choose|k: int|
                            0 <= k < parts.push(cur@).len() && parts.push(cur@)[k] == ".."@;
                        if k < parts.len() {
                            assert(parts[k] == ".."@);
                        }
                    }
                    if parts.contains(".."@) {
                        let k = choose|k: int| 0 <= k < parts.len() && parts[k] == ".."@;
                        assert(parts.push(cur@)[k] == ".."@);
                    }
                    if cur@ == ".."@ {
                        assert(parts.push(cur@)[parts.len() as int] == ".."@);
                    }
                }
                parts = parts.push(cur@);
            }
            found = found || is_dd;
            cur = Vec::new();
        } else {
            cur.push(rel[i]);
        }
        i = i + 1;
    }
    let is_dd = crate::text::same(&cur, &dd);
    proof {
        assert(parts.push(cur@).contains(".."@) == (parts.contains(".."@) || cur@ == ".."@)) by {
            if parts.push(cur@).contains(".."@) {
                let k = choose|k: int|
                    0 <= k < parts.push(cur@).len() && parts.push(cur@)[k] == ".."@;
                if k < parts.len() {
                    assert(parts[k] == ".."@);
                }
            }
            if parts.contains(".."@) {
                let k = choose|k: int| 0 <= k < parts.len() && parts[k] == ".."@;
                assert(parts.push(cur@)[k] == ".."@);
            }
            if cur@ == ".."@ {
                assert(parts.push(cur@)[parts.len() as int] == ".."@);
            }
        }
    }
    found || is_dd
}

/// Where a request goes, by its head.
pub fn route_request(head: &str) -> (r: Route)
    ensures
        r@ == route_of(head@),
{
    let hc = chars_of(head);
    let lines = crate::text::std_lines_exec(&hc);
    let first: Vec<char> = if lines.len() > 0 {
        crate::text::slice_of(&lines[0], 0, lines[0].len())
    } else {
        Vec::new()
    };
    assert(lines@.len() > 0 ==> first@ =~= crate::text::vv_chars(lines@)[0]);
    assert(lines@.len() == 0 ==> first@ =~= Seq::<char>::empty());
    let line = crate::text::trimmed(&first);
    let words = words_exec(&line);
    assert(crate::text::vv_chars(words@).len() == words@.len());
    let method: Vec<char> = if words.len() > 0 {
        crate::text::slice_of(&words[0], 0, words[0].len())
    } else {
        Vec::new()
    };
    let target: Vec<char> = if words.len() > 1 {
        crate::text::slice_of(&words[1], 0, words[1].len())
    } else {
        chars_of("/")
    };
    assert(words@.len() > 0 ==> method@ =~= crate::text::vv_chars(words@)[0]);
    assert(words@.len() == 0 ==> method@ =~= Seq::<char>::empty());
    assert(words@.len() > 1 ==> target@ =~= crate::text::vv_chars(words@)[1]);
    let get = chars_of("GET");
    let head_word = chars_of("HEAD");
    let head_only = crate::text::same(&method, &head_word);
    if !crate::text::same(&method, &get) && !head_only {
        return Route::MethodNotAllowed;
    }
    let mut q: usize = 0;
    while q < target.len() && target[q] != '?' && target[q] != '#'
        invariant
            q <= target@.len(),
            forall|j: int| 0 <= j < q ==> #[trigger] target@[j] != '?' && target@[j] != '#',
        decreases target@.len() - q,
    {
        q = q + 1;
    }
    proof {
        lemma_query_start(target@, q as int);
    }
    let path = crate::text::slice_of(&target, 0, q);
    assert(path@ =~= target@.take(q as int));
    let ws_path = chars_of("/__dreamfish__ws");
    if crate::text::same(&path, &ws_path) {
        return Route::WebSocket;
    }
    let mut s: usize = 0;
    while s < path.len() && path[s] == '/'
        invariant
            s <= path@.len(),
            forall|j: int| 0 <= j < s ==> #[trigger] path@[j] == '/',
        decreases path@.len() - s,
    {
        s = s + 1;
    }
    proof {
        lemma_trim_slashes(path@, s as int);
    }
    let trimmed_path = crate::text::slice_of(&path, s, path.len());
    assert(trimmed_path@ =~= path@.skip(s as int));
    let tp = string_of(&trimmed_path);
    let rel = percent_decode(tp.as_str());
    let rc = chars_of(rel.as_str());
    let mut nul = false;
    let mut k: usize = 0;
    while k < rc.len()
        invariant
            k <= rc@.len(),
            nul == (exists|j: int| 0 <= j < k && rc@[j] == '\0'),
        decreases rc@.len() - k,
    {
        if rc[k] == '\0' {
            nul = true;
        }
        k = k + 1;
    }
    assert(nul == rc@.contains('\0'));
    if has_dotdot(&rc) || nul {
        Route::Forbidden { head_only }
    } else {
        Route::File { rel, head_only }
    }
}

// ---------------------------------------------------------------------------
// responses
pub open spec fn response_of(status: Seq<char>, ctype: Seq<char>, body: Seq<u8>, head_only: bool) -> Seq<
    u8,
> {
    vstd::utf8::encode_utf8(status) + vstd::utf8::encode_utf8(
        "Content-Type: "@ + ctype + "\r\n"@,
    ) + vstd::utf8::encode_utf8("Content-Length: "@ + crate::text::nat_text(body.len()) + "\r\n"@)
        + vstd::utf8::encode_utf8("Cache-Control: no-store\r\nConnection: close\r\n\r\n"@) + (if head_only {
        Seq::empty()
    } else {
        body
    })
}

/// A whole response: status line, headers, and the body unless only the
/// head was asked for.
pub fn response_bytes(status: &str, ctype: &str, body: &[u8], head_only: bool) -> (r: Vec<u8>)
    ensures
        r@ == response_of(status@, ctype@, body@, head_only),
{
    let mut out = crate::text::utf8_bytes(status);
    let mut m = chars_of("Content-Type: ");
    push_str(&mut m, ctype);
    push_str(&mut m, "\r\n");
    let ms = string_of(&m);
    let b1 = crate::text::utf8_bytes(ms.as_str());
    let mut l = chars_of("Content-Length: ");
    let t = crate::text::usize_text(body.len());
    push_all(&mut l, &t);
    push_str(&mut l, "\r\n");
    let ls = string_of(&l);
    let b2 = crate::text::utf8_bytes(ls.as_str());
    let b3 = crate::text::utf8_bytes("Cache-Control: no-store\r\nConnection: close\r\n\r\n");
    let ghost o0 = out@;
    append_bytes(&mut out, &b1);
    append_bytes(&mut out, &b2);
    append_bytes(&mut out, &b3);
    if !head_only {
        append_bytes(&mut out, body);
    }
    assert(out@ =~= response_of(status@, ctype@, body@, head_only));
    out
}

/// The plain-text answers the server gives when it serves no file.
#[derive(Clone, Copy, Debug, PartialEq, Eq, Structural)]
pub enum Refusal {
    BadRequest,
    Forbidden,
    NotFound,
    MethodNotAllowed,
}

pub open spec fn refusal_status(r: Refusal) -> Seq<char> {
    match r {
        Refusal::BadRequest => "HTTP/1.1 400 Bad Request\r\n"@,
        Refusal::Forbidden => "HTTP/1.1 403 Forbidden\r\n"@,
        Refusal::NotFound => "HTTP/1.1 404 Not Found\r\n"@,
        Refusal::MethodNotAllowed => "HTTP/1.1 405 Method Not Allowed\r\n"@,
    }
}

pub open spec fn refusal_body(r: Refusal) -> Seq<char> {
    match r {
        Refusal::BadRequest => "400 Bad Request"@,
        Refusal::Forbidden => "403 Forbidden"@,
        Refusal::NotFound => "404 Not Found"@,
        Refusal::MethodNotAllowed => "405 Method Not Allowed"@,
    }
}

/// The whole response for a refusal: its status line, plain text, and the
/// status as the body unless only the head was asked for.
pub fn refusal_response(r: Refusal, head_only: bool) -> (out: Vec<u8>)
    ensures
        out@ == response_of(
            refusal_status(r),
            "text/plain; charset=utf-8"@,
            vstd::utf8::encode_utf8(refusal_body(r)),
            head_only,
        ),
{
    let (status, body) = match r {
        Refusal::BadRequest => ("HTTP/1.1 400 Bad Request\r\n", "400 Bad Request"),
        Refusal::Forbidden => ("HTTP/1.1 403 Forbidden\r\n", "403 Forbidden"),
        Refusal::NotFound => ("HTTP/1.1 404 Not Found\r\n", "404 Not Found"),
        Refusal::MethodNotAllowed => ("HTTP/1.1 405 Method Not Allowed\r\n", "405 Method Not Allowed"),
    };
    let b = crate::text::utf8_bytes(body);
    response_bytes(status, "text/plain; charset=utf-8", b.as_slice(), head_only)
}

fn append_bytes(out: &mut Vec<u8>, b: &[u8])
    ensures
        final(out)@ == old(out)@ + b@,
{
    let mut i: usize = 0;
    while i < b.len()
        invariant
            i <= b@.len(),
            out@ == old(out)@ + b@.take(i as int),
        decreases b@.len() - i,
    {
        out.push(b[i]);
        i = i + 1;
        assert(out@ =~= old(out)@ + b@.take(i as int));
    }
    assert(b@.take(b@.len() as int) =~= b@);
}

} // verus!

verus! {

/// A request is only ever answered with a file whose decoded path has no
/// `..` part and no NUL.
pub proof fn lemma_route_safe(head: Seq<char>)
    ensures
        route_of(head) matches RouteM::File { rel, .. } ==> !crate::compiler::split_slash_go(
            rel,
            0,
            Seq::empty(),
            Seq::empty(),
        ).contains(".."@) && !rel.contains('\0'),
{
}

/// Only `GET` and `HEAD` requests reach the site.
pub proof fn lemma_route_methods(head: Seq<char>)
    ensures
        ({
            let words = words_of(request_line_of(head));
            let method = if words.len() > 0 {
                words[0]
            } else {
                Seq::empty()
            };
            (method != "GET"@ && method != "HEAD"@) <==> route_of(head) is MethodNotAllowed
        }),
{
}

} // verus!

verus! {

/// The bytes received hold a whole request head: they contain a blank line.
pub open spec fn head_complete_of(b: Seq<u8>) -> bool {
    exists|i: int| 0 <= i && i + 4 <= b.len() && #[trigger] b.subrange(i, i + 4) == seq![13u8, 10u8, 13u8, 10u8]
}

pub fn head_complete(b: &[u8]) -> (r: bool)
    ensures
        r == head_complete_of(b@),
{
    let n = b.len();
    let mut i: usize = 0;
    while n >= 4 && i <= n - 4
        invariant
            n == b@.len(),
            i <= n,
            forall|j: int|
                0 <= j < i && j + 4 <= n ==> #[trigger] b@.subrange(j, j + 4) != seq![
                    13u8,
                    10u8,
                    13u8,
                    10u8,
                ],
        decreases n - i,
    {
        if b[i] == 13 && b[i + 1] == 10 && b[i + 2] == 13 && b[i + 3] == 10 {
            assert(b@.subrange(i as int, i + 4) =~= seq![13u8, 10u8, 13u8, 10u8]);
            return true;
        }
        assert(b@.subrange(i as int, i + 4)[0] == b@[i as int]);
        assert(b@.subrange(i as int, i + 4)[1] == b@[i + 1]);
        assert(b@.subrange(i as int, i + 4)[2] == b@[i + 2]);
        assert(b@.subrange(i as int, i + 4)[3] == b@[i + 3]);
        i = i + 1;
    }
    false
}

/// Pages (HTML) get the live-reload script.
pub fn is_html(ctype: &str) -> (r: bool)
    ensures
        r == crate::text::starts_with(ctype@, "text/html"@),
{
    let c = chars_of(ctype);
    let h = chars_of("text/html");
    crate::text::has_prefix(&c, &h)
}

} // verus!
