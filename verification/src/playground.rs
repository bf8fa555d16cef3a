//! The decisions of the playground's web server: which path a request asks
//! for, which file that path names, and the bytes of the answer.
use vstd::prelude::*;
use vstd::string::*;
use vstd::utf8::*;
use crate::error::{decimal, decimal_string};
use crate::lexer::Lexer;
use crate::text::{lemma_ascii_run, lemma_span_bound, span};
use crate::value::str_equal;

verus! {

broadcast use vstd::string::group_string_axioms, vstd::utf8::group_utf8_lib;

/// A file that the playground serves.
#[derive(Debug, PartialEq, Eq, Clone, Copy)]
pub enum Asset {
    IndexHtml,
    StyleCss,
    MainJs,
    WasmJs,
    WasmBg,
}

/// The first line of a request, as `str::lines` gives it: the characters
/// before the first newline, less a carriage return that ends them when a
/// newline follows; the whole text when it has no newline.
pub open spec fn first_line(req: Seq<char>) -> Seq<char> {
    let n = span(req, |c: char| c != '\n');
    if n < req.len() && n > 0 && req[n - 1] == '\r' {
        req.take(n - 1)
    } else {
        req.take(n as int)
    }
}

/// The path of a `GET` request: what follows `GET ` on the first line, up to
/// the next space; empty when the line does not start with `GET ` or has no
/// space after it.
pub open spec fn path_of(req: Seq<char>) -> Seq<char> {
    let line = first_line(req);
    if line.len() >= 4 && line.take(4) == seq!['G', 'E', 'T', ' '] {
        let rest = line.skip(4);
        let i = span(rest, |c: char| c != ' ');
        if i < rest.len() {
            rest.take(i as int)
        } else {
            Seq::empty()
        }
    } else {
        Seq::empty()
    }
}

/// The file that a path names, if any.
pub open spec fn route_of(path: Seq<char>) -> Option<Asset> {
    if path == "/"@ || path == "/index.html"@ {
        Some(Asset::IndexHtml)
    } else if path == "/style.css"@ {
        Some(Asset::StyleCss)
    } else if path == "/main.js"@ {
        Some(Asset::MainJs)
    } else if path == "/pkg/tomli_wasm.js"@ {
        Some(Asset::WasmJs)
    } else if path == "/pkg/tomli_wasm_bg.wasm"@ {
        Some(Asset::WasmBg)
    } else {
        None
    }
}

/// The media type that a file is served with.
pub open spec fn content_type_of(a: Asset) -> Seq<char> {
    match a {
        Asset::IndexHtml => "text/html"@,
        Asset::StyleCss => "text/css"@,
        Asset::MainJs => "application/javascript"@,
        Asset::WasmJs => "application/javascript"@,
        Asset::WasmBg => "application/wasm"@,
    }
}

/// The answer to a request: for a file, a `200 OK` head that names its media
/// type and length in bytes, then its bytes; otherwise `404 Not Found`.
pub open spec fn response_of(asset: Option<Asset>, body: Seq<u8>) -> Seq<u8> {
    match asset {
        Some(a) => encode_utf8(
            "HTTP/1.1 200 OK\r\nContent-Type: "@ + content_type_of(a) + "\r\nContent-Length: "@
                + decimal(body.len()) + "\r\n\r\n"@,
        ) + body,
        None => encode_utf8("HTTP/1.1 404 NOT FOUND\r\n\r\n404 Not Found"@),
    }
}

/// The path that a request asks for.
pub fn request_path(request: &str) -> (path: String)
    ensures
        path@ == path_of(request@),
{
    let ghost c = request@;
    let ghost first = span(c, |x: char| x != '\n');
    let mut lx = Lexer::new(request);
    proof {
        reveal_strlit("GET ");
        lemma_span_bound(c, |x: char| x != '\n');
    }
    if !lx.starts_with("GET ") {
        proof {
            let line = first_line(c);
            if line.len() >= 4 && line.take(4) == seq!['G', 'E', 'T', ' '] {
                assert(line.take(4) =~= c.take(4));
                assert(lx.rest() =~= c);
                assert("GET "@ =~= seq!['G', 'E', 'T', ' ']);
                assert(seq!['G', 'E', 'T', ' '].is_prefix_of(lx.rest()));
            }
        }
        return String::new();
    }
    proof {
        reveal_strlit("GET ");
        assert(lx.rest() =~= c);
        assert("GET "@ =~= seq!['G', 'E', 'T', ' ']);
        assert(c.subrange(0, 4) =~= "GET "@);
        assert(c.take(4) =~= seq!['G', 'E', 'T', ' ']);
        assert forall|k: int| 0 <= k < 4 implies (#[trigger] c[k] as u32) < 0x80 by {
            assert(c[k] == c.take(4)[k]);
        }
        lemma_ascii_run(c, 0, 4);
        assert(c.take(0) =~= Seq::<char>::empty());
        assert(lx.reaches(4)) by {
            assert(crate::text::byte_offset(c, 4) == 4);
        }
    }
    lx.advance(4);
    let start = lx.pos();
    proof {
        assert(first >= 4) by {
            assert forall|k: int| 0 <= k < 4 implies c[k] != '\n' by {}
            if first < 4 {
                assert(c[first as int] == '\n');
            }
        }
    }
    loop
        invariant
            lx.wf(),
            lx.chars() == c,
            lx.spec_src() == request,
            4 <= lx.index() <= c.len(),
            c.take(4) == seq!['G', 'E', 'T', ' '],
            first == span(c, |x: char| x != '\n'),
            first <= c.len(),
            forall|k: int| 0 <= k < first ==> #[trigger] c[k] != '\n',
            first < c.len() ==> c[first as int] == '\n',
            forall|k: int| 4 <= k < lx.index() ==> #[trigger] c[k] != ' ' && c[k] != '\n',
            crate::text::byte_offset(c, 4) == start,
            lx.passed(start as int),
        decreases c.len() - lx.index(),
    {
        let ghost i = lx.index();
        match lx.peek() {
            Some(ch) => {
                if ch == ' ' {
                    let p = lx.slice_from(start);
                    proof {
                        assert(c[i] == ' ');
                        assert(first > i) by {
                            if first <= i {
                                assert(c[first as int] == '\n');
                            }
                        }
                        let line = first_line(c);
                        assert(line.len() > i);
                        assert(line.take(4) =~= c.take(4));
                        let rest = line.skip(4);
                        lemma_span_bound(rest, |x: char| x != ' ');
                        let m = span(rest, |x: char| x != ' ');
                        assert(rest[i - 4] == ' ');
                        assert(m == i - 4) by {
                            if m < i - 4 {
                                assert(rest[m as int] == c[m as int + 4]);
                            }
                        }
                        assert(rest.take(m as int) =~= c.subrange(4, i));
                    }
                    return String::from_str(p);
                }
                if ch == '\n' {
                    proof {
                        assert(c[i] == '\n');
                        assert(first == i) by {
                            if first > i {
                                assert(c[i] != '\n');
                            }
                            if first < i {
                                assert(c[first as int] == '\n');
                            }
                        }
                        lemma_no_space_empty(c, first);
                    }
                    return String::new();
                }
                lx.next_char();
            },
            None => {
                proof {
                    assert(first == c.len());
                    lemma_no_space_empty(c, first);
                }
                return String::new();
            },
        }
    }
}

/// When no space follows `GET ` before the end of the first line, the path
/// is empty.
proof fn lemma_no_space_empty(c: Seq<char>, first: nat)
    requires
        first == span(c, |x: char| x != '\n'),
        4 <= first <= c.len(),
        forall|k: int| 4 <= k < first ==> #[trigger] c[k] != ' ',
    ensures
        path_of(c).len() == 0,
{
    let line = first_line(c);
    if line.len() >= 4 && line.take(4) == seq!['G', 'E', 'T', ' '] {
        let rest = line.skip(4);
        lemma_span_bound(rest, |x: char| x != ' ');
        let m = span(rest, |x: char| x != ' ');
        if m < rest.len() {
            assert(rest[m as int] == c[m as int + 4]);
        }
    }
}

/// The file that a path names, if any.
pub fn route(path: &str) -> (asset: Option<Asset>)
    ensures
        asset == route_of(path@),
{
    if str_equal(path, "/") || str_equal(path, "/index.html") {
        Some(Asset::IndexHtml)
    } else if str_equal(path, "/style.css") {
        Some(Asset::StyleCss)
    } else if str_equal(path, "/main.js") {
        Some(Asset::MainJs)
    } else if str_equal(path, "/pkg/tomli_wasm.js") {
        Some(Asset::WasmJs)
    } else if str_equal(path, "/pkg/tomli_wasm_bg.wasm") {
        Some(Asset::WasmBg)
    } else {
        None
    }
}

/// The media type that a file is served with.
pub fn content_type(asset: Asset) -> (t: &'static str)
    ensures
        t@ == content_type_of(asset),
{
    match asset {
        Asset::IndexHtml => "text/html",
        Asset::StyleCss => "text/css",
        Asset::MainJs => "application/javascript",
        Asset::WasmJs => "application/javascript",
        Asset::WasmBg => "application/wasm",
    }
}

/// The answer to a request for `asset`, whose content is `body`.
pub fn response(asset: Option<Asset>, body: &[u8]) -> (r: Vec<u8>)
    ensures
        r@ == response_of(asset, body@),
{
    match asset {
        Some(a) => {
            let mut head = String::from_str("HTTP/1.1 200 OK\r\nContent-Type: ");
            head.append(content_type(a));
            head.append("\r\nContent-Length: ");
            let n = decimal_string(body.len());
            head.append(n.as_str());
            head.append("\r\n\r\n");
            let mut r = head.as_str().as_bytes_vec();
            let ghost h = r@;
            let mut i: usize = 0;
            while i < body.len()
                invariant
                    0 <= i <= body@.len(),
                    r@ == h + body@.take(i as int),
                decreases body@.len() - i,
            {
                r.push(body[i]);
                proof {
                    assert(body@.take(i + 1) =~= body@.take(i as int).push(body@[i as int]));
                }
                i += 1;
            }
            proof {
                assert(body@.take(body@.len() as int) =~= body@);
            }
            r
        },
        None => String::from_str("HTTP/1.1 404 NOT FOUND\r\n\r\n404 Not Found").as_str().as_bytes_vec(),
    }
}

} // verus!
