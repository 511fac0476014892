//! The decisions of the dashboard's web server: which asset a request asks for, its
//! content type, and the response header.
use vstd::prelude::*;
use crate::text::{push_str, chars_equal, chars_of, is_whitespace, is_space_char, string_of, push_char};
use crate::helper::{decimal, decimal_string};

verus! {

/// The whitespace-separated words of `s`, as `str::split_whitespace` yields them.
pub open spec fn ws_tokens(s: Seq<char>) -> Seq<Seq<char>>
    decreases s.len(),
{
    if s.len() == 0 {
        seq![]
    } else {
        let p = ws_tokens(s.drop_last());
        let c = s.last();
        if is_space_char(c) {
            p
        } else if s.len() > 1 && !is_space_char(s[s.len() - 2]) {
            p.update(p.len() - 1, p.last().push(c))
        } else {
            p.push(seq![c])
        }
    }
}

/// The words of `v`, separated by whitespace.
pub fn split_whitespace(v: &Vec<char>) -> (r: Vec<Vec<char>>)
    ensures
        r@.map_values(|t: Vec<char>| t@) == ws_tokens(v@),
{
    let mut toks: Vec<Vec<char>> = Vec::new();
    let mut i: usize = 0;
    let mut in_token = false;
    assert(v@.take(0) =~= Seq::<char>::empty());
    assert(toks@.map_values(|t: Vec<char>| t@) =~= ws_tokens(v@.take(0)));
    while i < v.len()
        invariant
            i <= v.len(),
            toks@.map_values(|t: Vec<char>| t@) == ws_tokens(v@.take(i as int)),
            in_token == (i > 0 && !is_space_char(v@[i - 1])),
            in_token ==> toks.len() > 0,
        decreases v.len() - i,
    {
        let c = v[i];
        let ghost pre = v@.take(i as int);
        let ghost cur = v@.take(i + 1);
        assert(cur.drop_last() == pre);
        assert(cur.last() == c);
        let ghost before = toks@.map_values(|t: Vec<char>| t@);
        if is_whitespace(c) {
            in_token = false;
        } else if in_token {
            assert(cur[cur.len() - 2] == v@[i - 1]);
            let last = toks.len() - 1;
            let mut t = toks.remove(last);
            t.push(c);
            toks.push(t);
            assert(toks@.map_values(|t: Vec<char>| t@) =~= before.update(before.len() - 1, before.last().push(c)));
        } else {
            if i > 0 {
                assert(cur[cur.len() - 2] == v@[i - 1]);
            }
            let mut t: Vec<char> = Vec::new();
            t.push(c);
            toks.push(t);
            assert(toks@.map_values(|t: Vec<char>| t@) =~= before.push(seq![c]));
            in_token = true;
        }
        i = i + 1;
    }
    assert(v@.take(v@.len() as int) == v@);
    toks
}

/// The request target of an HTTP request line: its second word, if it has one.
pub fn request_target(first_line: &str) -> (r: Option<String>)
    ensures
        match r {
            Some(t) => ws_tokens(first_line@).len() >= 2 && t@ == ws_tokens(first_line@)[1],
            None => ws_tokens(first_line@).len() < 2,
        },
{
    let v = chars_of(first_line);
    let toks = split_whitespace(&v);
    if toks.len() < 2 {
        None
    } else {
        assert(toks@[1]@ == ws_tokens(first_line@)[1]);
        Some(string_of(&toks[1]))
    }
}

/// Whether a request target can be turned into an asset path: `/`, or a target whose
/// first character takes one byte (so that dropping one byte drops that character).
pub open spec fn servable_target(raw: Seq<char>) -> bool {
    raw == seq!['/'] || (raw.len() > 0 && (raw[0] as u32) < 128)
}

/// The asset a request target names: `index.html` for `/`, else the target without its
/// leading character.
pub open spec fn asset_path_of(raw: Seq<char>) -> Seq<char> {
    if raw == seq!['/'] {
        seq!['i', 'n', 'd', 'e', 'x', '.', 'h', 't', 'm', 'l']
    } else {
        raw.drop_first()
    }
}

/// The asset a request target names: `index.html` for `/`, else the target without its
/// leading character.
pub fn asset_path(raw_path: &str) -> (r: String)
    requires
        servable_target(raw_path@),
    ensures
        r@ == asset_path_of(raw_path@),
{
    let v = chars_of(raw_path);
    if v.len() == 1 && v[0] == '/' {
        assert(v@ =~= seq!['/']);
        let mut s = String::new();
        push_char(&mut s, 'i');
        push_char(&mut s, 'n');
        push_char(&mut s, 'd');
        push_char(&mut s, 'e');
        push_char(&mut s, 'x');
        push_char(&mut s, '.');
        push_char(&mut s, 'h');
        push_char(&mut s, 't');
        push_char(&mut s, 'm');
        push_char(&mut s, 'l');
        assert(s@ =~= seq!['i', 'n', 'd', 'e', 'x', '.', 'h', 't', 'm', 'l']);
        s
    } else {
        assert(v@ != seq!['/']);
        let mut s = String::new();
        let mut i: usize = 1;
        while i < v.len()
            invariant
                1 <= i <= v.len(),
                v.len() > 0,
                s@ == v@.subrange(1, i as int),
            decreases v.len() - i,
        {
            push_char(&mut s, v[i]);
            assert(v@.subrange(1, i + 1) == v@.subrange(1, i as int).push(v@[i as int]));
            i = i + 1;
        }
        assert(v@.subrange(1, v.len() as int) == v@.drop_first());
        s
    }
}

/// The extension of a path as `path.split('.').last()` gives it: what follows the last
/// `.`, or the whole path when it has none.
pub open spec fn extension(path: Seq<char>) -> Seq<char>
    decreases path.len(),
{
    if path.len() == 0 {
        path
    } else if path.last() == '.' {
        Seq::empty()
    } else {
        extension(path.drop_last()).push(path.last())
    }
}

/// The content types the server knows, by extension.
pub enum ContentType {
    Javascript,
    Wasm,
    Css,
    Png,
    Html,
}

/// The content type for an extension: `js`, `wasm`, `css` and `png` are recognized,
/// anything else is served as HTML.
pub open spec fn content_type_of(ext: Seq<char>) -> ContentType {
    if ext == seq!['j', 's'] {
        ContentType::Javascript
    } else if ext == seq!['w', 'a', 's', 'm'] {
        ContentType::Wasm
    } else if ext == seq!['c', 's', 's'] {
        ContentType::Css
    } else if ext == seq!['p', 'n', 'g'] {
        ContentType::Png
    } else {
        ContentType::Html
    }
}

impl ContentType {
    /// The MIME name of the content type.
    pub open spec fn mime(&self) -> Seq<char> {
        match self {
            ContentType::Javascript => "application/javascript"@,
            ContentType::Wasm => "application/wasm"@,
            ContentType::Css => "text/css"@,
            ContentType::Png => "image/png"@,
            ContentType::Html => "text/html"@,
        }
    }

    /// The MIME name of the content type.
    pub fn mime_str(&self) -> (r: &'static str)
        ensures
            r@ == self.mime(),
    {
        match self {
            ContentType::Javascript => "application/javascript",
            ContentType::Wasm => "application/wasm",
            ContentType::Css => "text/css",
            ContentType::Png => "image/png",
            ContentType::Html => "text/html",
        }
    }
}

/// The header of a successful response carrying `len` bytes of content of type `ct`.
pub open spec fn ok_header_of(ct: ContentType, len: nat) -> Seq<char> {
    "HTTP/1.1 200 OK\r\nContent-Type: "@ + ct.mime() + "\r\nContent-Length: "@ + decimal(len)
        + "\r\nConnection: close\r\n\r\n"@
}

/// The header of a successful response carrying `len` bytes of content of type `ct`;
/// the connection is closed after the content.
pub fn ok_header(ct: ContentType, len: usize) -> (r: String)
    ensures
        r@ == ok_header_of(ct, len as nat),
{
    let mut s = String::new();
    push_str(&mut s, "HTTP/1.1 200 OK\r\nContent-Type: ");
    push_str(&mut s, ct.mime_str());
    push_str(&mut s, "\r\nContent-Length: ");
    let n = decimal_string(len as u64);
    push_str(&mut s, n.as_str());
    push_str(&mut s, "\r\nConnection: close\r\n\r\n");
    assert(s@ =~= ok_header_of(ct, len as nat));
    s
}

/// The whole response when no asset has the requested path.
pub fn not_found_response() -> (r: &'static str)
    ensures
        r@ == "HTTP/1.1 404 NOT FOUND\r\nContent-Length: 0\r\n\r\n"@,
{
    "HTTP/1.1 404 NOT FOUND\r\nContent-Length: 0\r\n\r\n"
}

/// The content type of the asset at `path`, by its extension.
pub fn content_type(path: &str) -> (r: ContentType)
    ensures
        r == content_type_of(extension(path@)),
{
    let v = chars_of(path);
    let mut start: usize = v.len();
    assert(v@.subrange(0, v.len() as int) == v@);
    assert(v@.subrange(v.len() as int, v.len() as int) =~= Seq::<char>::empty());
    assert(extension(v@) =~= extension(v@.subrange(0, start as int)) + v@.subrange(start as int, v.len() as int));
    while start > 0 && v[start - 1] != '.'
        invariant
            start <= v.len(),
            extension(v@) == extension(v@.subrange(0, start as int)) + v@.subrange(start as int, v.len() as int),
        decreases start,
    {
        let ghost pre = v@.subrange(0, start as int);
        assert(pre.drop_last() == v@.subrange(0, start - 1));
        assert(pre.last() == v@[start - 1]);
        assert(extension(pre) == extension(v@.subrange(0, start - 1)).push(v@[start - 1]));
        assert(v@.subrange(start - 1, v.len() as int) == seq![v@[start - 1]] + v@.subrange(start as int, v.len() as int));
        start = start - 1;
    }
    proof {
        let pre = v@.subrange(0, start as int);
        assert(extension(pre).len() == 0);
    }
    let mut ext: Vec<char> = Vec::new();
    let mut i = start;
    while i < v.len()
        invariant
            start <= i <= v.len(),
            ext@ == v@.subrange(start as int, i as int),
        decreases v.len() - i,
    {
        ext.push(v[i]);
        assert(v@.subrange(start as int, i + 1) == v@.subrange(start as int, i as int).push(v@[i as int]));
        i = i + 1;
    }
    assert(ext@ =~= extension(v@));
    let js = vec!['j', 's'];
    let wasm = vec!['w', 'a', 's', 'm'];
    let css = vec!['c', 's', 's'];
    let png = vec!['p', 'n', 'g'];
    assert(js@ =~= seq!['j', 's']);
    assert(wasm@ =~= seq!['w', 'a', 's', 'm']);
    assert(css@ =~= seq!['c', 's', 's']);
    assert(png@ =~= seq!['p', 'n', 'g']);
    if chars_equal(&ext, &js) {
        ContentType::Javascript
    } else if chars_equal(&ext, &wasm) {
        ContentType::Wasm
    } else if chars_equal(&ext, &css) {
        ContentType::Css
    } else if chars_equal(&ext, &png) {
        ContentType::Png
    } else {
        ContentType::Html
    }
}

} // verus!
