//! Serving the web UI: which copy of it to use, which file a request asks
//! for, and the headers it goes out with.
use vstd::prelude::*;
use crate::text::{
    ascii_lowercase, chars_of, last_index, push_str, rfind_char, str_eq,
    string_of_range, to_ascii_lowercase,
};

verus! {

/// Where the web UI comes from.
#[derive(Debug, Clone, PartialEq, Eq)]
pub enum Ui {
    /// Files built into the binary.
    Embedded,
    /// A folder of files on disk.
    Dir(String),
    /// No UI: the API only.
    Missing,
}

/// Which UI to serve: a folder named by the environment wins, then the
/// files built in, then a built UI found on disk.
pub fn choose_ui(env_dir: Option<String>, embedded: bool, on_disk: Option<String>) -> (res: Ui)
    ensures
        match env_dir {
            Some(d) if d@.len() > 0 => res == Ui::Dir(d),
            _ => if embedded {
                res == Ui::Embedded
            } else {
                match on_disk {
                    Some(d) => res == Ui::Dir(d),
                    None => res == Ui::Missing,
                }
            },
        },
{
    match env_dir {
        Some(d) => {
            if d.unicode_len() > 0 {
                return Ui::Dir(d);
            }
        },
        None => {},
    }
    if embedded {
        return Ui::Embedded;
    }
    match on_disk {
        Some(d) => Ui::Dir(d),
        None => Ui::Missing,
    }
}

/// The extension of a file name: what follows its last dot, or nothing.
pub open spec fn extension_of(name: Seq<char>) -> Seq<char> {
    match last_index(name, '.') {
        Some(k) => name.skip(k + 1),
        None => seq![],
    }
}

/// The media type a file goes out as, by its lowercased extension.
pub open spec fn media_type(ext: Seq<char>) -> Seq<char> {
    if ext == "html"@ {
        "text/html; charset=utf-8"@
    } else if ext == "js"@ || ext == "mjs"@ {
        "text/javascript; charset=utf-8"@
    } else if ext == "css"@ {
        "text/css; charset=utf-8"@
    } else if ext == "json"@ || ext == "map"@ {
        "application/json"@
    } else if ext == "svg"@ {
        "image/svg+xml"@
    } else if ext == "png"@ {
        "image/png"@
    } else if ext == "jpg"@ || ext == "jpeg"@ {
        "image/jpeg"@
    } else if ext == "webp"@ {
        "image/webp"@
    } else if ext == "ico"@ {
        "image/x-icon"@
    } else if ext == "woff2"@ {
        "font/woff2"@
    } else if ext == "woff"@ {
        "font/woff"@
    } else if ext == "txt"@ {
        "text/plain; charset=utf-8"@
    } else if ext == "wasm"@ {
        "application/wasm"@
    } else {
        "application/octet-stream"@
    }
}

fn media_type_exec(ext: &str) -> (res: &'static str)
    ensures
        res@ == media_type(ext@),
{
    if str_eq(ext, "html") {
        "text/html; charset=utf-8"
    } else if str_eq(ext, "js") || str_eq(ext, "mjs") {
        "text/javascript; charset=utf-8"
    } else if str_eq(ext, "css") {
        "text/css; charset=utf-8"
    } else if str_eq(ext, "json") || str_eq(ext, "map") {
        "application/json"
    } else if str_eq(ext, "svg") {
        "image/svg+xml"
    } else if str_eq(ext, "png") {
        "image/png"
    } else if str_eq(ext, "jpg") || str_eq(ext, "jpeg") {
        "image/jpeg"
    } else if str_eq(ext, "webp") {
        "image/webp"
    } else if str_eq(ext, "ico") {
        "image/x-icon"
    } else if str_eq(ext, "woff2") {
        "font/woff2"
    } else if str_eq(ext, "woff") {
        "font/woff"
    } else if str_eq(ext, "txt") {
        "text/plain; charset=utf-8"
    } else if str_eq(ext, "wasm") {
        "application/wasm"
    } else {
        "application/octet-stream"
    }
}

/// The `Content-Type` of file `name`.
pub fn content_type(name: &str) -> (res: &'static str)
    ensures
        res@ == media_type(ascii_lowercase(extension_of(name@))),
{
    let cs = chars_of(name);
    let ext = match rfind_char(cs.as_slice(), '.') {
        Some(k) => {
            assert(crate::text::is_last(cs@, '.', k as int));
            assert(k < cs.len());
            string_of_range(cs.as_slice(), k + 1, cs.len())
        },
        None => String::new(),
    };
    proof {
        assert(cs@.subrange(0, cs@.len() as int) =~= cs@);
        if last_index(name@, '.') is Some {
            let k = last_index(name@, '.')->0;
            assert(cs@.subrange(k + 1, cs@.len() as int) =~= name@.skip(k + 1));
        }
    }
    let lower = to_ascii_lowercase(ext.as_str());
    media_type_exec(lower.as_str())
}

/// What the UI answers a request with.
#[derive(Debug, Clone, PartialEq, Eq)]
pub enum Reply {
    /// Only `GET` and `HEAD` are served.
    NotAllowed,
    NotFound,
    /// File `index` of the list, with its type and caching.
    File { index: usize, content_type: &'static str, cache_control: &'static str },
}

/// `s` without the `/` it starts with, however many.
pub open spec fn without_leading_slashes(s: Seq<char>) -> Seq<char>
    decreases s.len(),
{
    if s.len() > 0 && s[0] == '/' {
        without_leading_slashes(s.drop_first())
    } else {
        s
    }
}

/// The file a request path asks for: a folder asks for its `index.html`.
pub open spec fn requested_file(path: Seq<char>) -> Seq<char> {
    let p = without_leading_slashes(path);
    if p.len() == 0 || p.last() == '/' {
        p + "index.html"@
    } else {
        p
    }
}

/// The first file in `files` called `name`.
pub open spec fn file_index(files: Seq<&str>, name: Seq<char>) -> Option<int> {
    if exists|i: int| 0 <= i < files.len() && files[i]@ == name {
        Some(choose|i: int| 0 <= i < files.len() && files[i]@ == name && forall|j: int|
            0 <= j < i ==> files[j]@ != name)
    } else {
        None
    }
}

/// Built assets carry a hash in their names and are cached for good; the
/// rest is revalidated.
pub open spec fn cache_policy(name: Seq<char>) -> Seq<char> {
    if name.len() >= 7 && name.take(7) == "assets/"@ {
        "public, max-age=31536000, immutable"@
    } else {
        "no-cache"@
    }
}

fn requested_file_exec(path: &str) -> (res: String)
    ensures
        res@ == requested_file(path@),
{
    let cs = chars_of(path);
    let mut i: usize = 0;
    assert(cs@.skip(0) =~= cs@);
    while i < cs.len() && cs[i] == '/'
        invariant
            cs@ == path@,
            i <= cs@.len(),
            without_leading_slashes(path@) == without_leading_slashes(cs@.skip(i as int)),
        decreases cs.len() - i,
    {
        assert(cs@.skip(i as int).drop_first() =~= cs@.skip(i + 1));
        i += 1;
    }
    assert(cs@.subrange(i as int, cs@.len() as int) =~= cs@.skip(i as int));
    let mut p = string_of_range(cs.as_slice(), i, cs.len());
    if i == cs.len() || cs[cs.len() - 1] == '/' {
        push_str(&mut p, "index.html");
    }
    p
}

fn starts_with_assets(name: &str) -> (res: bool)
    ensures
        res == (name@.len() >= 7 && name@.take(7) == "assets/"@),
{
    let pre = "assets/";
    proof {
        reveal_strlit("assets/");
    }
    let n = name.unicode_len();
    if n < 7 {
        return false;
    }
    let mut i: usize = 0;
    while i < 7
        invariant
            n == name@.len(),
            n >= 7,
            pre@ == "assets/"@,
            pre@.len() == 7,
            i <= 7,
            forall|j: int| 0 <= j < i ==> name@[j] == pre@[j],
        decreases 7 - i,
    {
        if name.get_char(i) != pre.get_char(i) {
            assert(name@.take(7)[i as int] != pre@[i as int]);
            return false;
        }
        i += 1;
    }
    assert(name@.take(7) =~= pre@);
    true
}

/// How the UI answers `method` on `path`, serving the files named in
/// `files`.
pub fn respond(method: &str, path: &str, files: &[&str]) -> (res: Reply)
    ensures
        !(method@ == "GET"@ || method@ == "HEAD"@) ==> res == Reply::NotAllowed,
        (method@ == "GET"@ || method@ == "HEAD"@) ==> match file_index(
            files@,
            requested_file(path@),
        ) {
            None => res == Reply::NotFound,
            Some(i) => (res matches Reply::File { index, content_type, cache_control } && index
                == i && content_type@ == media_type(
                ascii_lowercase(extension_of(files@[i]@)),
            ) && cache_control@ == cache_policy(files@[i]@)),
        },
{
    if !(str_eq(method, "GET") || str_eq(method, "HEAD")) {
        return Reply::NotAllowed;
    }
    let name = requested_file_exec(path);
    let mut i: usize = 0;
    while i < files.len()
        invariant
            i <= files@.len(),
            name@ == requested_file(path@),
            method@ == "GET"@ || method@ == "HEAD"@,
            forall|j: int| 0 <= j < i ==> files@[j]@ != name@,
        decreases files.len() - i,
    {
        if str_eq(files[i], name.as_str()) {
            proof {
                let c = choose|c: int| 0 <= c < files@.len() && files@[c]@ == name@ && forall|j: int|
                    0 <= j < c ==> files@[j]@ != name@;
                assert(0 <= i < files@.len() && files@[i as int]@ == name@ && forall|j: int|
                    0 <= j < i ==> files@[j]@ != name@);
                if c < i {
                } else if c > i {
                }
            }
            let cache = if starts_with_assets(files[i]) {
                "public, max-age=31536000, immutable"
            } else {
                "no-cache"
            };
            return Reply::File {
                index: i,
                content_type: content_type(files[i]),
                cache_control: cache,
            };
        }
        i += 1;
    }
    Reply::NotFound
}

} // verus!
