//! Who may call the API: requests must be addressed to this machine, come
//! from a page on it, and carry the token when one is set.
use vstd::prelude::*;
use crate::text::{
    ascii_lowercase, chars_of, eq_ignore_ascii_case, find_char, first_index, str_eq, trim, trimmed,
};

verus! {

/// Names every server accepts, whatever else it was told.
pub open spec fn loopback_hosts() -> Seq<Seq<char>> {
    seq!["localhost"@, "127.0.0.1"@, "[::1]"@, "::1"@]
}

/// Compare without stopping at the first difference, so response timing
/// says nothing about how much of a guess was right.
pub fn constant_time_eq(a: &str, b: &str) -> (res: bool)
    ensures
        res == (a@ == b@),
{
    let x = chars_of(a);
    let y = chars_of(b);
    if x.len() != y.len() {
        return false;
    }
    let mut acc: u32 = 0;
    let mut i: usize = 0;
    while i < x.len()
        invariant
            x@ == a@,
            y@ == b@,
            x@.len() == y@.len(),
            i <= x@.len(),
            (acc == 0) == (forall|j: int| 0 <= j < i ==> x@[j] == y@[j]),
        decreases x.len() - i,
    {
        let d = (x[i] as u32) ^ (y[i] as u32);
        let next = acc | d;
        proof {
            crate::mutf8::lemma_char_range(x@[i as int]);
            crate::mutf8::lemma_char_range(y@[i as int]);
            let p = x[i as int] as u32;
            let q = y[i as int] as u32;
            assert((next == 0) == (acc == 0 && p == q)) by (bit_vector)
                requires
                    next == acc | (p ^ q),
            ;
            crate::mutf8::lemma_char_eq(x@[i as int], y@[i as int]);
        }
        acc = next;
        i += 1;
    }
    assert(acc == 0 ==> x@ =~= y@);
    acc == 0
}

/// `host[:port]` → `host`, keeping IPv6 brackets: `[::1]:3001` → `[::1]`.
pub open spec fn host_name_of(value: Seq<char>) -> Seq<char> {
    let v = trimmed(value);
    if v.len() > 0 && v[0] == '[' {
        match first_index(v, ']') {
            Some(e) => v.subrange(0, e + 1),
            None => v,
        }
    } else {
        match first_index(v, ':') {
            Some(k) => v.subrange(0, k),
            None => v,
        }
    }
}

/// `host[:port]` → `host`, keeping IPv6 brackets.
pub fn host_name(value: &str) -> (res: &str)
    ensures
        res@ == host_name_of(value@),
{
    let v = trim(value);
    let cs = chars_of(v);
    if cs.len() > 0 && cs[0] == '[' {
        match find_char(cs.as_slice(), ']') {
            Some(end) => v.substring_char(0, end + 1),
            None => v,
        }
    } else {
        match find_char(cs.as_slice(), ':') {
            Some(k) => v.substring_char(0, k),
            None => v,
        }
    }
}

/// `"://"` occurs in `s` at `j`.
pub open spec fn scheme_end_at(s: Seq<char>, j: int) -> bool {
    s[j] == ':' && s[j + 1] == '/' && s[j + 2] == '/'
}

/// `k` is where `"://"` first occurs in `s`.
pub open spec fn is_first_scheme_end(s: Seq<char>, k: int) -> bool {
    &&& 0 <= k && k + 3 <= s.len()
    &&& scheme_end_at(s, k)
    &&& forall|j: int| 0 <= j < k ==> !#[trigger] scheme_end_at(s, j)
}

/// The host of an `Origin` header (`scheme://host[:port]`); `None` for
/// `null` and anything else that is not a URL origin.
pub open spec fn origin_host_of(origin: Seq<char>) -> Option<Seq<char>> {
    let o = trimmed(origin);
    if exists|k: int| is_first_scheme_end(o, k) {
        let k = choose|k: int| is_first_scheme_end(o, k);
        let rest = o.subrange(k + 3, o.len() as int);
        let authority = match first_index(rest, '/') {
            Some(e) => rest.subrange(0, e),
            None => rest,
        };
        Some(host_name_of(authority))
    } else {
        None
    }
}

/// The host of an `Origin` header.
pub fn origin_host(origin: &str) -> (res: Option<&str>)
    ensures
        match res {
            Some(h) => origin_host_of(origin@) == Some(h@),
            None => origin_host_of(origin@) is None,
        },
{
    let o = trim(origin);
    let cs = chars_of(o);
    let n = cs.len();
    let mut k: usize = 0;
    while n >= 3 && k <= n - 3
        invariant
            o@ == trimmed(origin@),
            cs@ == o@,
            n == cs@.len(),
            forall|j: int| 0 <= j < k && j + 3 <= n ==> !#[trigger] scheme_end_at(cs@, j),
            k <= n,
        decreases n - k,
    {
        if cs[k] == ':' && cs[k + 1] == '/' && cs[k + 2] == '/' {
            let rest = o.substring_char(k + 3, n);
            let rc = chars_of(rest);
            let authority = match find_char(rc.as_slice(), '/') {
                Some(e) => rest.substring_char(0, e),
                None => rest,
            };
            proof {
                assert(is_first_scheme_end(o@, k as int));
                let w = choose|w: int| is_first_scheme_end(o@, w);
                if w < k {
                    assert(!scheme_end_at(cs@, w));
                } else if w > k {
                    assert(!scheme_end_at(o@, k as int));
                }
            }
            return Some(host_name(authority));
        }
        k += 1;
    }
    proof {
        if exists|w: int| is_first_scheme_end(o@, w) {
            let w = choose|w: int| is_first_scheme_end(o@, w);
            assert(!scheme_end_at(cs@, w));
        }
    }
    None
}

/// Whether `host` is a loopback name or one of `extra`, ignoring ASCII case.
pub open spec fn allowed(host: Seq<char>, extra: Seq<Seq<char>>) -> bool {
    (exists|i: int|
        0 <= i < loopback_hosts().len() && ascii_lowercase(#[trigger] loopback_hosts()[i])
            == ascii_lowercase(host)) || (exists|i: int|
        0 <= i < extra.len() && ascii_lowercase(#[trigger] extra[i]) == ascii_lowercase(host))
}

pub fn is_allowed(host: &str, extra: &[String]) -> (res: bool)
    ensures
        res == allowed(host@, extra@.map_values(|s: String| s@)),
{
    let ghost ex = extra@.map_values(|s: String| s@);
    let loopback = ["localhost", "127.0.0.1", "[::1]", "::1"];
    assert(loopback@.map_values(|s: &str| s@) == loopback_hosts());
    let mut i: usize = 0;
    while i < 4
        invariant
            i <= 4,
            loopback@.map_values(|s: &str| s@) == loopback_hosts(),
            forall|j: int|
                0 <= j < i ==> ascii_lowercase(#[trigger] loopback_hosts()[j]) != ascii_lowercase(
                    host@,
                ),
        decreases 4 - i,
    {
        if eq_ignore_ascii_case(loopback[i], host) {
            assert(loopback_hosts()[i as int] == loopback@[i as int]@);
            return true;
        }
        assert(loopback_hosts()[i as int] == loopback@[i as int]@);
        i += 1;
    }
    let mut j: usize = 0;
    while j < extra.len()
        invariant
            j <= extra@.len(),
            ex == extra@.map_values(|s: String| s@),
            forall|k: int|
                0 <= k < loopback_hosts().len() ==> ascii_lowercase(#[trigger] loopback_hosts()[k])
                    != ascii_lowercase(host@),
            forall|k: int|
                0 <= k < j ==> ascii_lowercase(#[trigger] ex[k]) != ascii_lowercase(host@),
        decreases extra.len() - j,
    {
        if eq_ignore_ascii_case(extra[j].as_str(), host) {
            assert(ex[j as int] == extra@[j as int]@);
            return true;
        }
        assert(ex[j as int] == extra@[j as int]@);
        j += 1;
    }
    false
}

/// What an `Authorization` header carries as a bearer token: what follows
/// `Bearer `, trimmed.
pub open spec fn bearer_of(authorization: Seq<char>) -> Option<Seq<char>> {
    if authorization.len() >= 7 && authorization.take(7) == "Bearer "@ {
        Some(trimmed(authorization.skip(7)))
    } else {
        None
    }
}

/// A request carries the token: as a bearer token, or else as the
/// `token` query parameter.
pub open spec fn carries(authorization: Option<Seq<char>>, query_token: Option<Seq<char>>, expected: Seq<char>) -> bool {
    (authorization matches Some(a) && bearer_of(a) == Some(expected)) || (query_token matches Some(
        q,
    ) && q == expected)
}

pub open spec fn opt_view(o: Option<&str>) -> Option<Seq<char>> {
    match o {
        Some(s) => Some(s@),
        None => None,
    }
}

fn bearer(authorization: &str) -> (res: Option<&str>)
    ensures
        match bearer_of(authorization@) {
            Some(t) => res matches Some(r) && r@ == t,
            None => res is None,
        },
{
    let prefix = "Bearer ";
    proof {
        reveal_strlit("Bearer ");
    }
    let n = authorization.unicode_len();
    if n < 7 {
        return None;
    }
    let mut i: usize = 0;
    while i < 7
        invariant
            n == authorization@.len(),
            n >= 7,
            prefix@ == "Bearer "@,
            prefix@.len() == 7,
            i <= 7,
            forall|j: int| 0 <= j < i ==> authorization@[j] == prefix@[j],
        decreases 7 - i,
    {
        if authorization.get_char(i) != prefix.get_char(i) {
            assert(authorization@.take(7)[i as int] != prefix@[i as int]);
            return None;
        }
        i += 1;
    }
    assert(authorization@.take(7) =~= prefix@);
    let rest = authorization.substring_char(7, n);
    assert(rest@ =~= authorization@.skip(7));
    Some(trim(rest))
}

/// Whether a request carries the expected token.
pub fn carries_token(authorization: Option<&str>, query_token: Option<&str>, expected: &str) -> (res: bool)
    ensures
        res == carries(opt_view(authorization), opt_view(query_token), expected@),
{
    let by_header = match authorization {
        Some(a) => match bearer(a) {
            Some(t) => constant_time_eq(t, expected),
            None => false,
        },
        None => false,
    };
    if by_header {
        return true;
    }
    match query_token {
        Some(q) => constant_time_eq(q, expected),
        None => false,
    }
}

/// What the guard does with a request.
#[derive(Debug, Clone, Copy, PartialEq, Eq)]
pub enum Verdict {
    Pass,
    /// Refused with this HTTP status and message.
    Reject(u16, &'static str),
}

/// The guard's verdict on a request: its `Host` and `Origin` headers, its
/// path, how it offers a token, the token the server expects if any, and
/// the host names allowed besides loopback.
pub open spec fn verdict_of(
    host: Option<Seq<char>>,
    origin: Option<Seq<char>>,
    path: Seq<char>,
    authorization: Option<Seq<char>>,
    query_token: Option<Seq<char>>,
    expected: Option<Seq<char>>,
    extra: Seq<Seq<char>>,
) -> (u16, Seq<char>) {
    if host matches Some(h) && !allowed(host_name_of(h), extra) {
        (421, "Unknown host"@)
    } else if origin matches Some(o) && !(origin_host_of(o) matches Some(oh) && allowed(oh, extra)) {
        (403, "Cross-origin requests are not allowed"@)
    } else if expected matches Some(t) && (path.len() >= 5 && path.take(5) == "/api/"@) && path
        != "/api/health"@ && !carries(authorization, query_token, t) {
        (401, "Missing or wrong token — send Authorization: Bearer <token>"@)
    } else {
        (200, seq![])
    }
}

fn starts_with_api(path: &str) -> (res: bool)
    ensures
        res == (path@.len() >= 5 && path@.take(5) == "/api/"@),
{
    let prefix = "/api/";
    proof {
        reveal_strlit("/api/");
    }
    let n = path.unicode_len();
    if n < 5 {
        return false;
    }
    let mut i: usize = 0;
    while i < 5
        invariant
            n == path@.len(),
            n >= 5,
            prefix@ == "/api/"@,
            prefix@.len() == 5,
            i <= 5,
            forall|j: int| 0 <= j < i ==> path@[j] == prefix@[j],
        decreases 5 - i,
    {
        if path.get_char(i) != prefix.get_char(i) {
            assert(path@.take(5)[i as int] != prefix@[i as int]);
            return false;
        }
        i += 1;
    }
    assert(path@.take(5) =~= prefix@);
    true
}

/// Whether the API lets a request through.
pub fn guard_verdict(
    host: Option<&str>,
    origin: Option<&str>,
    path: &str,
    authorization: Option<&str>,
    query_token: Option<&str>,
    expected: Option<&str>,
    extra: &[String],
) -> (res: Verdict)
    ensures
        ({
            let v = verdict_of(
                opt_view(host),
                opt_view(origin),
                path@,
                opt_view(authorization),
                opt_view(query_token),
                opt_view(expected),
                extra@.map_values(|s: String| s@),
            );
            if v.0 == 200 {
                res == Verdict::Pass
            } else {
                res matches Verdict::Reject(status, message) && status == v.0 && message@ == v.1
            }
        }),
{
    match host {
        Some(h) => if !is_allowed(host_name(h), extra) {
            return Verdict::Reject(421, "Unknown host");
        },
        None => {},
    }
    match origin {
        Some(o) => {
            let ok = match origin_host(o) {
                Some(oh) => is_allowed(oh, extra),
                None => false,
            };
            if !ok {
                return Verdict::Reject(403, "Cross-origin requests are not allowed");
            }
        },
        None => {},
    }
    match expected {
        Some(t) => {
            if starts_with_api(path) && !str_eq(path, "/api/health") && !carries_token(
                authorization,
                query_token,
                t,
            ) {
                return Verdict::Reject(
                    401,
                    "Missing or wrong token — send Authorization: Bearer <token>",
                );
            }
        },
        None => {},
    }
    Verdict::Pass
}

/// The health check answers without a token, and a server without a
/// token never asks for one: neither is refused for want of it.
pub proof fn lemma_token_needed_only_off_health(
    host: Option<Seq<char>>,
    origin: Option<Seq<char>>,
    path: Seq<char>,
    authorization: Option<Seq<char>>,
    query_token: Option<Seq<char>>,
    expected: Option<Seq<char>>,
    extra: Seq<Seq<char>>,
)
    requires
        path == "/api/health"@ || expected is None,
    ensures
        verdict_of(host, origin, path, authorization, query_token, expected, extra).0 != 401,
{
}

/// A request for another host is refused before anything else is looked
/// at, token or not.
pub proof fn lemma_foreign_hosts_refused(
    h: Seq<char>,
    origin: Option<Seq<char>>,
    path: Seq<char>,
    authorization: Option<Seq<char>>,
    query_token: Option<Seq<char>>,
    expected: Option<Seq<char>>,
    extra: Seq<Seq<char>>,
)
    requires
        !allowed(host_name_of(h), extra),
    ensures
        verdict_of(Some(h), origin, path, authorization, query_token, expected, extra).0 == 421,
{
}

} // verus!
