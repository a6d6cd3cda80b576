//! How `schemgen2 serve` is configured from its options and environment:
//! the port, the host names it answers to, its token, its default target
//! and its working folder.
use vstd::prelude::*;
use crate::guard::{host_name, host_name_of};
use crate::savedir::{env_lookup, env_views, env_var, folds_case, join, joined, Os};
use crate::text::{
    concat3, parse_u32, push_char, split_parts, str_eq, trim, trimmed, unsigned_value,
};
use crate::grid::views;

verus! {

/// The port a server listens on when none is given.
pub const DEFAULT_PORT: u16 = 3001;

/// What a `--port` value (or `PORT`) reads as.
pub open spec fn port_of(raw: Seq<char>) -> Option<u16> {
    match unsigned_value(trimmed(raw)) {
        Some(n) => if n <= u16::MAX {
            Some(n as u16)
        } else {
            None
        },
        None => None,
    }
}

/// The port `raw` names.
pub fn parse_port(raw: &str) -> (res: Result<u16, String>)
    ensures
        match port_of(raw@) {
            Some(p) => res == Ok::<u16, String>(p),
            None => (res matches Err(e) && e@ == "--port: '"@ + raw@ + "' is not a port number"@),
        },
{
    match parse_u32(trim(raw)) {
        Some(n) => if n <= 65535 {
            return Ok(n as u16);
        },
        None => {},
    }
    Err(concat3("--port: '", raw, "' is not a port number"))
}

/// Addresses that answer to no particular host name.
pub open spec fn generic_hosts() -> Seq<Seq<char>> {
    seq!["127.0.0.1"@, "localhost"@, "::1"@, "0.0.0.0"@, "::"@]
}

/// The host names of a comma-separated `--allow-host` list, blanks left out.
pub open spec fn listed_hosts(parts: Seq<Seq<char>>) -> Seq<Seq<char>>
    decreases parts.len(),
{
    if parts.len() == 0 {
        seq![]
    } else {
        let rest = listed_hosts(parts.drop_last());
        let h = host_name_of(parts.last());
        if h.len() == 0 {
            rest
        } else {
            rest.push(h)
        }
    }
}

/// The host names a server answers to besides loopback: those of
/// `--allow-host`, and the address it listens on unless that is a loopback
/// or wildcard address.
pub open spec fn allowed_hosts_of(allow: Option<Seq<char>>, host: Seq<char>) -> Seq<Seq<char>> {
    let listed = match allow {
        Some(a) => listed_hosts(split_parts(a, ',')),
        None => seq![],
    };
    if generic_hosts().contains(host) {
        listed
    } else {
        listed.push(host)
    }
}

fn push_host(out: &mut Vec<String>, part: &String)
    ensures
        views(final(out)@) == if host_name_of(part@).len() == 0 {
            views(old(out)@)
        } else {
            views(old(out)@).push(host_name_of(part@))
        },
{
    let h = host_name(part.as_str());
    if h.unicode_len() > 0 {
        let ghost before = views(out@);
        out.push(h.to_owned());
        assert(views(out@) =~= before.push(h@));
    }
}

fn is_generic_host(host: &str) -> (res: bool)
    ensures
        res == generic_hosts().contains(host@),
{
    let names = ["127.0.0.1", "localhost", "::1", "0.0.0.0", "::"];
    assert(names@.map_values(|s: &str| s@) =~= generic_hosts());
    let mut i: usize = 0;
    while i < 5
        invariant
            i <= 5,
            names@.map_values(|s: &str| s@) == generic_hosts(),
            forall|j: int| 0 <= j < i ==> generic_hosts()[j] != host@,
        decreases 5 - i,
    {
        assert(generic_hosts()[i as int] == names@[i as int]@);
        if str_eq(names[i], host) {
            return true;
        }
        i += 1;
    }
    false
}

/// The host names a server listening on `host` answers to, with
/// `--allow-host` given as `allow`.
pub fn allowed_hosts(allow: Option<&str>, host: &str) -> (res: Vec<String>)
    ensures
        views(res@) == allowed_hosts_of(
            match allow {
                Some(a) => Some(a@),
                None => None,
            },
            host@,
        ),
{
    let mut out: Vec<String> = Vec::new();
    match allow {
        Some(a) => {
            let n = a.unicode_len();
            let mut cur = String::new();
            let ghost mut done: Seq<Seq<char>> = seq![];
            let mut i: usize = 0;
            assert(views(out@) =~= listed_hosts(seq![]));
            while i < n
                invariant
                    n == a@.len(),
                    i <= n,
                    split_parts(a@.take(i as int), ',') == done.push(cur@),
                    views(out@) == listed_hosts(done),
                decreases n - i,
            {
                let c = a.get_char(i);
                assert(a@.take(i + 1).drop_last() =~= a@.take(i as int));
                if c == ',' {
                    push_host(&mut out, &cur);
                    proof {
                        assert(done.push(cur@).drop_last() =~= done);
                        done = done.push(cur@);
                    }
                    cur = String::new();
                    assert(split_parts(a@.take(i + 1), ',') =~= done.push(cur@));
                } else {
                    push_char(&mut cur, c);
                    assert(split_parts(a@.take(i + 1), ',') =~= done.push(cur@));
                }
                i += 1;
            }
            assert(a@.take(n as int) =~= a@);
            push_host(&mut out, &cur);
            assert(done.push(cur@).drop_last() =~= done);
        },
        None => {
            assert(views(out@) =~= Seq::<Seq<char>>::empty());
        },
    }
    if !is_generic_host(host) {
        let ghost before = views(out@);
        out.push(host.to_owned());
        assert(views(out@) =~= before.push(host@));
    }
    out
}

/// The first of `first` and `second` that is given and not blank, trimmed.
pub open spec fn first_given(first: Option<Seq<char>>, second: Option<Seq<char>>) -> Option<Seq<char>> {
    match first {
        Some(t) if trimmed(t).len() > 0 => Some(trimmed(t)),
        _ => match second {
            Some(t) if trimmed(t).len() > 0 => Some(trimmed(t)),
            _ => None,
        },
    }
}

pub open spec fn opt_str_view(o: Option<&str>) -> Option<Seq<char>> {
    match o {
        Some(s) => Some(s@),
        None => None,
    }
}

/// The API token given as `--token` or in `SCHEMGEN_TOKEN`, trimmed; a
/// blank one counts as none. (A token file is read only when both are
/// missing.)
pub fn given_token(arg: Option<&str>, env: Option<&str>) -> (res: Option<String>)
    ensures
        match first_given(opt_str_view(arg), opt_str_view(env)) {
            Some(t) => res matches Some(r) && r@ == t,
            None => res is None,
        },
{
    match arg {
        Some(t) => {
            let t = trim(t);
            if t.unicode_len() > 0 {
                return Some(t.to_owned());
            }
        },
        None => {},
    }
    match env {
        Some(t) => {
            let t = trim(t);
            if t.unicode_len() > 0 {
                return Some(t.to_owned());
            }
        },
        None => {},
    }
    None
}

/// The server's default target as given: `--target`, else
/// `SCHEMGEN_DATA_VERSION`; a blank one means none. It is taken as given,
/// untrimmed, for the settings to read.
pub fn given_target<'a>(arg: Option<&'a str>, env: Option<&'a str>) -> (res: Option<&'a str>)
    ensures
        res == match arg {
            Some(t) => if trimmed(t@).len() > 0 {
                Some(t)
            } else {
                None
            },
            None => match env {
                Some(t) => if trimmed(t@).len() > 0 {
                    Some(t)
                } else {
                    None
                },
                None => None,
            },
        },
{
    let chosen = match arg {
        Some(t) => Some(t),
        None => env,
    };
    match chosen {
        Some(t) => if trim(t).unicode_len() > 0 {
            Some(t)
        } else {
            None
        },
        None => None,
    }
}

/// A variable's value unless it is unset or empty.
pub open spec fn nonempty_var(env: Seq<(Seq<char>, Seq<char>)>, name: Seq<char>, fold: bool) -> Option<Seq<char>> {
    match env_lookup(env, name, fold) {
        Some(v) => if v.len() > 0 {
            Some(v)
        } else {
            None
        },
        None => None,
    }
}

/// Where the server keeps uploads and results: the platform's cache
/// folder (`%LOCALAPPDATA%`, `~/Library/Caches`, `$XDG_CACHE_HOME` or
/// `~/.cache`), else the temporary folder, with `schemgen2` inside.
pub open spec fn work_dir_of(env: Seq<(Seq<char>, Seq<char>)>, os: Os, temp: Seq<char>) -> Seq<char> {
    let fold = folds_case(os);
    let base = if os == Os::Windows {
        nonempty_var(env, "LOCALAPPDATA"@, fold)
    } else if os == Os::MacOs {
        match nonempty_var(env, "HOME"@, fold) {
            Some(h) => Some(joined(joined(h, "Library"@, os), "Caches"@, os)),
            None => None,
        }
    } else {
        match nonempty_var(env, "XDG_CACHE_HOME"@, fold) {
            Some(x) => Some(x),
            None => match nonempty_var(env, "HOME"@, fold) {
                Some(h) => Some(joined(h, ".cache"@, os)),
                None => None,
            },
        }
    };
    match base {
        Some(b) => joined(b, "schemgen2"@, os),
        None => joined(temp, "schemgen2"@, os),
    }
}

fn nonempty_var_exec<'a>(env: &'a [(String, String)], name: &str, os: Os) -> (res: Option<&'a str>)
    ensures
        match nonempty_var(env_views(env@), name@, folds_case(os)) {
            Some(v) => res matches Some(r) && r@ == v,
            None => res is None,
        },
{
    match env_var(env, name, os) {
        Some(v) => if v.unicode_len() > 0 {
            Some(v)
        } else {
            None
        },
        None => None,
    }
}

/// The server's working folder, from a snapshot of the environment, the
/// platform and its temporary folder.
pub fn default_work_dir(env: &[(String, String)], os: Os, temp: &str) -> (res: String)
    ensures
        res@ == work_dir_of(env_views(env@), os, temp@),
{
    let base: Option<String> = if os == Os::Windows {
        match nonempty_var_exec(env, "LOCALAPPDATA", os) {
            Some(v) => Some(v.to_owned()),
            None => None,
        }
    } else if os == Os::MacOs {
        match nonempty_var_exec(env, "HOME", os) {
            Some(h) => {
                let lib = join(h, "Library", os);
                Some(join(lib.as_str(), "Caches", os))
            },
            None => None,
        }
    } else {
        match nonempty_var_exec(env, "XDG_CACHE_HOME", os) {
            Some(x) => Some(x.to_owned()),
            None => match nonempty_var_exec(env, "HOME", os) {
                Some(h) => Some(join(h, ".cache", os)),
                None => None,
            },
        }
    };
    match base {
        Some(b) => join(b.as_str(), "schemgen2", os),
        None => join(temp, "schemgen2", os),
    }
}

} // verus!
