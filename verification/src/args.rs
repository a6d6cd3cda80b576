//! Command-line parsing: a command, operands, `--key value` options and
//! flags.
//!
//! `--key value`, `--key=value`, `-o value`, clustered short flags (`-qj`)
//! and a bare `--` terminator all work. An unknown long option is a usage
//! error rather than a silently ignored typo.
use vstd::prelude::*;
use crate::grid::views;
use crate::text::{
    chars_of, concat3, first_index, is_first, parse_u32, str_eq, string_of, string_of_range, trim,
    trimmed, unsigned_value, find_char,
};

verus! {

/// The parsed command line.
#[derive(Debug)]
pub struct ParsedArgs {
    pub command: String,
    pub positional: Vec<String>,
    /// Option values by long name, each name once, in first-seen order.
    pub opts: Vec<(String, String)>,
    /// Flags given, each once, in first-seen order.
    pub flags: Vec<String>,
}

/// What a parsed command line holds.
pub struct ArgsView {
    pub command: Seq<char>,
    pub positional: Seq<Seq<char>>,
    pub opts: Seq<(Seq<char>, Seq<char>)>,
    pub flags: Seq<Seq<char>>,
}

pub open spec fn pair_views(v: Seq<(String, String)>) -> Seq<(Seq<char>, Seq<char>)> {
    v.map_values(|p: (String, String)| (p.0@, p.1@))
}

impl View for ParsedArgs {
    type V = ArgsView;

    open spec fn view(&self) -> ArgsView {
        ArgsView {
            command: self.command@,
            positional: views(self.positional@),
            opts: pair_views(self.opts@),
            flags: views(self.flags@),
        }
    }
}

/// Where `k` is among the option names, first occurrence.
pub open spec fn key_index(opts: Seq<(Seq<char>, Seq<char>)>, k: Seq<char>) -> Option<int>
    decreases opts.len(),
{
    if opts.len() == 0 {
        None
    } else {
        match key_index(opts.drop_last(), k) {
            Some(i) => Some(i),
            None => if opts.last().0 == k {
                Some(opts.len() - 1)
            } else {
                None
            },
        }
    }
}

/// Set option `k` to `v`: in place where it was given before, else last.
pub open spec fn opt_insert(opts: Seq<(Seq<char>, Seq<char>)>, k: Seq<char>, v: Seq<char>) -> Seq<
    (Seq<char>, Seq<char>),
> {
    match key_index(opts, k) {
        Some(i) => opts.update(i, (k, v)),
        None => opts.push((k, v)),
    }
}

/// Add flag `f` unless it is there.
pub open spec fn flag_insert(flags: Seq<Seq<char>>, f: Seq<char>) -> Seq<Seq<char>> {
    if flags.contains(f) {
        flags
    } else {
        flags.push(f)
    }
}

impl ArgsView {
    pub open spec fn empty() -> ArgsView {
        ArgsView { command: seq![], positional: seq![], opts: seq![], flags: seq![] }
    }

    pub open spec fn with_opt(self, k: Seq<char>, v: Seq<char>) -> ArgsView {
        ArgsView { opts: opt_insert(self.opts, k, v), ..self }
    }

    pub open spec fn with_flag(self, f: Seq<char>) -> ArgsView {
        ArgsView { flags: flag_insert(self.flags, f), ..self }
    }

    pub open spec fn with_positional(self, a: Seq<char>) -> ArgsView {
        ArgsView { positional: self.positional.push(a), ..self }
    }

    pub open spec fn with_command(self, a: Seq<char>) -> ArgsView {
        ArgsView { command: a, ..self }
    }
}

/// Long options that consume a value.
pub open spec fn takes_value(k: Seq<char>) -> bool {
    ||| k == "output"@
    ||| k == "out-dir"@
    ||| k == "name"@
    ||| k == "target"@
    ||| k == "data-version"@
    ||| k == "format"@
    ||| k == "max-size"@
    ||| k == "voxel-size"@
    ||| k == "ram-limit"@
    ||| k == "threads"@
    ||| k == "block"@
    ||| k == "brightness"@
    ||| k == "contrast"@
    ||| k == "saturation"@
    ||| k == "light-dir"@
    ||| k == "light-ambient"@
    ||| k == "light-gloss"@
    ||| k == "specular"@
    ||| k == "highlight-rejection"@
    ||| k == "highlight-recovery"@
    ||| k == "delight"@
    ||| k == "port"@
    ||| k == "host"@
    ||| k == "allow-host"@
    ||| k == "token"@
    ||| k == "token-file"@
    ||| k == "work-dir"@
    ||| k == "ui-dir"@
    ||| k == "job-ttl"@
    ||| k == "max-jobs"@
    ||| k == "pid-file"@
    ||| k == "python"@
    ||| k == "palette"@
}

/// Long options that are flags.
pub open spec fn known_flag(k: Seq<char>) -> bool {
    ||| k == "no-dither"@
    ||| k == "no-color"@
    ||| k == "quiet"@
    ||| k == "json"@
    ||| k == "help"@
    ||| k == "version"@
    ||| k == "exit-with-stdin"@
}

/// One-letter aliases: the long name, and whether it takes a value.
pub open spec fn short_opt(c: char) -> Option<(Seq<char>, bool)> {
    if c == 'o' {
        Some(("output"@, true))
    } else if c == 'd' {
        Some(("out-dir"@, true))
    } else if c == 'n' {
        Some(("name"@, true))
    } else if c == 't' {
        Some(("target"@, true))
    } else if c == 'f' {
        Some(("format"@, true))
    } else if c == 'p' {
        Some(("port"@, true))
    } else if c == 'q' {
        Some(("quiet"@, false))
    } else if c == 'j' {
        Some(("json"@, false))
    } else if c == 'h' {
        Some(("help"@, false))
    } else if c == 'V' {
        Some(("version"@, false))
    } else {
        None
    }
}

/// A long option split at its first `=` into name and inline value.
pub open spec fn split_eq(long: Seq<char>) -> (Seq<char>, Option<Seq<char>>) {
    match first_index(long, '=') {
        Some(k) => (long.take(k), Some(long.skip(k + 1))),
        None => (long, None),
    }
}

/// A cluster of short options from `pos` on: the state after it, and
/// whether the next argument was taken as a value.
pub open spec fn cluster(chars: Seq<char>, pos: int, next: Option<Seq<char>>, m: ArgsView) -> Result<
    (ArgsView, bool),
    Seq<char>,
>
    decreases chars.len() - pos,
{
    if pos < 0 || pos >= chars.len() {
        Ok((m, false))
    } else {
        let c = chars[pos];
        match short_opt(c) {
            None => Err("unknown option -"@.push(c)),
            Some(o) => if o.1 {
                let tail = chars.skip(pos + 1);
                if tail.len() == 0 {
                    match next {
                        Some(v) => Ok((m.with_opt(o.0, v), true)),
                        None => Err(seq!['-', c] + " needs a value"@),
                    }
                } else {
                    Ok((m.with_opt(o.0, tail), false))
                }
            } else {
                cluster(chars, pos + 1, next, m.with_flag(o.0))
            },
        }
    }
}

/// The arguments from `i` on, given the state so far and whether `--` has
/// been seen.
pub open spec fn parse_from(argv: Seq<Seq<char>>, i: int, m: ArgsView, rest: bool) -> Result<
    ArgsView,
    Seq<char>,
>
    decreases argv.len() - i,
{
    if i < 0 || i >= argv.len() {
        Ok(m)
    } else {
        let arg = argv[i];
        let next = if i + 1 < argv.len() {
            Some(argv[i + 1])
        } else {
            None
        };
        if rest {
            parse_from(argv, i + 1, m.with_positional(arg), true)
        } else if arg == "--"@ {
            parse_from(argv, i + 1, m, true)
        } else if arg.len() >= 2 && arg[0] == '-' && arg[1] == '-' {
            let key = split_eq(arg.skip(2)).0;
            let inline = split_eq(arg.skip(2)).1;
            if takes_value(key) {
                match inline {
                    Some(v) => parse_from(argv, i + 1, m.with_opt(key, v), false),
                    None => if i + 1 < argv.len() {
                        parse_from(argv, i + 2, m.with_opt(key, argv[i + 1]), false)
                    } else {
                        Err("--"@ + key + " needs a value"@)
                    },
                }
            } else if inline is Some {
                Err("--"@ + key + " does not take a value"@)
            } else if known_flag(key) {
                parse_from(argv, i + 1, m.with_flag(key), false)
            } else {
                Err("unknown option --"@ + key)
            }
        } else if arg.len() > 1 && arg[0] == '-' {
            match cluster(arg.skip(1), 0, next, m) {
                Ok(r) => if r.1 && i + 1 < argv.len() {
                    parse_from(argv, i + 2, r.0, false)
                } else {
                    parse_from(argv, i + 1, r.0, false)
                },
                Err(e) => Err(e),
            }
        } else if m.command.len() == 0 && m.positional.len() == 0 {
            parse_from(argv, i + 1, m.with_command(arg), false)
        } else {
            parse_from(argv, i + 1, m.with_positional(arg), false)
        }
    }
}

/// What `parse` makes of `argv`: the parsed line, or the usage error.
pub open spec fn parse_spec(argv: Seq<Seq<char>>) -> Result<ArgsView, Seq<char>> {
    parse_from(argv, 0, ArgsView::empty(), false)
}

fn takes_value_exec(k: &str) -> (res: bool)
    ensures
        res == takes_value(k@),
{
    str_eq(k, "output") || str_eq(k, "out-dir") || str_eq(k, "name") || str_eq(k, "target")
        || str_eq(k, "data-version") || str_eq(k, "format") || str_eq(k, "max-size") || str_eq(
        k,
        "voxel-size",
    ) || str_eq(k, "ram-limit") || str_eq(k, "threads") || str_eq(k, "block") || str_eq(
        k,
        "brightness",
    ) || str_eq(k, "contrast") || str_eq(k, "saturation") || str_eq(k, "light-dir") || str_eq(
        k,
        "light-ambient",
    ) || str_eq(k, "light-gloss") || str_eq(k, "specular") || str_eq(k, "highlight-rejection")
        || str_eq(k, "highlight-recovery") || str_eq(k, "delight") || str_eq(k, "port") || str_eq(
        k,
        "host",
    ) || str_eq(k, "allow-host") || str_eq(k, "token") || str_eq(k, "token-file") || str_eq(
        k,
        "work-dir",
    ) || str_eq(k, "ui-dir") || str_eq(k, "job-ttl") || str_eq(k, "max-jobs") || str_eq(
        k,
        "pid-file",
    ) || str_eq(k, "python") || str_eq(k, "palette")
}

/// Whether `name` is a long flag.
pub fn is_known_flag(name: &str) -> (res: bool)
    ensures
        res == known_flag(name@),
{
    str_eq(name, "no-dither") || str_eq(name, "no-color") || str_eq(name, "quiet") || str_eq(
        name,
        "json",
    ) || str_eq(name, "help") || str_eq(name, "version") || str_eq(name, "exit-with-stdin")
}

fn short_opt_exec(c: char) -> (res: Option<(&'static str, bool)>)
    ensures
        match short_opt(c) {
            Some(o) => res matches Some(r) && r.0@ == o.0 && r.1 == o.1,
            None => res is None,
        },
{
    if c == 'o' {
        Some(("output", true))
    } else if c == 'd' {
        Some(("out-dir", true))
    } else if c == 'n' {
        Some(("name", true))
    } else if c == 't' {
        Some(("target", true))
    } else if c == 'f' {
        Some(("format", true))
    } else if c == 'p' {
        Some(("port", true))
    } else if c == 'q' {
        Some(("quiet", false))
    } else if c == 'j' {
        Some(("json", false))
    } else if c == 'h' {
        Some(("help", false))
    } else if c == 'V' {
        Some(("version", false))
    } else {
        None
    }
}

pub proof fn lemma_key_index_bound(opts: Seq<(Seq<char>, Seq<char>)>, k: Seq<char>)
    ensures
        key_index(opts, k) matches Some(i) ==> 0 <= i < opts.len() && opts[i].0 == k,
        key_index(opts, k) is None ==> forall|j: int| 0 <= j < opts.len() ==> opts[j].0 != k,
    decreases opts.len(),
{
    if opts.len() > 0 {
        lemma_key_index_bound(opts.drop_last(), k);
        assert forall|j: int| 0 <= j < opts.len() - 1 implies opts[j] == opts.drop_last()[j] by {}
    }
}

proof fn lemma_key_index_first(opts: Seq<(Seq<char>, Seq<char>)>, k: Seq<char>, i: int)
    requires
        0 <= i < opts.len(),
        opts[i].0 == k,
        forall|j: int| 0 <= j < i ==> opts[j].0 != k,
    ensures
        key_index(opts, k) == Some(i),
    decreases opts.len(),
{
    if i < opts.len() - 1 {
        lemma_key_index_first(opts.drop_last(), k, i);
    } else {
        lemma_key_index_bound(opts.drop_last(), k);
    }
}

/// Where `key` is first held among `pairs`.
pub(crate) fn pair_index(pairs: &Vec<(String, String)>, key: &str) -> (res: Option<usize>)
    ensures
        res matches Some(j) ==> key_index(pair_views(pairs@), key@) == Some(j as int),
        res is None ==> key_index(pair_views(pairs@), key@) is None,
{
    let ghost ov = pair_views(pairs@);
    let mut j: usize = 0;
    while j < pairs.len()
        invariant
            ov == pair_views(pairs@),
            j <= pairs@.len(),
            forall|q: int| 0 <= q < j ==> ov[q].0 != key@,
        decreases pairs.len() - j,
    {
        if str_eq(pairs[j].0.as_str(), key) {
            proof {
                lemma_key_index_first(ov, key@, j as int);
            }
            return Some(j);
        }
        j += 1;
    }
    proof {
        lemma_key_index_bound(ov, key@);
        if key_index(ov, key@) is Some {
            assert(false);
        }
    }
    None
}

impl ParsedArgs {
    /// A line with nothing on it.
    pub fn new() -> (res: Self)
        ensures
            res@ == ArgsView::empty(),
    {
        let res = ParsedArgs {
            command: String::new(),
            positional: Vec::new(),
            opts: Vec::new(),
            flags: Vec::new(),
        };
        assert(res@.positional =~= seq![]);
        assert(res@.opts =~= seq![]);
        assert(res@.flags =~= seq![]);
        res
    }

    /// Where option `key` is held.
    fn find_opt(&self, key: &str) -> (res: Option<usize>)
        ensures
            res matches Some(j) ==> key_index(self@.opts, key@) == Some(j as int),
            res is None ==> key_index(self@.opts, key@) is None,
    {
        pair_index(&self.opts, key)
    }

    /// Whether flag `flag` was given.
    pub fn has(&self, flag: &str) -> (res: bool)
        ensures
            res == self@.flags.contains(flag@),
    {
        let ghost fv = self@.flags;
        let mut j: usize = 0;
        while j < self.flags.len()
            invariant
                fv == views(self.flags@),
                j <= self.flags@.len(),
                forall|q: int| 0 <= q < j ==> fv[q] != flag@,
            decreases self.flags.len() - j,
        {
            if str_eq(self.flags[j].as_str(), flag) {
                assert(fv[j as int] == flag@);
                return true;
            }
            j += 1;
        }
        false
    }

    /// The value of option `key`.
    pub fn get(&self, key: &str) -> (res: Option<&str>)
        ensures
            match key_index(self@.opts, key@) {
                Some(i) => res matches Some(v) && v@ == self@.opts[i].1,
                None => res is None,
            },
    {
        match self.find_opt(key) {
            Some(j) => {
                proof {
                    lemma_key_index_bound(self@.opts, key@);
                }
                assert(pair_views(self.opts@)[j as int] == (self.opts@[j as int].0@, self.opts@[
                    j as int].1@));
                let v = self.opts[j].1.as_str();
                assert(key_index(self@.opts, key@) == Some(j as int));
                assert(v@ == self@.opts[j as int].1);
                Some(v)
            },
            None => None,
        }
    }

    /// Option `key` as a whole number: `default` when it is absent, an error
    /// naming the option when it is not a number.
    pub fn number(&self, key: &str, default: u32) -> (res: Result<u32, String>)
        ensures
            match key_index(self@.opts, key@) {
                None => res == Ok::<u32, String>(default),
                Some(i) => match unsigned_value(trimmed(self@.opts[i].1)) {
                    Some(v) => if v <= u32::MAX {
                        res == Ok::<u32, String>(v as u32)
                    } else {
                        res matches Err(e) && e@ == "--"@ + key@ + ": '"@ + self@.opts[i].1
                            + "' is not a number"@
                    },
                    None => res matches Err(e) && e@ == "--"@ + key@ + ": '"@ + self@.opts[i].1
                        + "' is not a number"@,
                },
            },
    {
        match self.get(key) {
            None => Ok(default),
            Some(raw) => match parse_u32(trim(raw)) {
                Some(v) => Ok(v),
                None => {
                    let mut e = concat3("--", key, ": '");
                    crate::text::push_str(&mut e, raw);
                    crate::text::push_str(&mut e, "' is not a number");
                    Err(e)
                },
            },
        }
    }

    /// Option `key` as a count (`usize`): `default` when it is absent, an
    /// error naming the option when it is not a number that fits.
    pub fn number_usize(&self, key: &str, default: usize) -> (res: Result<usize, String>)
        ensures
            match key_index(self@.opts, key@) {
                None => res == Ok::<usize, String>(default),
                Some(i) => match unsigned_value(trimmed(self@.opts[i].1)) {
                    Some(v) => if v <= usize::MAX {
                        res == Ok::<usize, String>(v as usize)
                    } else {
                        res matches Err(e) && e@ == "--"@ + key@ + ": '"@ + self@.opts[i].1
                            + "' is not a number"@
                    },
                    None => res matches Err(e) && e@ == "--"@ + key@ + ": '"@ + self@.opts[i].1
                        + "' is not a number"@,
                },
            },
    {
        match self.get(key) {
            None => Ok(default),
            Some(raw) => match crate::text::parse_usize(trim(raw)) {
                Some(v) => Ok(v),
                None => {
                    let mut e = concat3("--", key, ": '");
                    crate::text::push_str(&mut e, raw);
                    crate::text::push_str(&mut e, "' is not a number");
                    Err(e)
                },
            },
        }
    }

    fn insert_opt(&mut self, key: String, value: String)
        ensures
            final(self)@ == old(self)@.with_opt(key@, value@),
    {
        let ghost before = self@;
        proof {
            lemma_key_index_bound(before.opts, key@);
        }
        match self.find_opt(key.as_str()) {
            Some(j) => {
                let ghost k = key@;
                let ghost v = value@;
                self.opts.set(j, (key, value));
                assert(pair_views(self.opts@) =~= before.opts.update(j as int, (k, v)));
            },
            None => {
                let ghost k = key@;
                let ghost v = value@;
                self.opts.push((key, value));
                assert(pair_views(self.opts@) =~= before.opts.push((k, v)));
            },
        }
        assert(self@.positional == before.positional);
        assert(self@.flags == before.flags);
    }

    fn insert_flag(&mut self, flag: String)
        ensures
            final(self)@ == old(self)@.with_flag(flag@),
    {
        let ghost before = self@;
        if !self.has(flag.as_str()) {
            let ghost f = flag@;
            self.flags.push(flag);
            assert(views(self.flags@) =~= before.flags.push(f));
        }
        assert(self@.positional == before.positional);
        assert(self@.opts == before.opts);
    }

    fn push_positional(&mut self, arg: String)
        ensures
            final(self)@ == old(self)@.with_positional(arg@),
    {
        let ghost before = self@;
        let ghost a = arg@;
        self.positional.push(arg);
        assert(views(self.positional@) =~= before.positional.push(a));
        assert(self@.opts == before.opts);
        assert(self@.flags == before.flags);
    }
}

/// One cluster of short options: the arguments' state after it, and
/// whether it took `next` as a value.
fn parse_cluster(out: &mut ParsedArgs, chars: &Vec<char>, next: Option<&String>) -> (res: Result<
    bool,
    String,
>)
    ensures
        match cluster(
            chars@,
            0,
            match next {
                Some(s) => Some(s@),
                None => None,
            },
            old(out)@,
        ) {
            Ok(r) => res == Ok::<bool, String>(r.1) && final(out)@ == r.0,
            Err(e) => res matches Err(s) && s@ == e,
        },
{
    let ghost nv: Option<Seq<char>> = match next {
        Some(s) => Some(s@),
        None => None,
    };
    let mut pos: usize = 0;
    while pos < chars.len()
        invariant
            pos <= chars@.len(),
            nv == (match next {
                Some(s) => Some(s@),
                None => None::<Seq<char>>,
            }),
            cluster(chars@, pos as int, nv, out@) == cluster(chars@, 0, nv, old(out)@),
        decreases chars.len() - pos,
    {
        let c = chars[pos];
        match short_opt_exec(c) {
            None => {
                let mut e = String::new();
                crate::text::push_str(&mut e, "unknown option -");
                crate::text::push_char(&mut e, c);
                return Err(e);
            },
            Some((name, takes)) => {
                if takes {
                    if pos + 1 == chars.len() {
                        assert(chars@.skip(pos + 1).len() == 0);
                        match next {
                            Some(v) => {
                                out.insert_opt(name.to_owned(), v.clone());
                                return Ok(true);
                            },
                            None => {
                                let mut e = String::new();
                                crate::text::push_char(&mut e, '-');
                                crate::text::push_char(&mut e, c);
                                crate::text::push_str(&mut e, " needs a value");
                                assert(e@ =~= seq!['-', c] + " needs a value"@);
                                return Err(e);
                            },
                        }
                    } else {
                        let tail = string_of_range(chars.as_slice(), pos + 1, chars.len());
                        assert(tail@ == chars@.skip(pos + 1));
                        out.insert_opt(name.to_owned(), tail);
                        return Ok(false);
                    }
                } else {
                    out.insert_flag(name.to_owned());
                }
            },
        }
        pos += 1;
    }
    Ok(false)
}

/// Split argv (without the program name) into a command, options and
/// operands.
pub fn parse(argv: &[String]) -> (res: Result<ParsedArgs, String>)
    ensures
        match parse_spec(views(argv@)) {
            Ok(m) => res matches Ok(a) && a@ == m,
            Err(e) => res matches Err(s) && s@ == e,
        },
{
    let ghost av = views(argv@);
    let mut out = ParsedArgs::new();
    let mut rest = false;
    let mut i: usize = 0;
    while i < argv.len()
        invariant
            av == views(argv@),
            i <= argv@.len(),
            parse_from(av, i as int, out@, rest) == parse_spec(av),
        decreases argv.len() - i,
    {
        let arg = argv[i].clone();
        assert(arg@ == av[i as int]);
        if rest {
            out.push_positional(arg);
            i += 1;
            continue;
        }
        if str_eq(arg.as_str(), "--") {
            rest = true;
            i += 1;
            continue;
        }
        let cs = chars_of(arg.as_str());
        if cs.len() >= 2 && cs[0] == '-' && cs[1] == '-' {
            let long = string_of_range(cs.as_slice(), 2, cs.len());
            assert(long@ == av[i as int].skip(2));
            let lcs = chars_of(long.as_str());
            let (key, inline) = match find_char(lcs.as_slice(), '=') {
                Some(k) => (
                    string_of_range(lcs.as_slice(), 0, k),
                    Some(string_of_range(lcs.as_slice(), k + 1, lcs.len())),
                ),
                None => (string_of(lcs.as_slice()), None),
            };
            assert(key@ == split_eq(long@).0);
            assert(match inline {
                Some(v) => split_eq(long@).1 == Some(v@),
                None => split_eq(long@).1 is None,
            });
            if takes_value_exec(key.as_str()) {
                match inline {
                    Some(v) => {
                        out.insert_opt(key, v);
                        i += 1;
                    },
                    None => {
                        if i + 1 < argv.len() {
                            let v = argv[i + 1].clone();
                            assert(v@ == av[i + 1]);
                            out.insert_opt(key, v);
                            i += 2;
                        } else {
                            return Err(concat3("--", key.as_str(), " needs a value"));
                        }
                    },
                }
            } else if inline.is_some() {
                return Err(concat3("--", key.as_str(), " does not take a value"));
            } else if is_known_flag(key.as_str()) {
                out.insert_flag(key);
                i += 1;
            } else {
                proof {
                    reveal_strlit("");
                }
                let e = concat3("unknown option --", key.as_str(), "");
                assert(e@ =~= "unknown option --"@ + key@);
                return Err(e);
            }
            continue;
        }
        if cs.len() > 1 && cs[0] == '-' {
            let rest_chars = chars_of(string_of_range(cs.as_slice(), 1, cs.len()).as_str());
            assert(rest_chars@ == av[i as int].skip(1));
            let next = if i + 1 < argv.len() {
                Some(&argv[i + 1])
            } else {
                None
            };
            let r = parse_cluster(&mut out, &rest_chars, next);
            match r {
                Ok(used) => {
                    if used && i + 1 < argv.len() {
                        i += 2;
                    } else {
                        i += 1;
                    }
                },
                Err(e) => {
                    return Err(e);
                },
            }
            continue;
        }
        if out.command.unicode_len() == 0 && out.positional.len() == 0 {
            out.command = arg;
        } else {
            out.push_positional(arg);
        }
        i += 1;
    }
    Ok(out)
}

// ── One-letter options stand for their long names ───────────────────────

/// What follows position `i` is all that the rest of the parse reads: two
/// lines that agree from `i` on parse alike from there.
proof fn lemma_parse_from_suffix(a: Seq<Seq<char>>, b: Seq<Seq<char>>, i: int, m: ArgsView, r: bool)
    requires
        0 <= i,
        a.len() == b.len(),
        forall|j: int| i <= j < a.len() ==> a[j] == b[j],
    ensures
        parse_from(a, i, m, r) == parse_from(b, i, m, r),
    decreases a.len() - i,
{
    if i < a.len() {
        let arg = a[i];
        assert(b[i] == arg);
        let next = if i + 1 < a.len() { Some(a[i + 1]) } else { None::<Seq<char>> };
        if i + 1 < a.len() {
            assert(a[i + 1] == b[i + 1]);
        }
        if r {
            lemma_parse_from_suffix(a, b, i + 1, m.with_positional(arg), true);
        } else if arg == "--"@ {
            lemma_parse_from_suffix(a, b, i + 1, m, true);
        } else if arg.len() >= 2 && arg[0] == '-' && arg[1] == '-' {
            let key = split_eq(arg.skip(2)).0;
            let inline = split_eq(arg.skip(2)).1;
            if takes_value(key) {
                match inline {
                    Some(v) => lemma_parse_from_suffix(a, b, i + 1, m.with_opt(key, v), false),
                    None => if i + 1 < a.len() {
                        lemma_parse_from_suffix(a, b, i + 2, m.with_opt(key, a[i + 1]), false);
                    },
                }
            } else if inline is None && known_flag(key) {
                lemma_parse_from_suffix(a, b, i + 1, m.with_flag(key), false);
            }
        } else if arg.len() > 1 && arg[0] == '-' {
            match cluster(arg.skip(1), 0, next, m) {
                Ok(p) => if p.1 && i + 1 < a.len() {
                    lemma_parse_from_suffix(a, b, i + 2, p.0, false);
                } else {
                    lemma_parse_from_suffix(a, b, i + 1, p.0, false);
                },
                Err(e) => {},
            }
        } else if m.command.len() == 0 && m.positional.len() == 0 {
            lemma_parse_from_suffix(a, b, i + 1, m.with_command(arg), false);
        } else {
            lemma_parse_from_suffix(a, b, i + 1, m.with_positional(arg), false);
        }
    }
}

/// `--k` spelled out: no `=` in it, so it carries no inline value.
proof fn lemma_long_spelling(k: Seq<char>)
    requires
        !k.contains('='),
    ensures
        ("--"@ + k).len() >= 2,
        ("--"@ + k)[0] == '-' && ("--"@ + k)[1] == '-',
        ("--"@ + k).skip(2) == k,
        split_eq(k) == (k, None::<Seq<char>>),
{
    reveal_strlit("--");
    assert(("--"@ + k).skip(2) =~= k);
    if exists|j: int| is_first(k, '=', j) {
        let j = choose|j: int| is_first(k, '=', j);
        assert(k.contains('='));
    }
}

/// A one-letter option that takes a value, followed by that value, parses
/// as its long name followed by the value.
proof fn lemma_short_value_option(a: Seq<Seq<char>>, i: int, m: ArgsView, c: char, k: Seq<char>)
    requires
        0 <= i,
        i + 1 < a.len(),
        a[i] == seq!['-', c],
        short_opt(c) == Some((k, true)),
        takes_value(k),
        !k.contains('='),
        k.len() > 0,
    ensures
        parse_from(a, i, m, false) == parse_from(a.update(i, "--"@ + k), i, m, false),
{
    let b = a.update(i, "--"@ + k);
    lemma_long_spelling(k);
    reveal_strlit("--");
    lemma_parse_from_suffix(a, b, i + 2, m.with_opt(k, a[i + 1]), false);
    assert(a[i] != "--"@);
    assert(b[i] != "--"@) by {
        assert(b[i].len() == k.len() + 2);
    }
    let chars = a[i].skip(1);
    assert(chars =~= seq![c]);
    assert(chars.skip(1).len() == 0);
    assert(cluster(chars, 0, Some(a[i + 1]), m) == Ok::<(ArgsView, bool), Seq<char>>(
        (m.with_opt(k, a[i + 1]), true),
    ));
    assert(b[i + 1] == a[i + 1]);
}

/// A one-letter flag parses as its long name.
proof fn lemma_short_flag(a: Seq<Seq<char>>, i: int, m: ArgsView, c: char, k: Seq<char>)
    requires
        0 <= i < a.len(),
        a[i] == seq!['-', c],
        short_opt(c) == Some((k, false)),
        !takes_value(k),
        known_flag(k),
        !k.contains('='),
        k.len() > 0,
    ensures
        parse_from(a, i, m, false) == parse_from(a.update(i, "--"@ + k), i, m, false),
{
    let b = a.update(i, "--"@ + k);
    lemma_long_spelling(k);
    reveal_strlit("--");
    lemma_parse_from_suffix(a, b, i + 1, m.with_flag(k), false);
    assert(a[i] != "--"@);
    assert(b[i] != "--"@) by {
        assert(b[i].len() == k.len() + 2);
    }
    let chars = a[i].skip(1);
    assert(chars =~= seq![c]);
    assert(cluster(chars, 1, if i + 1 < a.len() { Some(a[i + 1]) } else { None }, m.with_flag(k))
        == Ok::<(ArgsView, bool), Seq<char>>((m.with_flag(k), false)));
}

/// `-d v` is `--out-dir v`, wherever it stands as an option.
pub proof fn lemma_short_d_is_out_dir(a: Seq<Seq<char>>, i: int, m: ArgsView)
    requires
        0 <= i,
        i + 1 < a.len(),
        a[i] == "-d"@,
    ensures
        parse_from(a, i, m, false) == parse_from(a.update(i, "--out-dir"@), i, m, false),
{
    reveal_strlit("-d");
    reveal_strlit("out-dir");
    reveal_strlit("--out-dir");
    reveal_strlit("--");
    reveal_strlit("output");
    assert(a[i] =~= seq!['-', 'd']);
    assert("--"@ + "out-dir"@ =~= "--out-dir"@);
    lemma_short_value_option(a, i, m, 'd', "out-dir"@);
}

/// `--quiet` takes no value.
proof fn lemma_quiet_takes_no_value()
    ensures
        !takes_value("quiet"@),
{
    reveal_strlit("quiet");
    reveal_strlit("output");
    assert("quiet"@.len() != "output"@.len());
    reveal_strlit("out-dir");
    assert("quiet"@.len() != "out-dir"@.len());
    reveal_strlit("name");
    assert("quiet"@.len() != "name"@.len());
    reveal_strlit("target");
    assert("quiet"@.len() != "target"@.len());
    reveal_strlit("data-version");
    assert("quiet"@.len() != "data-version"@.len());
    reveal_strlit("format");
    assert("quiet"@.len() != "format"@.len());
    reveal_strlit("max-size");
    assert("quiet"@.len() != "max-size"@.len());
    reveal_strlit("voxel-size");
    assert("quiet"@.len() != "voxel-size"@.len());
    reveal_strlit("ram-limit");
    assert("quiet"@.len() != "ram-limit"@.len());
    reveal_strlit("threads");
    assert("quiet"@.len() != "threads"@.len());
    reveal_strlit("block");
    assert("quiet"@[0] != "block"@[0]);
    reveal_strlit("brightness");
    assert("quiet"@.len() != "brightness"@.len());
    reveal_strlit("contrast");
    assert("quiet"@.len() != "contrast"@.len());
    reveal_strlit("saturation");
    assert("quiet"@.len() != "saturation"@.len());
    reveal_strlit("light-dir");
    assert("quiet"@.len() != "light-dir"@.len());
    reveal_strlit("light-ambient");
    assert("quiet"@.len() != "light-ambient"@.len());
    reveal_strlit("light-gloss");
    assert("quiet"@.len() != "light-gloss"@.len());
    reveal_strlit("specular");
    assert("quiet"@.len() != "specular"@.len());
    reveal_strlit("highlight-rejection");
    assert("quiet"@.len() != "highlight-rejection"@.len());
    reveal_strlit("highlight-recovery");
    assert("quiet"@.len() != "highlight-recovery"@.len());
    reveal_strlit("delight");
    assert("quiet"@.len() != "delight"@.len());
    reveal_strlit("port");
    assert("quiet"@.len() != "port"@.len());
    reveal_strlit("host");
    assert("quiet"@.len() != "host"@.len());
    reveal_strlit("allow-host");
    assert("quiet"@.len() != "allow-host"@.len());
    reveal_strlit("token");
    assert("quiet"@[0] != "token"@[0]);
    reveal_strlit("token-file");
    assert("quiet"@.len() != "token-file"@.len());
    reveal_strlit("work-dir");
    assert("quiet"@.len() != "work-dir"@.len());
    reveal_strlit("ui-dir");
    assert("quiet"@.len() != "ui-dir"@.len());
    reveal_strlit("job-ttl");
    assert("quiet"@.len() != "job-ttl"@.len());
    reveal_strlit("max-jobs");
    assert("quiet"@.len() != "max-jobs"@.len());
    reveal_strlit("pid-file");
    assert("quiet"@.len() != "pid-file"@.len());
    reveal_strlit("python");
    assert("quiet"@.len() != "python"@.len());
    reveal_strlit("palette");
    assert("quiet"@.len() != "palette"@.len());
}

/// `--json` takes no value.
proof fn lemma_json_takes_no_value()
    ensures
        !takes_value("json"@),
{
    reveal_strlit("json");
    reveal_strlit("output");
    assert("json"@.len() != "output"@.len());
    reveal_strlit("out-dir");
    assert("json"@.len() != "out-dir"@.len());
    reveal_strlit("name");
    assert("json"@[0] != "name"@[0]);
    reveal_strlit("target");
    assert("json"@.len() != "target"@.len());
    reveal_strlit("data-version");
    assert("json"@.len() != "data-version"@.len());
    reveal_strlit("format");
    assert("json"@.len() != "format"@.len());
    reveal_strlit("max-size");
    assert("json"@.len() != "max-size"@.len());
    reveal_strlit("voxel-size");
    assert("json"@.len() != "voxel-size"@.len());
    reveal_strlit("ram-limit");
    assert("json"@.len() != "ram-limit"@.len());
    reveal_strlit("threads");
    assert("json"@.len() != "threads"@.len());
    reveal_strlit("block");
    assert("json"@.len() != "block"@.len());
    reveal_strlit("brightness");
    assert("json"@.len() != "brightness"@.len());
    reveal_strlit("contrast");
    assert("json"@.len() != "contrast"@.len());
    reveal_strlit("saturation");
    assert("json"@.len() != "saturation"@.len());
    reveal_strlit("light-dir");
    assert("json"@.len() != "light-dir"@.len());
    reveal_strlit("light-ambient");
    assert("json"@.len() != "light-ambient"@.len());
    reveal_strlit("light-gloss");
    assert("json"@.len() != "light-gloss"@.len());
    reveal_strlit("specular");
    assert("json"@.len() != "specular"@.len());
    reveal_strlit("highlight-rejection");
    assert("json"@.len() != "highlight-rejection"@.len());
    reveal_strlit("highlight-recovery");
    assert("json"@.len() != "highlight-recovery"@.len());
    reveal_strlit("delight");
    assert("json"@.len() != "delight"@.len());
    reveal_strlit("port");
    assert("json"@[0] != "port"@[0]);
    reveal_strlit("host");
    assert("json"@[0] != "host"@[0]);
    reveal_strlit("allow-host");
    assert("json"@.len() != "allow-host"@.len());
    reveal_strlit("token");
    assert("json"@.len() != "token"@.len());
    reveal_strlit("token-file");
    assert("json"@.len() != "token-file"@.len());
    reveal_strlit("work-dir");
    assert("json"@.len() != "work-dir"@.len());
    reveal_strlit("ui-dir");
    assert("json"@.len() != "ui-dir"@.len());
    reveal_strlit("job-ttl");
    assert("json"@.len() != "job-ttl"@.len());
    reveal_strlit("max-jobs");
    assert("json"@.len() != "max-jobs"@.len());
    reveal_strlit("pid-file");
    assert("json"@.len() != "pid-file"@.len());
    reveal_strlit("python");
    assert("json"@.len() != "python"@.len());
    reveal_strlit("palette");
    assert("json"@.len() != "palette"@.len());
}

/// `--help` takes no value.
proof fn lemma_help_takes_no_value()
    ensures
        !takes_value("help"@),
{
    reveal_strlit("help");
    reveal_strlit("output");
    assert("help"@.len() != "output"@.len());
    reveal_strlit("out-dir");
    assert("help"@.len() != "out-dir"@.len());
    reveal_strlit("name");
    assert("help"@[0] != "name"@[0]);
    reveal_strlit("target");
    assert("help"@.len() != "target"@.len());
    reveal_strlit("data-version");
    assert("help"@.len() != "data-version"@.len());
    reveal_strlit("format");
    assert("help"@.len() != "format"@.len());
    reveal_strlit("max-size");
    assert("help"@.len() != "max-size"@.len());
    reveal_strlit("voxel-size");
    assert("help"@.len() != "voxel-size"@.len());
    reveal_strlit("ram-limit");
    assert("help"@.len() != "ram-limit"@.len());
    reveal_strlit("threads");
    assert("help"@.len() != "threads"@.len());
    reveal_strlit("block");
    assert("help"@.len() != "block"@.len());
    reveal_strlit("brightness");
    assert("help"@.len() != "brightness"@.len());
    reveal_strlit("contrast");
    assert("help"@.len() != "contrast"@.len());
    reveal_strlit("saturation");
    assert("help"@.len() != "saturation"@.len());
    reveal_strlit("light-dir");
    assert("help"@.len() != "light-dir"@.len());
    reveal_strlit("light-ambient");
    assert("help"@.len() != "light-ambient"@.len());
    reveal_strlit("light-gloss");
    assert("help"@.len() != "light-gloss"@.len());
    reveal_strlit("specular");
    assert("help"@.len() != "specular"@.len());
    reveal_strlit("highlight-rejection");
    assert("help"@.len() != "highlight-rejection"@.len());
    reveal_strlit("highlight-recovery");
    assert("help"@.len() != "highlight-recovery"@.len());
    reveal_strlit("delight");
    assert("help"@.len() != "delight"@.len());
    reveal_strlit("port");
    assert("help"@[0] != "port"@[0]);
    reveal_strlit("host");
    assert("help"@[1] != "host"@[1]);
    reveal_strlit("allow-host");
    assert("help"@.len() != "allow-host"@.len());
    reveal_strlit("token");
    assert("help"@.len() != "token"@.len());
    reveal_strlit("token-file");
    assert("help"@.len() != "token-file"@.len());
    reveal_strlit("work-dir");
    assert("help"@.len() != "work-dir"@.len());
    reveal_strlit("ui-dir");
    assert("help"@.len() != "ui-dir"@.len());
    reveal_strlit("job-ttl");
    assert("help"@.len() != "job-ttl"@.len());
    reveal_strlit("max-jobs");
    assert("help"@.len() != "max-jobs"@.len());
    reveal_strlit("pid-file");
    assert("help"@.len() != "pid-file"@.len());
    reveal_strlit("python");
    assert("help"@.len() != "python"@.len());
    reveal_strlit("palette");
    assert("help"@.len() != "palette"@.len());
}

/// `--version` takes no value.
proof fn lemma_version_takes_no_value()
    ensures
        !takes_value("version"@),
{
    reveal_strlit("version");
    reveal_strlit("output");
    assert("version"@.len() != "output"@.len());
    reveal_strlit("out-dir");
    assert("version"@[0] != "out-dir"@[0]);
    reveal_strlit("name");
    assert("version"@.len() != "name"@.len());
    reveal_strlit("target");
    assert("version"@.len() != "target"@.len());
    reveal_strlit("data-version");
    assert("version"@.len() != "data-version"@.len());
    reveal_strlit("format");
    assert("version"@.len() != "format"@.len());
    reveal_strlit("max-size");
    assert("version"@.len() != "max-size"@.len());
    reveal_strlit("voxel-size");
    assert("version"@.len() != "voxel-size"@.len());
    reveal_strlit("ram-limit");
    assert("version"@.len() != "ram-limit"@.len());
    reveal_strlit("threads");
    assert("version"@[0] != "threads"@[0]);
    reveal_strlit("block");
    assert("version"@.len() != "block"@.len());
    reveal_strlit("brightness");
    assert("version"@.len() != "brightness"@.len());
    reveal_strlit("contrast");
    assert("version"@.len() != "contrast"@.len());
    reveal_strlit("saturation");
    assert("version"@.len() != "saturation"@.len());
    reveal_strlit("light-dir");
    assert("version"@.len() != "light-dir"@.len());
    reveal_strlit("light-ambient");
    assert("version"@.len() != "light-ambient"@.len());
    reveal_strlit("light-gloss");
    assert("version"@.len() != "light-gloss"@.len());
    reveal_strlit("specular");
    assert("version"@.len() != "specular"@.len());
    reveal_strlit("highlight-rejection");
    assert("version"@.len() != "highlight-rejection"@.len());
    reveal_strlit("highlight-recovery");
    assert("version"@.len() != "highlight-recovery"@.len());
    reveal_strlit("delight");
    assert("version"@[0] != "delight"@[0]);
    reveal_strlit("port");
    assert("version"@.len() != "port"@.len());
    reveal_strlit("host");
    assert("version"@.len() != "host"@.len());
    reveal_strlit("allow-host");
    assert("version"@.len() != "allow-host"@.len());
    reveal_strlit("token");
    assert("version"@.len() != "token"@.len());
    reveal_strlit("token-file");
    assert("version"@.len() != "token-file"@.len());
    reveal_strlit("work-dir");
    assert("version"@.len() != "work-dir"@.len());
    reveal_strlit("ui-dir");
    assert("version"@.len() != "ui-dir"@.len());
    reveal_strlit("job-ttl");
    assert("version"@[0] != "job-ttl"@[0]);
    reveal_strlit("max-jobs");
    assert("version"@.len() != "max-jobs"@.len());
    reveal_strlit("pid-file");
    assert("version"@.len() != "pid-file"@.len());
    reveal_strlit("python");
    assert("version"@.len() != "python"@.len());
    reveal_strlit("palette");
    assert("version"@[0] != "palette"@[0]);
}

/// Every one-letter option is its long name: `-o`, `-d`, `-n`, `-t`, `-f`
/// and `-p` followed by a value parse as `--output`, `--out-dir`, `--name`,
/// `--target`, `--format` and `--port` with that value, and `-q`, `-j`,
/// `-h` and `-V` as `--quiet`, `--json`, `--help` and `--version`.
pub proof fn lemma_short_options_are_long_names(a: Seq<Seq<char>>, i: int, m: ArgsView)
    requires
        0 <= i < a.len(),
    ensures
        a[i] == "-o"@ && i + 1 < a.len() ==> parse_from(a, i, m, false) == parse_from(
            a.update(i, "--output"@),
            i,
            m,
            false,
        ),
        a[i] == "-d"@ && i + 1 < a.len() ==> parse_from(a, i, m, false) == parse_from(
            a.update(i, "--out-dir"@),
            i,
            m,
            false,
        ),
        a[i] == "-n"@ && i + 1 < a.len() ==> parse_from(a, i, m, false) == parse_from(
            a.update(i, "--name"@),
            i,
            m,
            false,
        ),
        a[i] == "-t"@ && i + 1 < a.len() ==> parse_from(a, i, m, false) == parse_from(
            a.update(i, "--target"@),
            i,
            m,
            false,
        ),
        a[i] == "-f"@ && i + 1 < a.len() ==> parse_from(a, i, m, false) == parse_from(
            a.update(i, "--format"@),
            i,
            m,
            false,
        ),
        a[i] == "-p"@ && i + 1 < a.len() ==> parse_from(a, i, m, false) == parse_from(
            a.update(i, "--port"@),
            i,
            m,
            false,
        ),
        a[i] == "-q"@ ==> parse_from(a, i, m, false) == parse_from(
            a.update(i, "--quiet"@),
            i,
            m,
            false,
        ),
        a[i] == "-j"@ ==> parse_from(a, i, m, false) == parse_from(
            a.update(i, "--json"@),
            i,
            m,
            false,
        ),
        a[i] == "-h"@ ==> parse_from(a, i, m, false) == parse_from(
            a.update(i, "--help"@),
            i,
            m,
            false,
        ),
        a[i] == "-V"@ ==> parse_from(a, i, m, false) == parse_from(
            a.update(i, "--version"@),
            i,
            m,
            false,
        ),
{
    lemma_quiet_takes_no_value();
    lemma_json_takes_no_value();
    lemma_help_takes_no_value();
    lemma_version_takes_no_value();
    reveal_strlit("--");
    reveal_strlit("--format");
    reveal_strlit("--help");
    reveal_strlit("--json");
    reveal_strlit("--name");
    reveal_strlit("--out-dir");
    reveal_strlit("--output");
    reveal_strlit("--port");
    reveal_strlit("--quiet");
    reveal_strlit("--target");
    reveal_strlit("--version");
    reveal_strlit("-V");
    reveal_strlit("-d");
    reveal_strlit("-f");
    reveal_strlit("-h");
    reveal_strlit("-j");
    reveal_strlit("-n");
    reveal_strlit("-o");
    reveal_strlit("-p");
    reveal_strlit("-q");
    reveal_strlit("-t");
    reveal_strlit("format");
    reveal_strlit("help");
    reveal_strlit("json");
    reveal_strlit("name");
    reveal_strlit("out-dir");
    reveal_strlit("output");
    reveal_strlit("port");
    reveal_strlit("quiet");
    reveal_strlit("target");
    reveal_strlit("version");
    if a[i] == "-o"@ && i + 1 < a.len() {
        assert(a[i] =~= seq!['-', 'o']);
        assert("--"@ + "output"@ =~= "--output"@);
        lemma_short_value_option(a, i, m, 'o', "output"@);
    }
    if a[i] == "-d"@ && i + 1 < a.len() {
        assert(a[i] =~= seq!['-', 'd']);
        assert("--"@ + "out-dir"@ =~= "--out-dir"@);
        lemma_short_value_option(a, i, m, 'd', "out-dir"@);
    }
    if a[i] == "-n"@ && i + 1 < a.len() {
        assert(a[i] =~= seq!['-', 'n']);
        assert("--"@ + "name"@ =~= "--name"@);
        lemma_short_value_option(a, i, m, 'n', "name"@);
    }
    if a[i] == "-t"@ && i + 1 < a.len() {
        assert(a[i] =~= seq!['-', 't']);
        assert("--"@ + "target"@ =~= "--target"@);
        lemma_short_value_option(a, i, m, 't', "target"@);
    }
    if a[i] == "-f"@ && i + 1 < a.len() {
        assert(a[i] =~= seq!['-', 'f']);
        assert("--"@ + "format"@ =~= "--format"@);
        lemma_short_value_option(a, i, m, 'f', "format"@);
    }
    if a[i] == "-p"@ && i + 1 < a.len() {
        assert(a[i] =~= seq!['-', 'p']);
        assert("--"@ + "port"@ =~= "--port"@);
        lemma_short_value_option(a, i, m, 'p', "port"@);
    }
    if a[i] == "-q"@ {
        assert(a[i] =~= seq!['-', 'q']);
        assert("--"@ + "quiet"@ =~= "--quiet"@);
        lemma_short_flag(a, i, m, 'q', "quiet"@);
    }
    if a[i] == "-j"@ {
        assert(a[i] =~= seq!['-', 'j']);
        assert("--"@ + "json"@ =~= "--json"@);
        lemma_short_flag(a, i, m, 'j', "json"@);
    }
    if a[i] == "-h"@ {
        assert(a[i] =~= seq!['-', 'h']);
        assert("--"@ + "help"@ =~= "--help"@);
        lemma_short_flag(a, i, m, 'h', "help"@);
    }
    if a[i] == "-V"@ {
        assert(a[i] =~= seq!['-', 'V']);
        assert("--"@ + "version"@ =~= "--version"@);
        lemma_short_flag(a, i, m, 'V', "version"@);
    }
}

} // verus!
