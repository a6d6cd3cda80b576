//! Where schematics go: safe file names, keeping two same-named files of
//! one batch apart, output folders typed in a UI, the launchers' folders,
//! and the folders to suggest.
use vstd::prelude::*;
use crate::grid::views;
use crate::text::{
    ascii_lowercase, chars_of, concat3, control, is_control, is_whitespace, lowercase, push_char,
    push_decimal, push_str, decimal, rfind_char, last_index, string_of, string_of_range,
    to_lowercase, to_ascii_lower, trim, trimmed, white_space, first_index, find_char,
};

verus! {

/// Characters Windows rejects in file names, plus the path separators.
pub open spec fn illegal_name_char(c: char) -> bool {
    c == '<' || c == '>' || c == ':' || c == '"' || c == '/' || c == '\\' || c == '|' || c == '?'
        || c == '*'
}

/// Names Windows reserves for devices, whatever the extension.
pub open spec fn reserved_names() -> Seq<Seq<char>> {
    seq![
        "con"@, "prn"@, "aux"@, "nul"@, "com1"@, "com2"@, "com3"@, "com4"@, "com5"@, "com6"@,
        "com7"@, "com8"@, "com9"@, "lpt1"@, "lpt2"@, "lpt3"@, "lpt4"@, "lpt5"@, "lpt6"@, "lpt7"@,
        "lpt8"@, "lpt9"@,
    ]
}

pub open spec fn replace_illegal(c: char) -> char {
    if control(c) || illegal_name_char(c) {
        '_'
    } else {
        c
    }
}

pub open spec fn dot_or_space(c: char) -> bool {
    c == '.' || white_space(c)
}

/// `s` without leading dots and whitespace.
pub open spec fn strip_start(s: Seq<char>) -> Seq<char>
    decreases s.len(),
{
    if s.len() > 0 && dot_or_space(s[0]) {
        strip_start(s.drop_first())
    } else {
        s
    }
}

/// `s` without trailing dots and whitespace.
pub open spec fn strip_end(s: Seq<char>) -> Seq<char>
    decreases s.len(),
{
    if s.len() > 0 && dot_or_space(s.last()) {
        strip_end(s.drop_last())
    } else {
        s
    }
}

/// The name with illegal characters replaced and surrounding dots and
/// whitespace removed; `schematic` when nothing is left.
pub open spec fn cleaned_name(name: Seq<char>) -> Seq<char> {
    let c = strip_end(strip_start(trimmed(name).map_values(|c: char| replace_illegal(c))));
    if c.len() == 0 {
        "schematic"@
    } else {
        c
    }
}

/// The cleaned name with `.{extension}` appended unless its lowercase
/// already ends that way.
pub open spec fn suffixed_name(name: Seq<char>, extension: Seq<char>) -> Seq<char> {
    let c = cleaned_name(name);
    let suffix = seq!['.'] + extension;
    let low = lowercase(c);
    if low.len() >= suffix.len() && low.subrange(low.len() - suffix.len(), low.len() as int)
        == suffix {
        c
    } else {
        c + suffix
    }
}

/// The part before the first dot.
pub open spec fn before_first_dot(s: Seq<char>) -> Seq<char> {
    match first_index(s, '.') {
        Some(k) => s.subrange(0, k),
        None => s,
    }
}

/// The safe file name `sanitize_filename` makes.
pub open spec fn sanitized(name: Seq<char>, extension: Seq<char>) -> Seq<char> {
    let s = suffixed_name(name, extension);
    if reserved_names().contains(ascii_lowercase(before_first_dot(s))) {
        seq!['_'] + s
    } else {
        s
    }
}

proof fn lemma_strip_start_skip(s: Seq<char>, i: int)
    requires
        0 <= i <= s.len(),
        forall|j: int| 0 <= j < i ==> dot_or_space(#[trigger] s[j]),
    ensures
        strip_start(s) == strip_start(s.subrange(i, s.len() as int)),
    decreases i,
{
    if i > 0 {
        assert(s.drop_first().subrange(i - 1, s.drop_first().len() as int) == s.subrange(
            i,
            s.len() as int,
        ));
        assert forall|j: int| 0 <= j < i - 1 implies dot_or_space(#[trigger] s.drop_first()[j]) by {
            assert(s.drop_first()[j] == s[j + 1]);
        }
        lemma_strip_start_skip(s.drop_first(), i - 1);
    } else {
        assert(s.subrange(0, s.len() as int) == s);
    }
}

proof fn lemma_strip_end_drop(s: Seq<char>, k: int)
    requires
        0 <= k <= s.len(),
        forall|j: int| k <= j < s.len() ==> dot_or_space(#[trigger] s[j]),
    ensures
        strip_end(s) == strip_end(s.subrange(0, k)),
    decreases s.len() - k,
{
    if k < s.len() {
        assert(s.drop_last().subrange(0, k) == s.subrange(0, k));
        assert(dot_or_space(s.last()));
        assert forall|j: int| k <= j < s.drop_last().len() implies dot_or_space(
            #[trigger] s.drop_last()[j],
        ) by {
            assert(s.drop_last()[j] == s[j]);
        }
        lemma_strip_end_drop(s.drop_last(), k);
    } else {
        assert(s.subrange(0, k) == s);
    }
}

/// The cleaned name.
fn clean(name: &str) -> (res: Vec<char>)
    ensures
        res@ == cleaned_name(name@),
{
    let t = chars_of(trim(name));
    let ghost mapped = t@.map_values(|c: char| replace_illegal(c));
    let mut m: Vec<char> = Vec::new();
    let mut i: usize = 0;
    while i < t.len()
        invariant
            i <= t@.len(),
            mapped == t@.map_values(|c: char| replace_illegal(c)),
            m@ == mapped.take(i as int),
        decreases t.len() - i,
    {
        let c = t[i];
        let r = if is_control(c) || c == '<' || c == '>' || c == ':' || c == '"' || c == '/' || c
            == '\\' || c == '|' || c == '?' || c == '*' {
            '_'
        } else {
            c
        };
        m.push(r);
        i += 1;
        assert(mapped.take(i as int) == mapped.take(i - 1).push(mapped[i - 1]));
    }
    assert(mapped.take(t.len() as int) == mapped);
    let n = m.len();
    let mut start: usize = 0;
    while start < n && (m[start] == '.' || is_whitespace(m[start]))
        invariant
            n == m@.len(),
            start <= n,
            forall|j: int| 0 <= j < start ==> dot_or_space(#[trigger] m@[j]),
        decreases n - start,
    {
        start += 1;
    }
    proof {
        lemma_strip_start_skip(m@, start as int);
    }
    let mut end: usize = n;
    while end > start && (m[end - 1] == '.' || is_whitespace(m[end - 1]))
        invariant
            n == m@.len(),
            start <= end <= n,
            forall|j: int| end <= j < n ==> dot_or_space(#[trigger] m@[j]),
        decreases end,
    {
        end -= 1;
    }
    let ghost rest = m@.subrange(start as int, n as int);
    proof {
        assert forall|j: int| end - start <= j < rest.len() implies dot_or_space(
            #[trigger] rest[j],
        ) by {
            assert(rest[j] == m@[start + j]);
        }
        lemma_strip_end_drop(rest, end - start);
        assert(rest.subrange(0, end - start) == m@.subrange(start as int, end as int));
        assert(rest.len() > 0 ==> !dot_or_space(rest[0]));
        assert(strip_start(rest) == rest);
    }
    let mut out: Vec<char> = Vec::new();
    let mut k = start;
    while k < end
        invariant
            start <= k <= end <= n == m@.len(),
            out@ == m@.subrange(start as int, k as int),
        decreases end - k,
    {
        out.push(m[k]);
        k += 1;
        assert(m@.subrange(start as int, k as int) == m@.subrange(start as int, k - 1).push(
            m@[k - 1],
        ));
    }
    if out.len() == 0 {
        return chars_of("schematic");
    }
    out
}

/// Whether `s` holds one of the reserved device names.
fn is_reserved(s: &Vec<char>) -> (res: bool)
    ensures
        res == reserved_names().contains(s@),
{
    let names = [
        "con", "prn", "aux", "nul", "com1", "com2", "com3", "com4", "com5", "com6", "com7",
        "com8", "com9", "lpt1", "lpt2", "lpt3", "lpt4", "lpt5", "lpt6", "lpt7", "lpt8", "lpt9",
    ];
    let text = string_of(s.as_slice());
    assert(names@.map_values(|n: &str| n@) == reserved_names());
    let mut i: usize = 0;
    while i < names.len()
        invariant
            i <= names@.len(),
            text@ == s@,
            names@.map_values(|n: &str| n@) == reserved_names(),
            forall|j: int| 0 <= j < i ==> reserved_names()[j] != s@,
        decreases names.len() - i,
    {
        assert(reserved_names()[i as int] == names@[i as int]@);
        if crate::text::str_eq(names[i], text.as_str()) {
            return true;
        }
        i += 1;
    }
    false
}

/// Reduce an arbitrary schematic name to a safe file name ending in
/// `.{extension}`. Illegal characters are replaced before anything else,
/// so both path separators are gone and no input can escape the chosen
/// folder; device names Windows reserves get a leading underscore.
pub fn sanitize_filename(name: &str, extension: &str) -> (res: String)
    ensures
        res@ == sanitized(name@, extension@),
        res@.len() > 0 && res@[0] != '.',
        (forall|i: int| 0 <= i < extension@.len() ==> extension@[i] != '/' && extension@[i] != '\\')
            ==> (forall|i: int| 0 <= i < res@.len() ==> res@[i] != '/' && res@[i] != '\\'),
{
    let c = clean(name);
    let text = string_of(c.as_slice());
    let low = to_lowercase(text.as_str());
    let lowc = chars_of(low.as_str());
    let ext = chars_of(extension);
    let mut ends = lowc.len() > ext.len();
    if ends {
        let off = lowc.len() - ext.len() - 1;
        if lowc[off] != '.' {
            ends = false;
        }
        let mut i: usize = 0;
        while i < ext.len()
            invariant
                ext@ == extension@,
                lowc@ == lowercase(c@),
                off + 1 + ext@.len() == lowc@.len(),
                lowc@.len() <= usize::MAX,
                i <= ext@.len(),
                ends == (lowc@[off as int] == '.' && forall|j: int|
                    0 <= j < i ==> lowc@[off + 1 + j] == ext@[j]),
            decreases ext.len() - i,
        {
            if lowc[off + 1 + i] != ext[i] {
                ends = false;
            }
            i += 1;
        }
        let ghost suffix = seq!['.'] + extension@;
        let ghost sub = lowc@.subrange(lowc@.len() - suffix.len(), lowc@.len() as int);
        proof {
            if ends {
                assert forall|j: int| 0 <= j < suffix.len() implies sub[j] == suffix[j] by {
                    if j > 0 {
                        assert(lowc@[off + 1 + (j - 1)] == ext@[j - 1]);
                    }
                }
                assert(sub =~= suffix);
            }
            if sub == suffix {
                assert(sub[0] == suffix[0]);
                assert forall|j: int| 0 <= j < ext@.len() implies lowc@[off + 1 + j] == ext@[j] by {
                    assert(sub[j + 1] == suffix[j + 1]);
                }
            }
        }
    }
    let mut s = c;
    if !ends {
        s.push('.');
        let mut i: usize = 0;
        let ghost base = s@;
        while i < ext.len()
            invariant
                ext@ == extension@,
                i <= ext@.len(),
                s@ == base + ext@.take(i as int),
            decreases ext.len() - i,
        {
            s.push(ext[i]);
            i += 1;
            assert(ext@.take(i as int) == ext@.take(i - 1).push(ext@[i - 1]));
        }
        assert(ext@.take(ext.len() as int) == ext@);
        assert(s@ == c@ + (seq!['.'] + extension@));
    }
    let device: Vec<char> = match find_char(s.as_slice(), '.') {
        Some(k) => {
            let mut d: Vec<char> = Vec::new();
            let mut i: usize = 0;
            while i < k
                invariant
                    k <= s@.len(),
                    i <= k,
                    d@ == ascii_lowercase(s@.subrange(0, i as int)),
                decreases k - i,
            {
                d.push(to_ascii_lower(s[i]));
                i += 1;
                assert(ascii_lowercase(s@.subrange(0, i as int)) =~= ascii_lowercase(
                    s@.subrange(0, i - 1),
                ).push(crate::text::ascii_lower(s@[i - 1])));
            }
            d
        },
        None => {
            let mut d: Vec<char> = Vec::new();
            let mut i: usize = 0;
            while i < s.len()
                invariant
                    i <= s@.len(),
                    d@ == ascii_lowercase(s@.subrange(0, i as int)),
                decreases s.len() - i,
            {
                d.push(to_ascii_lower(s[i]));
                i += 1;
                assert(ascii_lowercase(s@.subrange(0, i as int)) =~= ascii_lowercase(
                    s@.subrange(0, i - 1),
                ).push(crate::text::ascii_lower(s@[i - 1])));
            }
            assert(s@.subrange(0, s@.len() as int) == s@);
            d
        },
    };
    let mut out = String::new();
    if is_reserved(&device) {
        push_char(&mut out, '_');
    }
    let body = string_of(s.as_slice());
    out.append(body.as_str());
    proof {
        lemma_cleaned_safe(name@);
    }
    out
}

/// A cleaned name is never empty, never starts with a dot, and holds no
/// path separator.
proof fn lemma_cleaned_safe(name: Seq<char>)
    ensures
        cleaned_name(name).len() > 0,
        cleaned_name(name)[0] != '.',
        forall|i: int|
            0 <= i < cleaned_name(name).len() ==> cleaned_name(name)[i] != '/'
                && cleaned_name(name)[i] != '\\',
{
    let m = trimmed(name).map_values(|c: char| replace_illegal(c));
    lemma_strip_start_suffix(m);
    let a = strip_start(m);
    lemma_strip_end_prefix(a);
    let b = strip_end(a);
    if b.len() > 0 {
        assert(b[0] == a[0]);
        assert forall|i: int| 0 <= i < b.len() implies b[i] != '/' && b[i] != '\\' by {
            assert(b[i] == a[i]);
            assert(a[i] == m[m.len() - a.len() + i]);
        }
    } else {
        reveal_strlit("schematic");
    }
}

proof fn lemma_strip_start_suffix(s: Seq<char>)
    ensures
        strip_start(s).len() <= s.len(),
        strip_start(s) == s.subrange(s.len() - strip_start(s).len(), s.len() as int),
        strip_start(s).len() > 0 ==> !dot_or_space(strip_start(s)[0]),
    decreases s.len(),
{
    if s.len() > 0 && dot_or_space(s[0]) {
        lemma_strip_start_suffix(s.drop_first());
        assert(s.drop_first().subrange(
            s.drop_first().len() - strip_start(s).len(),
            s.drop_first().len() as int,
        ) == s.subrange(s.len() - strip_start(s).len(), s.len() as int));
    } else {
        assert(s.subrange(0, s.len() as int) == s);
    }
}

proof fn lemma_strip_end_prefix(s: Seq<char>)
    ensures
        strip_end(s).len() <= s.len(),
        strip_end(s) == s.subrange(0, strip_end(s).len() as int),
    decreases s.len(),
{
    if s.len() > 0 && dot_or_space(s.last()) {
        lemma_strip_end_prefix(s.drop_last());
        assert(s.drop_last().subrange(0, strip_end(s).len() as int) == s.subrange(
            0,
            strip_end(s).len() as int,
        ));
    } else {
        assert(s.subrange(0, s.len() as int) == s);
    }
}

/// The stem and the extension (with its dot) a file name is split into at
/// its last dot; no extension when the stem would be empty.
pub open spec fn stem_and_ext(f: Seq<char>) -> (Seq<char>, Seq<char>) {
    match last_index(f, '.') {
        Some(k) => if k > 0 {
            (f.subrange(0, k), f.subrange(k, f.len() as int))
        } else {
            (f, seq![])
        },
        None => (f, seq![]),
    }
}

/// The `n`-th name tried: the name itself, then `stem-2.ext`, `stem-3.ext`, …
pub open spec fn candidate(f: Seq<char>, n: nat) -> Seq<char> {
    if n <= 1 {
        f
    } else {
        let (stem, ext) = stem_and_ext(f);
        stem + seq!['-'] + decimal(n) + ext
    }
}

fn contains_str(v: &Vec<String>, s: &str) -> (res: bool)
    ensures
        res == v@.map_values(|x: String| x@).contains(s@),
{
    let ghost vv = v@.map_values(|x: String| x@);
    let mut i: usize = 0;
    while i < v.len()
        invariant
            i <= v@.len(),
            vv == v@.map_values(|x: String| x@),
            forall|j: int| 0 <= j < i ==> vv[j] != s@,
        decreases v.len() - i,
    {
        assert(vv[i as int] == v@[i as int]@);
        if crate::text::str_eq(v[i].as_str(), s) {
            return true;
        }
        i += 1;
    }
    false
}

/// The first numbered name from `n` on whose lowercase is not in `taken`;
/// past as many tries as `taken` has names, the next one, which no list of
/// that many names can all hold.
pub open spec fn first_free(f: Seq<char>, taken: Seq<Seq<char>>, n: nat) -> nat
    decreases taken.len() + 1 - n,
{
    if n >= taken.len() + 1 || !taken.contains(lowercase(candidate(f, n))) {
        n
    } else {
        first_free(f, taken, n + 1)
    }
}

/// The name `dedupe_filename` gives `f` when `taken` is in use.
pub open spec fn deduped(f: Seq<char>, taken: Seq<Seq<char>>) -> Seq<char> {
    candidate(f, first_free(f, taken, 1))
}

/// The name `dedupe_filename` gives is free whenever a free one was found
/// among as many tries as there are names in use, and every name it passed
/// over was in use.
pub proof fn lemma_deduped_unused(f: Seq<char>, taken: Seq<Seq<char>>)
    ensures
        1 <= first_free(f, taken, 1) <= taken.len() + 1,
        first_free(f, taken, 1) <= taken.len() ==> !taken.contains(lowercase(deduped(f, taken))),
        forall|m: nat|
            1 <= m < first_free(f, taken, 1) ==> taken.contains(lowercase(#[trigger] candidate(f, m))),
{
    lemma_first_free(f, taken, 1);
}

proof fn lemma_first_free(f: Seq<char>, taken: Seq<Seq<char>>, n: nat)
    requires
        1 <= n <= taken.len() + 1,
    ensures
        n <= first_free(f, taken, n) <= taken.len() + 1,
        first_free(f, taken, n) <= taken.len() ==> !taken.contains(
            lowercase(candidate(f, first_free(f, taken, n))),
        ),
        forall|m: nat|
            n <= m < first_free(f, taken, n) ==> taken.contains(lowercase(#[trigger] candidate(f, m))),
    decreases taken.len() + 1 - n,
{
    if n < taken.len() + 1 && taken.contains(lowercase(candidate(f, n))) {
        lemma_first_free(f, taken, n + 1);
    }
}

/// Append `-2`, `-3`, … to the stem until the name's lowercase is unused
/// within `taken`, and record it there. Keeps two same-named models in one
/// batch from clobbering each other.
pub fn dedupe_filename(filename: &str, taken: &mut Vec<String>) -> (res: String)
    requires
        old(taken)@.len() < usize::MAX,
    ensures
        res@ == deduped(filename@, old(taken)@.map_values(|x: String| x@)),
        final(taken)@.map_values(|x: String| x@) == old(taken)@.map_values(|x: String| x@).push(
            lowercase(res@),
        ),
{
    let ghost before = taken@.map_values(|x: String| x@);
    let cs = chars_of(filename);
    let (stem, ext): (String, String) = match rfind_char(cs.as_slice(), '.') {
        Some(k) => if k > 0 {
            (
                crate::text::string_of_range(cs.as_slice(), 0, k),
                crate::text::string_of_range(cs.as_slice(), k, cs.len()),
            )
        } else {
            (string_of(cs.as_slice()), String::new())
        },
        None => (string_of(cs.as_slice()), String::new()),
    };
    assert((stem@, ext@) == stem_and_ext(filename@));
    let mut candidate_name = string_of(cs.as_slice());
    let mut n: usize = 1;
    let count = taken.len();
    loop
        invariant
            taken@.map_values(|x: String| x@) == before,
            before == old(taken)@.map_values(|x: String| x@),
            before.len() == count,
            count < usize::MAX,
            (stem@, ext@) == stem_and_ext(filename@),
            1 <= n <= count + 1,
            candidate_name@ == candidate(filename@, n as nat),
            forall|m: nat| 1 <= m < n ==> before.contains(lowercase(#[trigger] candidate(filename@, m))),
            first_free(filename@, before, 1) == first_free(filename@, before, n as nat),
        decreases count + 1 - n,
    {
        let low = to_lowercase(candidate_name.as_str());
        let free = !contains_str(taken, low.as_str());
        if free || n - 1 == count {
            taken.push(low);
            assert(taken@.map_values(|x: String| x@) =~= before.push(lowercase(candidate_name@)));
            assert(first_free(filename@, before, n as nat) == n as nat);
            return candidate_name;
        }
        n += 1;
        let mut next = String::new();
        next.append(stem.as_str());
        push_char(&mut next, '-');
        push_decimal(&mut next, n as u64);
        next.append(ext.as_str());
        candidate_name = next;
    }
}

// ── Resolving a folder typed in a UI ────────────────────────────────────

/// The platform a path is read for.
#[derive(Debug, Clone, Copy, PartialEq, Eq, Structural)]
pub enum Os {
    Windows,
    MacOs,
    Other,
}

/// Whether environment key `key` answers to `name`: exactly, or ignoring
/// ASCII case where the platform folds it.
pub open spec fn env_key_matches(key: Seq<char>, name: Seq<char>, fold: bool) -> bool {
    if fold {
        ascii_lowercase(key) == ascii_lowercase(name)
    } else {
        key == name
    }
}

/// The value of variable `name` in an environment listed as pairs: the
/// first entry that answers to it.
pub open spec fn env_lookup(env: Seq<(Seq<char>, Seq<char>)>, name: Seq<char>, fold: bool) -> Option<
    Seq<char>,
>
    decreases env.len(),
{
    if env.len() == 0 {
        None
    } else if env_key_matches(env[0].0, name, fold) {
        Some(env[0].1)
    } else {
        env_lookup(env.drop_first(), name, fold)
    }
}

pub open spec fn env_views(env: Seq<(String, String)>) -> Seq<(Seq<char>, Seq<char>)> {
    env.map_values(|p: (String, String)| (p.0@, p.1@))
}

/// Whether the environment is matched ignoring ASCII case on `os`.
pub open spec fn folds_case(os: Os) -> bool {
    os == Os::Windows
}

/// The value of `name` in `env`.
pub fn env_var<'a>(env: &'a [(String, String)], name: &str, os: Os) -> (res: Option<&'a str>)
    ensures
        match env_lookup(env_views(env@), name@, folds_case(os)) {
            Some(v) => res matches Some(r) && r@ == v,
            None => res is None,
        },
{
    let ghost ev = env_views(env@);
    let fold = os == Os::Windows;
    let mut i: usize = 0;
    assert(ev.skip(0) =~= ev);
    while i < env.len()
        invariant
            ev == env_views(env@),
            fold == folds_case(os),
            i <= env@.len(),
            env_lookup(ev, name@, fold) == env_lookup(ev.skip(i as int), name@, fold),
        decreases env.len() - i,
    {
        assert(ev.skip(i as int)[0] == (env@[i as int].0@, env@[i as int].1@));
        assert(ev.skip(i as int).drop_first() == ev.skip(i + 1));
        let key = env[i].0.as_str();
        let hit = if fold {
            crate::text::eq_ignore_ascii_case(key, name)
        } else {
            crate::text::str_eq(key, name)
        };
        if hit {
            return Some(env[i].1.as_str());
        }
        i += 1;
    }
    assert(ev.skip(env@.len() as int).len() == 0);
    None
}

/// `%VAR%` expansion of `chars` from `i` on, in one left-to-right pass: a
/// substituted value is not scanned again, so a value holding `%` cannot
/// loop. A reference to an unset variable stays as it is.
pub open spec fn expand_from(chars: Seq<char>, i: int, env: Seq<(Seq<char>, Seq<char>)>, fold: bool) -> Seq<
    char,
>
    decreases chars.len() - i,
{
    if i < 0 || i >= chars.len() {
        seq![]
    } else {
        let close = first_index(chars.skip(i + 1), '%');
        if chars[i] == '%' && close is Some && close->0 > 0 && close->0 < chars.len() - i - 1
            && env_lookup(env, chars.subrange(i + 1, i + 1 + close->0), fold) is Some {
            env_lookup(env, chars.subrange(i + 1, i + 1 + close->0), fold)->0 + expand_from(
                chars,
                i + close->0 + 2,
                env,
                fold,
            )
        } else {
            seq![chars[i]] + expand_from(chars, i + 1, env, fold)
        }
    }
}

/// Where `c` next occurs in `cs` at or after `from`.
fn find_from(cs: &Vec<char>, c: char, from: usize) -> (res: Option<usize>)
    requires
        from <= cs@.len(),
    ensures
        match first_index(cs@.skip(from as int), c) {
            Some(k) => res == Some((from + k) as usize) && k < cs@.len() - from,
            None => res is None,
        },
{
    let mut j = from;
    while j < cs.len()
        invariant
            from <= j <= cs@.len(),
            forall|q: int| from <= q < j ==> cs@[q] != c,
        decreases cs.len() - j,
    {
        if cs[j] == c {
            proof {
                let t = cs@.skip(from as int);
                assert(crate::text::is_first(t, c, j - from));
                let f = choose|w: int| crate::text::is_first(t, c, w);
                if f != j - from {
                    assert(crate::text::is_first(t, c, f));
                    if f < j - from {
                        assert(t[f] == cs@[from + f]);
                    } else {
                        assert(t[j - from] == c);
                    }
                }
            }
            return Some(j);
        }
        j += 1;
    }
    proof {
        let t = cs@.skip(from as int);
        if exists|w: int| crate::text::is_first(t, c, w) {
            let w = choose|w: int| crate::text::is_first(t, c, w);
            assert(t[w] == cs@[from + w]);
        }
    }
    None
}

/// Expand `%VAR%` references from `env`.
pub fn expand_env(raw: &str, env: &[(String, String)], os: Os) -> (res: String)
    ensures
        res@ == expand_from(raw@, 0, env_views(env@), folds_case(os)),
{
    let ghost ev = env_views(env@);
    let ghost fold = folds_case(os);
    let cs = chars_of(raw);
    let mut out = String::new();
    let mut i: usize = 0;
    while i < cs.len()
        invariant
            cs@ == raw@,
            ev == env_views(env@),
            fold == folds_case(os),
            i <= cs@.len(),
            out@ + expand_from(cs@, i as int, ev, fold) == expand_from(cs@, 0, ev, fold),
        decreases cs.len() - i,
    {
        let ghost before = out@;
        let ghost gi = i as int;
        if cs[i] == '%' {
            match find_from(&cs, '%', i + 1) {
                Some(j) => {
                    if j > i + 1 {
                        let name = string_of_range(cs.as_slice(), i + 1, j);
                        match env_var(env, name.as_str(), os) {
                            Some(v) => {
                                push_str(&mut out, v);
                                i = j + 1;
                                assert(out@ + expand_from(cs@, i as int, ev, fold) =~= before
                                    + expand_from(cs@, gi, ev, fold));
                                continue;
                            },
                            None => {},
                        }
                    }
                },
                None => {},
            }
        }
        push_char(&mut out, cs[i]);
        i += 1;
        assert(out@ + expand_from(cs@, i as int, ev, fold) =~= before + expand_from(
            cs@,
            gi,
            ev,
            fold,
        ));
    }
    out
}

/// The user's home folder: `USERPROFILE`, else `HOME`, unless empty.
pub open spec fn home_of(env: Seq<(Seq<char>, Seq<char>)>, fold: bool) -> Option<Seq<char>> {
    let v = match env_lookup(env, "USERPROFILE"@, fold) {
        Some(p) => Some(p),
        None => env_lookup(env, "HOME"@, fold),
    };
    match v {
        Some(p) => if p.len() > 0 {
            Some(p)
        } else {
            None
        },
        None => None,
    }
}

/// The user's home folder.
pub fn home_dir(env: &[(String, String)], os: Os) -> (res: Option<String>)
    ensures
        match home_of(env_views(env@), folds_case(os)) {
            Some(h) => res matches Some(r) && r@ == h,
            None => res is None,
        },
{
    let v = match env_var(env, "USERPROFILE", os) {
        Some(p) => Some(p),
        None => env_var(env, "HOME", os),
    };
    match v {
        Some(p) => if p.unicode_len() > 0 {
            Some(p.to_owned())
        } else {
            None
        },
        None => None,
    }
}

/// `~` alone or before a separator stands for the home folder.
pub open spec fn home_expanded(raw: Seq<char>, home: Option<Seq<char>>) -> Seq<char> {
    if raw.len() > 0 && raw[0] == '~' && (raw.len() == 1 || raw[1] == '/' || raw[1] == '\\')
        && home is Some {
        home->0 + raw.skip(1)
    } else {
        raw
    }
}

/// Expand a leading `~` to `home`.
pub fn expand_home(raw: &str, home: Option<&str>) -> (res: String)
    ensures
        res@ == home_expanded(
            raw@,
            match home {
                Some(h) => Some(h@),
                None => None,
            },
        ),
{
    let cs = chars_of(raw);
    let n = cs.len();
    if n > 0 && cs[0] == '~' && (n == 1 || cs[1] == '/' || cs[1] == '\\') {
        match home {
            Some(h) => {
                let mut out = h.to_owned();
                let rest = string_of_range(cs.as_slice(), 1, n);
                push_str(&mut out, rest.as_str());
                assert(cs@.subrange(1, n as int) == raw@.skip(1));
                return out;
            },
            None => {},
        }
    }
    string_of(cs.as_slice())
}

/// `s` without leading and trailing `c`.
pub open spec fn strip_char(s: Seq<char>, c: char) -> Seq<char>
    decreases s.len(),
{
    if s.len() > 0 && s[0] == c {
        strip_char(s.drop_first(), c)
    } else if s.len() > 0 && s.last() == c {
        strip_char(s.drop_last(), c)
    } else {
        s
    }
}

/// `s` with every `/` made a `\`.
pub open spec fn backslashed(s: Seq<char>) -> Seq<char> {
    s.map_values(
        |c: char|
            if c == '/' {
                '\\'
            } else {
                c
            },
    )
}

/// Whether `path` is absolute on `os`: rooted at `/` on Unix; on Windows a
/// drive letter, `:` and a separator, or a `\\` prefix.
pub open spec fn absolute_on(path: Seq<char>, os: Os) -> bool {
    if os == Os::Windows {
        (path.len() >= 2 && path[0] == '\\' && path[1] == '\\') || (path.len() >= 3 && (('a' <= path[0]
            && path[0] <= 'z') || ('A' <= path[0] && path[0] <= 'Z')) && path[1] == ':' && (path[2]
            == '\\' || path[2] == '/'))
    } else {
        path.len() >= 1 && path[0] == '/'
    }
}

/// What `resolve` makes of raw UI input.
pub open spec fn resolved(raw: Seq<char>, env: Seq<(Seq<char>, Seq<char>)>, os: Os) -> Result<
    Seq<char>,
    Seq<char>,
> {
    let fold = folds_case(os);
    let expanded = home_expanded(expand_from(raw, 0, env, fold), home_of(env, fold));
    let t = trimmed(strip_char(trimmed(expanded), '"'));
    let native = if os == Os::Windows {
        backslashed(t)
    } else {
        t
    };
    if t.len() == 0 {
        Err("No output folder given"@)
    } else if !absolute_on(native, os) {
        Err("Output folder must be an absolute path (got \""@ + native + "\")"@)
    } else {
        Ok(native)
    }
}

fn strip_quotes(s: &str) -> (res: String)
    ensures
        res@ == strip_char(s@, '"'),
{
    let cs = chars_of(s);
    let mut lo: usize = 0;
    let mut hi: usize = cs.len();
    assert(cs@.subrange(0, cs@.len() as int) == cs@);
    while lo < hi && (cs[lo] == '"' || cs[hi - 1] == '"')
        invariant
            cs@ == s@,
            lo <= hi <= cs@.len(),
            strip_char(s@, '"') == strip_char(cs@.subrange(lo as int, hi as int), '"'),
        decreases hi - lo,
    {
        let ghost t = cs@.subrange(lo as int, hi as int);
        if cs[lo] == '"' {
            assert(t.drop_first() == cs@.subrange(lo + 1, hi as int));
            lo += 1;
        } else {
            assert(t.drop_last() == cs@.subrange(lo as int, hi - 1));
            hi -= 1;
        }
    }
    assert(cs@.subrange(0, cs@.len() as int) == cs@);
    string_of_range(cs.as_slice(), lo, hi)
}

/// Turn raw UI input into an absolute folder path: `%VAR%` and a leading
/// `~` expanded from `env`, spaces and quotes trimmed, separators made
/// native. Whether the path is a folder on disk is for the caller.
pub fn resolve(raw: &str, env: &[(String, String)], os: Os) -> (res: Result<String, String>)
    ensures
        match resolved(raw@, env_views(env@), os) {
            Ok(p) => res matches Ok(r) && r@ == p,
            Err(e) => res matches Err(r) && r@ == e,
        },
{
    let home = home_dir(env, os);
    let home_ref: Option<&str> = match &home {
        Some(h) => Some(h.as_str()),
        None => None,
    };
    let expanded = expand_home(expand_env(raw, env, os).as_str(), home_ref);
    let t = strip_quotes(trim(expanded.as_str()));
    let t = trim(t.as_str());
    if t.unicode_len() == 0 {
        return Err("No output folder given".to_owned());
    }
    let cs = chars_of(t);
    let mut native = String::new();
    let mut i: usize = 0;
    while i < cs.len()
        invariant
            i <= cs@.len(),
            cs@ == t@,
            native@ == if os == Os::Windows {
                backslashed(cs@.take(i as int))
            } else {
                cs@.take(i as int)
            },
        decreases cs.len() - i,
    {
        let c = if os == Os::Windows && cs[i] == '/' {
            '\\'
        } else {
            cs[i]
        };
        push_char(&mut native, c);
        i += 1;
        assert(cs@.take(i as int) == cs@.take(i - 1).push(cs@[i - 1]));
        assert(backslashed(cs@.take(i as int)) =~= backslashed(cs@.take(i - 1)).push(
            if cs@[i - 1] == '/' {
                '\\'
            } else {
                cs@[i - 1]
            },
        ));
    }
    assert(cs@.take(cs@.len() as int) == cs@);
    let nc = chars_of(native.as_str());
    let n = nc.len();
    let absolute = if os == Os::Windows {
        (n >= 2 && nc[0] == '\\' && nc[1] == '\\') || (n >= 3 && (('a' <= nc[0] && nc[0] <= 'z') || (
        'A' <= nc[0] && nc[0] <= 'Z')) && nc[1] == ':' && (nc[2] == '\\' || nc[2] == '/'))
    } else {
        n >= 1 && nc[0] == '/'
    };
    if !absolute {
        return Err(concat3("Output folder must be an absolute path (got \"", native.as_str(), "\")"));
    }
    Ok(native)
}

/// Human name of a platform's file manager, for button labels.
pub fn file_manager_name(os: Os) -> (res: &'static str)
    ensures
        res@ == match os {
            Os::Windows => "Explorer"@,
            Os::MacOs => "Finder"@,
            Os::Other => "file manager"@,
        },
{
    match os {
        Os::Windows => "Explorer",
        Os::MacOs => "Finder",
        Os::Other => "file manager",
    }
}

/// `base` joined with the relative `name`: a separator between them
/// unless `base` is empty or already ends with one.
pub open spec fn joined(base: Seq<char>, name: Seq<char>, os: Os) -> Seq<char> {
    if base.len() == 0 {
        name
    } else if base.last() == '/' || (os == Os::Windows && base.last() == '\\') {
        base + name
    } else if os == Os::Windows {
        base + seq!['\\'] + name
    } else {
        base + seq!['/'] + name
    }
}

pub fn join(base: &str, name: &str, os: Os) -> (res: String)
    ensures
        res@ == joined(base@, name@, os),
{
    let mut out = base.to_owned();
    let n = base.unicode_len();
    if n > 0 {
        let last = base.get_char(n - 1);
        if !(last == '/' || (os == Os::Windows && last == '\\')) {
            push_char(&mut out, if os == Os::Windows { '\\' } else { '/' });
        }
    }
    push_str(&mut out, name);
    out
}

/// Where the launchers keep their data: each list holds folders that may
/// exist; nothing here checks that they do.
pub struct LauncherRoots {
    /// The vanilla launcher's game folder (`.minecraft`).
    pub minecraft: Vec<String>,
    /// Prism Launcher's data folder: `instances/`, `libraries/`.
    pub prism: Vec<String>,
    /// MultiMC's folder: `instances/`, `libraries/`.
    pub multimc: Vec<String>,
    /// CurseForge's `minecraft` folder: `Instances/`, `Install/`.
    pub curseforge: Vec<String>,
    /// The Modrinth App's data folder: `profiles/`, `meta/`.
    pub modrinth: Vec<String>,
    pub downloads: Option<String>,
}

pub struct RootsView {
    pub minecraft: Seq<Seq<char>>,
    pub prism: Seq<Seq<char>>,
    pub multimc: Seq<Seq<char>>,
    pub curseforge: Seq<Seq<char>>,
    pub modrinth: Seq<Seq<char>>,
    pub downloads: Option<Seq<char>>,
}

impl View for LauncherRoots {
    type V = RootsView;

    open spec fn view(&self) -> RootsView {
        RootsView {
            minecraft: views(self.minecraft@),
            prism: views(self.prism@),
            multimc: views(self.multimc@),
            curseforge: views(self.curseforge@),
            modrinth: views(self.modrinth@),
            downloads: match self.downloads {
                Some(d) => Some(d@),
                None => None,
            },
        }
    }
}

/// The launchers' folders on `os` for the environment `env`: under
/// `%APPDATA%` on Windows, `~/Library/Application Support` on macOS and
/// `~/.local/share` elsewhere, plus the ones every platform keeps in the
/// home folder.
pub open spec fn roots_of(env: Seq<(Seq<char>, Seq<char>)>, os: Os) -> RootsView {
    let fold = folds_case(os);
    let appdata = if os == Os::Windows {
        env_lookup(env, "APPDATA"@, fold)
    } else {
        None
    };
    let (mc0, prism0, modrinth0) = match appdata {
        Some(a) => (
            seq![joined(a, ".minecraft"@, os)],
            seq![joined(a, "PrismLauncher"@, os)],
            seq![joined(a, "com.modrinth.theseus"@, os), joined(a, "ModrinthApp"@, os)],
        ),
        None => (seq![], seq![], seq![]),
    };
    match home_of(env, fold) {
        None => RootsView {
            minecraft: mc0,
            prism: prism0,
            multimc: seq![],
            curseforge: seq![],
            modrinth: modrinth0,
            downloads: None,
        },
        Some(h) => {
            let support = joined(joined(h, "Library"@, os), "Application Support"@, os);
            let share = joined(joined(h, ".local"@, os), "share"@, os);
            let (mc1, prism1, modrinth1) = if os == Os::MacOs {
                (
                    mc0.push(joined(support, "minecraft"@, os)),
                    prism0.push(joined(support, "PrismLauncher"@, os)),
                    modrinth0.push(joined(support, "ModrinthApp"@, os)),
                )
            } else {
                (mc0, prism0, modrinth0)
            };
            let (mc2, prism2, modrinth2) = if os != Os::Windows {
                (
                    mc1.push(joined(h, ".minecraft"@, os)),
                    prism1.push(joined(share, "PrismLauncher"@, os)),
                    modrinth1.push(joined(share, "ModrinthApp"@, os)),
                )
            } else {
                (mc1, prism1, modrinth1)
            };
            RootsView {
                minecraft: mc2,
                prism: prism2,
                multimc: seq![joined(h, "MultiMC"@, os)],
                curseforge: seq![joined(joined(h, "curseforge"@, os), "minecraft"@, os)],
                modrinth: modrinth2,
                downloads: Some(joined(h, "Downloads"@, os)),
            }
        },
    }
}

fn push_joined(list: &mut Vec<String>, base: &str, name: &str, os: Os)
    ensures
        views(final(list)@) == views(old(list)@).push(joined(base@, name@, os)),
{
    let ghost before = views(list@);
    let p = join(base, name, os);
    let ghost pv = p@;
    list.push(p);
    assert(views(list@) =~= before.push(pv));
}

/// The launchers' folders for a snapshot of the environment.
pub fn launcher_roots(env: &[(String, String)], os: Os) -> (res: LauncherRoots)
    ensures
        res@ == roots_of(env_views(env@), os),
{
    let mut roots = LauncherRoots {
        minecraft: Vec::new(),
        prism: Vec::new(),
        multimc: Vec::new(),
        curseforge: Vec::new(),
        modrinth: Vec::new(),
        downloads: None,
    };
    assert(views(roots.minecraft@) =~= Seq::<Seq<char>>::empty());
    assert(views(roots.prism@) =~= Seq::<Seq<char>>::empty());
    assert(views(roots.modrinth@) =~= Seq::<Seq<char>>::empty());
    assert(views(roots.multimc@) =~= Seq::<Seq<char>>::empty());
    assert(views(roots.curseforge@) =~= Seq::<Seq<char>>::empty());
    if os == Os::Windows {
        match env_var(env, "APPDATA", os) {
            Some(a) => {
                push_joined(&mut roots.minecraft, a, ".minecraft", os);
                push_joined(&mut roots.prism, a, "PrismLauncher", os);
                push_joined(&mut roots.modrinth, a, "com.modrinth.theseus", os);
                push_joined(&mut roots.modrinth, a, "ModrinthApp", os);
            },
            None => {},
        }
    }
    let ghost ev = env_views(env@);
    let ghost fold = folds_case(os);
    let ghost appdata = if os == Os::Windows {
        env_lookup(ev, "APPDATA"@, fold)
    } else {
        None
    };
    let ghost mc0 = match appdata {
        Some(a) => seq![joined(a, ".minecraft"@, os)],
        None => Seq::<Seq<char>>::empty(),
    };
    let ghost prism0 = match appdata {
        Some(a) => seq![joined(a, "PrismLauncher"@, os)],
        None => Seq::<Seq<char>>::empty(),
    };
    let ghost modrinth0 = match appdata {
        Some(a) => seq![joined(a, "com.modrinth.theseus"@, os), joined(a, "ModrinthApp"@, os)],
        None => Seq::<Seq<char>>::empty(),
    };
    assert(views(roots.minecraft@) =~= mc0);
    assert(views(roots.prism@) =~= prism0);
    assert(views(roots.modrinth@) =~= modrinth0);
    match home_dir(env, os) {
        Some(hs) => {
            let h = hs.as_str();
            let ghost support = joined(joined(h@, "Library"@, os), "Application Support"@, os);
            let ghost share = joined(joined(h@, ".local"@, os), "share"@, os);
            if os == Os::MacOs {
                let lib = join(h, "Library", os);
                let support_dir = join(lib.as_str(), "Application Support", os);
                push_joined(&mut roots.minecraft, support_dir.as_str(), "minecraft", os);
                push_joined(&mut roots.prism, support_dir.as_str(), "PrismLauncher", os);
                push_joined(&mut roots.modrinth, support_dir.as_str(), "ModrinthApp", os);
            }
            let ghost mc1 = views(roots.minecraft@);
            let ghost prism1 = views(roots.prism@);
            let ghost modrinth1 = views(roots.modrinth@);
            if os != Os::Windows {
                push_joined(&mut roots.minecraft, h, ".minecraft", os);
                let local = join(h, ".local", os);
                let share_dir = join(local.as_str(), "share", os);
                push_joined(&mut roots.prism, share_dir.as_str(), "PrismLauncher", os);
                push_joined(&mut roots.modrinth, share_dir.as_str(), "ModrinthApp", os);
            }
            let cf = join(h, "curseforge", os);
            push_joined(&mut roots.curseforge, cf.as_str(), "minecraft", os);
            push_joined(&mut roots.multimc, h, "MultiMC", os);
            roots.downloads = Some(join(h, "Downloads", os));
            assert(roots@.multimc =~= seq![joined(h@, "MultiMC"@, os)]);
            assert(roots@.curseforge =~= seq![joined(joined(h@, "curseforge"@, os), "minecraft"@, os)]);
            assert(roots@ == roots_of(ev, os));
        },
        None => {
            assert(roots@ == roots_of(ev, os));
        },
    }
    roots
}

/// Every launcher's folder is among the roots looked through: on Windows
/// the vanilla launcher's, Prism Launcher's and the Modrinth App's under
/// `%APPDATA%`; on macOS theirs under `~/Library/Application Support`;
/// elsewhere `~/.minecraft` and Prism Launcher's and the Modrinth App's
/// under `~/.local/share`; and on every platform MultiMC's and CurseForge's
/// folders and the downloads folder in the home folder.
pub proof fn lemma_launcher_roots_cover(env: Seq<(Seq<char>, Seq<char>)>, os: Os)
    ensures
        ({
            let r = roots_of(env, os);
            let fold = folds_case(os);
            &&& os == Os::Windows ==> (env_lookup(env, "APPDATA"@, fold) matches Some(a) ==> {
                &&& r.minecraft.contains(joined(a, ".minecraft"@, os))
                &&& r.prism.contains(joined(a, "PrismLauncher"@, os))
                &&& r.modrinth.contains(joined(a, "com.modrinth.theseus"@, os))
                &&& r.modrinth.contains(joined(a, "ModrinthApp"@, os))
            })
            &&& os == Os::MacOs ==> (home_of(env, fold) matches Some(h) ==> {
                let support = joined(joined(h, "Library"@, os), "Application Support"@, os);
                &&& r.minecraft.contains(joined(support, "minecraft"@, os))
                &&& r.prism.contains(joined(support, "PrismLauncher"@, os))
                &&& r.modrinth.contains(joined(support, "ModrinthApp"@, os))
            })
            &&& os == Os::Other ==> (home_of(env, fold) matches Some(h) ==> {
                let share = joined(joined(h, ".local"@, os), "share"@, os);
                &&& r.minecraft.contains(joined(h, ".minecraft"@, os))
                &&& r.prism.contains(joined(share, "PrismLauncher"@, os))
                &&& r.modrinth.contains(joined(share, "ModrinthApp"@, os))
            })
            &&& home_of(env, fold) matches Some(h) ==> {
                &&& r.multimc.contains(joined(h, "MultiMC"@, os))
                &&& r.curseforge.contains(joined(joined(h, "curseforge"@, os), "minecraft"@, os))
                &&& r.downloads == Some(joined(h, "Downloads"@, os))
            }
            &&& home_of(env, fold) is None ==> r.downloads is None
        }),
{
    let r = roots_of(env, os);
    let fold = folds_case(os);
    if os == Os::Windows {
        if let Some(a) = env_lookup(env, "APPDATA"@, fold) {
            assert(r.minecraft[0] == joined(a, ".minecraft"@, os));
            assert(r.prism[0] == joined(a, "PrismLauncher"@, os));
            assert(r.modrinth[0] == joined(a, "com.modrinth.theseus"@, os));
            assert(r.modrinth[1] == joined(a, "ModrinthApp"@, os));
        }
    }
    if let Some(h) = home_of(env, fold) {
        assert(r.multimc[0] == joined(h, "MultiMC"@, os));
        assert(r.curseforge[0] == joined(joined(h, "curseforge"@, os), "minecraft"@, os));
        if os == Os::MacOs {
            assert(r.minecraft[0] == joined(
                joined(joined(h, "Library"@, os), "Application Support"@, os),
                "minecraft"@,
                os,
            ));
            assert(r.prism[0] == joined(
                joined(joined(h, "Library"@, os), "Application Support"@, os),
                "PrismLauncher"@,
                os,
            ));
            assert(r.modrinth[0] == joined(
                joined(joined(h, "Library"@, os), "Application Support"@, os),
                "ModrinthApp"@,
                os,
            ));
        }
        if os == Os::Other {
            assert(r.minecraft[r.minecraft.len() - 1] == joined(h, ".minecraft"@, os));
            assert(r.prism[r.prism.len() - 1] == joined(
                joined(joined(h, ".local"@, os), "share"@, os),
                "PrismLauncher"@,
                os,
            ));
            assert(r.modrinth[r.modrinth.len() - 1] == joined(
                joined(joined(h, ".local"@, os), "share"@, os),
                "ModrinthApp"@,
                os,
            ));
        }
    }
}

/// A launcher folder to look through for instances: the folder, the
/// launcher's name, and where each instance keeps its game folder (empty
/// for the instance folder itself).
pub struct InstanceRoot {
    pub dir: String,
    pub launcher: &'static str,
    pub inner: &'static str,
}

/// The folders holding launcher instances, in the order they are offered:
/// Prism Launcher's, the Modrinth App's, CurseForge's, then MultiMC's.
pub open spec fn instance_roots_of(r: RootsView, os: Os) -> Seq<(Seq<char>, Seq<char>, Seq<char>)> {
    r.prism.map_values(|p: Seq<char>| (joined(p, "instances"@, os), "Prism Launcher"@, ".minecraft"@))
        + r.modrinth.map_values(|p: Seq<char>| (joined(p, "profiles"@, os), "Modrinth App"@, ""@))
        + r.curseforge.map_values(|p: Seq<char>| (joined(p, "Instances"@, os), "CurseForge"@, ""@))
        + r.multimc.map_values(|p: Seq<char>| (joined(p, "instances"@, os), "MultiMC"@, ".minecraft"@))
}

pub open spec fn instance_root_views(v: Seq<InstanceRoot>) -> Seq<(Seq<char>, Seq<char>, Seq<char>)> {
    v.map_values(|r: InstanceRoot| (r.dir@, r.launcher@, r.inner@))
}

fn push_roots(
    out: &mut Vec<InstanceRoot>,
    roots: &Vec<String>,
    sub: &str,
    launcher: &'static str,
    inner: &'static str,
    os: Os,
)
    ensures
        instance_root_views(final(out)@) == instance_root_views(old(out)@) + views(roots@).map_values(
            |p: Seq<char>| (joined(p, sub@, os), launcher@, inner@),
        ),
{
    let ghost start = instance_root_views(out@);
    let ghost f = |p: Seq<char>| (joined(p, sub@, os), launcher@, inner@);
    let mut i: usize = 0;
    while i < roots.len()
        invariant
            i <= roots@.len(),
            start == instance_root_views(old(out)@),
            f == (|p: Seq<char>| (joined(p, sub@, os), launcher@, inner@)),
            instance_root_views(out@) == start + views(roots@).take(i as int).map_values(f),
        decreases roots.len() - i,
    {
        let ghost before = instance_root_views(out@);
        let d = join(roots[i].as_str(), sub, os);
        let ghost dv = d@;
        out.push(InstanceRoot { dir: d, launcher, inner });
        assert(instance_root_views(out@) =~= before.push((dv, launcher@, inner@)));
        assert(views(roots@).take(i + 1).map_values(f) =~= views(roots@).take(i as int).map_values(
            f,
        ).push(f(roots@[i as int]@)));
        i += 1;
    }
    assert(views(roots@).take(roots@.len() as int) =~= views(roots@));
}

/// The launcher folders to look through for instances.
pub fn instance_roots(roots: &LauncherRoots, os: Os) -> (res: Vec<InstanceRoot>)
    ensures
        instance_root_views(res@) == instance_roots_of(roots@, os),
{
    let mut out: Vec<InstanceRoot> = Vec::new();
    assert(instance_root_views(out@) =~= Seq::<(Seq<char>, Seq<char>, Seq<char>)>::empty());
    push_roots(&mut out, &roots.prism, "instances", "Prism Launcher", ".minecraft", os);
    push_roots(&mut out, &roots.modrinth, "profiles", "Modrinth App", "", os);
    push_roots(&mut out, &roots.curseforge, "Instances", "CurseForge", "", os);
    push_roots(&mut out, &roots.multimc, "instances", "MultiMC", ".minecraft", os);
    assert(instance_root_views(out@) =~= instance_roots_of(roots@, os));
    out
}

/// The `schematics` folder of the instance in `dir`, whose game folder is
/// `inner` inside it (or `dir` itself when `inner` is empty).
pub open spec fn instance_schematics_of(dir: Seq<char>, inner: Seq<char>, os: Os) -> Seq<char> {
    let game = if inner.len() == 0 {
        dir
    } else {
        joined(dir, inner, os)
    };
    joined(game, "schematics"@, os)
}

/// Where an instance keeps its schematics.
pub fn instance_schematics_dir(dir: &str, inner: &str, os: Os) -> (res: String)
    ensures
        res@ == instance_schematics_of(dir@, inner@, os),
{
    if inner.unicode_len() == 0 {
        join(dir, "schematics", os)
    } else {
        let game = join(dir, inner, os);
        join(game.as_str(), "schematics", os)
    }
}

/// The vanilla launcher's `schematics` folders.
pub fn vanilla_schematics(roots: &LauncherRoots, os: Os) -> (res: Vec<String>)
    ensures
        views(res@) == roots@.minecraft.map_values(|p: Seq<char>| joined(p, "schematics"@, os)),
{
    let ghost f = |p: Seq<char>| joined(p, "schematics"@, os);
    let mut out: Vec<String> = Vec::new();
    let mut i: usize = 0;
    while i < roots.minecraft.len()
        invariant
            i <= roots.minecraft@.len(),
            f == (|p: Seq<char>| joined(p, "schematics"@, os)),
            views(out@) == views(roots.minecraft@).take(i as int).map_values(f),
        decreases roots.minecraft.len() - i,
    {
        let ghost before = views(out@);
        let d = join(roots.minecraft[i].as_str(), "schematics", os);
        let ghost dv = d@;
        out.push(d);
        assert(views(out@) =~= before.push(dv));
        assert(views(roots.minecraft@).take(i + 1).map_values(f) =~= views(roots.minecraft@).take(
            i as int,
        ).map_values(f).push(f(roots.minecraft@[i as int]@)));
        i += 1;
    }
    assert(views(roots.minecraft@).take(roots.minecraft@.len() as int) =~= views(roots.minecraft@));
    out
}

/// A folder that may hold client jars: the folder, and whether its jars
/// are named as libraries (`minecraft-<v>-client.jar`) rather than after
/// their version (`<v>.jar`).
pub open spec fn jar_folders_of(r: RootsView, os: Os) -> Seq<(Seq<char>, bool)> {
    r.minecraft.map_values(|p: Seq<char>| (joined_all(p, seq!["versions"@], os), false))
        + r.curseforge.map_values(
        |p: Seq<char>| (joined_all(p, seq!["Install"@, "versions"@], os), false),
    ) + r.modrinth.map_values(|p: Seq<char>| (joined_all(p, seq!["meta"@, "versions"@], os), false))
        + r.prism.map_values(
        |p: Seq<char>|
            (joined_all(p, seq!["libraries"@, "com"@, "mojang"@, "minecraft"@], os), true),
    ) + r.multimc.map_values(
        |p: Seq<char>|
            (joined_all(p, seq!["libraries"@, "com"@, "mojang"@, "minecraft"@], os), true),
    )
}

pub open spec fn folder_views(v: Seq<(String, bool)>) -> Seq<(Seq<char>, bool)> {
    v.map_values(|p: (String, bool)| (p.0@, p.1))
}

/// `base` with each of `names` joined in turn.
pub open spec fn joined_all(base: Seq<char>, names: Seq<Seq<char>>, os: Os) -> Seq<char>
    decreases names.len(),
{
    if names.len() == 0 {
        base
    } else {
        joined(joined_all(base, names.drop_last(), os), names.last(), os)
    }
}

fn push_folders(out: &mut Vec<(String, bool)>, roots: &Vec<String>, subs: &[&str], library: bool, os: Os)
    ensures
        folder_views(final(out)@) == folder_views(old(out)@) + views(roots@).map_values(
            |p: Seq<char>| (joined_all(p, subs@.map_values(|s: &str| s@), os), library),
        ),
{
    let ghost names = subs@.map_values(|s: &str| s@);
    let ghost f = |p: Seq<char>| (joined_all(p, names, os), library);
    let ghost start = folder_views(out@);
    let mut i: usize = 0;
    while i < roots.len()
        invariant
            i <= roots@.len(),
            names == subs@.map_values(|s: &str| s@),
            f == (|p: Seq<char>| (joined_all(p, names, os), library)),
            start == folder_views(old(out)@),
            folder_views(out@) == start + views(roots@).take(i as int).map_values(f),
        decreases roots.len() - i,
    {
        let mut d = roots[i].clone();
        let mut k: usize = 0;
        assert(names.take(0) =~= Seq::<Seq<char>>::empty());
        while k < subs.len()
            invariant
                k <= subs@.len(),
                names == subs@.map_values(|s: &str| s@),
                d@ == joined_all(roots@[i as int]@, names.take(k as int), os),
            decreases subs.len() - k,
        {
            d = join(d.as_str(), subs[k], os);
            assert(names.take(k + 1).drop_last() =~= names.take(k as int));
            k += 1;
        }
        assert(names.take(subs@.len() as int) =~= names);
        let ghost before = folder_views(out@);
        let ghost dv = d@;
        out.push((d, library));
        assert(folder_views(out@) =~= before.push((dv, library)));
        assert(views(roots@).take(i + 1).map_values(f) =~= views(roots@).take(i as int).map_values(
            f,
        ).push(f(roots@[i as int]@)));
        i += 1;
    }
    assert(views(roots@).take(roots@.len() as int) =~= views(roots@));
}

/// The folders that may hold the launchers' client jars.
pub fn jar_folders(roots: &LauncherRoots, os: Os) -> (res: Vec<(String, bool)>)
    ensures
        folder_views(res@) == jar_folders_of(roots@, os),
{
    let mut out: Vec<(String, bool)> = Vec::new();
    assert(folder_views(out@) =~= Seq::<(Seq<char>, bool)>::empty());
    let v1 = ["versions"];
    let v2 = ["Install", "versions"];
    let v3 = ["meta", "versions"];
    let v4 = ["libraries", "com", "mojang", "minecraft"];
    push_folders(&mut out, &roots.minecraft, &v1, false, os);
    push_folders(&mut out, &roots.curseforge, &v2, false, os);
    push_folders(&mut out, &roots.modrinth, &v3, false, os);
    push_folders(&mut out, &roots.prism, &v4, true, os);
    push_folders(&mut out, &roots.multimc, &v4, true, os);
    proof {
        let n1 = v1@.map_values(|s: &str| s@);
        let n2 = v2@.map_values(|s: &str| s@);
        let n3 = v3@.map_values(|s: &str| s@);
        let n4 = v4@.map_values(|s: &str| s@);
        assert(n1 =~= seq!["versions"@]);
        assert(n2 =~= seq!["Install"@, "versions"@]);
        assert(n3 =~= seq!["meta"@, "versions"@]);
        assert(n4 =~= seq!["libraries"@, "com"@, "mojang"@, "minecraft"@]);
    }
    assert(folder_views(out@) =~= jar_folders_of(roots@, os));
    out
}

// ── Suggested folders ────────────────────────────────────────────────────

/// A launcher instance a suggested folder belongs to.
#[derive(Debug, Clone, PartialEq, Eq)]
pub struct Instance {
    /// The instance's folder name, which launchers use as its display name.
    pub name: String,
    pub launcher: &'static str,
    /// The Minecraft version it runs, when its launcher records one.
    pub mc_version: Option<String>,
}

/// A folder a UI can offer as a one-click output choice.
#[derive(Debug, Clone)]
pub struct Suggestion {
    pub path: String,
    pub exists: bool,
    pub instance: Option<Instance>,
}

/// Verdict for a folder the user is typing: usable, and does it exist yet?
#[derive(Debug, Clone)]
pub struct DirCheck {
    pub path: String,
    pub exists: bool,
}

/// Whether some entry of `s` before `i` has the path of entry `i`.
pub open spec fn seen_before(s: Seq<Suggestion>, i: int) -> bool {
    exists|j: int| 0 <= j < i && (#[trigger] s[j]).path@ == s[i].path@
}

/// The first suggestion for each path, in order.
pub open spec fn first_of_each(s: Seq<Suggestion>) -> Seq<Suggestion>
    decreases s.len(),
{
    if s.len() == 0 {
        seq![]
    } else if seen_before(s, s.len() - 1) {
        first_of_each(s.drop_last())
    } else {
        first_of_each(s.drop_last()).push(s.last())
    }
}

/// The suggestions whose folder exists (`want`) or does not, in order.
pub open spec fn with_exists(s: Seq<Suggestion>, want: bool) -> Seq<Suggestion>
    decreases s.len(),
{
    if s.len() == 0 {
        seq![]
    } else if s.last().exists == want {
        with_exists(s.drop_last(), want).push(s.last())
    } else {
        with_exists(s.drop_last(), want)
    }
}

/// Folders that exist first, then the rest; each group as listed.
pub open spec fn existing_first(s: Seq<Suggestion>) -> Seq<Suggestion> {
    with_exists(s, true) + with_exists(s, false)
}

fn copy_instance(i: &Instance) -> (res: Instance)
    ensures
        res == *i,
{
    Instance {
        name: i.name.clone(),
        launcher: i.launcher,
        mc_version: match &i.mc_version {
            Some(v) => Some(v.clone()),
            None => None,
        },
    }
}

fn copy_suggestion(s: &Suggestion) -> (res: Suggestion)
    ensures
        res == *s,
{
    Suggestion {
        path: s.path.clone(),
        exists: s.exists,
        instance: match &s.instance {
            Some(i) => Some(copy_instance(i)),
            None => None,
        },
    }
}

fn path_seen(out: &Vec<Suggestion>, path: &str) -> (res: bool)
    ensures
        res == exists|j: int| 0 <= j < out@.len() && (#[trigger] out@[j]).path@ == path@,
{
    let mut j: usize = 0;
    while j < out.len()
        invariant
            j <= out@.len(),
            forall|q: int| 0 <= q < j ==> (#[trigger] out@[q]).path@ != path@,
        decreases out.len() - j,
    {
        if crate::text::str_eq(out[j].path.as_str(), path) {
            return true;
        }
        j += 1;
    }
    false
}

/// Whether some entry of `s` has path `p`.
pub open spec fn has_path(s: Seq<Suggestion>, p: Seq<char>) -> bool {
    exists|j: int| 0 <= j < s.len() && (#[trigger] s[j]).path@ == p
}

proof fn lemma_first_of_each_paths(s: Seq<Suggestion>, p: Seq<char>)
    ensures
        has_path(first_of_each(s), p) == has_path(s, p),
    decreases s.len(),
{
    if s.len() > 0 {
        let d = s.drop_last();
        let r = first_of_each(d);
        lemma_first_of_each_paths(d, p);
        assert(has_path(d, p) ==> has_path(s, p)) by {
            if has_path(d, p) {
                let j = choose|j: int| 0 <= j < d.len() && (#[trigger] d[j]).path@ == p;
                assert(s[j] == d[j]);
            }
        }
        if seen_before(s, s.len() - 1) {
            assert(first_of_each(s) == r);
            if has_path(s, p) {
                let j = choose|j: int| 0 <= j < s.len() && (#[trigger] s[j]).path@ == p;
                if j < s.len() - 1 {
                    assert(d[j] == s[j]);
                } else {
                    let k = choose|k: int| 0 <= k < s.len() - 1 && (#[trigger] s[k]).path@ == s[s.len()
                        - 1].path@;
                    assert(d[k] == s[k]);
                }
            }
        } else {
            assert(first_of_each(s) == r.push(s.last()));
            if has_path(first_of_each(s), p) {
                let j = choose|j: int| 0 <= j < r.len() + 1 && (#[trigger] r.push(s.last())[j]).path@
                    == p;
                if j == r.len() {
                    assert(s[s.len() - 1].path@ == p);
                } else {
                    assert(r.push(s.last())[j] == r[j]);
                }
            }
            if has_path(s, p) {
                let j = choose|j: int| 0 <= j < s.len() && (#[trigger] s[j]).path@ == p;
                if j < s.len() - 1 {
                    assert(d[j] == s[j]);
                    let k = choose|k: int| 0 <= k < r.len() && (#[trigger] r[k]).path@ == p;
                    assert(r.push(s.last())[k] == r[k]);
                } else {
                    assert(r.push(s.last())[r.len() as int] == s.last());
                }
            }
        }
    }
}

/// The suggestions to offer from candidate folders listed in preference
/// order: each path once (its first listing), folders that exist first, the
/// order within each group kept.
pub fn suggestions(candidates: Vec<Suggestion>) -> (res: Vec<Suggestion>)
    ensures
        res@ == existing_first(first_of_each(candidates@)),
{
    let mut unique: Vec<Suggestion> = Vec::new();
    let mut i: usize = 0;
    while i < candidates.len()
        invariant
            i <= candidates@.len(),
            unique@ == first_of_each(candidates@.take(i as int)),
        decreases candidates.len() - i,
    {
        let ghost t = candidates@.take(i + 1);
        let ghost d = candidates@.take(i as int);
        assert(t.drop_last() == d);
        assert(t.last() == candidates@[i as int]);
        proof {
            lemma_first_of_each_paths(d, candidates@[i as int].path@);
        }
        let seen = path_seen(&unique, candidates[i].path.as_str());
        assert(seen == has_path(first_of_each(d), candidates@[i as int].path@));
        assert(seen == seen_before(t, i as int)) by {
            if seen_before(t, i as int) {
                let j = choose|j: int| 0 <= j < i && (#[trigger] t[j]).path@ == t[i as int].path@;
                assert(d[j] == t[j]);
            }
            if has_path(d, candidates@[i as int].path@) {
                let j = choose|j: int| 0 <= j < d.len() && (#[trigger] d[j]).path@
                    == candidates@[i as int].path@;
                assert(t[j] == d[j]);
            }
        }
        if !seen {
            unique.push(copy_suggestion(&candidates[i]));
        }
        i += 1;
    }
    assert(candidates@.take(candidates@.len() as int) == candidates@);
    let mut out: Vec<Suggestion> = Vec::new();
    let mut k: usize = 0;
    while k < unique.len()
        invariant
            k <= unique@.len(),
            out@ == with_exists(unique@.take(k as int), true),
        decreases unique.len() - k,
    {
        assert(unique@.take(k + 1).drop_last() == unique@.take(k as int));
        if unique[k].exists {
            out.push(copy_suggestion(&unique[k]));
        }
        k += 1;
    }
    assert(unique@.take(unique@.len() as int) == unique@);
    let mut k: usize = 0;
    let ghost front = out@;
    assert(out@ =~= front + with_exists(unique@.take(0), false));
    while k < unique.len()
        invariant
            k <= unique@.len(),
            out@ == front + with_exists(unique@.take(k as int), false),
        decreases unique.len() - k,
    {
        assert(unique@.take(k + 1).drop_last() == unique@.take(k as int));
        if !unique[k].exists {
            out.push(copy_suggestion(&unique[k]));
        }
        k += 1;
        assert(out@ =~= front + with_exists(unique@.take(k as int), false));
    }
    out
}

// ── Checking a folder typed in a UI ──────────────────────────────────────

/// What the file system holds at a path.
#[derive(Debug, Clone, Copy, PartialEq, Eq, Structural)]
pub enum Entry {
    Missing,
    Folder,
    /// Something that is not a folder.
    File,
}

/// What checking a folder does next.
#[derive(Debug, Clone, PartialEq, Eq)]
pub enum CheckStep {
    /// Write a probe file into `folder`; whether that works decides.
    /// `exists` says whether the folder asked about exists already.
    Probe { folder: String, exists: bool },
    /// The folder cannot be used, and why.
    Refuse(String),
}

/// The step after looking at folder `dir` (whose entry is `entry`) and at
/// its nearest existing ancestor, if any: a folder that exists is probed
/// itself; one that does not yet is probed through that ancestor, which
/// must be a folder.
pub open spec fn check_step_of(dir: Seq<char>, entry: Entry, ancestor: Option<(Seq<char>, Entry)>) -> (
    Option<(Seq<char>, bool)>,
    Seq<char>,
) {
    if entry == Entry::Folder {
        (Some((dir, true)), seq![])
    } else {
        match ancestor {
            Some((p, Entry::Folder)) => (Some((p, false)), seq![]),
            Some((p, Entry::File)) => (None, "\""@ + p + "\" is not a folder"@),
            _ => (None, "\""@ + dir + "\" is not on a drive that exists"@),
        }
    }
}

/// Decides what checking folder `dir` does next, from its own entry and
/// that of its nearest existing ancestor.
pub fn check_step(dir: &str, entry: Entry, ancestor: Option<(&str, Entry)>) -> (res: CheckStep)
    ensures
        ({
            let (probe, refusal) = check_step_of(
                dir@,
                entry,
                match ancestor {
                    Some((p, e)) => Some((p@, e)),
                    None => None,
                },
            );
            match probe {
                Some((f, ex)) => (res matches CheckStep::Probe { folder, exists } && folder@ == f
                    && exists == ex),
                None => (res matches CheckStep::Refuse(m) && m@ == refusal),
            }
        }),
{
    if entry == Entry::Folder {
        return CheckStep::Probe { folder: dir.to_owned(), exists: true };
    }
    match ancestor {
        Some((p, Entry::Folder)) => CheckStep::Probe { folder: p.to_owned(), exists: false },
        Some((p, Entry::File)) => CheckStep::Refuse(concat3("\"", p, "\" is not a folder")),
        _ => CheckStep::Refuse(concat3("\"", dir, "\" is not on a drive that exists")),
    }
}

/// The verdict on folder `dir` once `folder` was probed: usable (and
/// whether it exists yet), or why it is not writable.
pub fn check_result(dir: &str, exists: bool, folder: &str, probe: Result<(), String>) -> (res: Result<
    DirCheck,
    String,
>)
    ensures
        match probe {
            Ok(()) => (res matches Ok(c) && c.path@ == dir@ && c.exists == exists),
            Err(e) => (res matches Err(m) && m@ == "\""@ + folder@ + "\" is not writable: "@ + e@),
        },
{
    match probe {
        Ok(()) => Ok(DirCheck { path: dir.to_owned(), exists }),
        Err(e) => {
            let mut m = concat3("\"", folder, "\" is not writable: ");
            push_str(&mut m, e.as_str());
            Err(m)
        },
    }
}

} // verus!
