//! Character-level helpers shared by the parsers and writers.
use vstd::prelude::*;

verus! {

/// Appends one character to a string (`String::push`).
#[verifier::external_body]
pub(crate) fn push_char(s: &mut String, c: char)
    ensures
        final(s)@ == old(s)@.push(c),
{
    s.push(c);
}

/// The characters of `s`, in order.
pub fn chars_of(s: &str) -> (res: Vec<char>)
    ensures
        res@ == s@,
{
    let mut out: Vec<char> = Vec::new();
    for c in it: s.chars()
        invariant
            out@ == it.seq().take(it.index()),
            it.seq() == s@,
    {
        out.push(c);
    }
    out
}

/// A string holding `cs[from..to]`.
pub fn string_of_range(cs: &[char], from: usize, to: usize) -> (res: String)
    requires
        from <= to <= cs@.len(),
    ensures
        res@ == cs@.subrange(from as int, to as int),
{
    let mut out = String::new();
    let mut i: usize = from;
    while i < to
        invariant
            from <= i <= to <= cs@.len(),
            out@ == cs@.subrange(from as int, i as int),
        decreases to - i,
    {
        push_char(&mut out, cs[i]);
        i += 1;
        assert(cs@.subrange(from as int, i as int) == cs@.subrange(from as int, i - 1).push(
            cs@[i - 1],
        ));
    }
    out
}

/// A string holding exactly `cs`.
pub fn string_of(cs: &[char]) -> (res: String)
    ensures
        res@ == cs@,
{
    let mut out = String::new();
    let mut i: usize = 0;
    while i < cs.len()
        invariant
            i <= cs.len(),
            out@ == cs@.take(i as int),
        decreases cs.len() - i,
    {
        push_char(&mut out, cs[i]);
        i += 1;
        assert(cs@.take(i as int) == cs@.take(i - 1).push(cs@[i - 1]));
    }
    assert(cs@.take(cs.len() as int) == cs@);
    out
}

// ── Character classes ───────────────────────────────────────────────────

/// Unicode's `White_Space` property outside ASCII: next line, no-break
/// space, Ogham space mark, the spaces U+2000 to U+200A, line and paragraph
/// separators, narrow no-break space, medium mathematical space and
/// ideographic space.
pub open spec fn non_ascii_white_space(c: char) -> bool {
    let u = c as u32;
    ||| u == 0x85
    ||| u == 0xa0
    ||| u == 0x1680
    ||| 0x2000 <= u <= 0x200a
    ||| u == 0x2028
    ||| u == 0x2029
    ||| u == 0x202f
    ||| u == 0x205f
    ||| u == 0x3000
}

/// Unicode's `White_Space` property: among ASCII characters, tab, line
/// feed, vertical tab, form feed, carriage return and space.
pub open spec fn white_space(c: char) -> bool {
    if (c as u32) < 128 {
        c == ' ' || c == '\t' || c == '\n' || c == '\r' || c == '\x0b' || c == '\x0c'
    } else {
        non_ascii_white_space(c)
    }
}

/// Whether `c` has the `White_Space` property, as `char::is_whitespace`
/// decides it.
pub(crate) fn is_whitespace(c: char) -> (res: bool)
    ensures
        res == white_space(c),
{
    let u = c as u32;
    if u < 128 {
        c == ' ' || c == '\t' || c == '\n' || c == '\r' || c == '\x0b' || c == '\x0c'
    } else {
        u == 0x85 || u == 0xa0 || u == 0x1680 || (0x2000 <= u && u <= 0x200a) || u == 0x2028 || u
            == 0x2029 || u == 0x202f || u == 0x205f || u == 0x3000
    }
}

/// General category Cc (`char::is_control`).
pub open spec fn control(c: char) -> bool {
    (c as u32) <= 0x1f || (0x7f <= (c as u32) && (c as u32) <= 0x9f)
}

pub fn is_control(c: char) -> (res: bool)
    ensures
        res == control(c),
{
    let v = c as u32;
    v <= 0x1f || (0x7f <= v && v <= 0x9f)
}

pub open spec fn ascii_lower(c: char) -> char {
    if 'A' <= c && c <= 'Z' {
        ((c as u32) + 32) as char
    } else {
        c
    }
}

pub fn to_ascii_lower(c: char) -> (res: char)
    ensures
        res == ascii_lower(c),
{
    if 'A' <= c && c <= 'Z' {
        ((c as u8) + 32) as char
    } else {
        c
    }
}

pub open spec fn is_ascii_digit(c: char) -> bool {
    '0' <= c && c <= '9'
}

pub open spec fn is_ascii_alphanumeric(c: char) -> bool {
    is_ascii_digit(c) || ('a' <= c && c <= 'z') || ('A' <= c && c <= 'Z')
}

pub open spec fn all_ascii(s: Seq<char>) -> bool {
    forall|i: int| 0 <= i < s.len() ==> (#[trigger] s[i] as u32) < 128
}

// ── Trimming ─────────────────────────────────────────────────────────────

/// `s` without leading whitespace.
pub open spec fn trim_start(s: Seq<char>) -> Seq<char>
    decreases s.len(),
{
    if s.len() > 0 && white_space(s[0]) {
        trim_start(s.drop_first())
    } else {
        s
    }
}

/// `s` without trailing whitespace.
pub open spec fn trim_end(s: Seq<char>) -> Seq<char>
    decreases s.len(),
{
    if s.len() > 0 && white_space(s.last()) {
        trim_end(s.drop_last())
    } else {
        s
    }
}

/// `str::trim`: `s` without leading and trailing whitespace.
pub open spec fn trimmed(s: Seq<char>) -> Seq<char> {
    trim_end(trim_start(s))
}

proof fn lemma_trim_start_skip(s: Seq<char>, i: int)
    requires
        0 <= i <= s.len(),
        forall|j: int| 0 <= j < i ==> white_space(#[trigger] s[j]),
    ensures
        trim_start(s) == trim_start(s.subrange(i, s.len() as int)),
    decreases i,
{
    if i > 0 {
        assert(s.drop_first().subrange(i - 1, s.drop_first().len() as int) == s.subrange(
            i,
            s.len() as int,
        ));
        assert forall|j: int| 0 <= j < i - 1 implies white_space(#[trigger] s.drop_first()[j]) by {
            assert(s.drop_first()[j] == s[j + 1]);
        }
        lemma_trim_start_skip(s.drop_first(), i - 1);
    } else {
        assert(s.subrange(0, s.len() as int) == s);
    }
}

proof fn lemma_trim_end_drop(s: Seq<char>, k: int)
    requires
        0 <= k <= s.len(),
        forall|j: int| k <= j < s.len() ==> white_space(#[trigger] s[j]),
    ensures
        trim_end(s) == trim_end(s.subrange(0, k)),
    decreases s.len() - k,
{
    if k < s.len() {
        assert(s.drop_last().subrange(0, k) == s.subrange(0, k));
        assert(white_space(s.last()));
        assert forall|j: int| k <= j < s.drop_last().len() implies white_space(
            #[trigger] s.drop_last()[j],
        ) by {
            assert(s.drop_last()[j] == s[j]);
        }
        lemma_trim_end_drop(s.drop_last(), k);
    } else {
        assert(s.subrange(0, k) == s);
    }
}

/// Trimming twice is trimming once.
pub proof fn lemma_trimmed_idempotent(s: Seq<char>)
    ensures
        trimmed(trimmed(s)) == trimmed(s),
{
    lemma_trim_start_first(s);
    let a = trim_start(s);
    lemma_trim_end_prefix(a);
    let t = trim_end(a);
    if t.len() > 0 {
        assert(t[0] == a[0]);
    }
    assert(trim_start(t) == t);
    assert(trim_end(t) == t);
}

proof fn lemma_trim_start_first(s: Seq<char>)
    ensures
        trim_start(s).len() > 0 ==> !white_space(trim_start(s)[0]),
    decreases s.len(),
{
    if s.len() > 0 && white_space(s[0]) {
        lemma_trim_start_first(s.drop_first());
    }
}

proof fn lemma_trim_end_prefix(s: Seq<char>)
    ensures
        trim_end(s).len() <= s.len(),
        trim_end(s) == s.subrange(0, trim_end(s).len() as int),
        trim_end(s).len() > 0 ==> !white_space(trim_end(s).last()),
    decreases s.len(),
{
    if s.len() > 0 && white_space(s.last()) {
        lemma_trim_end_prefix(s.drop_last());
        assert(s.drop_last().subrange(0, trim_end(s).len() as int) == s.subrange(
            0,
            trim_end(s).len() as int,
        ));
    } else {
        assert(s.subrange(0, s.len() as int) == s);
    }
}

/// `str::trim`.
pub fn trim(s: &str) -> (res: &str)
    ensures
        res@ == trimmed(s@),
{
    let n = s.unicode_len();
    let mut start: usize = 0;
    while start < n && is_whitespace(s.get_char(start))
        invariant
            n == s@.len(),
            start <= n,
            forall|j: int| 0 <= j < start ==> white_space(#[trigger] s@[j]),
        decreases n - start,
    {
        start += 1;
    }
    proof {
        lemma_trim_start_skip(s@, start as int);
    }
    let ghost rest = s@.subrange(start as int, n as int);
    assert(rest.len() > 0 ==> !white_space(rest[0]));
    let mut end: usize = n;
    while end > start && is_whitespace(s.get_char(end - 1))
        invariant
            n == s@.len(),
            start <= end <= n,
            rest == s@.subrange(start as int, n as int),
            forall|j: int| end - start <= j < rest.len() ==> white_space(#[trigger] rest[j]),
        decreases end,
    {
        end -= 1;
        assert(rest[end - start] == s@[end as int]);
    }
    proof {
        lemma_trim_end_drop(rest, end - start);
        assert(rest.subrange(0, end - start) == s@.subrange(start as int, end as int));
        if rest.len() > 0 {
            assert(trim_start(s@) == rest);
        } else {
            assert(trim_start(s@) == rest);
        }
    }
    s.substring_char(start, end)
}

// ── Comparison ───────────────────────────────────────────────────────────

/// Whether two strings hold the same characters.
pub fn str_eq(a: &str, b: &str) -> (res: bool)
    ensures
        res == (a@ == b@),
{
    let n = a.unicode_len();
    if n != b.unicode_len() {
        return false;
    }
    let mut i: usize = 0;
    while i < n
        invariant
            n == a@.len() == b@.len(),
            i <= n,
            forall|j: int| 0 <= j < i ==> a@[j] == b@[j],
        decreases n - i,
    {
        if a.get_char(i) != b.get_char(i) {
            return false;
        }
        i += 1;
    }
    assert(a@ =~= b@);
    true
}

/// `s` with ASCII letters lowercased.
pub open spec fn ascii_lowercase(s: Seq<char>) -> Seq<char> {
    s.map_values(|c: char| ascii_lower(c))
}

/// `str::eq_ignore_ascii_case`.
pub fn eq_ignore_ascii_case(a: &str, b: &str) -> (res: bool)
    ensures
        res == (ascii_lowercase(a@) == ascii_lowercase(b@)),
{
    let n = a.unicode_len();
    if n != b.unicode_len() {
        assert(ascii_lowercase(a@).len() != ascii_lowercase(b@).len());
        return false;
    }
    let mut i: usize = 0;
    while i < n
        invariant
            n == a@.len() == b@.len(),
            i <= n,
            forall|j: int| 0 <= j < i ==> ascii_lower(a@[j]) == ascii_lower(b@[j]),
        decreases n - i,
    {
        if to_ascii_lower(a.get_char(i)) != to_ascii_lower(b.get_char(i)) {
            assert(ascii_lowercase(a@)[i as int] != ascii_lowercase(b@)[i as int]);
            return false;
        }
        i += 1;
    }
    assert(ascii_lowercase(a@) =~= ascii_lowercase(b@));
    true
}

/// `str::to_ascii_lowercase`.
pub fn to_ascii_lowercase(s: &str) -> (res: String)
    ensures
        res@ == ascii_lowercase(s@),
{
    let cs = chars_of(s);
    let mut out = String::new();
    let mut i: usize = 0;
    while i < cs.len()
        invariant
            cs@ == s@,
            i <= cs.len(),
            out@ == ascii_lowercase(s@.take(i as int)),
        decreases cs.len() - i,
    {
        push_char(&mut out, to_ascii_lower(cs[i]));
        i += 1;
        assert(ascii_lowercase(s@.take(i as int)) =~= ascii_lowercase(s@.take(i - 1)).push(
            ascii_lower(s@[i - 1]),
        ));
    }
    assert(s@.take(cs.len() as int) == s@);
    out
}

/// Unicode lowercase mapping of a whole string (`str::to_lowercase`).
pub uninterp spec fn lowercase(s: Seq<char>) -> Seq<char>;

/// `str::to_lowercase`: the Unicode lowercase of `s`, which for ASCII text is
/// its ASCII lowercase.
#[verifier::external_body]
pub(crate) fn to_lowercase(s: &str) -> (res: String)
    ensures
        res@ == lowercase(s@),
        all_ascii(s@) ==> res@ == ascii_lowercase(s@),
{
    s.to_lowercase()
}

/// `s` starts with `t`.
pub open spec fn starts_with(s: Seq<char>, t: Seq<char>) -> bool {
    s.len() >= t.len() && s.take(t.len() as int) == t
}

/// Whether `s` starts with `t`.
pub fn str_starts_with(s: &str, t: &str) -> (res: bool)
    ensures
        res == starts_with(s@, t@),
{
    let n = s.unicode_len();
    let m = t.unicode_len();
    if n < m {
        return false;
    }
    let mut i: usize = 0;
    while i < m
        invariant
            n == s@.len(),
            m == t@.len(),
            m <= n,
            i <= m,
            forall|j: int| 0 <= j < i ==> s@[j] == t@[j],
        decreases m - i,
    {
        if s.get_char(i) != t.get_char(i) {
            assert(s@.take(m as int)[i as int] != t@[i as int]);
            return false;
        }
        i += 1;
    }
    assert(s@.take(m as int) =~= t@);
    true
}

/// `s` ends with `t`.
pub open spec fn ends_with(s: Seq<char>, t: Seq<char>) -> bool {
    s.len() >= t.len() && s.skip(s.len() - t.len()) == t
}

/// Whether `s` ends with `t`.
pub fn str_ends_with(s: &str, t: &str) -> (res: bool)
    ensures
        res == ends_with(s@, t@),
{
    let n = s.unicode_len();
    let m = t.unicode_len();
    if n < m {
        return false;
    }
    let mut i: usize = 0;
    while i < m
        invariant
            n == s@.len(),
            m == t@.len(),
            m <= n,
            i <= m,
            forall|j: int| 0 <= j < i ==> s@[n - m + j] == t@[j],
        decreases m - i,
    {
        if s.get_char(n - m + i) != t.get_char(i) {
            assert(s@.skip(n - m)[i as int] != t@[i as int]);
            return false;
        }
        i += 1;
    }
    assert(s@.skip(n - m) =~= t@);
    true
}

// ── Searching ────────────────────────────────────────────────────────────

/// `k` is where `c` first occurs in `s`.
pub open spec fn is_first(s: Seq<char>, c: char, k: int) -> bool {
    0 <= k < s.len() && s[k] == c && forall|j: int| 0 <= j < k ==> s[j] != c
}

/// Where `c` first occurs in `s`, if anywhere.
pub open spec fn first_index(s: Seq<char>, c: char) -> Option<int> {
    if exists|k: int| is_first(s, c, k) {
        Some(choose|k: int| is_first(s, c, k))
    } else {
        None
    }
}

/// Where `c` last occurs in `s`, if anywhere.
pub open spec fn is_last(s: Seq<char>, c: char, k: int) -> bool {
    0 <= k < s.len() && s[k] == c && forall|j: int| k < j < s.len() ==> s[j] != c
}

pub open spec fn last_index(s: Seq<char>, c: char) -> Option<int> {
    if exists|k: int| is_last(s, c, k) {
        Some(choose|k: int| is_last(s, c, k))
    } else {
        None
    }
}

/// The first occurrence of `c` in `s`.
pub fn find_char(s: &[char], c: char) -> (res: Option<usize>)
    ensures
        match res {
            Some(k) => first_index(s@, c) == Some(k as int),
            None => first_index(s@, c) is None && !s@.contains(c),
        },
{
    let mut k: usize = 0;
    while k < s.len()
        invariant
            k <= s@.len(),
            forall|j: int| 0 <= j < k ==> s@[j] != c,
        decreases s.len() - k,
    {
        if s[k] == c {
            proof {
                let f = choose|w: int| is_first(s@, c, w);
                assert(is_first(s@, c, k as int));
                if f != k {
                    assert(is_first(s@, c, f));
                }
            }
            return Some(k);
        }
        k += 1;
    }
    None
}

/// The last occurrence of `c` in `s`.
pub fn rfind_char(s: &[char], c: char) -> (res: Option<usize>)
    ensures
        match res {
            Some(k) => last_index(s@, c) == Some(k as int),
            None => last_index(s@, c) is None && !s@.contains(c),
        },
{
    let mut k: usize = s.len();
    while k > 0
        invariant
            k <= s@.len(),
            forall|j: int| k <= j < s@.len() ==> s@[j] != c,
        decreases k,
    {
        if s[k - 1] == c {
            proof {
                let f = choose|w: int| is_last(s@, c, w);
                assert(is_last(s@, c, k - 1));
                if f != k - 1 {
                    assert(is_last(s@, c, f));
                }
            }
            return Some(k - 1);
        }
        k -= 1;
    }
    None
}

/// The pieces of `v` between occurrences of `sep`, as `str::split` gives
/// them: one more than there are separators.
pub open spec fn split_parts(v: Seq<char>, sep: char) -> Seq<Seq<char>>
    decreases v.len(),
{
    if v.len() == 0 {
        seq![seq![]]
    } else {
        let rest = split_parts(v.drop_last(), sep);
        if v.last() == sep {
            rest.push(seq![])
        } else {
            rest.update(rest.len() - 1, rest.last().push(v.last()))
        }
    }
}

// ── Numbers ──────────────────────────────────────────────────────────────

pub open spec fn all_digits(s: Seq<char>) -> bool {
    forall|i: int| 0 <= i < s.len() ==> is_ascii_digit(#[trigger] s[i])
}

/// The value of a string of decimal digits.
pub open spec fn digits_value(s: Seq<char>) -> int
    decreases s.len(),
{
    if s.len() == 0 {
        0
    } else {
        digits_value(s.drop_last()) * 10 + ((s.last() as u32) - ('0' as u32))
    }
}

/// The integer `str::parse` reads: an optional sign, then one or more
/// decimal digits, nothing else.
pub open spec fn integer_value(s: Seq<char>) -> Option<int> {
    if s.len() > 0 && (s[0] == '-' || s[0] == '+') {
        let d = s.drop_first();
        if d.len() > 0 && all_digits(d) {
            Some(
                if s[0] == '-' {
                    -digits_value(d)
                } else {
                    digits_value(d)
                },
            )
        } else {
            None
        }
    } else if s.len() > 0 && all_digits(s) {
        Some(digits_value(s))
    } else {
        None
    }
}

proof fn lemma_digits_value_nonneg(s: Seq<char>)
    requires
        all_digits(s),
    ensures
        digits_value(s) >= 0,
    decreases s.len(),
{
    if s.len() > 0 {
        assert(is_ascii_digit(s[s.len() - 1]));
        lemma_digits_value_nonneg(s.drop_last());
    }
}

/// The value of `cs[from..to]`, or `None` once it exceeds `limit`.
fn digits_upto(cs: &Vec<char>, from: usize, to: usize, limit: i128) -> (res: Option<i128>)
    requires
        from <= to <= cs@.len(),
        all_digits(cs@.subrange(from as int, to as int)),
        0 <= limit <= 0xffff_ffff_ffff_ffff,
    ensures
        match res {
            Some(v) => v == digits_value(cs@.subrange(from as int, to as int)) && 0 <= v <= limit,
            None => digits_value(cs@.subrange(from as int, to as int)) > limit,
        },
{
    let mut acc: i128 = 0;
    let mut i = from;
    while i < to
        invariant
            from <= i <= to <= cs@.len(),
            all_digits(cs@.subrange(from as int, to as int)),
            0 <= limit <= 0xffff_ffff_ffff_ffff,
            0 <= acc <= limit,
            acc == digits_value(cs@.subrange(from as int, i as int)),
        decreases to - i,
    {
        let c = cs[i];
        assert(cs@.subrange(from as int, to as int)[i - from] == c);
        let d = (c as u32 - '0' as u32) as i128;
        i += 1;
        assert(cs@.subrange(from as int, i as int).drop_last() == cs@.subrange(
            from as int,
            i - 1,
        ));
        acc = acc * 10 + d;
        if acc > limit {
            proof {
                lemma_digits_grow(cs@.subrange(from as int, to as int), (i - from) as int);
                assert(cs@.subrange(from as int, to as int).subrange(0, (i - from) as int)
                    == cs@.subrange(from as int, i as int));
                assert(cs@.subrange(from as int, to as int).subrange(0, (to - from) as int)
                    == cs@.subrange(from as int, to as int));
            }
            return None;
        }
    }
    Some(acc)
}

/// More digits never make a smaller value.
proof fn lemma_digits_grow(s: Seq<char>, k: int)
    requires
        0 <= k <= s.len(),
        all_digits(s),
    ensures
        digits_value(s.subrange(0, k)) <= digits_value(s.subrange(0, s.len() as int)),
    decreases s.len() - k,
{
    if k < s.len() {
        lemma_digits_grow(s, k + 1);
        assert(s.subrange(0, k + 1).drop_last() == s.subrange(0, k));
        lemma_digits_value_nonneg(s.subrange(0, k));
        assert(is_ascii_digit(s[k]));
    }
}

/// `str::parse::<i32>`.
pub fn parse_i32(s: &str) -> (res: Option<i32>)
    ensures
        match res {
            Some(v) => integer_value(s@) == Some(v as int),
            None => integer_value(s@) matches Some(v) ==> v < i32::MIN || v > i32::MAX,
        },
{
    let cs = chars_of(s);
    let n = cs.len();
    if n == 0 {
        return None;
    }
    let signed = cs[0] == '-' || cs[0] == '+';
    let from: usize = if signed {
        1
    } else {
        0
    };
    if from == n {
        return None;
    }
    let mut i = from;
    while i < n
        invariant
            cs@ == s@,
            n == cs@.len(),
            from <= i <= n,
            n > 0,
            from == (if signed {
                1usize
            } else {
                0usize
            }),
            signed == (cs@[0] == '-' || cs@[0] == '+'),
            all_digits(cs@.subrange(from as int, i as int)),
        decreases n - i,
    {
        if !('0' <= cs[i] && cs[i] <= '9') {
            proof {
                let d = cs@.subrange(from as int, n as int);
                assert(!is_ascii_digit(d[i - from]));
                if !signed {
                    assert(d == cs@);
                } else {
                    assert(d == cs@.drop_first());
                }
            }
            return None;
        }
        i += 1;
    }
    let limit: i128 = if cs[0] == '-' {
        2147483648
    } else {
        2147483647
    };
    let v = digits_upto(&cs, from, n, limit);
    proof {
        if signed {
            assert(cs@.subrange(from as int, n as int) == cs@.drop_first());
        } else {
            assert(cs@.subrange(from as int, n as int) == cs@);
        }
    }
    match v {
        Some(v) => {
            if cs[0] == '-' {
                Some((-v) as i32)
            } else {
                Some(v as i32)
            }
        },
        None => None,
    }
}

/// The integer `str::parse` reads for an unsigned type: like
/// `integer_value`, but a leading `-` is no sign.
pub open spec fn unsigned_value(s: Seq<char>) -> Option<int> {
    if s.len() > 0 && s[0] == '-' {
        None
    } else {
        integer_value(s)
    }
}

/// `str::parse::<u32>`.
pub fn parse_u32(s: &str) -> (res: Option<u32>)
    ensures
        match res {
            Some(v) => unsigned_value(s@) == Some(v as int),
            None => unsigned_value(s@) matches Some(v) ==> v > u32::MAX,
        },
{
    let cs = chars_of(s);
    let n = cs.len();
    if n == 0 || cs[0] == '-' {
        return None;
    }
    let signed = cs[0] == '+';
    let from: usize = if signed {
        1
    } else {
        0
    };
    if from == n {
        return None;
    }
    let mut i = from;
    while i < n
        invariant
            cs@ == s@,
            n == cs@.len(),
            from <= i <= n,
            n > 0,
            cs@[0] != '-',
            from == (if signed {
                1usize
            } else {
                0usize
            }),
            signed == (cs@[0] == '+'),
            all_digits(cs@.subrange(from as int, i as int)),
        decreases n - i,
    {
        if !('0' <= cs[i] && cs[i] <= '9') {
            proof {
                let d = cs@.subrange(from as int, n as int);
                assert(!is_ascii_digit(d[i - from]));
                if !signed {
                    assert(d == cs@);
                } else {
                    assert(d == cs@.drop_first());
                }
            }
            return None;
        }
        i += 1;
    }
    let v = digits_upto(&cs, from, n, 4294967295);
    proof {
        if signed {
            assert(cs@.subrange(from as int, n as int) == cs@.drop_first());
        } else {
            assert(cs@.subrange(from as int, n as int) == cs@);
        }
    }
    match v {
        Some(v) => Some(v as u32),
        None => None,
    }
}

/// `str::parse::<i64>`.
pub fn parse_i64(s: &str) -> (res: Option<i64>)
    ensures
        match res {
            Some(v) => integer_value(s@) == Some(v as int),
            None => integer_value(s@) matches Some(v) ==> v < i64::MIN || v > i64::MAX,
        },
{
    let cs = chars_of(s);
    let n = cs.len();
    if n == 0 {
        return None;
    }
    let signed = cs[0] == '-' || cs[0] == '+';
    let from: usize = if signed {
        1
    } else {
        0
    };
    if from == n {
        return None;
    }
    let mut i = from;
    while i < n
        invariant
            cs@ == s@,
            n == cs@.len(),
            from <= i <= n,
            n > 0,
            from == (if signed {
                1usize
            } else {
                0usize
            }),
            signed == (cs@[0] == '-' || cs@[0] == '+'),
            all_digits(cs@.subrange(from as int, i as int)),
        decreases n - i,
    {
        if !('0' <= cs[i] && cs[i] <= '9') {
            proof {
                let d = cs@.subrange(from as int, n as int);
                assert(!is_ascii_digit(d[i - from]));
                if !signed {
                    assert(d == cs@);
                } else {
                    assert(d == cs@.drop_first());
                }
            }
            return None;
        }
        i += 1;
    }
    let limit: i128 = if cs[0] == '-' {
        9223372036854775808
    } else {
        9223372036854775807
    };
    let v = digits_upto(&cs, from, n, limit);
    proof {
        if signed {
            assert(cs@.subrange(from as int, n as int) == cs@.drop_first());
        } else {
            assert(cs@.subrange(from as int, n as int) == cs@);
        }
    }
    match v {
        Some(v) => {
            if cs[0] == '-' {
                Some((-v) as i64)
            } else {
                Some(v as i64)
            }
        },
        None => None,
    }
}

/// `str::parse::<usize>`.
pub fn parse_usize(s: &str) -> (res: Option<usize>)
    ensures
        match res {
            Some(v) => unsigned_value(s@) == Some(v as int),
            None => unsigned_value(s@) matches Some(v) ==> v > usize::MAX,
        },
{
    let cs = chars_of(s);
    let n = cs.len();
    if n == 0 || cs[0] == '-' {
        return None;
    }
    let signed = cs[0] == '+';
    let from: usize = if signed {
        1
    } else {
        0
    };
    if from == n {
        return None;
    }
    let mut i = from;
    while i < n
        invariant
            cs@ == s@,
            n == cs@.len(),
            from <= i <= n,
            n > 0,
            cs@[0] != '-',
            from == (if signed {
                1usize
            } else {
                0usize
            }),
            signed == (cs@[0] == '+'),
            all_digits(cs@.subrange(from as int, i as int)),
        decreases n - i,
    {
        if !('0' <= cs[i] && cs[i] <= '9') {
            proof {
                let d = cs@.subrange(from as int, n as int);
                assert(!is_ascii_digit(d[i - from]));
                if !signed {
                    assert(d == cs@);
                } else {
                    assert(d == cs@.drop_first());
                }
            }
            return None;
        }
        i += 1;
    }
    let limit: i128 = usize::MAX as i128;
    let v = digits_upto(&cs, from, n, limit);
    proof {
        if signed {
            assert(cs@.subrange(from as int, n as int) == cs@.drop_first());
        } else {
            assert(cs@.subrange(from as int, n as int) == cs@);
        }
    }
    match v {
        Some(v) => Some(v as usize),
        None => None,
    }
}

/// Appends every character of `t`.
pub fn push_str(s: &mut String, t: &str)
    ensures
        final(s)@ == old(s)@ + t@,
{
    let n = t.unicode_len();
    let mut i: usize = 0;
    while i < n
        invariant
            n == t@.len(),
            i <= n,
            s@ == old(s)@ + t@.take(i as int),
        decreases n - i,
    {
        push_char(s, t.get_char(i));
        i += 1;
        assert(t@.take(i as int) == t@.take(i - 1).push(t@[i - 1]));
    }
    assert(t@.take(n as int) == t@);
}

/// `a`, `b` and `c` one after another.
pub fn concat3(a: &str, b: &str, c: &str) -> (res: String)
    ensures
        res@ == a@ + b@ + c@,
{
    let mut s = String::new();
    push_str(&mut s, a);
    push_str(&mut s, b);
    push_str(&mut s, c);
    assert(s@ =~= a@ + b@ + c@);
    s
}

/// The decimal digits of `n`.
pub open spec fn decimal(n: nat) -> Seq<char>
    decreases n,
{
    if n < 10 {
        seq![('0' as u32 + n) as char]
    } else {
        decimal(n / 10).push(('0' as u32 + n % 10) as char)
    }
}

/// `n` written in decimal, with a leading `-` when negative.
pub open spec fn signed_decimal(n: int) -> Seq<char> {
    if n < 0 {
        seq!['-'] + decimal((-n) as nat)
    } else {
        decimal(n as nat)
    }
}

/// A number's decimal digits: one for each place, the last its units.
pub proof fn lemma_decimal_digits(n: nat)
    ensures
        decimal(n).len() >= 1,
        n < 10 ==> decimal(n).len() == 1,
        n >= 10 ==> decimal(n).len() >= 2,
        decimal(n).last() == ('0' as u32 + n % 10) as char,
        n >= 10 ==> decimal(n).drop_last() == decimal(n / 10),
    decreases n,
{
    if n >= 10 {
        lemma_decimal_digits(n / 10);
        assert(decimal(n).drop_last() =~= decimal(n / 10));
    }
}

/// A number's decimal digits are digits, and read back as the number.
pub proof fn lemma_decimal_value(n: nat)
    ensures
        decimal(n).len() >= 1,
        all_digits(decimal(n)),
        digits_value(decimal(n)) == n,
    decreases n,
{
    let d = decimal(n);
    let c = ('0' as u32 + n % 10) as char;
    assert(c as u32 == '0' as u32 + n % 10);
    if n < 10 {
        assert(d.drop_last() =~= Seq::<char>::empty());
        assert(d.last() == c);
        assert(digits_value(d.drop_last()) == 0);
        assert(digits_value(d) == digits_value(d.drop_last()) * 10 + ((d.last() as u32) - ('0' as u32)));
    } else {
        lemma_decimal_value(n / 10);
        assert(d.drop_last() =~= decimal(n / 10));
        assert(d.last() == c);
        assert(n == (n / 10) * 10 + n % 10) by (nonlinear_arith);
        assert(digits_value(d) == digits_value(d.drop_last()) * 10 + ((d.last() as u32) - ('0' as u32)));
        assert forall|i: int| 0 <= i < d.len() implies is_ascii_digit(#[trigger] d[i]) by {
            if i < d.len() - 1 {
                assert(d[i] == decimal(n / 10)[i]);
            }
        }
    }
}

/// Append the decimal digits of `n`.
pub fn push_decimal(out: &mut String, n: u64)
    ensures
        final(out)@ == old(out)@ + decimal(n as nat),
    decreases n,
{
    if n >= 10 {
        push_decimal(out, n / 10);
    }
    let d = (n % 10) as u32;
    let c = char_from_digit(d);
    push_char(out, c);
    assert(old(out)@ + decimal(n as nat) == if n >= 10 {
        old(out)@ + decimal((n / 10) as nat)
    } else {
        old(out)@
    }.push(c));
}

fn char_from_digit(d: u32) -> (c: char)
    requires
        d < 10,
    ensures
        c == ('0' as u32 + d) as char,
{
    let digits = ['0', '1', '2', '3', '4', '5', '6', '7', '8', '9'];
    let c = digits[d as usize];
    assert(c == ('0' as u32 + d) as char);
    c
}

/// `i32::to_string`.
pub fn i32_to_string(v: i32) -> (res: String)
    ensures
        res@ == signed_decimal(v as int),
{
    let mut out = String::new();
    if v < 0 {
        push_char(&mut out, '-');
        push_decimal(&mut out, (-(v as i64)) as u64);
    } else {
        push_decimal(&mut out, v as u64);
    }
    out
}

} // verus!
