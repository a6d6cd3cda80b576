//! What a glTF file says before any geometry is computed: a file beside
//! the model (a relative, percent-encoded URI reference), a base64 data
//! URI, the image a texture shows, the extensions a model requires, the
//! checks that refuse a model whose buffers or JSON do not hold together,
//! and the triangles a primitive's indices make.
use vstd::prelude::*;
use vstd::utf8::{decode_utf8, encode_utf8, valid_utf8};
use crate::error::Error;
use crate::preview::{b64_char, base64_of};
use crate::api::comma_list;
use crate::grid::views;
use crate::text::{
    chars_of, decimal, ends_with, push_decimal, push_str, starts_with, str_eq, str_starts_with, find_char, first_index, str_ends_with, string_of_range, trim,
    trim_end, trim_start, trimmed, white_space,
};

verus! {

// ── Percent-decoding ─────────────────────────────────────────────────────

/// The value of an ASCII hexadecimal digit.
pub open spec fn hex_digit(b: u8) -> Option<u8> {
    if 0x30 <= b <= 0x39 {
        Some((b - 0x30) as u8)
    } else if 0x41 <= b <= 0x46 {
        Some((b - 0x41 + 10) as u8)
    } else if 0x61 <= b <= 0x66 {
        Some((b - 0x61 + 10) as u8)
    } else {
        None
    }
}

/// The byte two characters after a `%` stand for, read as `u8` in base 16
/// is read by `u8::from_str_radix`: two hex digits, or a `+` sign and one.
pub open spec fn hex_pair(a: u8, b: u8) -> Option<u8> {
    if a == 0x2b {
        hex_digit(b)
    } else {
        match (hex_digit(a), hex_digit(b)) {
            (Some(x), Some(y)) => Some((x * 16 + y) as u8),
            _ => None,
        }
    }
}

/// `b` with every `%XX` escape replaced by the byte it stands for; `None`
/// where a `%` is not followed by such a pair.
pub open spec fn percent_decoded(b: Seq<u8>) -> Option<Seq<u8>>
    decreases b.len(),
{
    if b.len() == 0 {
        Some(seq![])
    } else if b[0] == 0x25 {
        if b.len() >= 3 && hex_pair(b[1], b[2]) is Some {
            match percent_decoded(b.skip(3)) {
                Some(r) => Some(seq![hex_pair(b[1], b[2])->0] + r),
                None => None,
            }
        } else {
            None
        }
    } else {
        match percent_decoded(b.skip(1)) {
            Some(r) => Some(seq![b[0]] + r),
            None => None,
        }
    }
}

/// The text `t` percent-decodes to: its UTF-8 bytes decoded, when they
/// decode and what comes out is UTF-8 again.
pub open spec fn percent_decoded_text(t: Seq<char>) -> Option<Seq<char>> {
    match percent_decoded(encode_utf8(t)) {
        Some(b) => if valid_utf8(b) {
            Some(decode_utf8(b))
        } else {
            None
        },
        None => None,
    }
}

/// `String::from_utf8`: the string these bytes are the UTF-8 encoding of,
/// or `None` where they are not UTF-8. The string holds exactly the bytes
/// it was made from.
#[verifier::external_body]
fn string_from_utf8(bytes: Vec<u8>) -> (res: Option<String>)
    ensures
        res is Some <==> valid_utf8(bytes@),
        res matches Some(s) ==> encode_utf8(s@) == bytes@,
{
    String::from_utf8(bytes).ok()
}

fn hex_digit_of(b: u8) -> (res: Option<u8>)
    ensures
        res == hex_digit(b),
{
    if 0x30 <= b && b <= 0x39 {
        Some(b - 0x30)
    } else if 0x41 <= b && b <= 0x46 {
        Some(b - 0x41 + 10)
    } else if 0x61 <= b && b <= 0x66 {
        Some(b - 0x61 + 10)
    } else {
        None
    }
}

fn hex_pair_of(a: u8, b: u8) -> (res: Option<u8>)
    ensures
        res == hex_pair(a, b),
{
    if a == 0x2b {
        return hex_digit_of(b);
    }
    match (hex_digit_of(a), hex_digit_of(b)) {
        (Some(x), Some(y)) => Some(x * 16 + y),
        _ => None,
    }
}

proof fn lemma_decoded_prefix(b: Seq<u8>, i: int, out: Seq<u8>)
    requires
        0 <= i < b.len(),
        percent_decoded(b) == (match percent_decoded(b.skip(i)) {
            Some(r) => Some(out + r),
            None => None,
        }),
    ensures
        b[i] != 0x25 ==> percent_decoded(b) == (match percent_decoded(b.skip(i + 1)) {
            Some(r) => Some(out.push(b[i]) + r),
            None => None,
        }),
        (b[i] == 0x25 && i + 3 <= b.len() && hex_pair(b[i + 1], b[i + 2]) is Some)
            ==> percent_decoded(b) == (match percent_decoded(b.skip(i + 3)) {
            Some(r) => Some(out.push(hex_pair(b[i + 1], b[i + 2])->0) + r),
            None => None,
        }),
        (b[i] == 0x25 && !(i + 3 <= b.len() && hex_pair(b[i + 1], b[i + 2]) is Some))
            ==> percent_decoded(b) is None,
{
    let s = b.skip(i);
    assert(s[0] == b[i]);
    if b[i] != 0x25 {
        assert(s.skip(1) =~= b.skip(i + 1));
        match percent_decoded(b.skip(i + 1)) {
            Some(r) => assert(out + (seq![b[i]] + r) =~= out.push(b[i]) + r),
            None => {},
        }
    } else if i + 3 <= b.len() && hex_pair(b[i + 1], b[i + 2]) is Some {
        assert(s[1] == b[i + 1] && s[2] == b[i + 2]);
        assert(s.skip(3) =~= b.skip(i + 3));
        let v = hex_pair(b[i + 1], b[i + 2])->0;
        match percent_decoded(b.skip(i + 3)) {
            Some(r) => assert(out + (seq![v] + r) =~= out.push(v) + r),
            None => {},
        }
    } else {
        if i + 3 <= b.len() {
            assert(s[1] == b[i + 1] && s[2] == b[i + 2]);
        }
    }
}

/// `text` with its `%XX` escapes decoded: `None` where an escape is
/// malformed or the bytes it decodes to are not UTF-8.
pub fn percent_decode(text: &str) -> (res: Option<String>)
    ensures
        match percent_decoded(encode_utf8(text@)) {
            Some(b) => if valid_utf8(b) {
                res matches Some(s) && encode_utf8(s@) == b && s@ == decode_utf8(b)
            } else {
                res is None
            },
            None => res is None,
        },
{
    let bytes = text.as_bytes();
    let ghost b = bytes@;
    assert(b == encode_utf8(text@));
    let n = bytes.len();
    let mut out: Vec<u8> = Vec::new();
    let mut i: usize = 0;
    assert(b.skip(0) =~= b);
    assert(out@ + Seq::<u8>::empty() =~= out@);
    while i < n
        invariant
            n == b.len(),
            bytes@ == b,
            b == encode_utf8(text@),
            i <= n,
            percent_decoded(b) == (match percent_decoded(b.skip(i as int)) {
                Some(r) => Some(out@ + r),
                None => None,
            }),
        decreases n - i,
    {
        proof {
            lemma_decoded_prefix(b, i as int, out@);
        }
        if bytes[i] == 0x25 {
            if n - i < 3 {
                return None;
            }
            match hex_pair_of(bytes[i + 1], bytes[i + 2]) {
                Some(v) => {
                    out.push(v);
                    i += 3;
                },
                None => {
                    return None;
                },
            }
        } else {
            out.push(bytes[i]);
            i += 1;
        }
    }
    proof {
        assert(b.skip(n as int) =~= Seq::<u8>::empty());
        assert(out@ + Seq::<u8>::empty() =~= out@);
    }
    let ghost decoded = out@;
    match string_from_utf8(out) {
        Some(s) => {
            proof {
                vstd::utf8::encode_utf8_decode_utf8(s@);
            }
            Some(s)
        },
        None => None,
    }
}

// ── File references ──────────────────────────────────────────────────────

/// The characters of `u` before the first `stop`, or all of them.
pub open spec fn before_char(u: Seq<char>, stop: char) -> Seq<char> {
    match crate::text::first_index(u, stop) {
        Some(k) => u.take(k),
        None => u,
    }
}

/// Where `u` first holds `?` or `#`, if anywhere.
pub open spec fn is_first_query(u: Seq<char>, k: int) -> bool {
    0 <= k < u.len() && (u[k] == '?' || u[k] == '#') && forall|j: int|
        0 <= j < k ==> u[j] != '?' && u[j] != '#'
}

/// `u` without its query and fragment: the characters before the first `?`
/// or `#`.
pub open spec fn without_query(u: Seq<char>) -> Seq<char> {
    if exists|k: int| is_first_query(u, k) {
        u.take(choose|k: int| is_first_query(u, k))
    } else {
        u
    }
}

/// The path a URI reference names beside the model: `None` for an empty
/// one, one with a root (`/`, `\`) or one with a scheme (a `:` before the
/// first `/`); otherwise the reference without query and fragment,
/// percent-decoded.
pub open spec fn relative_path_of(u: Seq<char>) -> Option<Seq<char>> {
    if u.len() == 0 || u[0] == '/' || u[0] == '\\' || before_char(u, '/').contains(':') {
        None
    } else {
        percent_decoded_text(without_query(u))
    }
}

/// A URI reference as a path relative to the model's folder, or `None` for
/// anything with a scheme or a root.
pub fn relative_path(uri: &str) -> (res: Option<String>)
    ensures
        match relative_path_of(uri@) {
            Some(p) => res matches Some(s) && s@ == p,
            None => res is None,
        },
{
    let cs = chars_of(uri);
    let n = cs.len();
    if n == 0 || cs[0] == '/' || cs[0] == '\\' {
        return None;
    }
    let slash = crate::text::find_char(cs.as_slice(), '/');
    let head_end = match slash {
        Some(k) => k,
        None => n,
    };
    assert(before_char(uri@, '/') =~= cs@.take(head_end as int));
    let mut j: usize = 0;
    while j < head_end
        invariant
            head_end <= n == cs@.len(),
            cs@ == uri@,
            before_char(uri@, '/') == cs@.take(head_end as int),
            j <= head_end,
            forall|t: int| 0 <= t < j ==> cs@[t] != ':',
        decreases head_end - j,
    {
        if cs[j] == ':' {
            assert(cs@.take(head_end as int)[j as int] == ':');
            assert(before_char(uri@, '/').contains(':'));
            return None;
        }
        j += 1;
    }
    assert(!cs@.take(head_end as int).contains(':'));
    let mut k: usize = 0;
    while k < n && cs[k] != '?' && cs[k] != '#'
        invariant
            n == cs@.len(),
            k <= n,
            forall|t: int| 0 <= t < k ==> cs@[t] != '?' && cs@[t] != '#',
        decreases n - k,
    {
        k += 1;
    }
    proof {
        if k < n {
            assert(is_first_query(cs@, k as int));
            let f = choose|f: int| is_first_query(cs@, f);
            assert(f == k as int);
        } else {
            assert(cs@.take(n as int) =~= cs@);
        }
    }
    let head = string_of_range(cs.as_slice(), 0, k);
    assert(head@ =~= without_query(uri@));
    percent_decode(head.as_str())
}

// ── Data URIs ────────────────────────────────────────────────────────────

/// What `base64`'s standard-alphabet engine, told to accept padding or its
/// absence, decodes `payload` to: the bytes, or the error it reports, as
/// text.
pub uninterp spec fn base64_decoded(payload: Seq<char>) -> Result<Seq<u8>, Seq<char>>;

/// Decodes with the `base64` crate's `GeneralPurpose` engine over the
/// standard alphabet, padding indifferent: the result is named
/// `base64_decoded`. Of the crate's code the contract states one thing: a
/// canonical, padded encoding of some bytes (RFC 4648, as `base64_of`
/// writes it) decodes to those bytes.
#[verifier::external_body]
fn base64_decode_lenient(payload: &str) -> (res: Result<Vec<u8>, String>)
    ensures
        match res {
            Ok(v) => (base64_decoded(payload@) matches Ok(b) && b == v@),
            Err(e) => (base64_decoded(payload@) matches Err(m) && m == e@),
        },
        forall|b: Seq<u8>| #[trigger] base64_of(b) == payload@ ==> res.is_ok() && res.unwrap()@ == b,
{
    let config = base64::engine::GeneralPurposeConfig::new()
        .with_decode_padding_mode(base64::engine::DecodePaddingMode::Indifferent);
    let engine = base64::engine::GeneralPurpose::new(&base64::alphabet::STANDARD, config);
    match base64::Engine::decode(&engine, payload) {
        Ok(v) => Ok(v),
        Err(e) => Err(e.to_string()),
    }
}

/// The bytes of a base64 payload, or why they cannot be had.
pub open spec fn payload_result(r: Result<Seq<u8>, Seq<char>>) -> Result<Seq<u8>, Seq<char>> {
    match r {
        Ok(b) => Ok(b),
        Err(e) => Err("bad base64 in a data URI: "@ + e),
    }
}

/// What a `data:` URI holds: `None` for any other URI; its decoded bytes,
/// or why it has none (no comma after the media type, not base64, a bad
/// payload).
pub open spec fn data_uri_of(u: Seq<char>) -> Option<Result<Seq<u8>, Seq<char>>> {
    if u.len() >= 5 && u.take(5) == "data:"@ {
        let rest = u.skip(5);
        match first_index(rest, ',') {
            None => Some(Err("malformed data URI"@)),
            Some(k) => if !ends_with(rest.take(k), ";base64"@) {
                Some(Err("data URIs must be base64-encoded"@))
            } else {
                Some(payload_result(base64_decoded(trimmed(rest.skip(k + 1)))))
            },
        }
    } else {
        None
    }
}

/// The payload of a well-formed base64 `data:` URI, untrimmed.
pub open spec fn data_uri_payload(u: Seq<char>) -> Option<Seq<char>> {
    if u.len() >= 5 && u.take(5) == "data:"@ {
        let rest = u.skip(5);
        match first_index(rest, ',') {
            Some(k) => if ends_with(rest.take(k), ";base64"@) {
                Some(rest.skip(k + 1))
            } else {
                None
            },
            None => None,
        }
    } else {
        None
    }
}

/// An error of the model loader as this module reports it.
pub open spec fn mesh_result(r: Result<Seq<u8>, Seq<char>>, res: Result<Vec<u8>, Error>) -> bool {
    match r {
        Ok(b) => res matches Ok(v) && v@ == b,
        Err(m) => res matches Err(Error::Mesh(e)) && e@ == m,
    }
}

/// A decoder's result, by views.
pub open spec fn decoded_view(d: Result<Vec<u8>, String>) -> Result<Seq<u8>, Seq<char>> {
    match d {
        Ok(v) => Ok(v@),
        Err(e) => Err(e@),
    }
}

/// What a decoded payload becomes: its bytes, or a loader error saying the
/// base64 was bad and why.
pub fn data_uri_result(decoded: Result<Vec<u8>, String>) -> (res: Result<Vec<u8>, Error>)
    ensures
        mesh_result(payload_result(decoded_view(decoded)), res),
{
    match decoded {
        Ok(v) => Ok(v),
        Err(e) => {
            let mut m = "bad base64 in a data URI: ".to_owned();
            push_str(&mut m, e.as_str());
            Err(Error::Mesh(m))
        },
    }
}

proof fn lemma_b64_char_not_white(v: int)
    requires
        0 <= v < 64,
    ensures
        !white_space(b64_char(v)),
        (b64_char(v) as u32) < 128,
{
}

proof fn lemma_base64_ends(b: Seq<u8>)
    requires
        b.len() > 0,
    ensures
        base64_of(b).len() > 0,
        !white_space(base64_of(b)[0]),
        !white_space(base64_of(b).last()),
    decreases b.len(),
{
    let a = b[0] as int;
    lemma_b64_char_not_white(a / 4);
    if b.len() == 1 {
    } else if b.len() == 2 {
    } else {
        let c = b[2] as int;
        lemma_b64_char_not_white(c % 64);
        if b.len() > 3 {
            lemma_base64_ends(b.skip(3));
        }
    }
}

/// Trimming leaves a base64 encoding as it is.
proof fn lemma_base64_untrimmed(b: Seq<u8>)
    ensures
        trimmed(base64_of(b)) == base64_of(b),
{
    let s = base64_of(b);
    if b.len() > 0 {
        lemma_base64_ends(b);
        assert(trim_start(s) == s);
        assert(trim_end(s) == s);
    }
}

/// The bytes a `data:` URI holds: `None` for any other URI. A payload that
/// is the base64 encoding of some bytes gives those bytes back.
pub fn read_data_uri(uri: &str) -> (res: Option<Result<Vec<u8>, Error>>)
    ensures
        match data_uri_of(uri@) {
            None => res is None,
            Some(r) => res matches Some(x) && mesh_result(r, x),
        },
        forall|b: Seq<u8>|
            data_uri_payload(uri@) == Some(base64_of(b)) ==> (res matches Some(Ok(v)) && v@ == b),
{
    proof {
        reveal_strlit("data:");
    }
    let cs = chars_of(uri);
    let n = cs.len();
    if !(n >= 5 && cs[0] == 'd' && cs[1] == 'a' && cs[2] == 't' && cs[3] == 'a' && cs[4] == ':') {
        proof {
            if n >= 5 {
                if cs@.take(5) == "data:"@ {
                    assert(cs@.take(5)[0] == 'd');
                    assert(cs@.take(5)[1] == 'a');
                    assert(cs@.take(5)[2] == 't');
                    assert(cs@.take(5)[3] == 'a');
                    assert(cs@.take(5)[4] == ':');
                }
            }
        }
        return None;
    }
    assert(cs@.take(5) =~= "data:"@);
    let rest = string_of_range(cs.as_slice(), 5, n);
    let rc = chars_of(rest.as_str());
    assert(rc@ =~= uri@.skip(5));
    let comma = match find_char(rc.as_slice(), ',') {
        Some(k) => k,
        None => {
            return Some(Err(Error::Mesh("malformed data URI".to_owned())));
        },
    };
    let meta = string_of_range(rc.as_slice(), 0, comma);
    if !str_ends_with(meta.as_str(), ";base64") {
        return Some(Err(Error::Mesh("data URIs must be base64-encoded".to_owned())));
    }
    let payload = string_of_range(rc.as_slice(), comma + 1, rc.len());
    assert(payload@ =~= uri@.skip(5).skip(comma + 1));
    let decoded = base64_decode_lenient(trim(payload.as_str()));
    proof {
        assert forall|b: Seq<u8>| data_uri_payload(uri@) == Some(base64_of(b)) implies (
        decoded matches Ok(v) && v@ == b) by {
            lemma_base64_untrimmed(b);
        }
    }
    Some(data_uri_result(decoded))
}

// ── Texture images ───────────────────────────────────────────────────────

/// The image a texture shows: the one its `EXT_texture_webp` extension
/// names, else its `source`; none where that index is not an image of the
/// file (of `images`).
pub open spec fn texture_image_of(webp: Option<u64>, source: Option<usize>, images: usize) -> Option<int> {
    let chosen: Option<int> = match webp {
        Some(w) => Some(w as int),
        None => match source {
            Some(s) => Some(s as int),
            None => None,
        },
    };
    match chosen {
        Some(i) => if i < images {
            Some(i)
        } else {
            None
        },
        None => None,
    }
}

/// Which image a texture shows.
pub fn texture_image(webp: Option<u64>, source: Option<usize>, images: usize) -> (res: Option<usize>)
    ensures
        match texture_image_of(webp, source, images) {
            Some(i) => res == Some(i as usize),
            None => res is None,
        },
{
    match webp {
        Some(w) => if w < images as u64 {
            Some(w as usize)
        } else {
            None
        },
        None => match source {
            Some(s) => if s < images {
                Some(s)
            } else {
                None
            },
            None => None,
        },
    }
}

// ── What a model requires ────────────────────────────────────────────────

/// The glTF extensions a model may require and still be read: anything
/// else in `extensionsRequired` changes what the data means.
pub open spec fn is_readable_extension(e: Seq<char>) -> bool {
    ||| e == "KHR_texture_transform"@
    ||| e == "KHR_materials_pbrSpecularGlossiness"@
    ||| e == "KHR_materials_emissive_strength"@
    ||| e == "KHR_materials_unlit"@
    ||| e == "KHR_materials_ior"@
    ||| e == "KHR_materials_specular"@
    ||| e == "KHR_materials_transmission"@
    ||| e == "KHR_materials_volume"@
    ||| e == "KHR_materials_variants"@
    ||| e == "KHR_lights_punctual"@
    ||| e == "EXT_texture_webp"@
    ||| e == "KHR_texture_basisu"@
    ||| e == "MSFT_texture_dds"@
}

/// The extensions that compress or quantize the mesh itself.
pub open spec fn is_compression(e: Seq<char>) -> bool {
    e == "KHR_draco_mesh_compression"@ || e == "EXT_meshopt_compression"@ || e
        == "KHR_mesh_quantization"@
}

/// The required extensions this loader cannot read, in order.
pub open spec fn missing_of(req: Seq<Seq<char>>) -> Seq<Seq<char>>
    decreases req.len(),
{
    if req.len() == 0 {
        seq![]
    } else if is_readable_extension(req.last()) {
        missing_of(req.drop_last())
    } else {
        missing_of(req.drop_last()).push(req.last())
    }
}

/// Some extension of `m` compresses the mesh.
pub open spec fn any_compression(m: Seq<Seq<char>>) -> bool {
    exists|i: int| 0 <= i < m.len() && is_compression(#[trigger] m[i])
}

/// Why a model requiring the extensions `missing` is refused.
pub open spec fn extensions_message(missing: Seq<Seq<char>>) -> Seq<char> {
    "the model needs glTF extension"@ + (if missing.len() > 1 {
        "s"@
    } else {
        Seq::empty()
    }) + " "@ + comma_list(missing) + ", which SchemGen2 cannot read"@ + (if any_compression(
        missing,
    ) {
        " \u{2014} export it again without mesh compression or quantization"@
    } else {
        Seq::empty()
    })
}

fn readable_extension(e: &str) -> (res: bool)
    ensures
        res == is_readable_extension(e@),
{
    str_eq(e, "KHR_texture_transform") || str_eq(e, "KHR_materials_pbrSpecularGlossiness")
        || str_eq(e, "KHR_materials_emissive_strength") || str_eq(e, "KHR_materials_unlit")
        || str_eq(e, "KHR_materials_ior") || str_eq(e, "KHR_materials_specular") || str_eq(
        e,
        "KHR_materials_transmission",
    ) || str_eq(e, "KHR_materials_volume") || str_eq(e, "KHR_materials_variants") || str_eq(
        e,
        "KHR_lights_punctual",
    ) || str_eq(e, "EXT_texture_webp") || str_eq(e, "KHR_texture_basisu") || str_eq(
        e,
        "MSFT_texture_dds",
    )
}

fn compression(e: &str) -> (res: bool)
    ensures
        res == is_compression(e@),
{
    str_eq(e, "KHR_draco_mesh_compression") || str_eq(e, "EXT_meshopt_compression") || str_eq(
        e,
        "KHR_mesh_quantization",
    )
}

/// Refuses a model that requires an extension this loader cannot read,
/// naming them all, with a hint where one of them compresses the mesh.
pub fn check_required_extensions(required: &[String]) -> (res: Result<(), Error>)
    ensures
        missing_of(views(required@)).len() == 0 ==> res is Ok,
        missing_of(views(required@)).len() > 0 ==> (res matches Err(Error::Mesh(m)) && m@
            == extensions_message(missing_of(views(required@)))),
{
    let ghost rv = views(required@);
    let mut missing: Vec<&str> = Vec::new();
    let mut list = String::new();
    let mut compressed = false;
    let mut i: usize = 0;
    while i < required.len()
        invariant
            rv == views(required@),
            i <= required@.len(),
            missing@.map_values(|s: &str| s@) == missing_of(rv.take(i as int)),
            list@ == comma_list(missing_of(rv.take(i as int))),
            compressed == any_compression(missing_of(rv.take(i as int))),
        decreases required.len() - i,
    {
        let name = required[i].as_str();
        let ghost before = missing_of(rv.take(i as int));
        assert(rv.take(i + 1).drop_last() =~= rv.take(i as int));
        assert(rv.take(i + 1).last() == name@);
        if !readable_extension(name) {
            if missing.len() > 0 {
                push_str(&mut list, ", ");
            } else {
                assert(list@ =~= Seq::<char>::empty());
            }
            push_str(&mut list, name);
            let c = compression(name);
            proof {
                let after = before.push(name@);
                assert(after.drop_last() =~= before);
                if c {
                    assert(is_compression(after[before.len() as int]));
                }
                if compressed {
                    let w = choose|w: int| 0 <= w < before.len() && is_compression(#[trigger] before[w]);
                    assert(after[w] == before[w]);
                }
                if any_compression(after) && !c {
                    let w = choose|w: int| 0 <= w < after.len() && is_compression(#[trigger] after[w]);
                    assert(w < before.len());
                    assert(before[w] == after[w]);
                }
            }
            compressed = compressed || c;
            missing.push(name);
            assert(missing@.map_values(|s: &str| s@) =~= before.push(name@));
            assert(list@ =~= comma_list(before.push(name@)));
        }
        i += 1;
    }
    assert(rv.take(required@.len() as int) =~= rv);
    let ghost m = missing_of(rv);
    if missing.len() == 0 {
        return Ok(());
    }
    let mut msg = "the model needs glTF extension".to_owned();
    if missing.len() > 1 {
        push_str(&mut msg, "s");
    }
    push_str(&mut msg, " ");
    push_str(&mut msg, list.as_str());
    push_str(&mut msg, ", which SchemGen2 cannot read");
    if compressed {
        push_str(&mut msg, " \u{2014} export it again without mesh compression or quantization");
    }
    assert(msg@ =~= extensions_message(m));
    Err(Error::Mesh(msg))
}

// ── The checks that refuse a model ───────────────────────────────────────

/// `items` one after another with `sep` between them.
pub open spec fn joined_by(items: Seq<Seq<char>>, sep: Seq<char>) -> Seq<char>
    decreases items.len(),
{
    if items.len() == 0 {
        seq![]
    } else if items.len() == 1 {
        items[0]
    } else {
        joined_by(items.drop_last(), sep) + sep + items.last()
    }
}

/// A validation problem as the message shows it: where, then what.
pub open spec fn problem_line(p: (Seq<char>, Seq<char>)) -> Seq<char> {
    p.0 + ": "@ + p.1
}

/// The problems that count: required extensions were judged already,
/// against what this loader reads.
pub open spec fn counted_problems(ps: Seq<(Seq<char>, Seq<char>)>) -> Seq<Seq<char>>
    decreases ps.len(),
{
    if ps.len() == 0 {
        seq![]
    } else if starts_with(ps.last().0, "extensionsRequired"@) {
        counted_problems(ps.drop_last())
    } else {
        counted_problems(ps.drop_last()).push(problem_line(ps.last()))
    }
}

/// Why a model that fails glTF validation is refused: the first three
/// problems, and an ellipsis where there are more.
pub open spec fn invalid_message(lines: Seq<Seq<char>>) -> Seq<char> {
    "the file is not valid glTF ("@ + joined_by(
        lines.take(if lines.len() < 3 {
            lines.len() as int
        } else {
            3
        }),
        "; "@,
    ) + (if lines.len() > 3 {
        "; \u{2026}"@
    } else {
        Seq::empty()
    }) + ")"@
}

/// The (path, problem) pairs a glTF validation reported, by views.
pub open spec fn pair_views(v: Seq<(String, String)>) -> Seq<(Seq<char>, Seq<char>)> {
    v.map_values(|p: (String, String)| (p.0@, p.1@))
}

/// Refuses a model whose glTF validation reported `problems` as (path,
/// problem) pairs, those about `extensionsRequired` aside.
pub fn check_validation(problems: &[(String, String)]) -> (res: Result<(), Error>)
    ensures
        counted_problems(pair_views(problems@)).len() == 0 ==> res is Ok,
        counted_problems(pair_views(problems@)).len() > 0 ==> (res matches Err(Error::Mesh(m))
            && m@ == invalid_message(counted_problems(pair_views(problems@)))),
{
    let ghost pv = pair_views(problems@);
    let mut shown = String::new();
    let mut count: usize = 0;
    let mut i: usize = 0;
    while i < problems.len()
        invariant
            pv == pair_views(problems@),
            i <= problems@.len(),
            count == counted_problems(pv.take(i as int)).len(),
            count <= i,
            shown@ == joined_by(
                counted_problems(pv.take(i as int)).take(
                    if count < 3 {
                        count as int
                    } else {
                        3
                    },
                ),
                "; "@,
            ),
        decreases problems.len() - i,
    {
        let ghost before = counted_problems(pv.take(i as int));
        assert(pv.take(i + 1).drop_last() =~= pv.take(i as int));
        assert(pv.take(i + 1).last() == pv[i as int]);
        if !str_starts_with(problems[i].0.as_str(), "extensionsRequired") {
            let ghost line = problem_line(pv[i as int]);
            let ghost after = before.push(line);
            if count < 3 {
                let ghost old_shown = shown@;
                if count > 0 {
                    push_str(&mut shown, "; ");
                } else {
                    assert(shown@ =~= Seq::<char>::empty());
                }
                push_str(&mut shown, problems[i].0.as_str());
                push_str(&mut shown, ": ");
                push_str(&mut shown, problems[i].1.as_str());
                assert(after.take(count + 1).drop_last() =~= before.take(count as int));
                assert(after.take(count + 1).last() == line);
                assert(shown@ =~= joined_by(after.take(count + 1), "; "@));
            } else {
                assert(after.take(3) =~= before.take(3));
            }
            count += 1;
        }
        i += 1;
    }
    assert(pv.take(problems@.len() as int) =~= pv);
    if count == 0 {
        return Ok(());
    }
    let mut msg = "the file is not valid glTF (".to_owned();
    push_str(&mut msg, shown.as_str());
    if count > 3 {
        push_str(&mut msg, "; \u{2026}");
    }
    push_str(&mut msg, ")");
    assert(msg@ =~= invalid_message(counted_problems(pv)));
    Err(Error::Mesh(msg))
}

/// Why buffer `index` cannot be used: it is the GLB's binary chunk and the
/// file has none (`held` is `None`), or it holds fewer bytes than the file
/// declares.
pub open spec fn buffer_problem(index: nat, held: Option<nat>, declared: nat) -> Option<Seq<char>> {
    match held {
        None => Some(
            "buffer "@ + decimal(index) + " refers to the GLB's binary chunk, which is missing"@,
        ),
        Some(n) => if n < declared {
            Some(
                "buffer "@ + decimal(index) + " holds "@ + decimal(n) + " bytes but the file says "@
                    + decimal(declared),
            )
        } else {
            None
        },
    }
}

/// Refuses a buffer the model cannot be read from.
pub fn check_buffer(index: usize, held: Option<usize>, declared: usize) -> (res: Result<(), Error>)
    ensures
        match buffer_problem(
            index as nat,
            match held {
                Some(n) => Some(n as nat),
                None => None,
            },
            declared as nat,
        ) {
            None => res is Ok,
            Some(m) => res matches Err(Error::Mesh(e)) && e@ == m,
        },
{
    let mut msg = "buffer ".to_owned();
    match held {
        None => {
            push_decimal(&mut msg, index as u64);
            push_str(&mut msg, " refers to the GLB's binary chunk, which is missing");
            Err(Error::Mesh(msg))
        },
        Some(n) => {
            if n >= declared {
                return Ok(());
            }
            push_decimal(&mut msg, index as u64);
            push_str(&mut msg, " holds ");
            push_decimal(&mut msg, n as u64);
            push_str(&mut msg, " bytes but the file says ");
            push_decimal(&mut msg, declared as u64);
            Err(Error::Mesh(msg))
        },
    }
}

// ── Triangles ────────────────────────────────────────────────────────────

/// How a primitive's indices make triangles.
#[derive(Debug, Clone, Copy, PartialEq, Eq, Structural)]
pub enum TriMode {
    /// Each three indices one triangle.
    Triangles,
    /// Each index with the two before it; every other one reversed, so
    /// that all keep the strip's winding.
    Strip,
    /// The first index with each following pair.
    Fan,
}

/// The triangles `idx` makes in `mode`.
pub open spec fn triangles_of(mode: TriMode, idx: Seq<u32>) -> Seq<[u32; 3]> {
    match mode {
        TriMode::Triangles => Seq::new(
            idx.len() / 3,
            |t: int| [idx[3 * t], idx[3 * t + 1], idx[3 * t + 2]],
        ),
        TriMode::Strip => if idx.len() < 3 {
            seq![]
        } else {
            Seq::new(
                (idx.len() - 2) as nat,
                |i: int|
                    if i % 2 == 0 {
                        [idx[i], idx[i + 1], idx[i + 2]]
                    } else {
                        [idx[i + 2], idx[i + 1], idx[i]]
                    },
            )
        },
        TriMode::Fan => if idx.len() < 3 {
            seq![]
        } else {
            Seq::new((idx.len() - 2) as nat, |j: int| [idx[0], idx[j + 1], idx[j + 2]])
        },
    }
}

/// The indices of a primitive that lists none: every vertex in order.
pub fn implicit_indices(vertices: u32) -> (res: Vec<u32>)
    ensures
        res@.len() == vertices,
        forall|i: int| 0 <= i < vertices ==> res@[i] == i,
{
    let mut out: Vec<u32> = Vec::new();
    let mut i: u32 = 0;
    while i < vertices
        invariant
            i <= vertices,
            out@.len() == i,
            forall|k: int| 0 <= k < i ==> out@[k] == k,
        decreases vertices - i,
    {
        out.push(i);
        i += 1;
    }
    out
}

/// A primitive's triangles from its indices: refused where an index points
/// past its `vertices` vertices.
pub fn triangles(mode: TriMode, indices: &[u32], vertices: usize, primitive: usize) -> (res: Result<
    Vec<[u32; 3]>,
    Error,
>)
    ensures
        (exists|i: int| 0 <= i < indices@.len() && indices@[i] >= vertices) ==> (res matches Err(
            Error::Mesh(m),
        ) && m@ == "primitive "@ + decimal(primitive as nat) + " indexes past its "@ + decimal(
            vertices as nat,
        ) + " vertices"@),
        (forall|i: int| 0 <= i < indices@.len() ==> indices@[i] < vertices) ==> (res matches Ok(v)
            && v@ == triangles_of(mode, indices@)),
{
    let n = indices.len();
    let mut i: usize = 0;
    while i < n
        invariant
            n == indices@.len(),
            i <= n,
            forall|k: int| 0 <= k < i ==> indices@[k] < vertices,
        decreases n - i,
    {
        if indices[i] as usize >= vertices {
            let mut m = "primitive ".to_owned();
            push_decimal(&mut m, primitive as u64);
            push_str(&mut m, " indexes past its ");
            push_decimal(&mut m, vertices as u64);
            push_str(&mut m, " vertices");
            return Err(Error::Mesh(m));
        }
        i += 1;
    }
    let ghost idx = indices@;
    let mut out: Vec<[u32; 3]> = Vec::new();
    match mode {
        TriMode::Triangles => {
            let mut t: usize = 0;
            while t < n / 3
                invariant
                    n == idx.len(),
                    idx == indices@,
                    t <= n / 3,
                    out@ =~= triangles_of(mode, idx).take(t as int),
                    mode == TriMode::Triangles,
                decreases n / 3 - t,
            {
                out.push([indices[3 * t], indices[3 * t + 1], indices[3 * t + 2]]);
                t += 1;
                assert(out@ =~= triangles_of(mode, idx).take(t as int));
            }
            assert(triangles_of(mode, idx).take((n / 3) as int) =~= triangles_of(mode, idx));
        },
        TriMode::Strip => {
            if n >= 3 {
                let mut k: usize = 0;
                while k < n - 2
                    invariant
                        n == idx.len(),
                        n >= 3,
                        idx == indices@,
                        k <= n - 2,
                        out@ =~= triangles_of(mode, idx).take(k as int),
                        mode == TriMode::Strip,
                    decreases n - 2 - k,
                {
                    if k % 2 == 0 {
                        out.push([indices[k], indices[k + 1], indices[k + 2]]);
                    } else {
                        out.push([indices[k + 2], indices[k + 1], indices[k]]);
                    }
                    k += 1;
                    assert(out@ =~= triangles_of(mode, idx).take(k as int));
                }
                assert(triangles_of(mode, idx).take((n - 2) as int) =~= triangles_of(mode, idx));
            } else {
                assert(out@ =~= triangles_of(mode, idx));
            }
        },
        TriMode::Fan => {
            if n >= 3 {
                let mut j: usize = 0;
                while j < n - 2
                    invariant
                        n == idx.len(),
                        n >= 3,
                        idx == indices@,
                        j <= n - 2,
                        out@ =~= triangles_of(mode, idx).take(j as int),
                        mode == TriMode::Fan,
                    decreases n - 2 - j,
                {
                    out.push([indices[0], indices[j + 1], indices[j + 2]]);
                    j += 1;
                    assert(out@ =~= triangles_of(mode, idx).take(j as int));
                }
                assert(triangles_of(mode, idx).take((n - 2) as int) =~= triangles_of(mode, idx));
            } else {
                assert(out@ =~= triangles_of(mode, idx));
            }
        },
    }
    Ok(out)
}

/// Each triangle's winding reversed: what a mirroring transform does to a
/// mesh.
pub fn reverse_windings(tris: &mut Vec<[u32; 3]>)
    ensures
        final(tris)@.len() == old(tris)@.len(),
        forall|i: int|
            0 <= i < old(tris)@.len() ==> (#[trigger] final(tris)@[i]) == [
                old(tris)@[i][2],
                old(tris)@[i][1],
                old(tris)@[i][0],
            ],
{
    let n = tris.len();
    let mut i: usize = 0;
    while i < n
        invariant
            n == tris@.len() == old(tris)@.len(),
            i <= n,
            forall|k: int| 0 <= k < i ==> (#[trigger] tris@[k]) == [old(tris)@[k][2], old(tris)@[k][1], old(tris)@[k][0]],
            forall|k: int| i <= k < n ==> (#[trigger] tris@[k]) == old(tris)@[k],
        decreases n - i,
    {
        let t = tris[i];
        tris.set(i, [t[2], t[1], t[0]]);
        i += 1;
    }
}

} // verus!
