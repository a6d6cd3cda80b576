//! The web UI's preview of a conversion: every block as four
//! little-endian 32-bit integers (x, y, z, palette index), base64-encoded.
use vstd::prelude::*;
use crate::grid::BlockGrid;

verus! {

/// The character of a 6-bit value in base64's standard alphabet.
pub open spec fn b64_char(v: int) -> char {
    if v < 26 {
        ('A' as int + v) as char
    } else if v < 52 {
        ('a' as int + v - 26) as char
    } else if v < 62 {
        ('0' as int + v - 52) as char
    } else if v == 62 {
        '+'
    } else {
        '/'
    }
}

/// `data` in standard base64 (RFC 4648, section 4), padded with `=`.
pub open spec fn base64_of(data: Seq<u8>) -> Seq<char>
    decreases data.len(),
{
    let a = if data.len() > 0 {
        data[0] as int
    } else {
        0
    };
    let b = if data.len() > 1 {
        data[1] as int
    } else {
        0
    };
    let c = if data.len() > 2 {
        data[2] as int
    } else {
        0
    };
    if data.len() == 0 {
        seq![]
    } else if data.len() == 1 {
        seq![b64_char(a / 4), b64_char((a % 4) * 16), '=', '=']
    } else if data.len() == 2 {
        seq![b64_char(a / 4), b64_char((a % 4) * 16 + b / 16), b64_char((b % 16) * 4), '=']
    } else {
        seq![
            b64_char(a / 4),
            b64_char((a % 4) * 16 + b / 16),
            b64_char((b % 16) * 4 + c / 64),
            b64_char(c % 64),
        ] + base64_of(data.skip(3))
    }
}

/// Encodes with `base64`'s `STANDARD` engine (standard alphabet, padded).
/// The contract states RFC 4648's encoding, which is what that engine
/// documents. It panics when the encoded length overflows `usize`; the
/// bound rules that out.
#[verifier::external_body]
fn base64_encode(data: &[u8]) -> (res: String)
    requires
        data@.len() <= usize::MAX / 2,
    ensures
        res@ == base64_of(data@),
{
    base64::Engine::encode(&base64::engine::general_purpose::STANDARD, data)
}

/// The four little-endian bytes of `v`.
pub open spec fn le_bytes(v: i32) -> Seq<u8> {
    let u = v as u32;
    seq![(u % 256) as u8, ((u / 256) % 256) as u8, ((u / 65536) % 256) as u8, (u / 16777216) as u8]
}

/// Blocks `0..n` of `g` as little-endian quadruples.
pub open spec fn packed(g: BlockGrid, n: int) -> Seq<u8>
    decreases n,
{
    if n <= 0 {
        seq![]
    } else {
        let c = g.coords@[n - 1];
        packed(g, n - 1) + le_bytes(c[0]) + le_bytes(c[1]) + le_bytes(c[2]) + le_bytes(
            g.blocks@[n - 1] as i32,
        )
    }
}

fn push_le(out: &mut Vec<u8>, v: i32)
    ensures
        final(out)@ == old(out)@ + le_bytes(v),
{
    let u = v as u32;
    out.push((u & 0xff) as u8);
    out.push(((u >> 8) & 0xff) as u8);
    out.push(((u >> 16) & 0xff) as u8);
    out.push((u >> 24) as u8);
    assert((u & 0xff) as u8 == (u % 256) as u8 && ((u >> 8) & 0xff) as u8 == ((u / 256) % 256) as u8
        && ((u >> 16) & 0xff) as u8 == ((u / 65536) % 256) as u8 && (u >> 24) as u8 == (u
        / 16777216) as u8) by (bit_vector);
    assert(final(out)@ =~= old(out)@ + le_bytes(v));
}

/// The blocks of `grid`, each as x, y, z and palette index.
pub fn pack_bytes(grid: &BlockGrid) -> (res: Vec<u8>)
    requires
        grid.blocks@.len() == grid.coords@.len(),
    ensures
        res@ == packed(*grid, grid.coords@.len() as int),
{
    let n = grid.coords.len();
    let mut out: Vec<u8> = Vec::new();
    let mut i: usize = 0;
    while i < n
        invariant
            n == grid.coords@.len(),
            grid.blocks@.len() == n,
            i <= n,
            out@ == packed(*grid, i as int),
        decreases n - i,
    {
        let c = grid.coords[i];
        let ghost before = out@;
        push_le(&mut out, c[0]);
        push_le(&mut out, c[1]);
        push_le(&mut out, c[2]);
        push_le(&mut out, grid.blocks[i] as i32);
        i += 1;
        assert(out@ =~= before + le_bytes(c[0]) + le_bytes(c[1]) + le_bytes(c[2]) + le_bytes(
            grid.blocks@[i - 1] as i32,
        ));
    }
    out
}

/// The packed blocks of `grid`, base64-encoded.
pub fn pack(grid: &BlockGrid) -> (res: String)
    requires
        grid.blocks@.len() == grid.coords@.len(),
        grid.coords@.len() <= usize::MAX / 64,
    ensures
        res@ == base64_of(packed(*grid, grid.coords@.len() as int)),
{
    let bytes = pack_bytes(grid);
    proof {
        lemma_packed_len(*grid, grid.coords@.len() as int);
    }
    base64_encode(bytes.as_slice())
}

proof fn lemma_packed_len(g: BlockGrid, n: int)
    requires
        0 <= n,
    ensures
        packed(g, n).len() == 16 * n,
    decreases n,
{
    if n > 0 {
        lemma_packed_len(g, n - 1);
    }
}

} // verus!
