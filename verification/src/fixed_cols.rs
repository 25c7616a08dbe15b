//! Fixed columns: the constants file (`.cnst`) that holds their values, and
//! the raw row-major buffer the constant tree is built from.
use vstd::prelude::*;
use vstd::utf8::{decode_utf8, encode_utf8, valid_utf8};
use crate::error::SetupError;
use crate::bin_file_writer::{append_bytes, le_bytes, le_bytes_exec, le_value};

verus! {

/// A fixed column: the lengths of its array dimensions and its values.
#[derive(Debug, Clone)]
pub struct FixedPolInfo {
    pub lengths: Vec<u32>,
    pub values: Vec<u64>,
}

/// A string field: its byte length (low 32 bits) and its bytes.
pub open spec fn str_field(b: Seq<u8>) -> Seq<u8> {
    le_bytes(b.len(), 4) + b
}

/// 32-bit little-endian words.
pub open spec fn u32_words(l: Seq<u32>) -> Seq<u8>
    decreases l.len(),
{
    if l.len() == 0 {
        Seq::empty()
    } else {
        u32_words(l.drop_last()) + le_bytes(l.last() as nat, 4)
    }
}

/// 64-bit little-endian words.
pub open spec fn u64_words(l: Seq<u64>) -> Seq<u8>
    decreases l.len(),
{
    if l.len() == 0 {
        Seq::empty()
    } else {
        u64_words(l.drop_last()) + le_bytes(l.last() as nat, 8)
    }
}

/// The bytes of a fixed column: name, number of dimensions, their lengths,
/// and the values.
pub open spec fn pol_field(name: Seq<char>, lengths: Seq<u32>, values: Seq<u64>) -> Seq<u8> {
    str_field(encode_utf8(name)) + le_bytes(lengths.len(), 4) + u32_words(lengths) + u64_words(values)
}

/// The model of a list of fixed columns.
pub open spec fn pols_view(v: Seq<(String, Vec<u32>, Vec<u64>)>) -> Seq<(Seq<char>, Seq<u32>, Seq<u64>)> {
    v.map_values(|p: (String, Vec<u32>, Vec<u64>)| (p.0@, p.1@, p.2@))
}

/// The bytes of the first `k` fixed columns.
pub open spec fn pols_field(pols: Seq<(Seq<char>, Seq<u32>, Seq<u64>)>, k: int) -> Seq<u8>
    decreases k,
{
    if k <= 0 {
        Seq::empty()
    } else {
        pols_field(pols, k - 1) + pol_field(pols[k - 1].0, pols[k - 1].1, pols[k - 1].2)
    }
}

/// The payload of the single section of a constants file.
pub open spec fn cnst_payload(airgroup: Seq<char>, air: Seq<char>, n: u64, pols: Seq<(Seq<char>, Seq<u32>, Seq<u64>)>) -> Seq<u8> {
    str_field(encode_utf8(airgroup)) + str_field(encode_utf8(air)) + le_bytes(n as nat, 8) + le_bytes(pols.len(), 4)
        + pols_field(pols, pols.len() as int)
}

/// The magic bytes `cnst`.
pub open spec fn cnst_magic() -> Seq<u8> {
    seq![0x63u8, 0x6eu8, 0x73u8, 0x74u8]
}

/// A constants file: magic, version 1, one section (id 1, its size, its
/// payload).
pub open spec fn cnst_file(airgroup: Seq<char>, air: Seq<char>, n: u64, pols: Seq<(Seq<char>, Seq<u32>, Seq<u64>)>) -> Seq<u8> {
    let p = cnst_payload(airgroup, air, n, pols);
    cnst_magic() + le_bytes(1, 4) + le_bytes(1, 4) + le_bytes(1, 4) + le_bytes(p.len(), 8) + p
}

fn push_le(buf: &mut Vec<u8>, v: u64, n: usize)
    requires
        n <= 8,
    ensures
        final(buf)@ == old(buf)@ + le_bytes(v as nat, n as nat),
{
    let b = le_bytes_exec(v, n);
    append_bytes(buf, b.as_slice());
}

fn push_str(buf: &mut Vec<u8>, s: &str)
    ensures
        final(buf)@ == old(buf)@ + str_field(encode_utf8(s@)),
{
    let b = s.as_bytes();
    push_le(buf, b.len() as u64, 4);
    append_bytes(buf, b);
    proof {
        assert(old(buf)@ + le_bytes(b@.len(), 4) + b@ =~= old(buf)@ + str_field(encode_utf8(s@)));
    }
}

fn push_pol(buf: &mut Vec<u8>, name: &String, lengths: &Vec<u32>, values: &Vec<u64>)
    ensures
        final(buf)@ == old(buf)@ + pol_field(name@, lengths@, values@),
{
    let ghost b0 = buf@;
    push_str(buf, name.as_str());
    push_le(buf, lengths.len() as u64, 4);
    let ghost b1 = buf@;
    let mut k: usize = 0;
    proof {
        assert(lengths@.take(0) =~= Seq::<u32>::empty());
        assert(buf@ =~= b1 + u32_words(lengths@.take(0)));
    }
    while k < lengths.len()
        invariant
            k <= lengths@.len(),
            buf@ == b1 + u32_words(lengths@.take(k as int)),
        decreases lengths.len() - k,
    {
        push_le(buf, lengths[k] as u64, 4);
        proof {
            assert(lengths@.take(k as int + 1).drop_last() =~= lengths@.take(k as int));
        }
        k = k + 1;
    }
    proof {
        assert(lengths@.take(lengths@.len() as int) =~= lengths@);
    }
    let ghost b2 = buf@;
    let mut j: usize = 0;
    proof {
        assert(values@.take(0) =~= Seq::<u64>::empty());
        assert(buf@ =~= b2 + u64_words(values@.take(0)));
    }
    while j < values.len()
        invariant
            j <= values@.len(),
            buf@ == b2 + u64_words(values@.take(j as int)),
        decreases values.len() - j,
    {
        push_le(buf, values[j], 8);
        proof {
            assert(values@.take(j as int + 1).drop_last() =~= values@.take(j as int));
        }
        j = j + 1;
    }
    proof {
        assert(values@.take(values@.len() as int) =~= values@);
        assert(buf@ =~= b0 + pol_field(name@, lengths@, values@));
    }
}

/// The bytes of a constants file holding the fixed columns `fixed_info` of
/// air `air_name` of air group `airgroup_name`, each with `n` rows.
pub fn encode_fixed_pols_bin(
    airgroup_name: &str,
    air_name: &str,
    n: u64,
    fixed_info: &[(String, Vec<u32>, Vec<u64>)],
) -> (r: Vec<u8>)
    ensures
        r@ == cnst_file(airgroup_name@, air_name@, n, pols_view(fixed_info@)),
{
    let ghost pv = pols_view(fixed_info@);
    let mut payload: Vec<u8> = Vec::new();
    push_str(&mut payload, airgroup_name);
    push_str(&mut payload, air_name);
    push_le(&mut payload, n, 8);
    push_le(&mut payload, fixed_info.len() as u64, 4);
    let ghost p0 = payload@;
    let mut k: usize = 0;
    proof {
        assert(payload@ =~= p0 + pols_field(pv, 0));
    }
    while k < fixed_info.len()
        invariant
            k <= fixed_info@.len(),
            pv == pols_view(fixed_info@),
            payload@ == p0 + pols_field(pv, k as int),
        decreases fixed_info.len() - k,
    {
        let p = &fixed_info[k];
        push_pol(&mut payload, &p.0, &p.1, &p.2);
        proof {
            assert(pv[k as int] == (p.0@, p.1@, p.2@));
        }
        k = k + 1;
    }
    let mut out: Vec<u8> = Vec::new();
    out.push(0x63u8);
    out.push(0x6eu8);
    out.push(0x73u8);
    out.push(0x74u8);
    push_le(&mut out, 1, 4);
    push_le(&mut out, 1, 4);
    push_le(&mut out, 1, 4);
    push_le(&mut out, payload.len() as u64, 8);
    append_bytes(&mut out, payload.as_slice());
    proof {
        assert(payload@ =~= cnst_payload(airgroup_name@, air_name@, n, pv));
        assert(out@ =~= cnst_file(airgroup_name@, air_name@, n, pv));
    }
    out
}

/// The bytes of a row-major buffer of field elements, each as a 64-bit
/// little-endian word.
pub fn encode_fixed_cols_raw(buffer: &[u64]) -> (r: Vec<u8>)
    ensures
        r@ == u64_words(buffer@),
{
    let mut out: Vec<u8> = Vec::new();
    let mut j: usize = 0;
    proof {
        assert(buffer@.take(0) =~= Seq::<u64>::empty());
    }
    while j < buffer.len()
        invariant
            j <= buffer@.len(),
            out@ == u64_words(buffer@.take(j as int)),
        decreases buffer.len() - j,
    {
        push_le(&mut out, buffer[j], 8);
        proof {
            assert(buffer@.take(j as int + 1).drop_last() =~= buffer@.take(j as int));
        }
        j = j + 1;
    }
    proof {
        assert(buffer@.take(buffer@.len() as int) =~= buffer@);
    }
    out
}

/// The fixed columns of an air as the compiled PIL holds them: the log2 of
/// the number of rows, and for each column the little-endian bytes of its
/// values, row by row.
#[derive(Debug)]
pub struct AirFixedCols {
    pub num_rows: Option<u32>,
    pub fixed_cols: Vec<Vec<Vec<u8>>>,
}

/// The value of (at most) the first eight little-endian bytes.
pub open spec fn word_of(b: Seq<u8>) -> nat {
    le_value(if b.len() <= 8 { b } else { b.take(8) })
}

/// The number of rows of the air.
pub open spec fn rows_of(air: AirFixedCols) -> nat {
    vstd::arithmetic::power2::pow2(
        match air.num_rows {
            Some(x) => x as nat,
            None => 0,
        },
    )
}

/// The value at position `p` of the row-major buffer: the value of the
/// column in that row, or 0 where the column has fewer values.
pub open spec fn buffer_at(air: AirFixedCols, p: int) -> u64 {
    let nf = air.fixed_cols@.len() as int;
    let row = p / nf;
    let col = p % nf;
    if row < air.fixed_cols@[col]@.len() {
        word_of(air.fixed_cols@[col]@[row]@) as u64
    } else {
        0
    }
}

/// `256^n`.
pub open spec fn radix(n: nat) -> nat
    decreases n,
{
    if n == 0 {
        1
    } else {
        256 * radix((n - 1) as nat)
    }
}

proof fn lemma_radix_mono(a: nat, b: nat)
    requires
        a <= b,
    ensures
        radix(a) <= radix(b),
    decreases b,
{
    if a < b {
        lemma_radix_mono(a, (b - 1) as nat);
    }
}

proof fn lemma_le_value_bound(s: Seq<u8>)
    ensures
        le_value(s) < radix(s.len()),
    decreases s.len(),
{
    if s.len() > 0 {
        lemma_le_value_bound(s.drop_first());
        let p = radix((s.len() - 1) as nat);
        let v = le_value(s.drop_first());
        assert(s[0] as nat + 256 * v < 256 * p) by (nonlinear_arith)
            requires
                v < p,
                s[0] < 256,
        ;
    }
}

/// The value of (at most) the first eight little-endian bytes.
fn bytes_to_u64_le(b: &Vec<u8>) -> (r: u64)
    ensures
        r == word_of(b@),
{
    let m: usize = if b.len() <= 8 { b.len() } else { 8 };
    let ghost w = if b@.len() <= 8 { b@ } else { b@.take(8) };
    proof {
        assert(w =~= b@.take(m as int));
    }
    let mut v: u128 = 0;
    let mut k: usize = m;
    proof {
        assert(w.subrange(m as int, m as int) =~= Seq::<u8>::empty());
    }
    while k > 0
        invariant
            k <= m,
            m <= 8,
            m <= b@.len(),
            w == b@.take(m as int),
            v as nat == le_value(w.subrange(k as int, m as int)),
        decreases k,
    {
        proof {
            let t = w.subrange(k as int - 1, m as int);
            assert(t.drop_first() =~= w.subrange(k as int, m as int));
            lemma_le_value_bound(w.subrange(k as int, m as int));
            lemma_radix_mono((m - k) as nat, 8);
            assert(radix(8) == 0x1_0000_0000_0000_0000) by {
                reveal_with_fuel(radix, 9);
            }
        }
        v = (b[k - 1] as u128) + 256 * v;
        k = k - 1;
    }
    proof {
        assert(w.subrange(0, m as int) =~= w);
        lemma_le_value_bound(w);
        lemma_radix_mono(m as nat, 8);
        assert(radix(8) == 0x1_0000_0000_0000_0000) by {
            reveal_with_fuel(radix, 9);
        }
    }
    v as u64
}

/// The fixed columns of the air as a row-major buffer (all columns of row 0,
/// then of row 1, ...), with the number of columns.
pub fn generate_fixed_cols_buffer(air: &AirFixedCols) -> (r: (usize, Vec<u64>))
    requires
        match air.num_rows {
            Some(x) => x < 64,
            None => true,
        },
        rows_of(*air) <= usize::MAX,
        air.fixed_cols@.len() * rows_of(*air) <= usize::MAX,
    ensures
        r.0 == air.fixed_cols@.len(),
        r.1@.len() == air.fixed_cols@.len() * rows_of(*air),
        forall|p: int| 0 <= p < r.1@.len() ==> #[trigger] r.1@[p] == buffer_at(*air, p),
{
    let lg: u32 = match air.num_rows {
        Some(x) => x,
        None => 0,
    };
    let mut n_rows: usize = 1;
    let mut e: u32 = 0;
    proof {
        vstd::arithmetic::power2::lemma2_to64();
    }
    while e < lg
        invariant
            e <= lg,
            n_rows == vstd::arithmetic::power2::pow2(e as nat),
            vstd::arithmetic::power2::pow2(lg as nat) <= usize::MAX,
        decreases lg - e,
    {
        proof {
            vstd::arithmetic::power2::lemma_pow2_unfold((e + 1) as nat);
            if e + 1 < lg {
                vstd::arithmetic::power2::lemma_pow2_strictly_increases((e + 1) as nat, lg as nat);
            }
        }
        n_rows = n_rows * 2;
        e = e + 1;
    }
    let n_fixed = air.fixed_cols.len();
    let total = n_fixed * n_rows;
    let mut buffer: Vec<u64> = Vec::new();
    while buffer.len() < total
        invariant
            buffer@.len() <= total,
            forall|p: int| 0 <= p < buffer@.len() ==> #[trigger] buffer@[p] == 0,
        decreases total - buffer@.len(),
    {
        buffer.push(0);
    }
    let mut col: usize = 0;
    proof {
        assert forall|p: int| 0 <= p < total implies #[trigger] buffer@[p] == if p % (n_fixed as int) < col {
            buffer_at(*air, p)
        } else {
            0
        } by {
            if n_fixed > 0 {
                vstd::arithmetic::div_mod::lemma_mod_pos_bound(p, n_fixed as int);
            } else {
                assert(total == 0) by (nonlinear_arith)
                    requires
                        total == n_fixed * n_rows,
                        n_fixed == 0,
                ;
            }
        }
    }
    while col < n_fixed
        invariant
            buffer@.len() == total,
            total == n_fixed * n_rows,
            n_fixed == air.fixed_cols@.len(),
            n_rows == rows_of(*air),
            col <= n_fixed,
            forall|p: int| 0 <= p < total ==> #[trigger] buffer@[p] == if p % (n_fixed as int) < col {
                buffer_at(*air, p)
            } else {
                0
            },
        decreases n_fixed - col,
    {
        let vals = &air.fixed_cols[col];
        let mut row: usize = 0;
        while row < vals.len() && row < n_rows
            invariant
                buffer@.len() == total,
                total == n_fixed * n_rows,
                n_fixed == air.fixed_cols@.len(),
                n_rows == rows_of(*air),
                col < n_fixed,
                vals == air.fixed_cols@[col as int],
                row <= n_rows,
                forall|p: int| 0 <= p < total ==> #[trigger] buffer@[p] == if p % (n_fixed as int) < col {
                    buffer_at(*air, p)
                } else if p % (n_fixed as int) == col && p / (n_fixed as int) < row {
                    buffer_at(*air, p)
                } else {
                    0
                },
            decreases n_rows - row,
        {
            let v = bytes_to_u64_le(&vals[row]);
            proof {
                assert(row * n_fixed + col < n_fixed * n_rows) by (nonlinear_arith)
                    requires
                        row < n_rows,
                        col < n_fixed,
                ;
            }
            let idx = row * n_fixed + col;
            proof {
                vstd::arithmetic::div_mod::lemma_fundamental_div_mod_converse(
                    idx as int,
                    n_fixed as int,
                    row as int,
                    col as int,
                );
            }
            let ghost b0 = buffer@;
            buffer.set(idx, v);
            proof {
                assert forall|p: int| 0 <= p < total implies #[trigger] buffer@[p] == if p % (n_fixed as int) < col {
                    buffer_at(*air, p)
                } else if p % (n_fixed as int) == col && p / (n_fixed as int) < row + 1 {
                    buffer_at(*air, p)
                } else {
                    0
                } by {
                    if p != idx {
                        assert(buffer@[p] == b0[p]);
                        if p % (n_fixed as int) == col && p / (n_fixed as int) == row {
                            vstd::arithmetic::div_mod::lemma_fundamental_div_mod(p, n_fixed as int);
                            assert(p == row * n_fixed + col) by (nonlinear_arith)
                                requires
                                    p == (n_fixed as int) * (p / (n_fixed as int)) + p % (n_fixed as int),
                                    p / (n_fixed as int) == row,
                                    p % (n_fixed as int) == col,
                            ;
                        }
                    } else {
                        assert(idx as int % (n_fixed as int) == col);
                        assert(idx as int / (n_fixed as int) == row);
                        assert(row < vals@.len());
                        assert(buffer@[p] == v);
                        assert(buffer_at(*air, p) == word_of(air.fixed_cols@[col as int]@[row as int]@) as u64);
                    }
                }
            }
            row = row + 1;
        }
        proof {
            assert forall|p: int| 0 <= p < total implies #[trigger] buffer@[p] == if p % (n_fixed as int) < col + 1 {
                buffer_at(*air, p)
            } else {
                0
            } by {
                if p % (n_fixed as int) == col && p / (n_fixed as int) >= row {
                    assert(buffer_at(*air, p) == 0) by {
                        if row < vals@.len() {
                            assert(row == n_rows);
                            vstd::arithmetic::div_mod::lemma_fundamental_div_mod(p, n_fixed as int);
                            let q = p / (n_fixed as int);
                            assert(false) by (nonlinear_arith)
                                requires
                                    p == (n_fixed as int) * q + p % (n_fixed as int),
                                    p % (n_fixed as int) >= 0,
                                    q >= n_rows,
                                    p < n_fixed * n_rows,
                                    n_fixed > 0,
                            ;
                        }
                    }
                }
            }
        }
        col = col + 1;
    }
    proof {
        assert forall|p: int| 0 <= p < total implies #[trigger] buffer@[p] == buffer_at(*air, p) by {
            if n_fixed > 0 {
                vstd::arithmetic::div_mod::lemma_mod_pos_bound(p, n_fixed as int);
            } else {
                assert(total == 0) by (nonlinear_arith)
                    requires
                        total == n_fixed * n_rows,
                        n_fixed == 0,
                ;
            }
        }
    }
    (n_fixed, buffer)
}

// ---------------------------------------------------------------------------
// Reading a constants file
// ---------------------------------------------------------------------------

/// The model of a constants file: air group name, air name, number of rows
/// and the fixed columns (name, dimension lengths, values), in file order.
pub type CnstModel = (Seq<char>, Seq<char>, u64, Seq<(Seq<char>, Seq<u32>, Seq<u64>)>);

/// The `n`-byte little-endian number at `pos`, if the bytes are there.
pub open spec fn rd(b: Seq<u8>, pos: int, n: nat) -> Option<nat> {
    if 0 <= pos && pos + n <= b.len() {
        Some(le_value(b.subrange(pos, pos + n)))
    } else {
        None
    }
}

/// The string field at `pos` and the position after it.
pub open spec fn rd_str(b: Seq<u8>, pos: int) -> Result<(Seq<char>, int), SetupError> {
    match rd(b, pos, 4) {
        None => Err(SetupError::Truncated),
        Some(l) => if pos + 4 + l > b.len() {
            Err(SetupError::Truncated)
        } else {
            let s = b.subrange(pos + 4, pos + 4 + l);
            if valid_utf8(s) {
                Ok((decode_utf8(s), pos + 4 + l))
            } else {
                Err(SetupError::InvalidUtf8)
            }
        },
    }
}

/// The `k` 32-bit words at `pos`, if they are there.
pub open spec fn rd_u32s(b: Seq<u8>, pos: int, k: nat) -> Option<Seq<u32>> {
    if 0 <= pos && pos + 4 * k <= b.len() {
        Some(Seq::new(k, |i: int| le_value(b.subrange(pos + 4 * i, pos + 4 * i + 4)) as u32))
    } else {
        None
    }
}

/// The `k` 64-bit words at `pos`, if they are there.
pub open spec fn rd_u64s(b: Seq<u8>, pos: int, k: nat) -> Option<Seq<u64>> {
    if 0 <= pos && pos + 8 * k <= b.len() {
        Some(Seq::new(k, |i: int| le_value(b.subrange(pos + 8 * i, pos + 8 * i + 8)) as u64))
    } else {
        None
    }
}

/// The fixed column at `pos` (with `n` values) and the position after it.
pub open spec fn rd_pol(b: Seq<u8>, pos: int, n: nat) -> Result<((Seq<char>, Seq<u32>, Seq<u64>), int), SetupError> {
    match rd_str(b, pos) {
        Err(e) => Err(e),
        Ok((name, p1)) => match rd(b, p1, 4) {
            None => Err(SetupError::Truncated),
            Some(nl) => match rd_u32s(b, p1 + 4, nl) {
                None => Err(SetupError::Truncated),
                Some(ls) => match rd_u64s(b, p1 + 4 + 4 * nl, n) {
                    None => Err(SetupError::Truncated),
                    Some(vs) => Ok(((name, ls, vs), p1 + 4 + 4 * nl + 8 * n)),
                },
            },
        },
    }
}

/// The first `k` fixed columns from `pos`, and the position after them.
pub open spec fn rd_pols(b: Seq<u8>, pos: int, n: nat, k: nat) -> Result<(Seq<(Seq<char>, Seq<u32>, Seq<u64>)>, int), SetupError>
    decreases k,
{
    if k == 0 {
        Ok((Seq::empty(), pos))
    } else {
        match rd_pols(b, pos, n, (k - 1) as nat) {
            Err(e) => Err(e),
            Ok((ps, p)) => match rd_pol(b, p, n) {
                Err(e) => Err(e),
                Ok((x, p2)) => Ok((ps.push(x), p2)),
            },
        }
    }
}

/// What reading the constants file `b` gives: the magic `cnst`, a header
/// (version, number of sections, section id, section size) that is read
/// and not checked, then the air group and air names, the number of rows,
/// the number of fixed columns and the columns. Bytes after the last column
/// are ignored.
pub open spec fn parse_cnst(b: Seq<u8>) -> Result<CnstModel, SetupError> {
    if b.len() < 4 {
        Err(SetupError::Truncated)
    } else if b.take(4) != cnst_magic() {
        Err(SetupError::BadMagic)
    } else if b.len() < 24 {
        Err(SetupError::Truncated)
    } else {
        match rd_str(b, 24) {
            Err(e) => Err(e),
            Ok((g, p1)) => match rd_str(b, p1) {
                Err(e) => Err(e),
                Ok((a, p2)) => match rd(b, p2, 8) {
                    None => Err(SetupError::Truncated),
                    Some(n) => match rd(b, p2 + 8, 4) {
                        None => Err(SetupError::Truncated),
                        Some(c) => match rd_pols(b, p2 + 12, n, c) {
                            Err(e) => Err(e),
                            Ok((ps, _)) => Ok((g, a, n as u64, ps)),
                        },
                    },
                },
            },
        }
    }
}

/// A fixed column as read from a constants file.
#[derive(Debug)]
pub struct NamedFixedPol {
    pub name: String,
    pub info: FixedPolInfo,
}

/// The contents of a constants file.
#[derive(Debug)]
pub struct FixedPolsFile {
    pub airgroup_name: String,
    pub air_name: String,
    pub n: u64,
    pub pols: Vec<NamedFixedPol>,
}

/// The model of the contents of a constants file.
pub open spec fn file_view(f: FixedPolsFile) -> CnstModel {
    (f.airgroup_name@, f.air_name@, f.n, f.pols@.map_values(|p: NamedFixedPol| (p.name@, p.info.lengths@, p.info.values@)))
}

/// Calls std's `String::from_utf8` on a copy of the bytes. Trusted: that it
/// succeeds exactly on valid UTF-8 (as vstd's `valid_utf8` states it), and
/// that the string it then gives is the one whose UTF-8 encoding is the bytes.
#[verifier::external_body]
fn utf8_string(b: &[u8]) -> (r: Option<String>)
    ensures
        r is Some <==> valid_utf8(b@),
        r matches Some(s) ==> encode_utf8(s@) == b@,
{
    String::from_utf8(b.to_vec()).ok()
}

/// The `n`-byte little-endian number at `pos`, if the bytes are there.
fn read_le(b: &[u8], pos: usize, n: usize) -> (r: Option<u64>)
    requires
        n <= 8,
    ensures
        match r {
            Some(v) => rd(b@, pos as int, n as nat) == Some(v as nat),
            None => rd(b@, pos as int, n as nat) is None,
        },
{
    let blen = b.len();
    if pos > blen || n > blen - pos {
        return None;
    }
    let ghost w = b@.subrange(pos as int, pos + n);
    let mut v: u128 = 0;
    let mut k: usize = n;
    proof {
        assert(w.subrange(n as int, n as int) =~= Seq::<u8>::empty());
    }
    while k > 0
        invariant
            k <= n,
            n <= 8,
            pos + n <= blen,
            blen == b@.len(),
            w == b@.subrange(pos as int, pos + n),
            v as nat == le_value(w.subrange(k as int, n as int)),
        decreases k,
    {
        proof {
            let t = w.subrange(k as int - 1, n as int);
            assert(t.drop_first() =~= w.subrange(k as int, n as int));
            lemma_le_value_bound(w.subrange(k as int, n as int));
            lemma_radix_mono((n - k) as nat, 8);
            assert(radix(8) == 0x1_0000_0000_0000_0000) by {
                reveal_with_fuel(radix, 9);
            }
        }
        v = (b[pos + k - 1] as u128) + 256 * v;
        k = k - 1;
    }
    proof {
        assert(w.subrange(0, n as int) =~= w);
        lemma_le_value_bound(w);
        lemma_radix_mono(n as nat, 8);
        assert(radix(8) == 0x1_0000_0000_0000_0000) by {
            reveal_with_fuel(radix, 9);
        }
    }
    Some(v as u64)
}

/// The string field at `pos` and the position after it.
fn read_str(b: &[u8], pos: usize) -> (r: Result<(String, usize), SetupError>)
    ensures
        match r {
            Ok((s, p)) => rd_str(b@, pos as int) == Ok::<(Seq<char>, int), SetupError>((s@, p as int)),
            Err(e) => rd_str(b@, pos as int) == Err::<(Seq<char>, int), SetupError>(e),
        },
{
    let l = match read_le(b, pos, 4) {
        None => {
            return Err(SetupError::Truncated);
        },
        Some(x) => x,
    };
    let blen = b.len();
    let start = pos + 4;
    if l as u128 > (blen - start) as u128 {
        return Err(SetupError::Truncated);
    }
    let end = start + l as usize;
    let mut bytes: Vec<u8> = Vec::new();
    let mut k: usize = start;
    while k < end
        invariant
            start <= k <= end,
            end <= b@.len(),
            bytes@ == b@.subrange(start as int, k as int),
        decreases end - k,
    {
        bytes.push(b[k]);
        proof {
            assert(bytes@ =~= b@.subrange(start as int, k as int + 1));
        }
        k = k + 1;
    }
    match utf8_string(bytes.as_slice()) {
        None => Err(SetupError::InvalidUtf8),
        Some(s) => {
            proof {
                vstd::utf8::encode_utf8_decode_utf8(s@);
            }
            Ok((s, end))
        },
    }
}

/// The fixed column at `pos` with `n` values, and the position after it.
fn read_pol(b: &[u8], pos: usize, n: u64) -> (r: Result<(NamedFixedPol, usize), SetupError>)
    ensures
        match r {
            Ok((x, p)) => rd_pol(b@, pos as int, n as nat) == Ok::<((Seq<char>, Seq<u32>, Seq<u64>), int), SetupError>(
                ((x.name@, x.info.lengths@, x.info.values@), p as int),
            ),
            Err(e) => rd_pol(b@, pos as int, n as nat) == Err::<((Seq<char>, Seq<u32>, Seq<u64>), int), SetupError>(e),
        },
{
    let (name, p1) = match read_str(b, pos) {
        Err(e) => {
            return Err(e);
        },
        Ok(x) => x,
    };
    let nl = match read_le(b, p1, 4) {
        None => {
            return Err(SetupError::Truncated);
        },
        Some(x) => x,
    };
    let blen = b.len();
    let p2 = p1 + 4;
    if (nl as u128) * 4 > (blen - p2) as u128 {
        return Err(SetupError::Truncated);
    }
    let mut lengths: Vec<u32> = Vec::new();
    let mut i: usize = 0;
    let nlu = nl as usize;
    while i < nlu
        invariant
            nlu == nl,
            p2 + 4 * nl <= blen,
            blen == b@.len(),
            i <= nlu,
            lengths@ =~= Seq::new(i as nat, |t: int| le_value(b@.subrange(p2 + 4 * t, p2 + 4 * t + 4)) as u32),
        decreases nlu - i,
    {
        let w = read_le(b, p2 + 4 * i, 4);
        let x = match w {
            Some(x) => x,
            None => 0,
        };
        proof {
            lemma_le_value_bound(b@.subrange(p2 + 4 * i, p2 + 4 * i + 4));
            assert(radix(4) == 0x1_0000_0000) by {
                reveal_with_fuel(radix, 5);
            }
        }
        lengths.push(x as u32);
        i = i + 1;
    }
    let p3 = p2 + 4 * nlu;
    if (n as u128) * 8 > (blen - p3) as u128 {
        return Err(SetupError::Truncated);
    }
    let nu = n as usize;
    let mut values: Vec<u64> = Vec::new();
    let mut j: usize = 0;
    while j < nu
        invariant
            nu == n,
            p3 + 8 * n <= blen,
            blen == b@.len(),
            j <= nu,
            values@ =~= Seq::new(j as nat, |t: int| le_value(b@.subrange(p3 + 8 * t, p3 + 8 * t + 8)) as u64),
        decreases nu - j,
    {
        let w = read_le(b, p3 + 8 * j, 8);
        let x = match w {
            Some(x) => x,
            None => 0,
        };
        values.push(x);
        j = j + 1;
    }
    Ok((NamedFixedPol { name, info: FixedPolInfo { lengths, values } }, p3 + 8 * nu))
}

/// Reads a constants file: refused when it does not start with `cnst`,
/// when it ends before the data it announces, or when a name is not UTF-8.
pub fn parse_fixed_pols_bin(bytes: &[u8]) -> (r: Result<FixedPolsFile, SetupError>)
    ensures
        match r {
            Ok(f) => parse_cnst(bytes@) == Ok::<CnstModel, SetupError>(file_view(f)),
            Err(e) => parse_cnst(bytes@) == Err::<CnstModel, SetupError>(e),
        },
{
    if bytes.len() < 4 {
        return Err(SetupError::Truncated);
    }
    if !(bytes[0] == 0x63u8 && bytes[1] == 0x6eu8 && bytes[2] == 0x73u8 && bytes[3] == 0x74u8) {
        proof {
            if bytes@.take(4) == cnst_magic() {
                assert(bytes@.take(4)[0] == 0x63u8);
                assert(bytes@.take(4)[1] == 0x6eu8);
                assert(bytes@.take(4)[2] == 0x73u8);
                assert(bytes@.take(4)[3] == 0x74u8);
            }
        }
        return Err(SetupError::BadMagic);
    }
    proof {
        assert(bytes@.take(4) =~= cnst_magic());
    }
    if bytes.len() < 24 {
        return Err(SetupError::Truncated);
    }
    let (g, p1) = match read_str(bytes, 24) {
        Err(e) => {
            return Err(e);
        },
        Ok(x) => x,
    };
    let (a, p2) = match read_str(bytes, p1) {
        Err(e) => {
            return Err(e);
        },
        Ok(x) => x,
    };
    let n = match read_le(bytes, p2, 8) {
        None => {
            return Err(SetupError::Truncated);
        },
        Some(x) => x,
    };
    let c = match read_le(bytes, p2 + 8, 4) {
        None => {
            return Err(SetupError::Truncated);
        },
        Some(x) => x,
    };
    let mut pols: Vec<NamedFixedPol> = Vec::new();
    let mut pos: usize = p2 + 12;
    proof {
        assert(pols@.map_values(|p: NamedFixedPol| (p.name@, p.info.lengths@, p.info.values@)) =~= Seq::<
            (Seq<char>, Seq<u32>, Seq<u64>),
        >::empty());
    }
    let mut k: u64 = 0;
    while k < c
        invariant
            k <= c,
            bytes@.len() >= 24,
            bytes@.take(4) == cnst_magic(),
            rd_str(bytes@, 24) == Ok::<(Seq<char>, int), SetupError>((g@, p1 as int)),
            rd_str(bytes@, p1 as int) == Ok::<(Seq<char>, int), SetupError>((a@, p2 as int)),
            rd(bytes@, p2 as int, 8) == Some(n as nat),
            rd(bytes@, p2 + 8, 4) == Some(c as nat),
            rd_pols(bytes@, p2 + 12, n as nat, k as nat) == Ok::<(Seq<(Seq<char>, Seq<u32>, Seq<u64>)>, int), SetupError>(
                (pols@.map_values(|p: NamedFixedPol| (p.name@, p.info.lengths@, p.info.values@)), pos as int),
            ),
        decreases c - k,
    {
        let ghost before = pols@;
        match read_pol(bytes, pos, n) {
            Err(e) => {
                proof {
                    assert(rd_pols(bytes@, p2 + 12, n as nat, k as nat + 1) == Err::<(Seq<(Seq<char>, Seq<u32>, Seq<u64>)>, int), SetupError>(e));
                    lemma_rd_pols_err(bytes@, p2 + 12, n as nat, k as nat + 1, c as nat);
                    lemma_parse_unfold(bytes@, g@, p1 as int, a@, p2 as int, n as nat, c as nat);
                }
                return Err(e);
            },
            Ok((x, p)) => {
                pols.push(x);
                pos = p;
                proof {
                    assert(pols@.map_values(|p: NamedFixedPol| (p.name@, p.info.lengths@, p.info.values@)) =~= before.map_values(
                        |p: NamedFixedPol| (p.name@, p.info.lengths@, p.info.values@),
                    ).push((x.name@, x.info.lengths@, x.info.values@)));
                }
            },
        }
        k = k + 1;
    }
    proof {
        lemma_parse_unfold(bytes@, g@, p1 as int, a@, p2 as int, n as nat, c as nat);
    }
    Ok(FixedPolsFile { airgroup_name: g, air_name: a, n, pols })
}

/// Reading a file whose header and names are there comes down to reading
/// its columns.
proof fn lemma_parse_unfold(b: Seq<u8>, g: Seq<char>, p1: int, a: Seq<char>, p2: int, n: nat, c: nat)
    requires
        b.len() >= 24,
        b.take(4) == cnst_magic(),
        rd_str(b, 24) == Ok::<(Seq<char>, int), SetupError>((g, p1)),
        rd_str(b, p1) == Ok::<(Seq<char>, int), SetupError>((a, p2)),
        rd(b, p2, 8) == Some(n),
        rd(b, p2 + 8, 4) == Some(c),
    ensures
        parse_cnst(b) == match rd_pols(b, p2 + 12, n, c) {
            Err(e) => Err::<CnstModel, SetupError>(e),
            Ok((ps, _)) => Ok::<CnstModel, SetupError>((g, a, n as u64, ps)),
        },
{
}

/// Once reading the columns fails, reading more of them fails the same way.
proof fn lemma_rd_pols_err(b: Seq<u8>, pos: int, n: nat, k: nat, m: nat)
    requires
        k <= m,
        rd_pols(b, pos, n, k) is Err,
    ensures
        rd_pols(b, pos, n, m) == rd_pols(b, pos, n, k),
    decreases m - k,
{
    if k < m {
        lemma_rd_pols_err(b, pos, n, k, (m - 1) as nat);
    }
}

// ---------------------------------------------------------------------------
// Reading back what was written
// ---------------------------------------------------------------------------

proof fn lemma_le_roundtrip(v: nat, n: nat)
    requires
        v < radix(n),
    ensures
        le_value(le_bytes(v, n)) == v,
        le_bytes(v, n).len() == n,
    decreases n,
{
    crate::bin_file_writer::lemma_le_bytes_len(v, n);
    if n > 0 {
        let r = radix((n - 1) as nat);
        assert(v / 256 < r) by (nonlinear_arith)
            requires
                v < 256 * r,
        ;
        lemma_le_roundtrip(v / 256, (n - 1) as nat);
        assert(le_bytes(v, n).drop_first() =~= le_bytes(v / 256, (n - 1) as nat));
        assert(v == v % 256 + 256 * (v / 256)) by (nonlinear_arith);
    } else {
        assert(v == 0);
    }
}

proof fn lemma_rd_field(x: Seq<u8>, v: nat, n: nat, y: Seq<u8>)
    requires
        v < radix(n),
    ensures
        rd(x + le_bytes(v, n) + y, x.len() as int, n) == Some(v),
{
    lemma_le_roundtrip(v, n);
    assert((x + le_bytes(v, n) + y).subrange(x.len() as int, (x.len() + n) as int) =~= le_bytes(v, n));
}

proof fn lemma_rd_str(x: Seq<u8>, s: Seq<char>, y: Seq<u8>)
    requires
        encode_utf8(s).len() < radix(4),
    ensures
        rd_str(x + str_field(encode_utf8(s)) + y, x.len() as int) == Ok::<(Seq<char>, int), SetupError>(
            (s, (x.len() + 4 + encode_utf8(s).len()) as int),
        ),
{
    let e = encode_utf8(s);
    let b = x + str_field(e) + y;
    assert(b =~= x + le_bytes(e.len(), 4) + (e + y));
    lemma_rd_field(x, e.len(), 4, e + y);
    lemma_le_roundtrip(e.len(), 4);
    assert(b.subrange((x.len() + 4) as int, (x.len() + 4 + e.len()) as int) =~= e);
    vstd::utf8::encode_utf8_valid_utf8(s);
    vstd::utf8::encode_utf8_decode_utf8(s);
}

proof fn lemma_u32_words(l: Seq<u32>)
    ensures
        u32_words(l).len() == 4 * l.len(),
        forall|i: int| 0 <= i < l.len() ==> #[trigger] u32_words(l).subrange(4 * i, 4 * i + 4) == le_bytes(l[i] as nat, 4),
    decreases l.len(),
{
    if l.len() > 0 {
        lemma_u32_words(l.drop_last());
        crate::bin_file_writer::lemma_le_bytes_len(l.last() as nat, 4);
        let w = u32_words(l);
        let p = u32_words(l.drop_last());
        assert forall|i: int| 0 <= i < l.len() implies #[trigger] w.subrange(4 * i, 4 * i + 4) == le_bytes(l[i] as nat, 4) by {
            if i < l.len() - 1 {
                assert(w.subrange(4 * i, 4 * i + 4) =~= p.subrange(4 * i, 4 * i + 4));
            } else {
                assert(w.subrange(4 * i, 4 * i + 4) =~= le_bytes(l.last() as nat, 4));
            }
        }
    }
}

proof fn lemma_u64_words(l: Seq<u64>)
    ensures
        u64_words(l).len() == 8 * l.len(),
        forall|i: int| 0 <= i < l.len() ==> #[trigger] u64_words(l).subrange(8 * i, 8 * i + 8) == le_bytes(l[i] as nat, 8),
    decreases l.len(),
{
    if l.len() > 0 {
        lemma_u64_words(l.drop_last());
        crate::bin_file_writer::lemma_le_bytes_len(l.last() as nat, 8);
        let w = u64_words(l);
        let p = u64_words(l.drop_last());
        assert forall|i: int| 0 <= i < l.len() implies #[trigger] w.subrange(8 * i, 8 * i + 8) == le_bytes(l[i] as nat, 8) by {
            if i < l.len() - 1 {
                assert(w.subrange(8 * i, 8 * i + 8) =~= p.subrange(8 * i, 8 * i + 8));
            } else {
                assert(w.subrange(8 * i, 8 * i + 8) =~= le_bytes(l.last() as nat, 8));
            }
        }
    }
}

proof fn lemma_radix_values()
    ensures
        radix(4) == 0x1_0000_0000,
        radix(8) == 0x1_0000_0000_0000_0000,
{
    reveal_with_fuel(radix, 9);
}

proof fn lemma_rd_u32s(x: Seq<u8>, l: Seq<u32>, y: Seq<u8>)
    ensures
        rd_u32s(x + u32_words(l) + y, x.len() as int, l.len()) == Some(l),
{
    lemma_u32_words(l);
    lemma_radix_values();
    let b = x + u32_words(l) + y;
    assert forall|i: int| 0 <= i < l.len() implies (le_value(#[trigger] b.subrange(x.len() + 4 * i, x.len() + 4 * i + 4)) as u32)
        == l[i] by {
        assert(b.subrange(x.len() + 4 * i, x.len() + 4 * i + 4) =~= u32_words(l).subrange(4 * i, 4 * i + 4));
        lemma_le_roundtrip(l[i] as nat, 4);
    }
    assert(Seq::new(l.len(), |i: int| le_value(b.subrange(x.len() + 4 * i, x.len() + 4 * i + 4)) as u32) =~= l);
}

proof fn lemma_rd_u64s(x: Seq<u8>, l: Seq<u64>, y: Seq<u8>)
    ensures
        rd_u64s(x + u64_words(l) + y, x.len() as int, l.len()) == Some(l),
{
    lemma_u64_words(l);
    lemma_radix_values();
    let b = x + u64_words(l) + y;
    assert forall|i: int| 0 <= i < l.len() implies (le_value(#[trigger] b.subrange(x.len() + 8 * i, x.len() + 8 * i + 8)) as u64)
        == l[i] by {
        assert(b.subrange(x.len() + 8 * i, x.len() + 8 * i + 8) =~= u64_words(l).subrange(8 * i, 8 * i + 8));
        lemma_le_roundtrip(l[i] as nat, 8);
    }
    assert(Seq::new(l.len(), |i: int| le_value(b.subrange(x.len() + 8 * i, x.len() + 8 * i + 8)) as u64) =~= l);
}

/// A fixed column that a constants file can hold: a name and a number of
/// dimensions that fit 32 bits, and `n` values.
pub open spec fn pol_fits(p: (Seq<char>, Seq<u32>, Seq<u64>), n: u64) -> bool {
    &&& encode_utf8(p.0).len() < 0x1_0000_0000
    &&& p.1.len() < 0x1_0000_0000
    &&& p.2.len() == n
}

proof fn lemma_rd_pol(x: Seq<u8>, p: (Seq<char>, Seq<u32>, Seq<u64>), n: u64, y: Seq<u8>)
    requires
        pol_fits(p, n),
    ensures
        rd_pol(x + pol_field(p.0, p.1, p.2) + y, x.len() as int, n as nat) == Ok::<((Seq<char>, Seq<u32>, Seq<u64>), int), SetupError>(
            (p, (x.len() + pol_field(p.0, p.1, p.2).len()) as int),
        ),
{
    lemma_radix_values();
    let e = encode_utf8(p.0);
    let b = x + pol_field(p.0, p.1, p.2) + y;
    let rest1 = le_bytes(p.1.len(), 4) + u32_words(p.1) + u64_words(p.2) + y;
    assert(b =~= x + str_field(e) + rest1);
    lemma_rd_str(x, p.0, rest1);
    let x1 = x + str_field(e);
    crate::bin_file_writer::lemma_le_bytes_len(e.len(), 4);
    assert(x1.len() == x.len() + 4 + e.len());
    assert(b =~= x1 + le_bytes(p.1.len(), 4) + (u32_words(p.1) + u64_words(p.2) + y));
    lemma_rd_field(x1, p.1.len(), 4, u32_words(p.1) + u64_words(p.2) + y);
    let x2 = x1 + le_bytes(p.1.len(), 4);
    crate::bin_file_writer::lemma_le_bytes_len(p.1.len(), 4);
    assert(b =~= x2 + u32_words(p.1) + (u64_words(p.2) + y));
    lemma_rd_u32s(x2, p.1, u64_words(p.2) + y);
    lemma_u32_words(p.1);
    let x3 = x2 + u32_words(p.1);
    assert(b =~= x3 + u64_words(p.2) + y);
    lemma_rd_u64s(x3, p.2, y);
    lemma_u64_words(p.2);
    assert(x3.len() + 8 * p.2.len() == x.len() + pol_field(p.0, p.1, p.2).len());
}

proof fn lemma_rd_pols(x: Seq<u8>, pols: Seq<(Seq<char>, Seq<u32>, Seq<u64>)>, n: u64, k: nat, y: Seq<u8>)
    requires
        k <= pols.len(),
        forall|i: int| 0 <= i < pols.len() ==> pol_fits(#[trigger] pols[i], n),
    ensures
        rd_pols(x + pols_field(pols, k as int) + y, x.len() as int, n as nat, k) == Ok::<
            (Seq<(Seq<char>, Seq<u32>, Seq<u64>)>, int),
            SetupError,
        >((pols.take(k as int), (x.len() + pols_field(pols, k as int).len()) as int)),
    decreases k,
{
    let b = x + pols_field(pols, k as int) + y;
    if k == 0 {
        assert(pols.take(0) =~= Seq::<(Seq<char>, Seq<u32>, Seq<u64>)>::empty());
        assert(pols_field(pols, 0) =~= Seq::<u8>::empty());
    } else {
        let last = pols[k - 1];
        let tail = pol_field(last.0, last.1, last.2) + y;
        assert(b =~= x + pols_field(pols, k - 1) + tail);
        lemma_rd_pols(x, pols, n, (k - 1) as nat, tail);
        let x1 = x + pols_field(pols, k - 1);
        assert(b =~= x1 + pol_field(last.0, last.1, last.2) + y);
        lemma_rd_pol(x1, last, n, y);
        assert(pols.take(k as int) =~= pols.take(k - 1).push(last));
    }
}

/// Reading back a constants file gives what was written: the names, the
/// number of rows and every fixed column, when each column has that number
/// of values and the names and counts fit the 32-bit fields.
#[verifier::rlimit(80)]
pub proof fn lemma_cnst_roundtrip(airgroup: Seq<char>, air: Seq<char>, n: u64, pols: Seq<(Seq<char>, Seq<u32>, Seq<u64>)>)
    requires
        encode_utf8(airgroup).len() < 0x1_0000_0000,
        encode_utf8(air).len() < 0x1_0000_0000,
        pols.len() < 0x1_0000_0000,
        forall|i: int| 0 <= i < pols.len() ==> pol_fits(#[trigger] pols[i], n),
        cnst_payload(airgroup, air, n, pols).len() < 0x1_0000_0000_0000_0000,
    ensures
        parse_cnst(cnst_file(airgroup, air, n, pols)) == Ok::<CnstModel, SetupError>((airgroup, air, n, pols)),
{
    lemma_radix_values();
    let p = cnst_payload(airgroup, air, n, pols);
    let b = cnst_file(airgroup, air, n, pols);
    let eg = encode_utf8(airgroup);
    let ea = encode_utf8(air);
    let body = pols_field(pols, pols.len() as int);
    let head = cnst_magic() + le_bytes(1, 4) + le_bytes(1, 4) + le_bytes(1, 4) + le_bytes(p.len(), 8);
    crate::bin_file_writer::lemma_le_bytes_len(1, 4);
    crate::bin_file_writer::lemma_le_bytes_len(p.len(), 8);
    crate::bin_file_writer::lemma_le_bytes_len(eg.len(), 4);
    crate::bin_file_writer::lemma_le_bytes_len(ea.len(), 4);
    crate::bin_file_writer::lemma_le_bytes_len(n as nat, 8);
    crate::bin_file_writer::lemma_le_bytes_len(pols.len(), 4);
    let x1 = head + str_field(eg);
    let x2 = x1 + str_field(ea);
    let x3 = x2 + le_bytes(n as nat, 8);
    let x4 = x3 + le_bytes(pols.len(), 4);
    assert(head.len() == 24);
    assert(b =~= x4 + body) by {
        assert(b =~= head + p);
    }
    assert(b.len() >= 24);
    assert(b.take(4) =~= cnst_magic()) by {
        assert(b =~= head + p);
    }
    assert(rd_str(b, 24) == Ok::<(Seq<char>, int), SetupError>((airgroup, x1.len() as int))) by {
        let after = str_field(ea) + le_bytes(n as nat, 8) + le_bytes(pols.len(), 4) + body;
        assert(b =~= head + str_field(eg) + after);
        lemma_rd_str(head, airgroup, after);
    }
    assert(rd_str(b, x1.len() as int) == Ok::<(Seq<char>, int), SetupError>((air, x2.len() as int))) by {
        let after = le_bytes(n as nat, 8) + le_bytes(pols.len(), 4) + body;
        assert(b =~= x1 + str_field(ea) + after);
        lemma_rd_str(x1, air, after);
    }
    assert(rd(b, x2.len() as int, 8) == Some(n as nat)) by {
        assert(b =~= x2 + le_bytes(n as nat, 8) + (le_bytes(pols.len(), 4) + body));
        lemma_rd_field(x2, n as nat, 8, le_bytes(pols.len(), 4) + body);
    }
    assert(rd(b, (x2.len() + 8) as int, 4) == Some(pols.len())) by {
        assert(b =~= x3 + le_bytes(pols.len(), 4) + body);
        lemma_rd_field(x3, pols.len(), 4, body);
    }
    assert(rd_pols(b, (x2.len() + 12) as int, n as nat, pols.len()) == Ok::<(Seq<(Seq<char>, Seq<u32>, Seq<u64>)>, int), SetupError>(
        (pols, (x4.len() + body.len()) as int),
    )) by {
        assert(b =~= x4 + body + Seq::<u8>::empty());
        lemma_rd_pols(x4, pols, n, pols.len(), Seq::<u8>::empty());
        assert(pols.take(pols.len() as int) =~= pols);
    }
    lemma_parse_unfold(b, airgroup, x1.len() as int, air, x2.len() as int, n as nat, pols.len());
}

} // verus!
