//! The self-describing binary container format: specification of the
//! byte layout, a verified encoder and decoder, and the lossless
//! round-trip theorem.

use vstd::prelude::*;

use crate::column::{
    batch_fits, batch_rows, batch_wf, column_matches_desc, utf8_lens_fit, values_len, values_type,
    Batch, BatchV, ColumnValues, ColumnValuesV, TypedColumn, TypedColumnV,
};
use crate::schema::{ColumnDesc, ColumnDescV, LogicalType, Schema};

verus! {

/// Reading a container can fail with exactly these corruptions.
#[derive(Clone, Copy, Debug, PartialEq, Eq, Structural)]
pub enum ContainerFormatError {
    /// The data ends before a field that the layout promises.
    Truncated,
    /// The leading magic marker is absent.
    BadMagic,
    /// The format version is not the one this library writes.
    BadVersion,
    /// A column's type tag is not a known logical type.
    BadTypeTag,
    /// A nullability or validity byte is neither 0 nor 1.
    BadFlag,
    /// A container with no columns declares a nonzero row count.
    BadRowCount,
    /// Bytes remain after the encoded batch.
    TrailingBytes,
}

/// 256 to the power `n`.
pub open spec fn pow256(n: nat) -> nat
    decreases n,
{
    if n == 0 {
        1
    } else {
        256 * pow256((n - 1) as nat)
    }
}

/// The `n` little-endian bytes of `x` (low bytes of `x` when `x` is
/// too large for `n` bytes).
pub open spec fn le_bytes(x: nat, n: nat) -> Seq<u8>
    decreases n,
{
    if n == 0 {
        Seq::empty()
    } else {
        seq![(x % 256) as u8] + le_bytes(x / 256, (n - 1) as nat)
    }
}

/// The value of a little-endian byte string.
pub open spec fn le_val(s: Seq<u8>) -> nat
    decreases s.len(),
{
    if s.len() == 0 {
        0
    } else {
        (s[0] + 256 * le_val(s.skip(1))) as nat
    }
}

pub proof fn lemma_le_bytes_len(x: nat, n: nat)
    ensures
        le_bytes(x, n).len() == n,
    decreases n,
{
    if n > 0 {
        lemma_le_bytes_len(x / 256, (n - 1) as nat);
    }
}

pub proof fn lemma_le_val_bound(s: Seq<u8>)
    ensures
        le_val(s) < pow256(s.len()),
    decreases s.len(),
{
    if s.len() > 0 {
        lemma_le_val_bound(s.skip(1));
        assert(le_val(s) == s[0] + 256 * le_val(s.skip(1)));
        assert(256 * le_val(s.skip(1)) <= 256 * (pow256(s.skip(1).len()) - 1))
            by (nonlinear_arith)
            requires
                le_val(s.skip(1)) <= pow256(s.skip(1).len()) - 1,
        ;
    }
}

/// Decoding the little-endian bytes of `x` gives `x` back.
pub proof fn lemma_le_val_le_bytes(x: nat, n: nat)
    requires
        x < pow256(n),
    ensures
        le_val(le_bytes(x, n)) == x,
    decreases n,
{
    if n == 0 {
    } else {
        let rest = le_bytes(x / 256, (n - 1) as nat);
        assert((seq![(x % 256) as u8] + rest).skip(1) =~= rest);
        assert(x / 256 < pow256((n - 1) as nat)) by (nonlinear_arith)
            requires
                x < pow256(n),
                pow256(n) == 256 * pow256((n - 1) as nat),
                x >= 0,
        ;
        lemma_le_val_le_bytes(x / 256, (n - 1) as nat);
        assert(le_val(le_bytes(x, n)) == x % 256 + 256 * (x / 256));
        assert(x % 256 + 256 * (x / 256) == x) by {
            vstd::arithmetic::div_mod::lemma_fundamental_div_mod(x as int, 256);
        }
    }
}

/// Appends the `width` little-endian bytes of `x` to `out`.
fn push_le_bytes(out: &mut Vec<u8>, x: u64, width: usize)
    ensures
        final(out)@ == old(out)@ + le_bytes(x as nat, width as nat),
{
    let mut v: u64 = x;
    let mut k: usize = 0;
    proof {
        assert(out@ + le_bytes(x as nat, width as nat) == old(out)@ + le_bytes(
            x as nat,
            width as nat,
        ));
    }
    while k < width
        invariant
            k <= width,
            out@ + le_bytes(v as nat, (width - k) as nat) == old(out)@ + le_bytes(
                x as nat,
                width as nat,
            ),
        decreases width - k,
    {
        let b = (v % 256) as u8;
        proof {
            let rest = le_bytes(v as nat / 256, (width - k - 1) as nat);
            assert(le_bytes(v as nat, (width - k) as nat) == seq![b] + rest);
            assert(out@.push(b) + rest =~= out@ + (seq![b] + rest));
        }
        out.push(b);
        v = v / 256;
        k = k + 1;
    }
    proof {
        assert(le_bytes(v as nat, 0) =~= Seq::<u8>::empty());
        assert(out@ + Seq::<u8>::empty() =~= out@);
    }
}

/// Reads the `width`-byte little-endian value at `pos`, advancing `pos`.
fn read_le_bytes(data: &Vec<u8>, pos: &mut usize, width: usize) -> (r: u64)
    requires
        *old(pos) + width <= data@.len(),
        width <= 8,
    ensures
        *final(pos) == *old(pos) + width,
        r as nat == le_val(data@.subrange(*old(pos) as int, *old(pos) + width)),
{
    let ghost w = data@.subrange(*old(pos) as int, *old(pos) + width);
    let _dlen = data.len();
    assert(data@.len() <= usize::MAX);
    let mut acc: u64 = 0;
    let mut k: usize = width;
    proof {
        assert(w.skip(width as int) =~= Seq::<u8>::empty());
        lemma_le_val_bound(w.skip(width as int));
    }
    while k > 0
        invariant
            k <= width <= 8,
            *old(pos) + width <= data@.len() <= usize::MAX,
            w == data@.subrange(*old(pos) as int, *old(pos) + width),
            acc as nat == le_val(w.skip(k as int)),
            (acc as nat) < pow256((width - k) as nat),
        decreases k,
    {
        let b = data[*pos + k - 1];
        proof {
            assert(w.skip(k - 1).len() == width - k + 1);
            assert(w.skip(k - 1)[0] == w[k - 1] == data@[*old(pos) + k - 1]);
            assert(w.skip(k - 1).skip(1) =~= w.skip(k as int));
            assert(le_val(w.skip(k - 1)) == b + 256 * acc as nat);
            assert(256 * acc as nat <= 256 * (pow256((width - k) as nat) - 1))
                by (nonlinear_arith)
                requires
                    acc as nat <= pow256((width - k) as nat) - 1,
            ;
            assert(pow256((width - k + 1) as nat) == 256 * pow256((width - k) as nat));
            assert(pow256((width - k + 1) as nat) <= pow256(8)) by {
                lemma_pow256_le((width - k + 1) as nat, 8);
            }
            assert(pow256(8) == 0x1_0000_0000_0000_0000) by {
                reveal_with_fuel(pow256, 9);
            }
        }
        acc = acc * 256 + (b as u64);
        k = k - 1;
    }
    *pos = *pos + width;
    proof {
        assert(w.skip(0) =~= w);
    }
    acc
}

proof fn lemma_pow256_le(a: nat, b: nat)
    requires
        a <= b,
    ensures
        pow256(a) <= pow256(b),
    decreases b,
{
    if a < b {
        lemma_pow256_le(a, (b - 1) as nat);
        assert(pow256(b) == 256 * pow256((b - 1) as nat));
        assert(pow256((b - 1) as nat) <= 256 * pow256((b - 1) as nat)) by (nonlinear_arith)
            requires
                pow256((b - 1) as nat) >= 0,
        ;
    }
}


/// The marker bytes that open every container.
pub open spec fn magic() -> Seq<u8> {
    seq![0x43u8, 0x4fu8, 0x4cu8, 0x42u8]
}

/// The format version this library writes.
pub open spec fn version_byte() -> u8 {
    1
}

/// The on-disk tag of a logical type.
pub open spec fn tag_of(t: LogicalType) -> u8 {
    match t {
        LogicalType::UInt16 => 1,
        LogicalType::UInt32 => 2,
        LogicalType::UInt64 => 3,
        LogicalType::Utf8 => 4,
    }
}

/// The on-disk byte of a flag.
pub open spec fn bool_byte(b: bool) -> u8 {
    if b {
        1
    } else {
        0
    }
}

/// A length or count field: 8 little-endian bytes.
pub open spec fn enc_u64(x: nat) -> Seq<u8> {
    le_bytes(x, 8)
}

/// A column descriptor: name length, name bytes, type tag, nullability.
pub open spec fn enc_desc(d: ColumnDescV) -> Seq<u8> {
    enc_u64(d.name.len()) + d.name + seq![tag_of(d.ty)] + seq![bool_byte(d.nullable)]
}

/// All column descriptors, in schema order.
pub open spec fn enc_descs(ds: Seq<ColumnDescV>) -> Seq<u8>
    decreases ds.len(),
{
    if ds.len() == 0 {
        Seq::empty()
    } else {
        enc_descs(ds.drop_last()) + enc_desc(ds.last())
    }
}

/// Densely packed 16-bit values.
pub open spec fn enc_u16s(xs: Seq<u16>) -> Seq<u8>
    decreases xs.len(),
{
    if xs.len() == 0 {
        Seq::empty()
    } else {
        enc_u16s(xs.drop_last()) + le_bytes(xs.last() as nat, 2)
    }
}

/// Densely packed 32-bit values.
pub open spec fn enc_u32s(xs: Seq<u32>) -> Seq<u8>
    decreases xs.len(),
{
    if xs.len() == 0 {
        Seq::empty()
    } else {
        enc_u32s(xs.drop_last()) + le_bytes(xs.last() as nat, 4)
    }
}

/// Densely packed 64-bit values.
pub open spec fn enc_u64s(xs: Seq<u64>) -> Seq<u8>
    decreases xs.len(),
{
    if xs.len() == 0 {
        Seq::empty()
    } else {
        enc_u64s(xs.drop_last()) + le_bytes(xs.last() as nat, 8)
    }
}

/// One text value: its length, then its bytes.
pub open spec fn enc_text(v: Seq<u8>) -> Seq<u8> {
    enc_u64(v.len()) + v
}

/// Length-prefixed text values.
pub open spec fn enc_texts(vs: Seq<Seq<u8>>) -> Seq<u8>
    decreases vs.len(),
{
    if vs.len() == 0 {
        Seq::empty()
    } else {
        enc_texts(vs.drop_last()) + enc_text(vs.last())
    }
}

/// Validity flags, one byte per row.
pub open spec fn enc_bools(bs: Seq<bool>) -> Seq<u8>
    decreases bs.len(),
{
    if bs.len() == 0 {
        Seq::empty()
    } else {
        enc_bools(bs.drop_last()) + seq![bool_byte(bs.last())]
    }
}

/// The packed values of one column.
pub open spec fn enc_values(v: ColumnValuesV) -> Seq<u8> {
    match v {
        ColumnValuesV::UInt16(xs) => enc_u16s(xs),
        ColumnValuesV::UInt32(xs) => enc_u32s(xs),
        ColumnValuesV::UInt64(xs) => enc_u64s(xs),
        ColumnValuesV::Utf8(vs) => enc_texts(vs),
    }
}

/// One sealed column: its values, then its validity flags when present.
pub open spec fn enc_column(c: TypedColumnV) -> Seq<u8> {
    enc_values(c.values) + match c.validity {
        Some(bs) => enc_bools(bs),
        None => Seq::empty(),
    }
}

/// All columns, in schema order.
pub open spec fn enc_columns(cs: Seq<TypedColumnV>) -> Seq<u8>
    decreases cs.len(),
{
    if cs.len() == 0 {
        Seq::empty()
    } else {
        enc_columns(cs.drop_last()) + enc_column(cs.last())
    }
}

/// The complete container: marker, version, column count, descriptors,
/// row count, then the columns.
pub open spec fn enc_batch(b: BatchV) -> Seq<u8> {
    magic() + seq![version_byte()] + enc_u64(b.schema.len()) + enc_descs(b.schema) + enc_u64(
        batch_rows(b),
    ) + enc_columns(b.columns)
}

/// Appends a copy of `data` to `out`.
fn push_bytes(out: &mut Vec<u8>, data: &Vec<u8>)
    ensures
        final(out)@ == old(out)@ + data@,
{
    let n = data.len();
    let mut p: usize = 0;
    proof {
        assert(out@ =~= old(out)@ + data@.take(0));
    }
    while p < n
        invariant
            p <= n == data@.len(),
            out@ == old(out)@ + data@.take(p as int),
        decreases n - p,
    {
        out.push(data[p]);
        proof {
            assert(old(out)@ + data@.take(p as int) + seq![data@[p as int]] =~= old(out)@
                + data@.take(p + 1));
        }
        p = p + 1;
    }
    proof {
        assert(data@.take(n as int) =~= data@);
    }
}

/// Appends one encoded column descriptor to `out`.
fn push_desc(out: &mut Vec<u8>, d: &ColumnDesc)
    ensures
        final(out)@ == old(out)@ + enc_desc(d@),
{
    let name_len = d.name.len();
    push_le_bytes(out, name_len as u64, 8);
    push_bytes(out, &d.name);
    let tag: u8 = match d.ty {
        LogicalType::UInt16 => 1,
        LogicalType::UInt32 => 2,
        LogicalType::UInt64 => 3,
        LogicalType::Utf8 => 4,
    };
    out.push(tag);
    let flag: u8 = if d.nullable {
        1
    } else {
        0
    };
    out.push(flag);
    proof {
        assert(final(out)@ =~= old(out)@ + enc_desc(d@));
    }
}

/// Appends the packed values of one column to `out`.
fn push_values(out: &mut Vec<u8>, v: &ColumnValues)
    ensures
        final(out)@ == old(out)@ + enc_values(v@),
{
    match v {
        ColumnValues::UInt16(xs) => {
            let n = xs.len();
            let mut i: usize = 0;
            proof {
                assert(enc_u16s(xs@.take(0)) =~= Seq::<u8>::empty());
                assert(out@ =~= old(out)@ + enc_u16s(xs@.take(0)));
            }
            while i < n
                invariant
                    i <= n == xs@.len(),
                    out@ == old(out)@ + enc_u16s(xs@.take(i as int)),
                decreases n - i,
            {
                push_le_bytes(out, xs[i] as u64, 2);
                proof {
                    assert(xs@.take(i + 1).drop_last() =~= xs@.take(i as int));
                    assert(xs@.take(i + 1).last() == xs@[i as int]);
                    assert(old(out)@ + enc_u16s(xs@.take(i as int)) + le_bytes(
                        xs@[i as int] as nat,
                        2,
                    ) =~= old(out)@ + enc_u16s(xs@.take(i + 1)));
                }
                i = i + 1;
            }
            proof {
                assert(xs@.take(n as int) =~= xs@);
            }
        },
        ColumnValues::UInt32(xs) => {
            let n = xs.len();
            let mut i: usize = 0;
            proof {
                assert(enc_u32s(xs@.take(0)) =~= Seq::<u8>::empty());
                assert(out@ =~= old(out)@ + enc_u32s(xs@.take(0)));
            }
            while i < n
                invariant
                    i <= n == xs@.len(),
                    out@ == old(out)@ + enc_u32s(xs@.take(i as int)),
                decreases n - i,
            {
                push_le_bytes(out, xs[i] as u64, 4);
                proof {
                    assert(xs@.take(i + 1).drop_last() =~= xs@.take(i as int));
                    assert(xs@.take(i + 1).last() == xs@[i as int]);
                    assert(old(out)@ + enc_u32s(xs@.take(i as int)) + le_bytes(
                        xs@[i as int] as nat,
                        4,
                    ) =~= old(out)@ + enc_u32s(xs@.take(i + 1)));
                }
                i = i + 1;
            }
            proof {
                assert(xs@.take(n as int) =~= xs@);
            }
        },
        ColumnValues::UInt64(xs) => {
            let n = xs.len();
            let mut i: usize = 0;
            proof {
                assert(enc_u64s(xs@.take(0)) =~= Seq::<u8>::empty());
                assert(out@ =~= old(out)@ + enc_u64s(xs@.take(0)));
            }
            while i < n
                invariant
                    i <= n == xs@.len(),
                    out@ == old(out)@ + enc_u64s(xs@.take(i as int)),
                decreases n - i,
            {
                push_le_bytes(out, xs[i], 8);
                proof {
                    assert(xs@.take(i + 1).drop_last() =~= xs@.take(i as int));
                    assert(xs@.take(i + 1).last() == xs@[i as int]);
                    assert(old(out)@ + enc_u64s(xs@.take(i as int)) + le_bytes(
                        xs@[i as int] as nat,
                        8,
                    ) =~= old(out)@ + enc_u64s(xs@.take(i + 1)));
                }
                i = i + 1;
            }
            proof {
                assert(xs@.take(n as int) =~= xs@);
            }
        },
        ColumnValues::Utf8(vs) => {
            let ghost vv = vs.deep_view();
            proof {
                assert(forall|l: int| 0 <= l < vv.len() ==> #[trigger] vv[l] == vs@[l]@);
            }
            let n = vs.len();
            let mut i: usize = 0;
            proof {
                assert(enc_texts(vv.take(0)) =~= Seq::<u8>::empty());
                assert(out@ =~= old(out)@ + enc_texts(vv.take(0)));
            }
            while i < n
                invariant
                    i <= n == vv.len() == vs@.len(),
                    vv == vs.deep_view(),
                    forall|l: int| 0 <= l < vv.len() ==> #[trigger] vv[l] == vs@[l]@,
                    out@ == old(out)@ + enc_texts(vv.take(i as int)),
                decreases n - i,
            {
                let value = &vs[i];
                push_le_bytes(out, value.len() as u64, 8);
                push_bytes(out, value);
                proof {
                    assert(vv.take(i + 1).drop_last() =~= vv.take(i as int));
                    assert(vv.take(i + 1).last() == vv[i as int]);
                    assert(old(out)@ + enc_texts(vv.take(i as int)) + enc_u64(vv[i as int].len())
                        + vv[i as int] =~= old(out)@ + enc_texts(vv.take(i + 1)));
                }
                i = i + 1;
            }
            proof {
                assert(vv.take(n as int) =~= vv);
            }
        },
    }
}

/// Appends one encoded column to `out`.
fn push_column(out: &mut Vec<u8>, c: &TypedColumn)
    ensures
        final(out)@ == old(out)@ + enc_column(c@),
{
    push_values(out, &c.values);
    match &c.validity {
        Some(bs) => {
            let ghost base = out@;
            let n = bs.len();
            let mut i: usize = 0;
            proof {
                assert(enc_bools(bs@.take(0)) =~= Seq::<u8>::empty());
                assert(out@ =~= base + enc_bools(bs@.take(0)));
            }
            while i < n
                invariant
                    i <= n == bs@.len(),
                    out@ == base + enc_bools(bs@.take(i as int)),
                decreases n - i,
            {
                let flag: u8 = if bs[i] {
                    1
                } else {
                    0
                };
                out.push(flag);
                proof {
                    assert(bs@.take(i + 1).drop_last() =~= bs@.take(i as int));
                    assert(bs@.take(i + 1).last() == bs@[i as int]);
                    assert(base + enc_bools(bs@.take(i as int)) + seq![bool_byte(bs@[i as int])]
                        =~= base + enc_bools(bs@.take(i + 1)));
                }
                i = i + 1;
            }
            proof {
                assert(bs@.take(n as int) =~= bs@);
                assert(out@ =~= old(out)@ + enc_column(c@));
            }
        },
        None => {
            proof {
                assert(out@ =~= old(out)@ + enc_column(c@));
            }
        },
    }
}

/// Serializes a batch into the self-describing container layout.
pub fn encode_batch(b: &Batch) -> (r: Vec<u8>)
    requires
        batch_wf(b@),
    ensures
        r@ == enc_batch(b@),
{
    let mut out: Vec<u8> = Vec::new();
    // "COLB"
    out.push(0x43);
    out.push(0x4f);
    out.push(0x4c);
    out.push(0x42);
    out.push(1);
    proof {
        assert(out@ =~= magic() + seq![version_byte()]);
    }
    let ncols = b.schema.columns.len();
    push_le_bytes(&mut out, ncols as u64, 8);
    proof {
        assert(b@.schema.len() == ncols);
        assert(out@ =~= magic() + seq![version_byte()] + enc_u64(b@.schema.len()));
    }
    let ghost header = out@;
    let mut j: usize = 0;
    proof {
        assert(enc_descs(b@.schema.take(0)) =~= Seq::<u8>::empty());
        assert(out@ =~= header + enc_descs(b@.schema.take(0)));
    }
    while j < ncols
        invariant
            j <= ncols == b@.schema.len(),
            b@.schema == b.schema@,
            ncols == b.schema.columns@.len(),
            out@ == header + enc_descs(b@.schema.take(j as int)),
        decreases ncols - j,
    {
        push_desc(&mut out, &b.schema.columns[j]);
        proof {
            assert(b@.schema[j as int] == b.schema.columns@[j as int]@);
            assert(b@.schema.take(j + 1).drop_last() =~= b@.schema.take(j as int));
            assert(b@.schema.take(j + 1).last() == b@.schema[j as int]);
            assert(header + enc_descs(b@.schema.take(j as int)) + enc_desc(b@.schema[j as int])
                =~= header + enc_descs(b@.schema.take(j + 1)));
        }
        j = j + 1;
    }
    proof {
        assert(b@.schema.take(ncols as int) =~= b@.schema);
    }
    let nrows = b.num_rows();
    push_le_bytes(&mut out, nrows as u64, 8);
    let ghost mid = out@;
    proof {
        assert(mid =~= header + enc_descs(b@.schema) + enc_u64(batch_rows(b@)));
    }
    let ncols2 = b.columns.len();
    let mut j2: usize = 0;
    proof {
        assert(enc_columns(b@.columns.take(0)) =~= Seq::<u8>::empty());
        assert(out@ =~= mid + enc_columns(b@.columns.take(0)));
    }
    while j2 < ncols2
        invariant
            j2 <= ncols2 == b@.columns.len(),
            b@.columns == b.columns@.map_values(|c: TypedColumn| c@),
            ncols2 == b.columns@.len(),
            out@ == mid + enc_columns(b@.columns.take(j2 as int)),
        decreases ncols2 - j2,
    {
        push_column(&mut out, &b.columns[j2]);
        proof {
            assert(b@.columns[j2 as int] == b.columns@[j2 as int]@);
            assert(b@.columns.take(j2 + 1).drop_last() =~= b@.columns.take(j2 as int));
            assert(b@.columns.take(j2 + 1).last() == b@.columns[j2 as int]);
            assert(mid + enc_columns(b@.columns.take(j2 as int)) + enc_column(
                b@.columns[j2 as int],
            ) =~= mid + enc_columns(b@.columns.take(j2 + 1)));
        }
        j2 = j2 + 1;
    }
    proof {
        assert(b@.columns.take(ncols2 as int) =~= b@.columns);
        assert(out@ =~= enc_batch(b@));
    }
    out
}


/// Result of decoding one piece: the value and the remaining bytes.
pub type Dec<T> = Result<(T, Seq<u8>), ContainerFormatError>;

/// Decodes an 8-byte little-endian length or count field.
pub open spec fn dec_u64f(s: Seq<u8>) -> Dec<nat> {
    if s.len() < 8 {
        Err(ContainerFormatError::Truncated)
    } else {
        Ok((le_val(s.take(8)), s.skip(8)))
    }
}

/// Decodes `n` raw bytes.
pub open spec fn dec_bytes(n: nat, s: Seq<u8>) -> Dec<Seq<u8>> {
    if s.len() < n {
        Err(ContainerFormatError::Truncated)
    } else {
        Ok((s.take(n as int), s.skip(n as int)))
    }
}

/// Decodes a logical-type tag.
pub open spec fn dec_tag(s: Seq<u8>) -> Dec<LogicalType> {
    if s.len() < 1 {
        Err(ContainerFormatError::Truncated)
    } else if s[0] == 1 {
        Ok((LogicalType::UInt16, s.skip(1)))
    } else if s[0] == 2 {
        Ok((LogicalType::UInt32, s.skip(1)))
    } else if s[0] == 3 {
        Ok((LogicalType::UInt64, s.skip(1)))
    } else if s[0] == 4 {
        Ok((LogicalType::Utf8, s.skip(1)))
    } else {
        Err(ContainerFormatError::BadTypeTag)
    }
}

/// Decodes a flag byte, 0 or 1.
pub open spec fn dec_flag(s: Seq<u8>) -> Dec<bool> {
    if s.len() < 1 {
        Err(ContainerFormatError::Truncated)
    } else if s[0] == 0 {
        Ok((false, s.skip(1)))
    } else if s[0] == 1 {
        Ok((true, s.skip(1)))
    } else {
        Err(ContainerFormatError::BadFlag)
    }
}

/// Decodes one column descriptor.
pub open spec fn dec_desc(s: Seq<u8>) -> Dec<ColumnDescV> {
    match dec_u64f(s) {
        Err(e) => Err(e),
        Ok((nlen, s1)) => match dec_bytes(nlen, s1) {
            Err(e) => Err(e),
            Ok((name, s2)) => match dec_tag(s2) {
                Err(e) => Err(e),
                Ok((ty, s3)) => match dec_flag(s3) {
                    Err(e) => Err(e),
                    Ok((nullable, s4)) => Ok((ColumnDescV { name, ty, nullable }, s4)),
                },
            },
        },
    }
}

/// Decodes `n` column descriptors.
pub open spec fn dec_descs(n: nat, s: Seq<u8>) -> Dec<Seq<ColumnDescV>>
    decreases n,
{
    if n == 0 {
        Ok((Seq::empty(), s))
    } else {
        match dec_desc(s) {
            Err(e) => Err(e),
            Ok((d, s1)) => match dec_descs((n - 1) as nat, s1) {
                Err(e) => Err(e),
                Ok((ds, s2)) => Ok((seq![d] + ds, s2)),
            },
        }
    }
}

/// Decodes `n` packed 16-bit values.
pub open spec fn dec_u16s(n: nat, s: Seq<u8>) -> Dec<Seq<u16>>
    decreases n,
{
    if n == 0 {
        Ok((Seq::empty(), s))
    } else if s.len() < 2 {
        Err(ContainerFormatError::Truncated)
    } else {
        match dec_u16s((n - 1) as nat, s.skip(2)) {
            Err(e) => Err(e),
            Ok((xs, s2)) => Ok((seq![le_val(s.take(2)) as u16] + xs, s2)),
        }
    }
}

/// Decodes `n` packed 32-bit values.
pub open spec fn dec_u32s(n: nat, s: Seq<u8>) -> Dec<Seq<u32>>
    decreases n,
{
    if n == 0 {
        Ok((Seq::empty(), s))
    } else if s.len() < 4 {
        Err(ContainerFormatError::Truncated)
    } else {
        match dec_u32s((n - 1) as nat, s.skip(4)) {
            Err(e) => Err(e),
            Ok((xs, s2)) => Ok((seq![le_val(s.take(4)) as u32] + xs, s2)),
        }
    }
}

/// Decodes `n` packed 64-bit values.
pub open spec fn dec_u64s(n: nat, s: Seq<u8>) -> Dec<Seq<u64>>
    decreases n,
{
    if n == 0 {
        Ok((Seq::empty(), s))
    } else if s.len() < 8 {
        Err(ContainerFormatError::Truncated)
    } else {
        match dec_u64s((n - 1) as nat, s.skip(8)) {
            Err(e) => Err(e),
            Ok((xs, s2)) => Ok((seq![le_val(s.take(8)) as u64] + xs, s2)),
        }
    }
}

/// Decodes `n` length-prefixed text values.
pub open spec fn dec_texts(n: nat, s: Seq<u8>) -> Dec<Seq<Seq<u8>>>
    decreases n,
{
    if n == 0 {
        Ok((Seq::empty(), s))
    } else {
        match dec_u64f(s) {
            Err(e) => Err(e),
            Ok((vlen, s1)) => match dec_bytes(vlen, s1) {
                Err(e) => Err(e),
                Ok((v, s2)) => match dec_texts((n - 1) as nat, s2) {
                    Err(e) => Err(e),
                    Ok((vs, s3)) => Ok((seq![v] + vs, s3)),
                },
            },
        }
    }
}

/// Decodes `n` validity flags.
pub open spec fn dec_bools(n: nat, s: Seq<u8>) -> Dec<Seq<bool>>
    decreases n,
{
    if n == 0 {
        Ok((Seq::empty(), s))
    } else {
        match dec_flag(s) {
            Err(e) => Err(e),
            Ok((b, s1)) => match dec_bools((n - 1) as nat, s1) {
                Err(e) => Err(e),
                Ok((bs, s2)) => Ok((seq![b] + bs, s2)),
            },
        }
    }
}

/// Decodes the packed values of one column of `n` rows.
pub open spec fn dec_values(ty: LogicalType, n: nat, s: Seq<u8>) -> Dec<ColumnValuesV> {
    match ty {
        LogicalType::UInt16 => match dec_u16s(n, s) {
            Err(e) => Err(e),
            Ok((xs, s1)) => Ok((ColumnValuesV::UInt16(xs), s1)),
        },
        LogicalType::UInt32 => match dec_u32s(n, s) {
            Err(e) => Err(e),
            Ok((xs, s1)) => Ok((ColumnValuesV::UInt32(xs), s1)),
        },
        LogicalType::UInt64 => match dec_u64s(n, s) {
            Err(e) => Err(e),
            Ok((xs, s1)) => Ok((ColumnValuesV::UInt64(xs), s1)),
        },
        LogicalType::Utf8 => match dec_texts(n, s) {
            Err(e) => Err(e),
            Ok((vs, s1)) => Ok((ColumnValuesV::Utf8(vs), s1)),
        },
    }
}

/// Decodes one column of `n` rows as its descriptor `d` declares it.
pub open spec fn dec_column(d: ColumnDescV, n: nat, s: Seq<u8>) -> Dec<TypedColumnV> {
    match dec_values(d.ty, n, s) {
        Err(e) => Err(e),
        Ok((values, s1)) => if d.nullable {
            match dec_bools(n, s1) {
                Err(e) => Err(e),
                Ok((bs, s2)) => Ok((TypedColumnV { values, validity: Some(bs) }, s2)),
            }
        } else {
            Ok((TypedColumnV { values, validity: None }, s1))
        },
    }
}

/// Decodes one column of `n` rows per descriptor, in schema order.
pub open spec fn dec_columns(ds: Seq<ColumnDescV>, n: nat, s: Seq<u8>) -> Dec<Seq<TypedColumnV>>
    decreases ds.len(),
{
    if ds.len() == 0 {
        Ok((Seq::empty(), s))
    } else {
        match dec_column(ds[0], n, s) {
            Err(e) => Err(e),
            Ok((c, s1)) => match dec_columns(ds.skip(1), n, s1) {
                Err(e) => Err(e),
                Ok((cs, s2)) => Ok((seq![c] + cs, s2)),
            },
        }
    }
}

/// Decodes a complete container into its batch, rejecting any byte
/// stream that the encoder could not have produced.
pub open spec fn dec_batch(s: Seq<u8>) -> Result<BatchV, ContainerFormatError> {
    if s.len() < 5 {
        Err(ContainerFormatError::Truncated)
    } else if s.take(4) != magic() {
        Err(ContainerFormatError::BadMagic)
    } else if s[4] != version_byte() {
        Err(ContainerFormatError::BadVersion)
    } else {
        match dec_u64f(s.skip(5)) {
            Err(e) => Err(e),
            Ok((ncols, s1)) => match dec_descs(ncols, s1) {
                Err(e) => Err(e),
                Ok((ds, s2)) => match dec_u64f(s2) {
                    Err(e) => Err(e),
                    Ok((nrows, s3)) => if ncols == 0 && nrows != 0 {
                        Err(ContainerFormatError::BadRowCount)
                    } else {
                        match dec_columns(ds, nrows, s3) {
                            Err(e) => Err(e),
                            Ok((cs, s4)) => if s4.len() != 0 {
                                Err(ContainerFormatError::TrailingBytes)
                            } else {
                                Ok(BatchV { schema: ds, columns: cs })
                            },
                        }
                    },
                },
            },
        }
    }
}


/// Copies `n` bytes at `pos` out of `data`, advancing `pos`.
fn read_exact(data: &Vec<u8>, pos: &mut usize, n: usize) -> (r: Vec<u8>)
    requires
        *old(pos) + n <= data@.len(),
    ensures
        *final(pos) == *old(pos) + n,
        r@ == data@.subrange(*old(pos) as int, *old(pos) + n),
{
    let _len = data.len();
    assert(data@.len() <= usize::MAX);
    let mut r: Vec<u8> = Vec::new();
    let mut p: usize = 0;
    while p < n
        invariant
            p <= n,
            *pos == *old(pos),
            *old(pos) + n <= data@.len() <= usize::MAX,
            r@ =~= data@.subrange(*old(pos) as int, *old(pos) + p),
        decreases n - p,
    {
        r.push(data[*pos + p]);
        proof {
            assert(r@ =~= data@.subrange(*old(pos) as int, *old(pos) + p + 1));
        }
        p = p + 1;
    }
    *pos = *pos + n;
    r
}

/// Reads one column descriptor at `pos`, advancing `pos`.
fn read_desc(data: &Vec<u8>, pos: &mut usize) -> (r: Result<ColumnDesc, ContainerFormatError>)
    requires
        *old(pos) <= data@.len(),
    ensures
        match r {
            Ok(d) => {
                &&& *old(pos) <= *final(pos) <= data@.len()
                &&& dec_desc(data@.skip(*old(pos) as int)) == Ok::<
                    (ColumnDescV, Seq<u8>),
                    ContainerFormatError,
                >((d@, data@.skip(*final(pos) as int)))
            },
            Err(e) => dec_desc(data@.skip(*old(pos) as int)) == Err::<
                (ColumnDescV, Seq<u8>),
                ContainerFormatError,
            >(e),
        },
{
    let len = data.len();
    let ghost s = data@.skip(*old(pos) as int);
    if len - *pos < 8 {
        assert(s.len() < 8);
        return Err(ContainerFormatError::Truncated);
    }
    let ghost p0 = *pos;
    let nlen = read_le_bytes(data, pos, 8);
    let ghost p1 = *pos;
    proof {
        assert(s.take(8) =~= data@.subrange(p0 as int, p0 + 8));
        assert(s.skip(8) =~= data@.skip(p1 as int));
        assert(dec_u64f(s) == Ok::<(nat, Seq<u8>), ContainerFormatError>(
            (nlen as nat, data@.skip(p1 as int)),
        ));
    }
    let ghost s1 = data@.skip(p1 as int);
    if ((len - *pos) as u64) < nlen {
        assert(s1.len() < nlen as nat);
        return Err(ContainerFormatError::Truncated);
    }
    let name = read_exact(data, pos, nlen as usize);
    let ghost p2 = *pos;
    proof {
        assert(s1.take(nlen as int) =~= data@.subrange(p1 as int, p1 + nlen));
        assert(s1.skip(nlen as int) =~= data@.skip(p2 as int));
        assert(dec_bytes(nlen as nat, s1) == Ok::<(Seq<u8>, Seq<u8>), ContainerFormatError>(
            (name@, data@.skip(p2 as int)),
        ));
    }
    let ghost s2 = data@.skip(p2 as int);
    if len - *pos < 1 {
        assert(s2.len() < 1);
        return Err(ContainerFormatError::Truncated);
    }
    let tag = data[*pos];
    proof {
        assert(s2[0] == data@[p2 as int]);
        assert(s2.skip(1) =~= data@.skip(p2 + 1));
    }
    let ty = if tag == 1 {
        LogicalType::UInt16
    } else if tag == 2 {
        LogicalType::UInt32
    } else if tag == 3 {
        LogicalType::UInt64
    } else if tag == 4 {
        LogicalType::Utf8
    } else {
        return Err(ContainerFormatError::BadTypeTag);
    };
    *pos = *pos + 1;
    let ghost s3 = data@.skip(*pos as int);
    if len - *pos < 1 {
        assert(s3.len() < 1);
        return Err(ContainerFormatError::Truncated);
    }
    let flag = data[*pos];
    proof {
        assert(s3[0] == data@[p2 + 1]);
        assert(s3.skip(1) =~= data@.skip(p2 + 2));
    }
    let nullable = if flag == 0 {
        false
    } else if flag == 1 {
        true
    } else {
        return Err(ContainerFormatError::BadFlag);
    };
    *pos = *pos + 1;
    Ok(ColumnDesc { name, ty, nullable })
}


/// Reads `n` packed 16-bit values at `pos`, advancing `pos`.
fn read_u16s(data: &Vec<u8>, pos: &mut usize, n: u64) -> (r: Result<Vec<u16>, ContainerFormatError>)
    requires
        *old(pos) <= data@.len(),
    ensures
        match r {
            Ok(xs) => {
                &&& *old(pos) <= *final(pos) <= data@.len()
                &&& xs@.len() == n
                &&& dec_u16s(n as nat, data@.skip(*old(pos) as int)) == Ok::<
                    (Seq<u16>, Seq<u8>),
                    ContainerFormatError,
                >((xs@, data@.skip(*final(pos) as int)))
            },
            Err(e) => dec_u16s(n as nat, data@.skip(*old(pos) as int)) == Err::<
                (Seq<u16>, Seq<u8>),
                ContainerFormatError,
            >(e),
        },
{
    let len = data.len();
    let ghost s0 = data@.skip(*old(pos) as int);
    let mut res: Vec<u16> = Vec::new();
    let mut i: u64 = 0;
    while i < n
        invariant
            i <= n,
            *old(pos) <= *pos <= data@.len() <= usize::MAX,
            len == data@.len(),
            s0 == data@.skip(*old(pos) as int),
            res@.len() == i,
            dec_u16s(n as nat, s0) == (match dec_u16s((n - i) as nat, data@.skip(*pos as int)) {
                Ok((xs, rest)) => Ok::<(Seq<u16>, Seq<u8>), ContainerFormatError>(
                    (res@ + xs, rest),
                ),
                Err(e) => Err(e),
            }),
        decreases n - i,
    {
        if len - *pos < 2 {
            assert(data@.skip(*pos as int).len() < 2);
            return Err(ContainerFormatError::Truncated);
        }
        let ghost pcur = *pos;
        let ghost res0 = res@;
        let x = read_le_bytes(data, pos, 2);
        proof {
            let cur = data@.skip(pcur as int);
            assert(cur.take(2) =~= data@.subrange(pcur as int, pcur + 2));
            assert(cur.skip(2) =~= data@.skip(pcur + 2));
            lemma_le_val_bound(cur.take(2));
            assert(pow256(2) == 0x1_0000) by {
                reveal_with_fuel(pow256, 3);
            }
        }
        res.push(x as u16);
        i = i + 1;
        proof {
            let cur = data@.skip(pcur as int);
            let newcur = data@.skip(*pos as int);
            assert(cur.skip(2) == newcur);
            assert(seq![le_val(cur.take(2)) as u16] == seq![x as u16]);
            match dec_u16s((n - i) as nat, newcur) {
                Ok((xs, rest)) => {
                    assert(res@ + xs =~= res0 + (seq![x as u16] + xs));
                },
                Err(e) => {},
            }
        }
    }
    proof {
        assert(res@ + Seq::<u16>::empty() =~= res@);
    }
    Ok(res)
}


/// Reads `n` packed 32-bit values at `pos`, advancing `pos`.
fn read_u32s(data: &Vec<u8>, pos: &mut usize, n: u64) -> (r: Result<
    Vec<u32>,
    ContainerFormatError,
>)
    requires
        *old(pos) <= data@.len(),
    ensures
        match r {
            Ok(xs) => {
                &&& *old(pos) <= *final(pos) <= data@.len()
                &&& xs@.len() == n
                &&& dec_u32s(n as nat, data@.skip(*old(pos) as int)) == Ok::<
                    (Seq<u32>, Seq<u8>),
                    ContainerFormatError,
                >((xs@, data@.skip(*final(pos) as int)))
            },
            Err(e) => dec_u32s(n as nat, data@.skip(*old(pos) as int)) == Err::<
                (Seq<u32>, Seq<u8>),
                ContainerFormatError,
            >(e),
        },
{
    let len = data.len();
    let ghost s0 = data@.skip(*old(pos) as int);
    let mut res: Vec<u32> = Vec::new();
    let mut i: u64 = 0;
    while i < n
        invariant
            i <= n,
            *old(pos) <= *pos <= data@.len() <= usize::MAX,
            len == data@.len(),
            s0 == data@.skip(*old(pos) as int),
            res@.len() == i,
            dec_u32s(n as nat, s0) == (match dec_u32s(
                (n - i) as nat,
                data@.skip(*pos as int),
            ) {
                Ok((xs, rest)) => Ok::<(Seq<u32>, Seq<u8>), ContainerFormatError>(
                    (res@ + xs, rest),
                ),
                Err(e) => Err(e),
            }),
        decreases n - i,
    {
        if len - *pos < 4 {
            assert(data@.skip(*pos as int).len() < 4);
            return Err(ContainerFormatError::Truncated);
        }
        let ghost pcur = *pos;
        let ghost res0 = res@;
        let x = read_le_bytes(data, pos, 4);
        proof {
            let cur = data@.skip(pcur as int);
            assert(cur.take(4) =~= data@.subrange(pcur as int, pcur + 4));
            assert(cur.skip(4) =~= data@.skip(pcur + 4));
            lemma_le_val_bound(cur.take(4));
            assert(pow256(4) == 0x1_0000_0000) by {
                reveal_with_fuel(pow256, 5);
            }
        }
        res.push(x as u32);
        i = i + 1;
        proof {
            let cur = data@.skip(pcur as int);
            let newcur = data@.skip(*pos as int);
            assert(cur.skip(4) == newcur);
            assert(seq![le_val(cur.take(4)) as u32] == seq![x as u32]);
            match dec_u32s((n - i) as nat, newcur) {
                Ok((xs, rest)) => {
                    assert(res@ + xs =~= res0 + (seq![x as u32] + xs));
                },
                Err(e) => {},
            }
        }
    }
    proof {
        assert(res@ + Seq::<u32>::empty() =~= res@);
    }
    Ok(res)
}

/// Reads `n` packed 64-bit values at `pos`, advancing `pos`.
fn read_u64s(data: &Vec<u8>, pos: &mut usize, n: u64) -> (r: Result<
    Vec<u64>,
    ContainerFormatError,
>)
    requires
        *old(pos) <= data@.len(),
    ensures
        match r {
            Ok(xs) => {
                &&& *old(pos) <= *final(pos) <= data@.len()
                &&& xs@.len() == n
                &&& dec_u64s(n as nat, data@.skip(*old(pos) as int)) == Ok::<
                    (Seq<u64>, Seq<u8>),
                    ContainerFormatError,
                >((xs@, data@.skip(*final(pos) as int)))
            },
            Err(e) => dec_u64s(n as nat, data@.skip(*old(pos) as int)) == Err::<
                (Seq<u64>, Seq<u8>),
                ContainerFormatError,
            >(e),
        },
{
    let len = data.len();
    let ghost s0 = data@.skip(*old(pos) as int);
    let mut res: Vec<u64> = Vec::new();
    let mut i: u64 = 0;
    while i < n
        invariant
            i <= n,
            *old(pos) <= *pos <= data@.len() <= usize::MAX,
            len == data@.len(),
            s0 == data@.skip(*old(pos) as int),
            res@.len() == i,
            dec_u64s(n as nat, s0) == (match dec_u64s(
                (n - i) as nat,
                data@.skip(*pos as int),
            ) {
                Ok((xs, rest)) => Ok::<(Seq<u64>, Seq<u8>), ContainerFormatError>(
                    (res@ + xs, rest),
                ),
                Err(e) => Err(e),
            }),
        decreases n - i,
    {
        if len - *pos < 8 {
            assert(data@.skip(*pos as int).len() < 8);
            return Err(ContainerFormatError::Truncated);
        }
        let ghost pcur = *pos;
        let ghost res0 = res@;
        let x = read_le_bytes(data, pos, 8);
        proof {
            let cur = data@.skip(pcur as int);
            assert(cur.take(8) =~= data@.subrange(pcur as int, pcur + 8));
            assert(cur.skip(8) =~= data@.skip(pcur + 8));
            lemma_le_val_bound(cur.take(8));
            assert(pow256(8) == 0x1_0000_0000_0000_0000) by {
                reveal_with_fuel(pow256, 9);
            }
        }
        res.push(x as u64);
        i = i + 1;
        proof {
            let cur = data@.skip(pcur as int);
            let newcur = data@.skip(*pos as int);
            assert(cur.skip(8) == newcur);
            assert(seq![le_val(cur.take(8)) as u64] == seq![x as u64]);
            match dec_u64s((n - i) as nat, newcur) {
                Ok((xs, rest)) => {
                    assert(res@ + xs =~= res0 + (seq![x as u64] + xs));
                },
                Err(e) => {},
            }
        }
    }
    proof {
        assert(res@ + Seq::<u64>::empty() =~= res@);
    }
    Ok(res)
}

/// Reads `n` length-prefixed text values at `pos`, advancing `pos`.
fn read_texts(data: &Vec<u8>, pos: &mut usize, n: u64) -> (r: Result<
    Vec<Vec<u8>>,
    ContainerFormatError,
>)
    requires
        *old(pos) <= data@.len(),
    ensures
        match r {
            Ok(vs) => {
                &&& *old(pos) <= *final(pos) <= data@.len()
                &&& vs@.len() == n
                &&& dec_texts(n as nat, data@.skip(*old(pos) as int)) == Ok::<
                    (Seq<Seq<u8>>, Seq<u8>),
                    ContainerFormatError,
                >((vs.deep_view(), data@.skip(*final(pos) as int)))
            },
            Err(e) => dec_texts(n as nat, data@.skip(*old(pos) as int)) == Err::<
                (Seq<Seq<u8>>, Seq<u8>),
                ContainerFormatError,
            >(e),
        },
{
    let len = data.len();
    let ghost s0 = data@.skip(*old(pos) as int);
    let mut res: Vec<Vec<u8>> = Vec::new();
    let mut i: u64 = 0;
    while i < n
        invariant
            i <= n,
            *old(pos) <= *pos <= data@.len() <= usize::MAX,
            len == data@.len(),
            s0 == data@.skip(*old(pos) as int),
            res@.len() == i,
            dec_texts(n as nat, s0) == (match dec_texts((n - i) as nat, data@.skip(*pos as int)) {
                Ok((vs, rest)) => Ok::<(Seq<Seq<u8>>, Seq<u8>), ContainerFormatError>(
                    (res.deep_view() + vs, rest),
                ),
                Err(e) => Err(e),
            }),
        decreases n - i,
    {
        if len - *pos < 8 {
            assert(data@.skip(*pos as int).len() < 8);
            return Err(ContainerFormatError::Truncated);
        }
        let ghost pcur = *pos;
        let ghost res0 = res.deep_view();
        let vlen = read_le_bytes(data, pos, 8);
        proof {
            let cur = data@.skip(pcur as int);
            assert(cur.take(8) =~= data@.subrange(pcur as int, pcur + 8));
            assert(cur.skip(8) =~= data@.skip(pcur + 8));
            assert(dec_u64f(cur) == Ok::<(nat, Seq<u8>), ContainerFormatError>(
                (vlen as nat, data@.skip(pcur + 8)),
            ));
        }
        let ghost p1 = *pos;
        let ghost s1 = data@.skip(p1 as int);
        if ((len - *pos) as u64) < vlen {
            assert(s1.len() < vlen as nat);
            return Err(ContainerFormatError::Truncated);
        }
        let v = read_exact(data, pos, vlen as usize);
        proof {
            assert(s1.take(vlen as int) =~= data@.subrange(p1 as int, p1 + vlen));
            assert(s1.skip(vlen as int) =~= data@.skip(p1 + vlen));
            assert(dec_bytes(vlen as nat, s1) == Ok::<(Seq<u8>, Seq<u8>), ContainerFormatError>(
                (v@, data@.skip(p1 + vlen)),
            ));
        }
        let ghost vv = v@;
        res.push(v);
        i = i + 1;
        proof {
            assert forall|l: int| 0 <= l < res@.len() implies #[trigger] res.deep_view()[l]
                == res0.push(vv)[l] by {
                if l < res0.len() {
                } else {
                    assert(res@[l]@ == vv);
                    assert(res@[l].deep_view() =~= vv);
                }
            }
            assert(res.deep_view() =~= res0.push(vv));
            let cur = data@.skip(pcur as int);
            let newcur = data@.skip(*pos as int);
            match dec_texts((n - i) as nat, newcur) {
                Ok((vs, rest)) => {
                    assert(res.deep_view() + vs =~= res0 + (seq![vv] + vs));
                },
                Err(e) => {},
            }
        }
    }
    proof {
        assert(res.deep_view() + Seq::<Seq<u8>>::empty() =~= res.deep_view());
    }
    Ok(res)
}

/// Reads `n` validity flags at `pos`, advancing `pos`.
fn read_bools(data: &Vec<u8>, pos: &mut usize, n: u64) -> (r: Result<
    Vec<bool>,
    ContainerFormatError,
>)
    requires
        *old(pos) <= data@.len(),
    ensures
        match r {
            Ok(bs) => {
                &&& *old(pos) <= *final(pos) <= data@.len()
                &&& bs@.len() == n
                &&& dec_bools(n as nat, data@.skip(*old(pos) as int)) == Ok::<
                    (Seq<bool>, Seq<u8>),
                    ContainerFormatError,
                >((bs@, data@.skip(*final(pos) as int)))
            },
            Err(e) => dec_bools(n as nat, data@.skip(*old(pos) as int)) == Err::<
                (Seq<bool>, Seq<u8>),
                ContainerFormatError,
            >(e),
        },
{
    let len = data.len();
    let ghost s0 = data@.skip(*old(pos) as int);
    let mut res: Vec<bool> = Vec::new();
    let mut i: u64 = 0;
    while i < n
        invariant
            i <= n,
            *old(pos) <= *pos <= data@.len() <= usize::MAX,
            len == data@.len(),
            s0 == data@.skip(*old(pos) as int),
            res@.len() == i,
            dec_bools(n as nat, s0) == (match dec_bools((n - i) as nat, data@.skip(*pos as int)) {
                Ok((bs, rest)) => Ok::<(Seq<bool>, Seq<u8>), ContainerFormatError>(
                    (res@ + bs, rest),
                ),
                Err(e) => Err(e),
            }),
        decreases n - i,
    {
        if len - *pos < 1 {
            assert(data@.skip(*pos as int).len() < 1);
            return Err(ContainerFormatError::Truncated);
        }
        let ghost pcur = *pos;
        let ghost res0 = res@;
        let byte = data[*pos];
        proof {
            let cur = data@.skip(pcur as int);
            assert(cur[0] == data@[pcur as int]);
            assert(cur.skip(1) =~= data@.skip(pcur + 1));
        }
        let b = if byte == 0 {
            false
        } else if byte == 1 {
            true
        } else {
            return Err(ContainerFormatError::BadFlag);
        };
        *pos = *pos + 1;
        res.push(b);
        i = i + 1;
        proof {
            let cur = data@.skip(pcur as int);
            let newcur = data@.skip(*pos as int);
            assert(cur.skip(1) == newcur);
            match dec_bools((n - i) as nat, newcur) {
                Ok((bs, rest)) => {
                    assert(res@ + bs =~= res0 + (seq![b] + bs));
                },
                Err(e) => {},
            }
        }
    }
    proof {
        assert(res@ + Seq::<bool>::empty() =~= res@);
    }
    Ok(res)
}


/// Reads one column of `n` rows at `pos` as its descriptor declares it.
fn read_column(data: &Vec<u8>, pos: &mut usize, d: &ColumnDesc, n: u64) -> (r: Result<
    TypedColumn,
    ContainerFormatError,
>)
    requires
        *old(pos) <= data@.len(),
    ensures
        match r {
            Ok(c) => {
                &&& *old(pos) <= *final(pos) <= data@.len()
                &&& dec_column(d@, n as nat, data@.skip(*old(pos) as int)) == Ok::<
                    (TypedColumnV, Seq<u8>),
                    ContainerFormatError,
                >((c@, data@.skip(*final(pos) as int)))
                &&& column_matches_desc(c@, d@)
                &&& values_len(c@.values) == n
            },
            Err(e) => dec_column(d@, n as nat, data@.skip(*old(pos) as int)) == Err::<
                (TypedColumnV, Seq<u8>),
                ContainerFormatError,
            >(e),
        },
{
    let values = match d.ty {
        LogicalType::UInt16 => {
            match read_u16s(data, pos, n) {
                Ok(xs) => ColumnValues::UInt16(xs),
                Err(e) => {
                    return Err(e);
                },
            }
        },
        LogicalType::UInt32 => {
            match read_u32s(data, pos, n) {
                Ok(xs) => ColumnValues::UInt32(xs),
                Err(e) => {
                    return Err(e);
                },
            }
        },
        LogicalType::UInt64 => {
            match read_u64s(data, pos, n) {
                Ok(xs) => ColumnValues::UInt64(xs),
                Err(e) => {
                    return Err(e);
                },
            }
        },
        LogicalType::Utf8 => {
            match read_texts(data, pos, n) {
                Ok(vs) => ColumnValues::Utf8(vs),
                Err(e) => {
                    return Err(e);
                },
            }
        },
    };
    if d.nullable {
        match read_bools(data, pos, n) {
            Ok(bs) => Ok(TypedColumn { values, validity: Some(bs) }),
            Err(e) => Err(e),
        }
    } else {
        Ok(TypedColumn { values, validity: None })
    }
}

/// Deserializes a container, recovering the batch it encodes; fails
/// with the exact corruption the layout rules name.
pub fn decode_batch(data: &Vec<u8>) -> (r: Result<Batch, ContainerFormatError>)
    ensures
        match r {
            Ok(b) => {
                &&& dec_batch(data@) == Ok::<BatchV, ContainerFormatError>(b@)
                &&& batch_wf(b@)
            },
            Err(e) => dec_batch(data@) == Err::<BatchV, ContainerFormatError>(e),
        },
{
    let len = data.len();
    if len < 5 {
        return Err(ContainerFormatError::Truncated);
    }
    if !(data[0] == 0x43 && data[1] == 0x4f && data[2] == 0x4c && data[3] == 0x42) {
        proof {
            if data@.take(4) == magic() {
                assert(data@[0] == 0x43 && data@[1] == 0x4f && data@[2] == 0x4c && data@[3]
                    == 0x42);
            }
        }
        return Err(ContainerFormatError::BadMagic);
    }
    proof {
        assert(data@.take(4) =~= magic());
    }
    if data[4] != 1 {
        return Err(ContainerFormatError::BadVersion);
    }
    let mut pos: usize = 5;
    let ghost s0 = data@.skip(5);
    if len - pos < 8 {
        assert(s0.len() < 8);
        return Err(ContainerFormatError::Truncated);
    }
    let ncols = read_le_bytes(data, &mut pos, 8);
    proof {
        assert(s0.take(8) =~= data@.subrange(5, 13));
        assert(s0.skip(8) =~= data@.skip(13));
        assert(dec_u64f(s0) == Ok::<(nat, Seq<u8>), ContainerFormatError>(
            (ncols as nat, data@.skip(13)),
        ));
    }
    let ghost s1 = data@.skip(pos as int);
    let mut descs: Vec<ColumnDesc> = Vec::new();
    let ghost dv0 = Seq::<ColumnDescV>::empty();
    let mut i: u64 = 0;
    while i < ncols
        invariant
            i <= ncols,
            pos <= data@.len() <= usize::MAX,
            len == data@.len(),
            5 <= data@.len(),
            data@.take(4) == magic(),
            data@[4] == version_byte(),
            dec_u64f(data@.skip(5)) == Ok::<(nat, Seq<u8>), ContainerFormatError>(
                (ncols as nat, s1),
            ),
            s1 == data@.skip(13),
            descs@.len() == i,
            dec_descs(ncols as nat, s1) == (match dec_descs(
                (ncols - i) as nat,
                data@.skip(pos as int),
            ) {
                Ok((ds, rest)) => Ok::<(Seq<ColumnDescV>, Seq<u8>), ContainerFormatError>(
                    (descs@.map_values(|d: ColumnDesc| d@) + ds, rest),
                ),
                Err(e) => Err(e),
            }),
        decreases ncols - i,
    {
        let ghost dvprev = descs@.map_values(|d: ColumnDesc| d@);
        let ghost pcur = pos;
        let d = match read_desc(data, &mut pos) {
            Ok(d) => d,
            Err(e) => {
                return Err(e);
            },
        };
        let ghost dd = d@;
        descs.push(d);
        i = i + 1;
        proof {
            assert(descs@.map_values(|d: ColumnDesc| d@) =~= dvprev.push(dd));
            match dec_descs((ncols - i) as nat, data@.skip(pos as int)) {
                Ok((ds, rest)) => {
                    assert(descs@.map_values(|d: ColumnDesc| d@) + ds =~= dvprev + (seq![dd]
                        + ds));
                },
                Err(e) => {},
            }
        }
    }
    let ghost dv = descs@.map_values(|d: ColumnDesc| d@);
    proof {
        assert(dv + Seq::<ColumnDescV>::empty() =~= dv);
        assert(dec_descs(ncols as nat, s1) == Ok::<(Seq<ColumnDescV>, Seq<u8>),
            ContainerFormatError>((dv, data@.skip(pos as int))));
    }
    let ghost s2 = data@.skip(pos as int);
    if len - pos < 8 {
        assert(s2.len() < 8);
        return Err(ContainerFormatError::Truncated);
    }
    let ghost prows = pos;
    let nrows = read_le_bytes(data, &mut pos, 8);
    proof {
        assert(s2.take(8) =~= data@.subrange(prows as int, prows + 8));
        assert(s2.skip(8) =~= data@.skip(prows + 8));
        assert(dec_u64f(s2) == Ok::<(nat, Seq<u8>), ContainerFormatError>(
            (nrows as nat, data@.skip(prows + 8)),
        ));
    }
    if ncols == 0 && nrows != 0 {
        return Err(ContainerFormatError::BadRowCount);
    }
    let ghost s3 = data@.skip(pos as int);
    let ncols_u: usize = descs.len();
    let mut cols: Vec<TypedColumn> = Vec::new();
    let mut j: usize = 0;
    proof {
        assert(dv.skip(0) =~= dv);
    }
    while j < ncols_u
        invariant
            j <= ncols_u == dv.len(),
            pos <= data@.len() <= usize::MAX,
            len == data@.len(),
            5 <= data@.len(),
            data@.take(4) == magic(),
            data@[4] == version_byte(),
            dec_u64f(data@.skip(5)) == Ok::<(nat, Seq<u8>), ContainerFormatError>(
                (ncols as nat, s1),
            ),
            s1 == data@.skip(13),
            dec_descs(ncols as nat, s1) == Ok::<(Seq<ColumnDescV>, Seq<u8>),
                ContainerFormatError>((dv, s2)),
            dec_u64f(s2) == Ok::<(nat, Seq<u8>), ContainerFormatError>((nrows as nat, s3)),
            !(ncols == 0 && nrows != 0),
            s3 == data@.skip(prows as int + 8),
            dv == descs@.map_values(|d: ColumnDesc| d@),
            ncols_u == descs@.len(),
            cols@.len() == j,
            forall|l: int|
                0 <= l < j ==> column_matches_desc((#[trigger] cols@[l])@, dv[l]) && values_len(
                    cols@[l]@.values,
                ) == nrows,
            dec_columns(dv, nrows as nat, s3) == (match dec_columns(
                dv.skip(j as int),
                nrows as nat,
                data@.skip(pos as int),
            ) {
                Ok((cs, rest)) => Ok::<(Seq<TypedColumnV>, Seq<u8>), ContainerFormatError>(
                    (cols@.map_values(|c: TypedColumn| c@) + cs, rest),
                ),
                Err(e) => Err(e),
            }),
        decreases ncols_u - j,
    {
        let ghost cvprev = cols@.map_values(|c: TypedColumn| c@);
        let c = match read_column(data, &mut pos, &descs[j], nrows) {
            Ok(c) => c,
            Err(e) => {
                proof {
                    assert(dv.skip(j as int)[0] == dv[j as int]);
                    assert(dv[j as int] == descs@[j as int]@);
                }
                return Err(e);
            },
        };
        let ghost cc = c@;
        cols.push(c);
        j = j + 1;
        proof {
            assert(dv.skip(j - 1)[0] == dv[j - 1]);
            assert(dv[j - 1] == descs@[j - 1]@);
            assert(dv.skip(j - 1).skip(1) =~= dv.skip(j as int));
            assert(cols@.map_values(|c: TypedColumn| c@) =~= cvprev.push(cc));
            match dec_columns(dv.skip(j as int), nrows as nat, data@.skip(pos as int)) {
                Ok((cs, rest)) => {
                    assert(cols@.map_values(|c: TypedColumn| c@) + cs =~= cvprev + (seq![cc]
                        + cs));
                },
                Err(e) => {},
            }
        }
    }
    let ghost cv = cols@.map_values(|c: TypedColumn| c@);
    proof {
        assert(dv.skip(ncols_u as int).len() == 0);
        assert(dec_columns(dv.skip(ncols_u as int), nrows as nat, data@.skip(pos as int))
            == Ok::<(Seq<TypedColumnV>, Seq<u8>), ContainerFormatError>(
            (Seq::empty(), data@.skip(pos as int)),
        ));
        assert(cv + Seq::<TypedColumnV>::empty() =~= cv);
    }
    if pos != len {
        assert(data@.skip(pos as int).len() != 0);
        return Err(ContainerFormatError::TrailingBytes);
    }
    assert(data@.skip(pos as int).len() == 0);
    let b = Batch { schema: Schema { columns: descs }, columns: cols };
    proof {
        assert(b@.schema == dv);
        assert(b@.columns == cv);
        if dv.len() > 0 {
            assert(column_matches_desc(cv[0], dv[0]));
            assert(batch_rows(b@) == nrows as nat);
        } else {
            assert(batch_rows(b@) == 0);
            assert(nrows == 0);
        }
        assert(batch_wf(b@));
    }
    Ok(b)
}


proof fn lemma_dec_u64f_enc(x: nat, rest: Seq<u8>)
    requires
        x <= u64::MAX,
    ensures
        dec_u64f(enc_u64(x) + rest) == Ok::<(nat, Seq<u8>), ContainerFormatError>((x, rest)),
{
    lemma_le_bytes_len(x, 8);
    let s = enc_u64(x) + rest;
    assert(s.take(8) =~= enc_u64(x));
    assert(s.skip(8) =~= rest);
    assert(x < pow256(8)) by {
        reveal_with_fuel(pow256, 9);
    }
    lemma_le_val_le_bytes(x, 8);
}

proof fn lemma_dec_bytes_enc(v: Seq<u8>, rest: Seq<u8>)
    ensures
        dec_bytes(v.len(), v + rest) == Ok::<(Seq<u8>, Seq<u8>), ContainerFormatError>((v, rest)),
{
    let s = v + rest;
    assert(s.take(v.len() as int) =~= v);
    assert(s.skip(v.len() as int) =~= rest);
}

proof fn lemma_dec_tag_enc(ty: LogicalType, rest: Seq<u8>)
    ensures
        dec_tag(seq![tag_of(ty)] + rest) == Ok::<(LogicalType, Seq<u8>), ContainerFormatError>(
            (ty, rest),
        ),
{
    let s = seq![tag_of(ty)] + rest;
    assert(s[0] == tag_of(ty));
    assert(s.skip(1) =~= rest);
}

proof fn lemma_dec_flag_enc(b: bool, rest: Seq<u8>)
    ensures
        dec_flag(seq![bool_byte(b)] + rest) == Ok::<(bool, Seq<u8>), ContainerFormatError>(
            (b, rest),
        ),
{
    let s = seq![bool_byte(b)] + rest;
    assert(s[0] == bool_byte(b));
    assert(s.skip(1) =~= rest);
}

proof fn lemma_dec_desc_enc(d: ColumnDescV, rest: Seq<u8>)
    requires
        d.name.len() <= u64::MAX,
    ensures
        dec_desc(enc_desc(d) + rest) == Ok::<(ColumnDescV, Seq<u8>), ContainerFormatError>(
            (d, rest),
        ),
{
    let r3 = seq![bool_byte(d.nullable)] + rest;
    let r2 = seq![tag_of(d.ty)] + r3;
    let r1 = d.name + r2;
    assert(enc_desc(d) + rest =~= enc_u64(d.name.len()) + r1);
    lemma_dec_u64f_enc(d.name.len(), r1);
    lemma_dec_bytes_enc(d.name, r2);
    lemma_dec_tag_enc(d.ty, r3);
    lemma_dec_flag_enc(d.nullable, rest);
    assert(d == ColumnDescV { name: d.name, ty: d.ty, nullable: d.nullable });
}

proof fn lemma_enc_descs_head(ds: Seq<ColumnDescV>)
    requires
        ds.len() > 0,
    ensures
        enc_descs(ds) == enc_desc(ds[0]) + enc_descs(ds.skip(1)),
    decreases ds.len(),
{
    if ds.len() == 1 {
        assert(ds.drop_last().len() == 0);
        assert(enc_descs(ds.drop_last()) + enc_desc(ds.last()) =~= enc_desc(ds[0]));
        assert(ds.skip(1).len() == 0);
        assert(enc_desc(ds[0]) + enc_descs(ds.skip(1)) =~= enc_desc(ds[0]));
    } else {
        lemma_enc_descs_head(ds.drop_last());
        assert(ds.drop_last()[0] == ds[0]);
        assert(ds.drop_last().skip(1) =~= ds.skip(1).drop_last());
        assert(ds.skip(1).last() == ds.last());
        assert(enc_descs(ds) == (enc_desc(ds[0]) + enc_descs(ds.skip(1).drop_last())) + enc_desc(
            ds.last(),
        ));
        assert((enc_desc(ds[0]) + enc_descs(ds.skip(1).drop_last())) + enc_desc(ds.last())
            =~= enc_desc(ds[0]) + (enc_descs(ds.skip(1).drop_last()) + enc_desc(
            ds.skip(1).last(),
        )));
    }
}

proof fn lemma_dec_descs_enc(ds: Seq<ColumnDescV>, rest: Seq<u8>)
    requires
        forall|j: int| 0 <= j < ds.len() ==> (#[trigger] ds[j].name).len() <= u64::MAX,
    ensures
        dec_descs(ds.len(), enc_descs(ds) + rest) == Ok::<(Seq<ColumnDescV>, Seq<u8>),
            ContainerFormatError>((ds, rest)),
    decreases ds.len(),
{
    if ds.len() == 0 {
        assert(enc_descs(ds) + rest =~= rest);
        assert(ds =~= Seq::<ColumnDescV>::empty());
    } else {
        lemma_enc_descs_head(ds);
        let tail = enc_descs(ds.skip(1)) + rest;
        assert(enc_descs(ds) + rest =~= enc_desc(ds[0]) + tail);
        lemma_dec_desc_enc(ds[0], tail);
        lemma_dec_descs_enc(ds.skip(1), rest);
        assert(seq![ds[0]] + ds.skip(1) =~= ds);
    }
}

proof fn lemma_enc_u16s_head(xs: Seq<u16>)
    requires
        xs.len() > 0,
    ensures
        enc_u16s(xs) == le_bytes(xs[0] as nat, 2) + enc_u16s(xs.skip(1)),
    decreases xs.len(),
{
    if xs.len() == 1 {
        assert(xs.drop_last().len() == 0);
        assert(enc_u16s(xs.drop_last()) + le_bytes(xs.last() as nat, 2) =~= le_bytes(
            xs[0] as nat,
            2,
        ));
        assert(xs.skip(1).len() == 0);
        assert(le_bytes(xs[0] as nat, 2) + enc_u16s(xs.skip(1)) =~= le_bytes(xs[0] as nat, 2));
    } else {
        lemma_enc_u16s_head(xs.drop_last());
        assert(xs.drop_last()[0] == xs[0]);
        assert(xs.drop_last().skip(1) =~= xs.skip(1).drop_last());
        assert(xs.skip(1).last() == xs.last());
        assert(enc_u16s(xs) == (le_bytes(xs[0] as nat, 2) + enc_u16s(xs.skip(1).drop_last()))
            + le_bytes(xs.last() as nat, 2));
        assert((le_bytes(xs[0] as nat, 2) + enc_u16s(xs.skip(1).drop_last())) + le_bytes(
            xs.last() as nat,
            2,
        ) =~= le_bytes(xs[0] as nat, 2) + (enc_u16s(xs.skip(1).drop_last()) + le_bytes(
            xs.skip(1).last() as nat,
            2,
        )));
    }
}

proof fn lemma_dec_u16s_enc(xs: Seq<u16>, rest: Seq<u8>)
    ensures
        dec_u16s(xs.len(), enc_u16s(xs) + rest) == Ok::<(Seq<u16>, Seq<u8>),
            ContainerFormatError>((xs, rest)),
    decreases xs.len(),
{
    if xs.len() == 0 {
        assert(enc_u16s(xs) + rest =~= rest);
        assert(xs =~= Seq::<u16>::empty());
    } else {
        lemma_enc_u16s_head(xs);
        let head = le_bytes(xs[0] as nat, 2);
        lemma_le_bytes_len(xs[0] as nat, 2);
        let s = enc_u16s(xs) + rest;
        let tail = enc_u16s(xs.skip(1)) + rest;
        assert(s =~= head + tail);
        assert(s.take(2) =~= head);
        assert(s.skip(2) =~= tail);
        assert((xs[0] as nat) < pow256(2)) by {
            reveal_with_fuel(pow256, 3);
        }
        lemma_le_val_le_bytes(xs[0] as nat, 2);
        lemma_dec_u16s_enc(xs.skip(1), rest);
        assert(seq![le_val(s.take(2)) as u16] + xs.skip(1) =~= xs);
    }
}

proof fn lemma_enc_u32s_head(xs: Seq<u32>)
    requires
        xs.len() > 0,
    ensures
        enc_u32s(xs) == le_bytes(xs[0] as nat, 4) + enc_u32s(xs.skip(1)),
    decreases xs.len(),
{
    if xs.len() == 1 {
        assert(xs.drop_last().len() == 0);
        assert(enc_u32s(xs.drop_last()) + le_bytes(xs.last() as nat, 4) =~= le_bytes(
            xs[0] as nat,
            4,
        ));
        assert(xs.skip(1).len() == 0);
        assert(le_bytes(xs[0] as nat, 4) + enc_u32s(xs.skip(1)) =~= le_bytes(xs[0] as nat, 4));
    } else {
        lemma_enc_u32s_head(xs.drop_last());
        assert(xs.drop_last()[0] == xs[0]);
        assert(xs.drop_last().skip(1) =~= xs.skip(1).drop_last());
        assert(xs.skip(1).last() == xs.last());
        assert(enc_u32s(xs) == (le_bytes(xs[0] as nat, 4) + enc_u32s(xs.skip(1).drop_last()))
            + le_bytes(xs.last() as nat, 4));
        assert((le_bytes(xs[0] as nat, 4) + enc_u32s(xs.skip(1).drop_last())) + le_bytes(
            xs.last() as nat,
            4,
        ) =~= le_bytes(xs[0] as nat, 4) + (enc_u32s(xs.skip(1).drop_last()) + le_bytes(
            xs.skip(1).last() as nat,
            4,
        )));
    }
}

proof fn lemma_dec_u32s_enc(xs: Seq<u32>, rest: Seq<u8>)
    ensures
        dec_u32s(xs.len(), enc_u32s(xs) + rest) == Ok::<(Seq<u32>, Seq<u8>),
            ContainerFormatError>((xs, rest)),
    decreases xs.len(),
{
    if xs.len() == 0 {
        assert(enc_u32s(xs) + rest =~= rest);
        assert(xs =~= Seq::<u32>::empty());
    } else {
        lemma_enc_u32s_head(xs);
        let head = le_bytes(xs[0] as nat, 4);
        lemma_le_bytes_len(xs[0] as nat, 4);
        let s = enc_u32s(xs) + rest;
        let tail = enc_u32s(xs.skip(1)) + rest;
        assert(s =~= head + tail);
        assert(s.take(4) =~= head);
        assert(s.skip(4) =~= tail);
        assert((xs[0] as nat) < pow256(4)) by {
            reveal_with_fuel(pow256, 5);
        }
        lemma_le_val_le_bytes(xs[0] as nat, 4);
        lemma_dec_u32s_enc(xs.skip(1), rest);
        assert(seq![le_val(s.take(4)) as u32] + xs.skip(1) =~= xs);
    }
}

proof fn lemma_enc_u64s_head(xs: Seq<u64>)
    requires
        xs.len() > 0,
    ensures
        enc_u64s(xs) == le_bytes(xs[0] as nat, 8) + enc_u64s(xs.skip(1)),
    decreases xs.len(),
{
    if xs.len() == 1 {
        assert(xs.drop_last().len() == 0);
        assert(enc_u64s(xs.drop_last()) + le_bytes(xs.last() as nat, 8) =~= le_bytes(
            xs[0] as nat,
            8,
        ));
        assert(xs.skip(1).len() == 0);
        assert(le_bytes(xs[0] as nat, 8) + enc_u64s(xs.skip(1)) =~= le_bytes(xs[0] as nat, 8));
    } else {
        lemma_enc_u64s_head(xs.drop_last());
        assert(xs.drop_last()[0] == xs[0]);
        assert(xs.drop_last().skip(1) =~= xs.skip(1).drop_last());
        assert(xs.skip(1).last() == xs.last());
        assert(enc_u64s(xs) == (le_bytes(xs[0] as nat, 8) + enc_u64s(xs.skip(1).drop_last()))
            + le_bytes(xs.last() as nat, 8));
        assert((le_bytes(xs[0] as nat, 8) + enc_u64s(xs.skip(1).drop_last())) + le_bytes(
            xs.last() as nat,
            8,
        ) =~= le_bytes(xs[0] as nat, 8) + (enc_u64s(xs.skip(1).drop_last()) + le_bytes(
            xs.skip(1).last() as nat,
            8,
        )));
    }
}

proof fn lemma_dec_u64s_enc(xs: Seq<u64>, rest: Seq<u8>)
    ensures
        dec_u64s(xs.len(), enc_u64s(xs) + rest) == Ok::<(Seq<u64>, Seq<u8>),
            ContainerFormatError>((xs, rest)),
    decreases xs.len(),
{
    if xs.len() == 0 {
        assert(enc_u64s(xs) + rest =~= rest);
        assert(xs =~= Seq::<u64>::empty());
    } else {
        lemma_enc_u64s_head(xs);
        let head = le_bytes(xs[0] as nat, 8);
        lemma_le_bytes_len(xs[0] as nat, 8);
        let s = enc_u64s(xs) + rest;
        let tail = enc_u64s(xs.skip(1)) + rest;
        assert(s =~= head + tail);
        assert(s.take(8) =~= head);
        assert(s.skip(8) =~= tail);
        assert((xs[0] as nat) < pow256(8)) by {
            reveal_with_fuel(pow256, 9);
        }
        lemma_le_val_le_bytes(xs[0] as nat, 8);
        lemma_dec_u64s_enc(xs.skip(1), rest);
        assert(seq![le_val(s.take(8)) as u64] + xs.skip(1) =~= xs);
    }
}

proof fn lemma_enc_texts_head(vs: Seq<Seq<u8>>)
    requires
        vs.len() > 0,
    ensures
        enc_texts(vs) == enc_text(vs[0]) + enc_texts(vs.skip(1)),
    decreases vs.len(),
{
    if vs.len() == 1 {
        assert(vs.drop_last().len() == 0);
        assert(enc_texts(vs.drop_last()) + enc_text(vs.last()) =~= enc_text(vs[0]));
        assert(vs.skip(1).len() == 0);
        assert(enc_text(vs[0]) + enc_texts(vs.skip(1)) =~= enc_text(vs[0]));
    } else {
        lemma_enc_texts_head(vs.drop_last());
        assert(vs.drop_last()[0] == vs[0]);
        assert(vs.drop_last().skip(1) =~= vs.skip(1).drop_last());
        assert(vs.skip(1).last() == vs.last());
        assert(enc_texts(vs) == (enc_text(vs[0]) + enc_texts(vs.skip(1).drop_last())) + enc_text(
            vs.last(),
        ));
        assert((enc_text(vs[0]) + enc_texts(vs.skip(1).drop_last())) + enc_text(vs.last())
            =~= enc_text(vs[0]) + (enc_texts(vs.skip(1).drop_last()) + enc_text(
            vs.skip(1).last(),
        )));
    }
}

proof fn lemma_dec_texts_enc(vs: Seq<Seq<u8>>, rest: Seq<u8>)
    requires
        forall|i: int| 0 <= i < vs.len() ==> (#[trigger] vs[i]).len() <= u64::MAX,
    ensures
        dec_texts(vs.len(), enc_texts(vs) + rest) == Ok::<(Seq<Seq<u8>>, Seq<u8>),
            ContainerFormatError>((vs, rest)),
    decreases vs.len(),
{
    if vs.len() == 0 {
        assert(enc_texts(vs) + rest =~= rest);
        assert(vs =~= Seq::<Seq<u8>>::empty());
    } else {
        lemma_enc_texts_head(vs);
        let tail = enc_texts(vs.skip(1)) + rest;
        let r1 = vs[0] + tail;
        assert(enc_texts(vs) + rest =~= enc_text(vs[0]) + tail);
        assert(enc_text(vs[0]) + tail =~= enc_u64(vs[0].len()) + r1);
        lemma_dec_u64f_enc(vs[0].len(), r1);
        lemma_dec_bytes_enc(vs[0], tail);
        lemma_dec_texts_enc(vs.skip(1), rest);
        assert(seq![vs[0]] + vs.skip(1) =~= vs);
    }
}

proof fn lemma_enc_bools_head(bs: Seq<bool>)
    requires
        bs.len() > 0,
    ensures
        enc_bools(bs) == seq![bool_byte(bs[0])] + enc_bools(bs.skip(1)),
    decreases bs.len(),
{
    if bs.len() == 1 {
        assert(bs.drop_last().len() == 0);
        assert(enc_bools(bs.drop_last()) + seq![bool_byte(bs.last())] =~= seq![bool_byte(bs[0])]);
        assert(bs.skip(1).len() == 0);
        assert(seq![bool_byte(bs[0])] + enc_bools(bs.skip(1)) =~= seq![bool_byte(bs[0])]);
    } else {
        lemma_enc_bools_head(bs.drop_last());
        assert(bs.drop_last()[0] == bs[0]);
        assert(bs.drop_last().skip(1) =~= bs.skip(1).drop_last());
        assert(bs.skip(1).last() == bs.last());
        assert(enc_bools(bs) == (seq![bool_byte(bs[0])] + enc_bools(bs.skip(1).drop_last()))
            + seq![bool_byte(bs.last())]);
        assert((seq![bool_byte(bs[0])] + enc_bools(bs.skip(1).drop_last())) + seq![
            bool_byte(bs.last()),
        ] =~= seq![bool_byte(bs[0])] + (enc_bools(bs.skip(1).drop_last()) + seq![
            bool_byte(bs.skip(1).last()),
        ]));
    }
}

proof fn lemma_dec_bools_enc(bs: Seq<bool>, rest: Seq<u8>)
    ensures
        dec_bools(bs.len(), enc_bools(bs) + rest) == Ok::<(Seq<bool>, Seq<u8>),
            ContainerFormatError>((bs, rest)),
    decreases bs.len(),
{
    if bs.len() == 0 {
        assert(enc_bools(bs) + rest =~= rest);
        assert(bs =~= Seq::<bool>::empty());
    } else {
        lemma_enc_bools_head(bs);
        let tail = enc_bools(bs.skip(1)) + rest;
        assert(enc_bools(bs) + rest =~= seq![bool_byte(bs[0])] + tail);
        lemma_dec_flag_enc(bs[0], tail);
        lemma_dec_bools_enc(bs.skip(1), rest);
        assert(seq![bs[0]] + bs.skip(1) =~= bs);
    }
}

proof fn lemma_dec_values_enc(v: ColumnValuesV, rest: Seq<u8>)
    requires
        utf8_lens_fit(v),
    ensures
        dec_values(values_type(v), values_len(v), enc_values(v) + rest) == Ok::<
            (ColumnValuesV, Seq<u8>),
            ContainerFormatError,
        >((v, rest)),
{
    match v {
        ColumnValuesV::UInt16(xs) => lemma_dec_u16s_enc(xs, rest),
        ColumnValuesV::UInt32(xs) => lemma_dec_u32s_enc(xs, rest),
        ColumnValuesV::UInt64(xs) => lemma_dec_u64s_enc(xs, rest),
        ColumnValuesV::Utf8(vs) => lemma_dec_texts_enc(vs, rest),
    }
}

proof fn lemma_dec_column_enc(c: TypedColumnV, d: ColumnDescV, rest: Seq<u8>)
    requires
        column_matches_desc(c, d),
        utf8_lens_fit(c.values),
    ensures
        dec_column(d, values_len(c.values), enc_column(c) + rest) == Ok::<
            (TypedColumnV, Seq<u8>),
            ContainerFormatError,
        >((c, rest)),
{
    match c.validity {
        Some(bs) => {
            let tail = enc_bools(bs) + rest;
            assert(enc_column(c) + rest =~= enc_values(c.values) + tail);
            lemma_dec_values_enc(c.values, tail);
            lemma_dec_bools_enc(bs, rest);
            assert(c == TypedColumnV { values: c.values, validity: Some(bs) });
        },
        None => {
            assert(enc_column(c) + rest =~= enc_values(c.values) + rest);
            lemma_dec_values_enc(c.values, rest);
            assert(c == TypedColumnV { values: c.values, validity: None });
        },
    }
}

proof fn lemma_enc_columns_head(cs: Seq<TypedColumnV>)
    requires
        cs.len() > 0,
    ensures
        enc_columns(cs) == enc_column(cs[0]) + enc_columns(cs.skip(1)),
    decreases cs.len(),
{
    if cs.len() == 1 {
        assert(cs.drop_last().len() == 0);
        assert(enc_columns(cs.drop_last()) + enc_column(cs.last()) =~= enc_column(cs[0]));
        assert(cs.skip(1).len() == 0);
        assert(enc_column(cs[0]) + enc_columns(cs.skip(1)) =~= enc_column(cs[0]));
    } else {
        lemma_enc_columns_head(cs.drop_last());
        assert(cs.drop_last()[0] == cs[0]);
        assert(cs.drop_last().skip(1) =~= cs.skip(1).drop_last());
        assert(cs.skip(1).last() == cs.last());
        assert(enc_columns(cs) == (enc_column(cs[0]) + enc_columns(cs.skip(1).drop_last()))
            + enc_column(cs.last()));
        assert((enc_column(cs[0]) + enc_columns(cs.skip(1).drop_last())) + enc_column(cs.last())
            =~= enc_column(cs[0]) + (enc_columns(cs.skip(1).drop_last()) + enc_column(
            cs.skip(1).last(),
        )));
    }
}

proof fn lemma_dec_columns_enc(cs: Seq<TypedColumnV>, ds: Seq<ColumnDescV>, n: nat, rest: Seq<u8>)
    requires
        cs.len() == ds.len(),
        forall|j: int| 0 <= j < cs.len() ==> column_matches_desc(#[trigger] cs[j], ds[j]),
        forall|j: int| 0 <= j < cs.len() ==> values_len((#[trigger] cs[j]).values) == n,
        forall|j: int| 0 <= j < cs.len() ==> utf8_lens_fit((#[trigger] cs[j]).values),
    ensures
        dec_columns(ds, n, enc_columns(cs) + rest) == Ok::<(Seq<TypedColumnV>, Seq<u8>),
            ContainerFormatError>((cs, rest)),
    decreases cs.len(),
{
    if cs.len() == 0 {
        assert(enc_columns(cs) + rest =~= rest);
        assert(cs =~= Seq::<TypedColumnV>::empty());
    } else {
        lemma_enc_columns_head(cs);
        let tail = enc_columns(cs.skip(1)) + rest;
        assert(enc_columns(cs) + rest =~= enc_column(cs[0]) + tail);
        lemma_dec_column_enc(cs[0], ds[0], tail);
        assert(forall|j: int|
            0 <= j < cs.skip(1).len() ==> #[trigger] cs.skip(1)[j] == cs[j + 1]);
        assert(forall|j: int|
            0 <= j < ds.skip(1).len() ==> #[trigger] ds.skip(1)[j] == ds[j + 1]);
        lemma_dec_columns_enc(cs.skip(1), ds.skip(1), n, rest);
        assert(seq![cs[0]] + cs.skip(1) =~= cs);
    }
}

/// Writing a batch and reading it back loses nothing: for every
/// well-formed batch whose dimensions fit the container's 64-bit
/// length fields, decoding its encoding recovers it exactly --
/// column for column, value for value, null positions included.
pub proof fn lemma_batch_round_trip(b: BatchV)
    requires
        batch_wf(b),
        batch_fits(b),
    ensures
        dec_batch(enc_batch(b)) == Ok::<BatchV, ContainerFormatError>(b),
{
    let ncols = b.schema.len();
    let nrows = batch_rows(b);
    let s = enc_batch(b);
    let part_cols = enc_columns(b.columns);
    let part_nrows = enc_u64(nrows) + part_cols;
    let part_descs = enc_descs(b.schema) + part_nrows;
    let part_ncols = enc_u64(ncols) + part_descs;
    lemma_le_bytes_len(ncols, 8);
    lemma_le_bytes_len(nrows, 8);
    assert(s =~= magic() + seq![version_byte()] + part_ncols);
    assert(s.len() >= 5);
    assert(s.take(4) =~= magic());
    assert(s[4] == version_byte());
    assert(s.skip(5) =~= part_ncols);
    lemma_dec_u64f_enc(ncols, part_descs);
    lemma_dec_descs_enc(b.schema, part_nrows);
    lemma_dec_u64f_enc(nrows, part_cols);
    if ncols == 0 {
        assert(nrows == 0);
    }
    assert(part_cols =~= enc_columns(b.columns) + Seq::<u8>::empty());
    assert forall|j: int| 0 <= j < b.columns.len() implies utf8_lens_fit(
        (#[trigger] b.columns[j]).values,
    ) by {
        assert(utf8_lens_fit(b.columns[j].values));
    }
    lemma_dec_columns_enc(b.columns, b.schema, nrows, Seq::empty());
    assert(b == BatchV { schema: b.schema, columns: b.columns });
}

} // verus!
