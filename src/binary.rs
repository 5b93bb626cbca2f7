use vstd::prelude::*;
use vstd::arithmetic::div_mod::lemma_fundamental_div_mod_converse;
use crate::block::{Column, PointBlock};
use crate::error::PcdError;
use crate::kind::ValueKind;
use crate::layout::{lemma_widths_sum_mono, widths_sum, Layout};
use crate::text::push_all;

verus! {

/// The bytes of one column of a row-major payload: element `i` of the column
/// is the `w` bytes at offset `off` of record `i`.
pub open spec fn column_of(payload: Seq<u8>, stride: nat, off: nat, w: nat, rows: nat) -> Seq<u8> {
    Seq::new(rows * w, |i: int| payload[(i / w as int) * stride + off + i % (w as int)])
}

/// The kinds of a sequence of columns.
pub open spec fn kinds_of(cols: Seq<Column>) -> Seq<ValueKind> {
    cols.map_values(|c: Column| c.kind)
}

/// The binary record of row `r`, restricted to the first `m` columns.
pub open spec fn record_prefix(cols: Seq<Column>, r: int, m: int) -> Seq<u8>
    decreases m,
{
    if m <= 0 {
        seq![]
    } else {
        record_prefix(cols, r, m - 1) + cols[m - 1].element(r)
    }
}

/// The row-major payload of the first `n` rows of the columns.
pub open spec fn rows_prefix(cols: Seq<Column>, n: int) -> Seq<u8>
    decreases n,
{
    if n <= 0 {
        seq![]
    } else {
        rows_prefix(cols, n - 1) + record_prefix(cols, n - 1, cols.len() as int)
    }
}

/// All columns hold exactly `n` elements.
pub open spec fn all_hold(cols: Seq<Column>, n: nat) -> bool {
    forall|j: int| 0 <= j < cols.len() ==> (#[trigger] cols[j]).holds(n)
}

/// The binary payload of a block.
pub open spec fn binary_payload(b: PointBlock) -> Seq<u8> {
    rows_prefix(b.columns@, b.points as int)
}

proof fn lemma_mul_le(a: int, b: int, c: int)
    requires
        0 <= a <= b,
        0 <= c,
    ensures
        a * c <= b * c,
{
    assert(a * c <= b * c) by (nonlinear_arith) requires 0 <= a <= b, 0 <= c;
}

/// Appending one record to the rows before it extends every column by one element.
proof fn lemma_column_of_step(payload: Seq<u8>, stride: nat, off: nat, w: nat, r: nat)
    requires
        w > 0,
        off + w <= stride,
        (r + 1) * stride <= payload.len(),
    ensures
        column_of(payload, stride, off, w, r + 1)
            == column_of(payload, stride, off, w, r) + payload.subrange((r * stride + off) as int, (r * stride + off + w) as int),
{
    let a = column_of(payload, stride, off, w, r + 1);
    let b = column_of(payload, stride, off, w, r) + payload.subrange((r * stride + off) as int, (r * stride + off + w) as int);
    assert((r + 1) * w == r * w + w) by (nonlinear_arith);
    assert((r + 1) * stride == r * stride + stride) by (nonlinear_arith);
    assert forall|i: int| 0 <= i < a.len() implies a[i] == b[i] by {
        if i >= r * w {
            let k = i - r * w;
            lemma_fundamental_div_mod_converse(i, w as int, r as int, k);
        }
    }
    assert(a =~= b);
}

/// Appends column bytes of the rows `from .. to` to `out`, which holds those of
/// the rows before `from`.
fn extract_rows(payload: &[u8], stride: usize, off: usize, w: usize, from: usize, to: usize, out: &mut Vec<u8>)
    requires
        old(out)@ == column_of(payload@, stride as nat, off as nat, w as nat, from as nat),
        w > 0,
        off + w <= stride,
        from <= to,
        to * stride <= payload@.len(),
    ensures
        final(out)@ == column_of(payload@, stride as nat, off as nat, w as nat, to as nat),
{
    let plen = payload.len();
    let mut r: usize = from;
    while r < to
        invariant
            plen == payload@.len(),
            from <= r <= to,
            w > 0,
            off + w <= stride,
            to * stride <= payload@.len(),
            out@ == column_of(payload@, stride as nat, off as nat, w as nat, r as nat),
        decreases to - r,
    {
        proof {
            lemma_mul_le(r as int + 1, to as int, stride as int);
            assert((r + 1) * stride == r * stride + stride) by (nonlinear_arith);
            assert(r * stride + off + w <= payload@.len());
            lemma_column_of_step(payload@, stride as nat, off as nat, w as nat, r as nat);
        }
        let base = r * stride + off;
        push_all(out, &payload[base..base + w]);
        r = r + 1;
    }
}

/// Boundaries of at most `workers` contiguous, non-empty row ranges that
/// cover `0 .. points`: range `c` is `r[c] .. r[c + 1]`.
pub fn chunk_bounds(points: usize, workers: usize) -> (r: Vec<usize>)
    ensures
        r@.len() >= 1,
        r@[0] == 0,
        r@[r@.len() - 1] == points,
        forall|c: int| 0 <= c < r@.len() - 1 ==> #[trigger] r@[c] < r@[c + 1],
        workers > 0 ==> r@.len() - 1 <= workers,
{
    let parts: usize = if workers == 0 { 1 } else { workers };
    proof {
        assert(points % parts != 0 ==> points / parts < usize::MAX) by (nonlinear_arith)
            requires parts > 0, points <= usize::MAX;
    }
    let size: usize = points / parts + if points % parts == 0 { 0 } else { 1 };
    let mut bounds: Vec<usize> = Vec::new();
    bounds.push(0);
    let mut at: usize = 0;
    proof {
        assert(size > 0 || points == 0) by (nonlinear_arith)
            requires size == points / parts + if points % parts == 0 { 0int } else { 1int }, parts > 0;
        assert(size * parts >= points) by (nonlinear_arith)
            requires size == points / parts + if points % parts == 0 { 0int } else { 1int }, parts > 0;
    }
    while at < points
        invariant
            size > 0 || points == 0,
            at <= points,
            size * parts >= points,
            bounds@.len() >= 1,
            bounds@[0] == 0,
            bounds@[bounds@.len() - 1] == at,
            at == points || at == (bounds@.len() - 1) * size,
            forall|c: int| 0 <= c < bounds@.len() - 1 ==> #[trigger] bounds@[c] < bounds@[c + 1],
            bounds@.len() - 1 <= parts,
        decreases points - at,
    {
        let next: usize = if points - at < size { points } else { at + size };
        let ghost n = bounds@.len() - 1;
        proof {
            assert(n < parts) by (nonlinear_arith)
                requires at == n * size, at < points, size * parts >= points, size > 0;
        }
        bounds.push(next);
        proof {
            if next != points {
                assert(next == (bounds@.len() - 1) * size) by (nonlinear_arith)
                    requires next == at + size, at == n * size, bounds@.len() - 1 == n + 1;
            }
        }
        at = next;
    }
    bounds
}

/// The bytes of one column, gathered range by range over the row partition `bounds`.
fn decode_column(payload: &[u8], stride: usize, off: usize, w: usize, bounds: &Vec<usize>, points: usize) -> (data: Vec<u8>)
    requires
        w > 0,
        off + w <= stride,
        points * stride <= payload@.len(),
        bounds@.len() >= 1,
        bounds@[0] == 0,
        bounds@[bounds@.len() - 1] == points,
        forall|c: int| 0 <= c < bounds@.len() - 1 ==> #[trigger] bounds@[c] < bounds@[c + 1],
    ensures
        data@ == column_of(payload@, stride as nat, off as nat, w as nat, points as nat),
{
    let mut data: Vec<u8> = Vec::new();
    proof {
        assert(data@ =~= column_of(payload@, stride as nat, off as nat, w as nat, 0));
    }
    let mut c: usize = 0;
    while c < bounds.len() - 1
        invariant
            c + 1 == bounds@.len() ==> bounds@[c as int] == points,
            w > 0,
            off + w <= stride,
            points * stride <= payload@.len(),
            c + 1 <= bounds@.len(),
            bounds@[bounds@.len() - 1] == points,
            forall|c: int| 0 <= c < bounds@.len() - 1 ==> #[trigger] bounds@[c] < bounds@[c + 1],
            data@ == column_of(payload@, stride as nat, off as nat, w as nat, bounds@[c as int] as nat),
        decreases bounds@.len() - c,
    {
        proof {
            lemma_bounds_le(bounds@, c as int + 1);
            lemma_mul_le(bounds@[c as int + 1] as int, points as int, stride as int);
        }
        extract_rows(payload, stride, off, w, bounds[c], bounds[c + 1], &mut data);
        c = c + 1;
    }
    data
}

/// Decodes a row-major binary payload of `points` records into a block,
/// partitioning the rows into at most `workers` contiguous ranges. The
/// result does not depend on `workers`: each column is `column_of` the
/// payload, whatever the partition. Fails with `TruncatedData` exactly when
/// the payload is shorter than `points * stride` bytes.
#[verifier::rlimit(40)]
pub fn decode_binary_par(payload: &[u8], layout: &Layout, points: usize, workers: usize) -> (r: Result<PointBlock, PcdError>)
    requires
        layout.wf(),
    ensures
        r.is_ok() <==> points * layout.stride <= payload@.len(),
        r matches Err(e) ==> e == PcdError::TruncatedData(
            if points * layout.stride <= usize::MAX { (points * layout.stride) as usize } else { usize::MAX },
            payload@.len() as usize),
        r matches Ok(b) ==> {
            &&& b.wf()
            &&& b.points == points
            &&& b.matches(layout)
            &&& forall|j: int| 0 <= j < layout.fields@.len() ==>
                (#[trigger] b.columns@[j]).data@ == column_of(payload@, layout.stride as nat,
                    layout.offset_of(j), layout.width_of(j), points as nat)
        },
{
    let need = match points.checked_mul(layout.stride) {
        Some(n) => n,
        None => {
            return Err(PcdError::TruncatedData(usize::MAX, payload.len()));
        },
    };
    if payload.len() < need {
        return Err(PcdError::TruncatedData(need, payload.len()));
    }
    let bounds = chunk_bounds(points, workers);
    let mut names: Vec<Vec<u8>> = Vec::new();
    let mut columns: Vec<Column> = Vec::new();
    let mut j: usize = 0;
    while j < layout.fields.len()
        invariant
            layout.wf(),
            need == points * layout.stride,
            need <= payload@.len(),
            j <= layout.fields@.len(),
            bounds@.len() >= 1,
            bounds@[0] == 0,
            bounds@[bounds@.len() - 1] == points,
            forall|c: int| 0 <= c < bounds@.len() - 1 ==> #[trigger] bounds@[c] < bounds@[c + 1],
            names@.len() == j,
            columns@.len() == j,
            forall|q: int| 0 <= q < j ==> {
                &&& (#[trigger] names@[q])@ == layout.fields@[q].name@
                &&& columns@[q].kind == layout.fields@[q].kind
                &&& columns@[q].data@ == column_of(payload@, layout.stride as nat,
                    layout.offset_of(q), layout.width_of(q), points as nat)
            },
        decreases layout.fields@.len() - j,
    {
        let f = &layout.fields[j];
        let w = f.kind.width();
        proof {
            lemma_widths_sum_mono(layout.kinds(), j as int, layout.fields@.len() as int);
            assert(layout.kinds()[j as int] == f.kind);
        }
        let data = decode_column(payload, layout.stride, f.offset, w, &bounds, points);
        let mut name: Vec<u8> = Vec::new();
        push_all(&mut name, f.name.as_slice());
        let ghost old_names = names@;
        let ghost old_columns = columns@;
        names.push(name);
        columns.push(Column { kind: f.kind, data });
        proof {
            assert forall|q: int| 0 <= q < j + 1 implies {
                &&& (#[trigger] names@[q])@ == layout.fields@[q].name@
                &&& columns@[q].kind == layout.fields@[q].kind
                &&& columns@[q].data@ == column_of(payload@, layout.stride as nat,
                    layout.offset_of(q), layout.width_of(q), points as nat)
            } by {
                if q < j {
                    assert(names@[q] == old_names[q]);
                    assert(columns@[q] == old_columns[q]);
                }
            }
        }
        j = j + 1;
    }
    let b = PointBlock { names, columns, points };
    proof {
        assert forall|q: int| 0 <= q < b.columns@.len() implies (#[trigger] b.columns@[q]).holds(points as nat) by {
            assert(b.names@[q]@ == layout.fields@[q].name@);
        }
        assert forall|q: int| 0 <= q < layout.fields@.len() implies {
            &&& (#[trigger] b.names@[q])@ == layout.fields@[q].name@
            &&& b.columns@[q].kind == layout.fields@[q].kind
        } by {
            assert(b.names@[q]@ == layout.fields@[q].name@);
        }
        assert forall|q: int| 0 <= q < layout.fields@.len() implies
            (#[trigger] b.columns@[q]).data@ == column_of(payload@, layout.stride as nat,
                layout.offset_of(q), layout.width_of(q), points as nat) by {
            assert(b.names@[q]@ == layout.fields@[q].name@);
        }
    }
    Ok(b)
}

/// Decodes a row-major binary payload of `points` records, on one worker.
pub fn decode_binary(payload: &[u8], layout: &Layout, points: usize) -> (r: Result<PointBlock, PcdError>)
    requires
        layout.wf(),
    ensures
        r.is_ok() <==> points * layout.stride <= payload@.len(),
        r matches Err(e) ==> e == PcdError::TruncatedData(
            if points * layout.stride <= usize::MAX { (points * layout.stride) as usize } else { usize::MAX },
            payload@.len() as usize),
        r matches Ok(b) ==> {
            &&& b.wf()
            &&& b.points == points
            &&& b.matches(layout)
            &&& forall|j: int| 0 <= j < layout.fields@.len() ==>
                (#[trigger] b.columns@[j]).data@ == column_of(payload@, layout.stride as nat,
                    layout.offset_of(j), layout.width_of(j), points as nat)
        },
{
    decode_binary_par(payload, layout, points, 1)
}

/// Appends the binary record of row `r` to `out`.
fn encode_record(cols: &Vec<Column>, r: usize, points: usize, out: &mut Vec<u8>)
    requires
        r < points,
        all_hold(cols@, points as nat),
    ensures
        final(out)@ == old(out)@ + record_prefix(cols@, r as int, cols@.len() as int),
{
    let mut j: usize = 0;
    while j < cols.len()
        invariant
            r < points,
            all_hold(cols@, points as nat),
            j <= cols@.len(),
            out@ == old(out)@ + record_prefix(cols@, r as int, j as int),
        decreases cols@.len() - j,
    {
        let c = &cols[j];
        let w = c.kind.width();
        proof {
            assert(c.holds(points as nat));
            lemma_mul_le(r as int + 1, points as int, w as int);
            assert((r + 1) * w == r * w + w) by (nonlinear_arith);
        }
        let dl = c.data.len();
        proof {
            assert(r * w + w <= dl);
        }
        let start = r * w;
        push_all(out, &c.data.as_slice()[start..start + w]);
        proof {
            assert(record_prefix(cols@, r as int, j as int + 1)
                == record_prefix(cols@, r as int, j as int) + cols@[j as int].element(r as int));
            assert(out@ =~= old(out)@ + record_prefix(cols@, r as int, j as int + 1));
        }
        j = j + 1;
    }
}

/// Encodes a block as a row-major binary payload: for each row in order,
/// the little-endian bytes of every column, in column order.
pub fn encode_binary(block: &PointBlock) -> (r: Vec<u8>)
    requires
        block.wf(),
    ensures
        r@ == binary_payload(*block),
{
    let mut out: Vec<u8> = Vec::new();
    let mut r: usize = 0;
    while r < block.points
        invariant
            block.wf(),
            r <= block.points,
            out@ == rows_prefix(block.columns@, r as int),
        decreases block.points - r,
    {
        encode_record(&block.columns, r, block.points, &mut out);
        r = r + 1;
    }
    out
}

/// Length of a record prefix: the sum of the widths of its columns.
proof fn lemma_record_len(cols: Seq<Column>, r: int, m: int, n: nat)
    requires
        0 <= r < n,
        0 <= m <= cols.len(),
        all_hold(cols, n),
    ensures
        record_prefix(cols, r, m).len() == widths_sum(kinds_of(cols), m),
    decreases m,
{
    if m > 0 {
        lemma_record_len(cols, r, m - 1, n);
        let w = cols[m - 1].kind.width_spec() as int;
        assert(cols[m - 1].holds(n));
        lemma_mul_le(r + 1, n as int, w);
        assert((r + 1) * w == r * w + w) by (nonlinear_arith);
    }
}

/// Byte `k` of column `j` within record `r` sits at that column's offset.
proof fn lemma_record_index(cols: Seq<Column>, r: int, m: int, n: nat, j: int, k: int)
    requires
        0 <= r < n,
        0 <= j < m <= cols.len(),
        0 <= k < cols[j].kind.width_spec(),
        all_hold(cols, n),
    ensures
        record_prefix(cols, r, m)[widths_sum(kinds_of(cols), j) + k]
            == cols[j].data@[r * cols[j].kind.width_spec() + k],
    decreases m,
{
    lemma_record_len(cols, r, m - 1, n);
    if j < m - 1 {
        lemma_record_index(cols, r, m - 1, n, j, k);
        lemma_widths_sum_mono(kinds_of(cols), j, m - 1);
    } else {
        let w = cols[j].kind.width_spec() as int;
        assert(cols[j].holds(n));
        lemma_mul_le(r + 1, n as int, w);
        assert((r + 1) * w == r * w + w) by (nonlinear_arith);
    }
}

/// The payload of `rows` rows has `rows * stride` bytes.
proof fn lemma_rows_len(cols: Seq<Column>, rows: int, n: nat)
    requires
        0 <= rows <= n,
        all_hold(cols, n),
    ensures
        rows_prefix(cols, rows).len() == rows * widths_sum(kinds_of(cols), cols.len() as int),
    decreases rows,
{
    if rows > 0 {
        lemma_rows_len(cols, rows - 1, n);
        lemma_record_len(cols, rows - 1, cols.len() as int, n);
        let s = widths_sum(kinds_of(cols), cols.len() as int) as int;
        assert((rows - 1) * s + s == rows * s) by (nonlinear_arith);
        assert(rows_prefix(cols, rows) == rows_prefix(cols, rows - 1) + record_prefix(cols, rows - 1, cols.len() as int));
        assert(rows_prefix(cols, rows - 1).len() == (rows - 1) * s);
        assert(record_prefix(cols, rows - 1, cols.len() as int).len() == s);
    } else {
        let s = widths_sum(kinds_of(cols), cols.len() as int) as int;
        assert(rows * s == 0) by (nonlinear_arith) requires rows == 0;
    }
}

/// Byte `k` of column `j` of row `r` sits at `r * stride + offset_j + k`.
proof fn lemma_rows_index(cols: Seq<Column>, rows: int, n: nat, r: int, j: int, k: int)
    requires
        0 <= r < rows <= n,
        0 <= j < cols.len(),
        0 <= k < cols[j].kind.width_spec(),
        all_hold(cols, n),
    ensures
        rows_prefix(cols, rows)[r * widths_sum(kinds_of(cols), cols.len() as int) + widths_sum(kinds_of(cols), j) + k]
            == cols[j].data@[r * cols[j].kind.width_spec() + k],
    decreases rows,
{
    let s = widths_sum(kinds_of(cols), cols.len() as int) as int;
    let o = widths_sum(kinds_of(cols), j) as int;
    lemma_rows_len(cols, rows - 1, n);
    lemma_widths_sum_mono(kinds_of(cols), j, cols.len() as int);
    assert(kinds_of(cols)[j] == cols[j].kind);
    assert(rows_prefix(cols, rows) == rows_prefix(cols, rows - 1) + record_prefix(cols, rows - 1, cols.len() as int));
    lemma_record_len(cols, rows - 1, cols.len() as int, n);
    if r < rows - 1 {
        lemma_rows_index(cols, rows - 1, n, r, j, k);
        lemma_mul_le(r + 1, rows - 1, s);
        assert((r + 1) * s == r * s + s) by (nonlinear_arith);
        assert(r * s + o + k < (rows - 1) * s);
    } else {
        lemma_record_index(cols, r, cols.len() as int, n, j, k);
        assert(r * s == (rows - 1) * s);
    }
}

/// Decoding the binary encoding of a block gives back every column: for a
/// layout whose columns have the block's kinds, each decoded column equals
/// the block's column, byte for byte.
pub proof fn lemma_binary_round_trip(b: PointBlock, l: Layout)
    requires
        b.wf(),
        l.wf(),
        l.kinds() == kinds_of(b.columns@),
    ensures
        binary_payload(b).len() == b.points * l.stride,
        forall|j: int| 0 <= j < l.fields@.len() ==>
            column_of(binary_payload(b), l.stride as nat, l.offset_of(j), l.width_of(j), b.points as nat)
                == (#[trigger] b.columns@[j]).data@,
{
    let cols = b.columns@;
    let n = b.points as nat;
    assert(l.fields@.len() == cols.len()) by {
        assert(l.kinds().len() == kinds_of(cols).len());
    }
    lemma_rows_len(cols, n as int, n);
    assert forall|j: int| 0 <= j < l.fields@.len() implies
        column_of(binary_payload(b), l.stride as nat, l.offset_of(j), l.width_of(j), n)
            == (#[trigger] b.columns@[j]).data@ by {
        assert(l.kinds()[j] == cols[j].kind);
        let w = cols[j].kind.width_spec() as int;
        let c = column_of(binary_payload(b), l.stride as nat, l.offset_of(j), l.width_of(j), n);
        assert(cols[j].holds(n));
        assert forall|i: int| 0 <= i < c.len() implies c[i] == cols[j].data@[i] by {
            let r = i / w;
            let k = i % w;
            assert(i == r * w + k && 0 <= k < w) by (nonlinear_arith) requires w > 0, r == i / w, k == i % w;
            assert(r < n) by (nonlinear_arith) requires i == r * w + k, 0 <= k < w, i < n * w, w > 0;
            assert(r >= 0) by (nonlinear_arith) requires i == r * w + k, 0 <= k < w, i >= 0, w > 0;
            lemma_rows_index(cols, n as int, n, r, j, k);
        }
        assert(c =~= cols[j].data@);
    }
}

/// The rows `a .. b` of a column are the column of the payload's records
/// `a .. b` on their own.
proof fn lemma_column_of_split(payload: Seq<u8>, stride: nat, off: nat, w: nat, a: nat, b: nat)
    requires
        w > 0,
        off + w <= stride,
        a <= b,
        b * stride <= payload.len(),
    ensures
        column_of(payload, stride, off, w, b) == column_of(payload, stride, off, w, a)
            + column_of(payload.subrange((a * stride) as int, (b * stride) as int), stride, off, w, (b - a) as nat),
{
    let x = column_of(payload, stride, off, w, b);
    let sub = payload.subrange((a * stride) as int, (b * stride) as int);
    let y = column_of(payload, stride, off, w, a) + column_of(sub, stride, off, w, (b - a) as nat);
    assert(b * w == a * w + (b - a) * w) by (nonlinear_arith) requires a <= b;
    assert(a * stride <= b * stride) by (nonlinear_arith) requires a <= b;
    assert forall|i: int| 0 <= i < x.len() implies x[i] == y[i] by {
        let r = i / w as int;
        let k = i % w as int;
        assert(i == r * w + k && 0 <= k < w) by (nonlinear_arith) requires w > 0, r == i / w as int, k == i % w as int;
        assert(0 <= r < b) by (nonlinear_arith) requires i == r * w + k, 0 <= k < w, 0 <= i < b * w, w > 0;
        assert(r * stride + off + k < b * stride) by (nonlinear_arith)
            requires r < b, off + w <= stride, k < w, r >= 0;
        if i >= a * w {
            let i2 = i - a * w;
            assert(i2 == (r - a) * w + k) by (nonlinear_arith) requires i2 == i - a * w, i == r * w + k;
            lemma_fundamental_div_mod_converse(i2, w as int, r - a, k);
            assert((r - a) * stride + a * stride == r * stride) by (nonlinear_arith);
            assert((r - a) * stride + off + k < (b - a) * stride) by (nonlinear_arith)
                requires r < b, off + w <= stride, k < w, r >= a;
        }
    }
    assert(x =~= y);
}

/// Joins the blocks decoded from the row ranges `bounds[c] .. bounds[c + 1]`
/// of a row-major payload (for instance on separate threads) into the block
/// of all `points` records. The result is what `decode_binary_par` returns.
#[verifier::loop_isolation(false)]
pub fn join_row_ranges(payload: &[u8], layout: &Layout, points: usize, bounds: &Vec<usize>, parts: &Vec<PointBlock>)
    -> (b: PointBlock)
    requires
        layout.wf(),
        points * layout.stride <= payload@.len(),
        bounds@.len() >= 1,
        bounds@[0] == 0,
        bounds@[bounds@.len() - 1] == points,
        forall|c: int| 0 <= c < bounds@.len() - 1 ==> #[trigger] bounds@[c] < bounds@[c + 1],
        parts@.len() == bounds@.len() - 1,
        forall|c: int| 0 <= c < parts@.len() ==> (#[trigger] parts@[c]).matches(layout),
        forall|c: int, j: int| 0 <= c < parts@.len() && 0 <= j < layout.fields@.len() ==>
            (#[trigger] parts@[c].columns@[j]).data@ == column_of(
                payload@.subrange(bounds@[c] * layout.stride, bounds@[c + 1] * layout.stride),
                layout.stride as nat, layout.offset_of(j), layout.width_of(j), (bounds@[c + 1] - bounds@[c]) as nat),
    ensures
        b.wf(),
        b.points == points,
        b.matches(layout),
        forall|j: int| 0 <= j < layout.fields@.len() ==>
            (#[trigger] b.columns@[j]).data@ == column_of(payload@, layout.stride as nat,
                layout.offset_of(j), layout.width_of(j), points as nat),
{
    let mut names: Vec<Vec<u8>> = Vec::new();
    let mut columns: Vec<Column> = Vec::new();
    let mut j: usize = 0;
    while j < layout.fields.len()
        invariant
            layout.wf(),
            points * layout.stride <= payload@.len(),
            j <= layout.fields@.len(),
            names@.len() == j,
            columns@.len() == j,
            forall|q: int| 0 <= q < j ==> (#[trigger] names@[q])@ == layout.fields@[q].name@,
            forall|q: int| 0 <= q < j ==> (#[trigger] columns@[q]).kind == layout.fields@[q].kind,
            forall|q: int| 0 <= q < j ==> (#[trigger] columns@[q]).data@ == column_of(payload@, layout.stride as nat,
                layout.offset_of(q), layout.width_of(q), points as nat),
        decreases layout.fields@.len() - j,
    {
        let f = &layout.fields[j];
        let w = f.kind.width();
        proof {
            lemma_widths_sum_mono(layout.kinds(), j as int, layout.fields@.len() as int);
            assert(layout.kinds()[j as int] == f.kind);
        }
        let mut data: Vec<u8> = Vec::new();
        proof {
            assert(data@ =~= column_of(payload@, layout.stride as nat, f.offset as nat, w as nat, 0));
        }
        let mut c: usize = 0;
        while c < parts.len()
            invariant
                layout.wf(),
                j < layout.fields@.len(),
                f == layout.fields@[j as int],
                w == f.kind.width_spec(),
                w > 0,
                f.offset + w <= layout.stride,
                points * layout.stride <= payload@.len(),
                c <= parts@.len(),
                parts@.len() == bounds@.len() - 1,
                bounds@[bounds@.len() - 1] == points,
                forall|c: int| 0 <= c < bounds@.len() - 1 ==> #[trigger] bounds@[c] < bounds@[c + 1],
                forall|c: int| 0 <= c < parts@.len() ==> (#[trigger] parts@[c]).matches(layout),
                forall|c: int, j: int| 0 <= c < parts@.len() && 0 <= j < layout.fields@.len() ==>
                    (#[trigger] parts@[c].columns@[j]).data@ == column_of(
                        payload@.subrange(bounds@[c] * layout.stride, bounds@[c + 1] * layout.stride),
                        layout.stride as nat, layout.offset_of(j), layout.width_of(j), (bounds@[c + 1] - bounds@[c]) as nat),
                data@ == column_of(payload@, layout.stride as nat, f.offset as nat, w as nat, bounds@[c as int] as nat),
            decreases parts@.len() - c,
        {
            proof {
                lemma_bounds_le(bounds@, c as int + 1);
                lemma_mul_le(bounds@[c as int + 1] as int, points as int, layout.stride as int);
                lemma_column_of_split(payload@, layout.stride as nat, f.offset as nat, w as nat,
                    bounds@[c as int] as nat, bounds@[c as int + 1] as nat);
                assert(parts@[c as int].columns@.len() == layout.fields@.len());
            }
            push_all(&mut data, parts[c].columns[j].data.as_slice());
            c = c + 1;
        }
        let mut name: Vec<u8> = Vec::new();
        push_all(&mut name, f.name.as_slice());
        assert(name@ =~= f.name@);
        let ghost on = names@;
        let ghost oc = columns@;
        names.push(name);
        columns.push(Column { kind: f.kind, data });
        proof {
            assert forall|q: int| 0 <= q < j + 1 implies (#[trigger] names@[q])@ == layout.fields@[q].name@ by {
                if q < j { assert(names@[q] == on[q]); }
            }
            assert forall|q: int| 0 <= q < j + 1 implies (#[trigger] columns@[q]).kind == layout.fields@[q].kind by {
                if q < j { assert(columns@[q] == oc[q]); }
            }
            assert forall|q: int| 0 <= q < j + 1 implies (#[trigger] columns@[q]).data@ == column_of(payload@, layout.stride as nat,
                layout.offset_of(q), layout.width_of(q), points as nat) by {
                if q < j { assert(columns@[q] == oc[q]); }
            }
        }
        j = j + 1;
    }
    let b = PointBlock { names, columns, points };
    proof {
        assert forall|q: int| 0 <= q < b.columns@.len() implies (#[trigger] b.columns@[q]).holds(points as nat) by {
            let w = layout.width_of(q) as int;
            assert(b.columns@[q].data@.len() == points * w);
        }
        assert forall|q: int| 0 <= q < layout.fields@.len() implies {
            &&& (#[trigger] b.names@[q])@ == layout.fields@[q].name@
            &&& b.columns@[q].kind == layout.fields@[q].kind
        } by {
            assert(b.columns@[q].kind == layout.fields@[q].kind);
        }
    }
    b
}

proof fn lemma_bounds_le(b: Seq<usize>, c: int)
    requires
        0 <= c < b.len(),
        forall|q: int| 0 <= q < b.len() - 1 ==> #[trigger] b[q] < b[q + 1],
    ensures
        b[c] <= b[b.len() - 1],
    decreases b.len() - c,
{
    if c < b.len() - 1 {
        lemma_bounds_le(b, c + 1);
    }
}

} // verus!
