use vstd::prelude::*;
use vstd::bytes::{spec_u32_from_le_bytes, spec_u32_to_le_bytes, u32_from_le_bytes, u32_to_le_bytes};
use crate::binary::{all_hold, kinds_of};
use crate::block::{Column, PointBlock};
use crate::error::PcdError;
use crate::layout::{lemma_widths_sum_mono, widths_sum, Layout};
use crate::text::push_all;

verus! {

/// What `lzf::decompress` returns for these bytes and output bound, when it succeeds.
pub uninterp spec fn lzf_unpacked(data: Seq<u8>, bound: nat) -> Option<Seq<u8>>;

/// The bytes that a stream made of literal runs only stands for: each run
/// is a control byte `c < 32` followed by `c + 1` bytes copied as they are.
pub open spec fn literal_content(data: Seq<u8>) -> Option<Seq<u8>>
    decreases data.len(),
{
    if data.len() == 0 {
        Some(seq![])
    } else if data[0] < 32 && data[0] + 2 <= data.len() {
        match literal_content(data.subrange(data[0] + 2, data.len() as int)) {
            Some(rest) => Some(data.subrange(1, data[0] + 2) + rest),
            None => None,
        }
    } else {
        None
    }
}

/// Relies on lzf::decompress: the result depends on the input and the bound
/// alone, and is never longer than the bound; a non-empty stream of literal
/// runs (control bytes below 32) whose bytes fit the bound decompresses to
/// those bytes.
#[verifier::external_body]
fn lzf_decompress(data: &[u8], bound: usize) -> (r: Option<Vec<u8>>)
    requires
        bound <= MAX_UNPACKED,
    ensures
        r matches Some(v) ==> lzf_unpacked(data@, bound as nat) == Some(v@) && v@.len() <= bound,
        r is None ==> lzf_unpacked(data@, bound as nat) is None,
        (data@.len() > 0 && literal_content(data@) is Some && literal_content(data@).unwrap().len() <= bound)
            ==> (r is Some && r.unwrap()@ == literal_content(data@).unwrap()),
{
    lzf::decompress(data, bound).ok()
}

/// Largest uncompressed block that is handed to the decompressor: its
/// back-reference arithmetic is done in 32-bit signed integers.
pub const MAX_UNPACKED: usize = 2147483647;

/// The column-major concatenation of the first `m` columns.
pub open spec fn column_major(cols: Seq<Column>, m: int) -> Seq<u8>
    decreases m,
{
    if m <= 0 {
        seq![]
    } else {
        column_major(cols, m - 1) + cols[m - 1].data@
    }
}

/// The bytes of column `j` within a column-major buffer of `points` rows.
pub open spec fn column_run(scratch: Seq<u8>, points: nat, off: nat, w: nat) -> Seq<u8> {
    scratch.subrange((points * off) as int, (points * (off + w)) as int)
}

/// Maximal length of one literal run of the block format.
pub const MAX_LITERAL_RUN: usize = 32;

/// A block-format stream made of literal runs only: each run of up to 32
/// bytes is preceded by its length minus one.
pub open spec fn literal_runs(data: Seq<u8>) -> Seq<u8>
    decreases data.len(),
{
    if data.len() == 0 {
        seq![]
    } else if data.len() <= MAX_LITERAL_RUN {
        seq![(data.len() - 1) as u8] + data
    } else {
        seq![(MAX_LITERAL_RUN - 1) as u8] + data.subrange(0, MAX_LITERAL_RUN as int)
            + literal_runs(data.subrange(MAX_LITERAL_RUN as int, data.len() as int))
    }
}

/// The block body that the encoder stores for a scratch buffer: its bytes
/// as literal runs of the block format.
pub open spec fn packed_body(scratch: Seq<u8>) -> Seq<u8> {
    literal_runs(scratch)
}

/// A compressed block: compressed length, uncompressed length, body.
pub open spec fn framed(body: Seq<u8>, raw_len: nat) -> Seq<u8> {
    spec_u32_to_le_bytes(body.len() as u32) + spec_u32_to_le_bytes(raw_len as u32) + body
}

/// Writes `data` as literal runs.
fn push_literal_runs(data: &[u8], out: &mut Vec<u8>)
    ensures
        final(out)@ == old(out)@ + literal_runs(data@),
{
    let mut at: usize = 0;
    proof {
        assert(data@.subrange(0, data@.len() as int) =~= data@);
    }
    while at < data.len()
        invariant
            at <= data@.len(),
            old(out)@ + literal_runs(data@) == out@ + literal_runs(data@.subrange(at as int, data@.len() as int)),
        decreases data@.len() - at,
    {
        let rest = data.len() - at;
        let run: usize = if rest <= MAX_LITERAL_RUN { rest } else { MAX_LITERAL_RUN };
        let ghost tail = data@.subrange(at as int, data@.len() as int);
        out.push((run - 1) as u8);
        push_all(out, &data[at..at + run]);
        proof {
            assert(data@.subrange(at as int, (at + run) as int) =~= tail.subrange(0, run as int));
            assert(data@.subrange((at + run) as int, data@.len() as int)
                =~= tail.subrange(run as int, tail.len() as int));
            if rest <= MAX_LITERAL_RUN {
                assert(tail.subrange(0, run as int) =~= tail);
                assert(tail.subrange(run as int, tail.len() as int) =~= Seq::<u8>::empty());
            }
            assert(out@ + literal_runs(data@.subrange((at + run) as int, data@.len() as int))
                =~= old(out)@ + literal_runs(data@));
        }
        at = at + run;
    }
    proof {
        assert(data@.subrange(at as int, data@.len() as int) =~= Seq::<u8>::empty());
        assert(out@ =~= old(out)@ + literal_runs(data@));
    }
}

/// The compressed length announced by a block.
pub open spec fn announced_packed(payload: Seq<u8>) -> nat {
    spec_u32_from_le_bytes(payload.subrange(0, 4)) as nat
}

/// The uncompressed length announced by a block.
pub open spec fn announced_raw(payload: Seq<u8>) -> nat {
    spec_u32_from_le_bytes(payload.subrange(4, 8)) as nat
}

/// The decompressed buffer of a block whose header has been checked:
/// empty for an empty buffer, none for one larger than `MAX_UNPACKED`,
/// otherwise the decompressor's output where it has exactly the announced
/// length.
pub open spec fn unpacked_scratch(payload: Seq<u8>) -> Option<Seq<u8>> {
    let raw = announced_raw(payload);
    let body = payload.subrange(8, 8 + announced_packed(payload) as int);
    if raw == 0 {
        Some(seq![])
    } else if raw > MAX_UNPACKED {
        None
    } else if body.len() > 0 && literal_content(body) is Some && literal_content(body).unwrap().len() == raw {
        literal_content(body)
    } else {
        match lzf_unpacked(payload.subrange(8, 8 + announced_packed(payload) as int), raw) {
            Some(s) => if s.len() == raw { Some(s) } else { None },
            None => None,
        }
    }
}

/// Cuts a column-major buffer of `points` rows into the layout's columns.
pub fn split_column_major(scratch: &[u8], layout: &Layout, points: usize) -> (b: PointBlock)
    requires
        layout.wf(),
        scratch@.len() == points * layout.stride,
    ensures
        b.wf(),
        b.points == points,
        b.matches(layout),
        forall|j: int| 0 <= j < layout.fields@.len() ==>
            (#[trigger] b.columns@[j]).data@ == column_run(scratch@, points as nat, layout.offset_of(j), layout.width_of(j)),
{
    let mut names: Vec<Vec<u8>> = Vec::new();
    let mut columns: Vec<Column> = Vec::new();
    let slen = scratch.len();
    let mut j: usize = 0;
    while j < layout.fields.len()
        invariant
            slen == scratch@.len(),
            layout.wf(),
            scratch@.len() == points * layout.stride,
            j <= layout.fields@.len(),
            names@.len() == j,
            columns@.len() == j,
            forall|q: int| 0 <= q < j ==> (#[trigger] names@[q])@ == layout.fields@[q].name@,
            forall|q: int| 0 <= q < j ==> (#[trigger] columns@[q]).kind == layout.fields@[q].kind,
            forall|q: int| 0 <= q < j ==> (#[trigger] columns@[q]).data@
                == column_run(scratch@, points as nat, layout.offset_of(q), layout.width_of(q)),
        decreases layout.fields@.len() - j,
    {
        let f = &layout.fields[j];
        let w = f.kind.width();
        proof {
            lemma_widths_sum_mono(layout.kinds(), j as int, layout.fields@.len() as int);
            assert(layout.kinds()[j as int] == f.kind);
            let off = f.offset as int;
            assert(points * off <= points * (off + w) <= points * layout.stride) by (nonlinear_arith)
                requires off + w <= layout.stride, w > 0, off >= 0;
            assert(points * (off + w) == points * off + points * w) by (nonlinear_arith);
        }
        let start = points * f.offset;
        let end = points * (f.offset + w);
        let mut data: Vec<u8> = Vec::new();
        push_all(&mut data, &scratch[start..end]);
        let mut name: Vec<u8> = Vec::new();
        push_all(&mut name, f.name.as_slice());
        assert(name@ =~= f.name@);
        let ghost old_names = names@;
        let ghost old_columns = columns@;
        names.push(name);
        columns.push(Column { kind: f.kind, data });
        proof {
            assert(columns@[j as int].data@ =~= column_run(scratch@, points as nat, layout.offset_of(j as int), layout.width_of(j as int)));
            assert forall|q: int| 0 <= q < j + 1 implies (#[trigger] names@[q])@ == layout.fields@[q].name@ by {
                if q < j {
                    assert(names@[q] == old_names[q]);
                }
            }
            assert forall|q: int| 0 <= q < j + 1 implies (#[trigger] columns@[q]).data@
                == column_run(scratch@, points as nat, layout.offset_of(q), layout.width_of(q)) by {
                if q < j {
                    assert(columns@[q] == old_columns[q]);
                }
            }
            assert forall|q: int| 0 <= q < j + 1 implies (#[trigger] columns@[q]).kind == layout.fields@[q].kind by {
                if q < j {
                    assert(columns@[q] == old_columns[q]);
                }
            }
        }
        j = j + 1;
    }
    let b = PointBlock { names, columns, points };
    proof {
        assert forall|q: int| 0 <= q < layout.fields@.len() implies {
            &&& (#[trigger] b.names@[q])@ == layout.fields@[q].name@
            &&& b.columns@[q].kind == layout.fields@[q].kind
        } by {
            assert(b.names@[q]@ == layout.fields@[q].name@);
        }
        assert forall|q: int| 0 <= q < b.columns@.len() implies (#[trigger] b.columns@[q]).holds(points as nat) by {
            lemma_widths_sum_mono(layout.kinds(), q, layout.fields@.len() as int);
            assert(layout.kinds()[q] == b.columns@[q].kind);
            let off = layout.offset_of(q) as int;
            let w = layout.width_of(q) as int;
            assert(points * (off + w) == points * off + points * w) by (nonlinear_arith);
            assert(points * off <= points * (off + w) <= points * layout.stride) by (nonlinear_arith)
                requires off + w <= layout.stride, w > 0, off >= 0;
            assert(points * w == w * points) by (nonlinear_arith);
        }
    }
    b
}

/// Decodes a compressed block of `points` records. The block's uncompressed
/// length must be `points * stride`, which is checked before anything is
/// decompressed; the decompressed buffer must have exactly that length. The
/// buffer is column-major: column `j` is its run at `points * offset_j`.
pub fn decode_compressed(payload: &[u8], layout: &Layout, points: usize) -> (r: Result<PointBlock, PcdError>)
    requires
        layout.wf(),
    ensures
        r.is_ok() <==> {
            &&& payload@.len() >= 8
            &&& announced_raw(payload@) == points * layout.stride
            &&& announced_packed(payload@) <= payload@.len() - 8
            &&& unpacked_scratch(payload@) is Some
        },
        r matches Err(e) ==> e is Decompression,
        payload@.len() >= 8 && announced_raw(payload@) != points * layout.stride ==> r == Err::<PointBlock, PcdError>(
            PcdError::Decompression(
                if points * layout.stride <= usize::MAX { (points * layout.stride) as usize } else { usize::MAX },
                announced_raw(payload@) as usize)),
        r matches Ok(b) ==> {
            &&& b.wf()
            &&& b.points == points
            &&& b.matches(layout)
            &&& forall|j: int| 0 <= j < layout.fields@.len() ==>
                (#[trigger] b.columns@[j]).data@ == column_run(unpacked_scratch(payload@).unwrap(), points as nat,
                    layout.offset_of(j), layout.width_of(j))
        },
{
    if payload.len() < 8 {
        return Err(PcdError::Decompression(8, payload.len()));
    }
    let packed = u32_from_le_bytes(&payload[0..4]) as usize;
    let raw = u32_from_le_bytes(&payload[4..8]) as usize;
    let need = match points.checked_mul(layout.stride) {
        Some(n) => n,
        None => {
            return Err(PcdError::Decompression(usize::MAX, raw));
        },
    };
    if raw != need {
        return Err(PcdError::Decompression(need, raw));
    }
    if packed > payload.len() - 8 {
        return Err(PcdError::Decompression(packed, payload.len() - 8));
    }
    if raw == 0 {
        let empty: Vec<u8> = Vec::new();
        return Ok(split_column_major(empty.as_slice(), layout, points));
    }
    if raw > MAX_UNPACKED {
        return Err(PcdError::Decompression(raw, 0));
    }
    let scratch = match lzf_decompress(&payload[8..8 + packed], raw) {
        Some(s) => s,
        None => {
            return Err(PcdError::Decompression(raw, 0));
        },
    };
    if scratch.len() != raw {
        return Err(PcdError::Decompression(raw, scratch.len()));
    }
    Ok(split_column_major(scratch.as_slice(), layout, points))
}

/// Encodes a block as a compressed block: the columns are concatenated in
/// order (column-major), compressed, and framed by the compressed and the
/// uncompressed length. Fails with `Compression` exactly when a length does
/// not fit the 32-bit frame.
pub fn encode_compressed(block: &PointBlock) -> (r: Result<Vec<u8>, PcdError>)
    requires
        block.wf(),
    ensures
        r.is_ok() <==> column_major(block.columns@, block.columns@.len() as int).len() <= MAX_UNPACKED,
        r matches Err(e) ==> e == PcdError::Compression,
        r matches Ok(v) ==> {
            let scratch = column_major(block.columns@, block.columns@.len() as int);
            v@ == framed(packed_body(scratch), scratch.len())
        },
{
    let mut scratch: Vec<u8> = Vec::new();
    let mut j: usize = 0;
    while j < block.columns.len()
        invariant
            j <= block.columns@.len(),
            scratch@ == column_major(block.columns@, j as int),
        decreases block.columns@.len() - j,
    {
        push_all(&mut scratch, block.columns[j].data.as_slice());
        j = j + 1;
    }
    if scratch.len() > MAX_UNPACKED {
        return Err(PcdError::Compression);
    }
    let mut body: Vec<u8> = Vec::new();
    push_literal_runs(scratch.as_slice(), &mut body);
    proof {
        assert(body@ =~= literal_runs(scratch@));
        lemma_literal_runs_len(scratch@);
    }
    let mut out = u32_to_le_bytes(body.len() as u32);
    let raw = u32_to_le_bytes(scratch.len() as u32);
    push_all(&mut out, raw.as_slice());
    push_all(&mut out, body.as_slice());
    Ok(out)
}

/// Literal runs at most double the length of their bytes.
proof fn lemma_literal_runs_len(d: Seq<u8>)
    ensures
        literal_runs(d).len() <= 2 * d.len(),
        d.len() > 0 ==> literal_runs(d).len() > 0,
    decreases d.len(),
{
    if d.len() > MAX_LITERAL_RUN {
        lemma_literal_runs_len(d.subrange(MAX_LITERAL_RUN as int, d.len() as int));
    }
}

/// Literal runs stand for the bytes they were made of.
pub proof fn lemma_literal_runs_content(d: Seq<u8>)
    ensures
        literal_content(literal_runs(d)) == Some(d),
    decreases d.len(),
{
    let l = literal_runs(d);
    if d.len() == 0 {
    } else if d.len() <= MAX_LITERAL_RUN {
        assert(l[0] == (d.len() - 1) as u8);
        assert(l.subrange(1, d.len() as int + 1) =~= d);
        assert(l.len() == d.len() + 1);
        assert(l.subrange(d.len() as int + 1, l.len() as int) =~= Seq::<u8>::empty());
        assert(literal_content(Seq::<u8>::empty()) == Some(Seq::<u8>::empty()));
        assert(d + Seq::<u8>::empty() =~= d);
        assert(literal_content(l) == Some(l.subrange(1, d.len() as int + 1) + Seq::<u8>::empty()));
    } else {
        let rest = d.subrange(MAX_LITERAL_RUN as int, d.len() as int);
        lemma_literal_runs_content(rest);
        assert(l[0] == 31u8);
        assert(l.subrange(1, 33) =~= d.subrange(0, 32));
        assert(l.subrange(33, l.len() as int) =~= literal_runs(rest));
        assert(d.subrange(0, 32) + rest =~= d);
        lemma_literal_runs_len(rest);
        assert(l.len() == 33 + literal_runs(rest).len());
        assert(literal_content(l) == Some(l.subrange(1, 33) + literal_content(literal_runs(rest)).unwrap()));
    }
}

/// Decoding a block that the encoder framed gives back its column-major
/// buffer: the frame announces the body's and the buffer's lengths, and the
/// body's literal runs decompress to the buffer.
pub proof fn lemma_compressed_block_round_trip(scratch: Seq<u8>)
    requires
        scratch.len() <= MAX_UNPACKED,
    ensures
        framed(packed_body(scratch), scratch.len()).len() >= 8,
        announced_raw(framed(packed_body(scratch), scratch.len())) == scratch.len(),
        announced_packed(framed(packed_body(scratch), scratch.len())) <= framed(packed_body(scratch), scratch.len()).len() - 8,
        unpacked_scratch(framed(packed_body(scratch), scratch.len())) == Some(scratch),
{
    let body = literal_runs(scratch);
    lemma_literal_runs_len(scratch);
    lemma_literal_runs_content(scratch);
    lemma_frame_fields(body, scratch.len());
}

/// Length of the column-major buffer of columns holding `n` elements each.
proof fn lemma_column_major_len(cols: Seq<Column>, m: int, n: nat)
    requires
        0 <= m <= cols.len(),
        all_hold(cols, n),
    ensures
        column_major(cols, m).len() == n * widths_sum(kinds_of(cols), m),
    decreases m,
{
    if m > 0 {
        lemma_column_major_len(cols, m - 1, n);
        assert(cols[m - 1].holds(n));
        let a = widths_sum(kinds_of(cols), m - 1) as int;
        let w = cols[m - 1].kind.width_spec() as int;
        assert(n * (a + w) == n * a + n * w) by (nonlinear_arith);
        assert(n * w == w * n) by (nonlinear_arith);
    } else {
        assert(n * 0 == 0) by (nonlinear_arith);
    }
}

/// Column `j` is the run of the column-major buffer at `n * offset_j`.
proof fn lemma_column_major_run(cols: Seq<Column>, m: int, n: nat, j: int)
    requires
        0 <= j < m <= cols.len(),
        all_hold(cols, n),
    ensures
        column_run(column_major(cols, m), n, widths_sum(kinds_of(cols), j), cols[j].kind.width_spec())
            == cols[j].data@,
    decreases m,
{
    lemma_column_major_len(cols, m - 1, n);
    lemma_column_major_len(cols, m, n);
    let o = widths_sum(kinds_of(cols), j) as int;
    let w = cols[j].kind.width_spec() as int;
    assert(kinds_of(cols)[j] == cols[j].kind);
    assert(cols[j].holds(n));
    assert(n * (o + w) == n * o + n * w) by (nonlinear_arith);
    assert(n * w == w * n) by (nonlinear_arith);
    if j < m - 1 {
        lemma_column_major_run(cols, m - 1, n, j);
        lemma_widths_sum_mono(kinds_of(cols), j, m - 1);
        let a = widths_sum(kinds_of(cols), m - 1) as int;
        assert(n * (o + w) <= n * a) by (nonlinear_arith) requires o + w <= a;
        assert(column_major(cols, m) == column_major(cols, m - 1) + cols[m - 1].data@);
        assert(column_run(column_major(cols, m), n, o as nat, w as nat)
            =~= column_run(column_major(cols, m - 1), n, o as nat, w as nat));
    } else {
        assert(column_major(cols, m) == column_major(cols, m - 1) + cols[m - 1].data@);
        assert(column_run(column_major(cols, m), n, o as nat, w as nat) =~= cols[j].data@);
    }
}

/// Cutting the column-major concatenation of a block's columns along a
/// layout with the same kinds gives back every column.
pub proof fn lemma_column_major_round_trip(b: PointBlock, l: Layout)
    requires
        b.wf(),
        l.wf(),
        l.kinds() == kinds_of(b.columns@),
    ensures
        column_major(b.columns@, b.columns@.len() as int).len() == b.points * l.stride,
        forall|j: int| 0 <= j < l.fields@.len() ==>
            column_run(column_major(b.columns@, b.columns@.len() as int), b.points as nat, l.offset_of(j), l.width_of(j))
                == (#[trigger] b.columns@[j]).data@,
{
    let cols = b.columns@;
    assert(l.fields@.len() == cols.len()) by {
        assert(l.kinds().len() == kinds_of(cols).len());
    }
    lemma_column_major_len(cols, cols.len() as int, b.points as nat);
    assert forall|j: int| 0 <= j < l.fields@.len() implies
        column_run(column_major(cols, cols.len() as int), b.points as nat, l.offset_of(j), l.width_of(j))
            == (#[trigger] b.columns@[j]).data@ by {
        assert(l.kinds()[j] == cols[j].kind);
        lemma_column_major_run(cols, cols.len() as int, b.points as nat, j);
    }
}

/// Decoding the compressed encoding of a block gives back every column:
/// the frame passes the decoder's checks for a layout with the block's
/// kinds, and each column's run of the decompressed buffer is the column.
pub proof fn lemma_compressed_round_trip(b: PointBlock, l: Layout)
    requires
        b.wf(),
        l.wf(),
        l.kinds() == kinds_of(b.columns@),
        column_major(b.columns@, b.columns@.len() as int).len() <= MAX_UNPACKED,
    ensures ({
        let scratch = column_major(b.columns@, b.columns@.len() as int);
        let payload = framed(packed_body(scratch), scratch.len());
        &&& payload.len() >= 8
        &&& announced_raw(payload) == b.points * l.stride
        &&& announced_packed(payload) <= payload.len() - 8
        &&& unpacked_scratch(payload) == Some(scratch)
        &&& forall|j: int| 0 <= j < l.fields@.len() ==>
            column_run(unpacked_scratch(payload).unwrap(), b.points as nat, l.offset_of(j), l.width_of(j))
                == (#[trigger] b.columns@[j]).data@
    }),
{
    let scratch = column_major(b.columns@, b.columns@.len() as int);
    lemma_compressed_block_round_trip(scratch);
    lemma_column_major_round_trip(b, l);
}

/// A block frame announces its body's length and the uncompressed length,
/// and carries the body right after them.
pub proof fn lemma_frame_fields(body: Seq<u8>, raw_len: nat)
    requires
        body.len() <= u32::MAX,
        raw_len <= u32::MAX,
    ensures
        framed(body, raw_len).len() == 8 + body.len(),
        announced_packed(framed(body, raw_len)) == body.len(),
        announced_raw(framed(body, raw_len)) == raw_len,
        framed(body, raw_len).subrange(8, 8 + body.len() as int) == body,
{
    vstd::bytes::lemma_auto_spec_u32_to_from_le_bytes();
    let f = framed(body, raw_len);
    let a = spec_u32_to_le_bytes(body.len() as u32);
    let c = spec_u32_to_le_bytes(raw_len as u32);
    assert(f.subrange(0, 4) =~= a);
    assert(f.subrange(4, 8) =~= c);
    assert(f.subrange(8, 8 + body.len() as int) =~= body);
}

} // verus!
