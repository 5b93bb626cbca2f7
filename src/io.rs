use vstd::prelude::*;
use crate::ascii::{cells_bytes, decode_ascii, encode_ascii, float_text_ok};
use crate::binary::{binary_payload, column_of, decode_binary_par, encode_binary};
use crate::block::{Column, PointBlock};
use crate::compressed::{column_run, decode_compressed, encode_compressed, unpacked_scratch};
use crate::error::PcdError;
use crate::header::{decimals, header_text, letters, parse_header, record_line, views, write_header, DataFormat, PcdHeader, format_token};
use crate::text::decimal;
use crate::ascii::ascii_text;
use crate::compressed::{column_major, framed, packed_body, MAX_UNPACKED};
use crate::layout::{declared_stride, derive_layout, expand_field, expand_fields, layout_ok, all_kinds_valid, lemma_widths_sum_mono, Layout};
use crate::kind::{kind_of, ValueKind};
use crate::header::{header_ok, header_read_from, records_from, records_valid};
use crate::compressed::{announced_packed, announced_raw};
use crate::ascii::{ascii_input_ok, ascii_lines, cell_bytes};
use crate::text::tokens_of;
use crate::text::push_all;

verus! {

/// What a caller learns of a header: version, grid size, point count,
/// viewpoint text and field names.
pub struct MetaData {
    pub version: Vec<u8>,
    pub width: u32,
    pub height: u32,
    pub points: usize,
    pub viewpoint: Vec<Vec<u8>>,
    pub fields: Vec<Vec<u8>>,
}

/// A decoded point cloud. For an ascii payload `float_tokens[j]` holds the
/// text of floating-point column `j`, row by row, whose elements in `block`
/// are still zero; it is empty otherwise.
pub struct PcdRead {
    pub meta: MetaData,
    /// The physical columns that the header declares.
    pub layout: Layout,
    /// The payload's encoding.
    pub format: DataFormat,
    /// Offset of the first payload byte, just after the header.
    pub payload_start: usize,
    pub block: PointBlock,
    pub float_tokens: Vec<Vec<Vec<u8>>>,
}

fn copy_tokens(v: &Vec<Vec<u8>>) -> (r: Vec<Vec<u8>>)
    ensures
        r@.len() == v@.len(),
        forall|i: int| 0 <= i < v@.len() ==> (#[trigger] r@[i])@ == v@[i]@,
{
    let mut out: Vec<Vec<u8>> = Vec::new();
    let mut i: usize = 0;
    while i < v.len()
        invariant
            i <= v@.len(),
            out@.len() == i,
            forall|q: int| 0 <= q < i ==> (#[trigger] out@[q])@ == v@[q]@,
        decreases v@.len() - i,
    {
        let mut t: Vec<u8> = Vec::new();
        push_all(&mut t, v[i].as_slice());
        assert(t@ =~= v@[i as int]@);
        out.push(t);
        i = i + 1;
    }
    out
}

impl MetaData {
    /// The summary of a header.
    pub fn from_header(h: &PcdHeader) -> (r: MetaData)
        ensures
            r.version@ == h.version@,
            r.width == h.width,
            r.height == h.height,
            r.points == h.points,
            r.viewpoint@.len() == h.viewpoint@.len(),
            r.fields@.len() == h.fields@.len(),
            forall|i: int| 0 <= i < h.fields@.len() ==> (#[trigger] r.fields@[i])@ == h.fields@[i]@,
            forall|i: int| 0 <= i < h.viewpoint@.len() ==> (#[trigger] r.viewpoint@[i])@ == h.viewpoint@[i]@,
    {
        let mut version: Vec<u8> = Vec::new();
        push_all(&mut version, h.version.as_slice());
        assert(version@ =~= h.version@);
        MetaData {
            version,
            width: h.width,
            height: h.height,
            points: h.points,
            viewpoint: copy_tokens(&h.viewpoint),
            fields: copy_tokens(&h.fields),
        }
    }
}

/// Every integer column holds what its cells say, every column has one
/// token per point.
pub open spec fn ascii_decoded(b: PointBlock, l: Layout, tokens: Seq<Vec<Vec<u8>>>) -> bool {
    &&& tokens.len() == l.fields@.len()
    &&& forall|j: int| 0 <= j < l.fields@.len() ==> (#[trigger] tokens[j])@.len() == b.points
    &&& forall|j: int| 0 <= j < l.fields@.len() && !l.fields@[j].kind.is_float() ==>
        (#[trigger] b.columns@[j]).data@ == cells_bytes(tokens[j]@, l.fields@[j].kind, b.points as int)
}

/// `h` is the header that the text starts with, and the payload starts at `pos`.
pub open spec fn parses_to(s: Seq<u8>, h: PcdHeader, pos: int) -> bool {
    &&& h.wf()
    &&& records_from(s, 0, 10) matches Some((recs, e)) && e == pos && header_read_from(h, recs) && records_valid(recs)
}

/// The kinds of the physical columns that a header declares.
pub open spec fn declared_kinds(h: PcdHeader) -> Seq<ValueKind> {
    expand_fields(h, h.fields@.len() as int).map_values(|p: (Seq<u8>, ValueKind)| p.1)
}

/// An ascii payload decodes for these column kinds.
pub open spec fn ascii_kinds_ok(s: Seq<u8>, kinds: Seq<ValueKind>, n: nat) -> bool {
    ascii_lines(s, n) matches Some(ls) && {
        &&& forall|q: int| 0 <= q < n ==> (#[trigger] tokens_of(ls[q])).len() == kinds.len()
        &&& forall|q: int, j: int| 0 <= q < n && 0 <= j < kinds.len() && !kinds[j].is_float() ==>
            (#[trigger] cell_bytes(tokens_of(ls[q])[j], kinds[j])) is Some
    }
}

/// The payload after a header decodes by the header's encoding: a binary
/// payload has `points * stride` bytes, a compressed block passes
/// `decode_compressed`'s checks, an ascii payload has well-formed lines.
pub open spec fn payload_ok(payload: Seq<u8>, h: PcdHeader) -> bool {
    let stride = declared_stride(h, h.fields@.len() as int);
    match h.data {
        DataFormat::Binary => h.points * stride <= payload.len(),
        DataFormat::BinaryCompressed => {
            &&& payload.len() >= 8
            &&& announced_raw(payload) == h.points * stride
            &&& announced_packed(payload) <= payload.len() - 8
            &&& unpacked_scratch(payload) is Some
        },
        DataFormat::Ascii => h.points * stride <= usize::MAX && ascii_kinds_ok(payload, declared_kinds(h), h.points as nat),
    }
}

/// The whole text reads: its header parses, its layout can be derived, and
/// its payload decodes.
pub open spec fn readable(s: Seq<u8>) -> bool {
    exists|h: PcdHeader, pos: int| #[trigger] parses_to(s, h, pos) && layout_ok(h) && payload_ok(s.subrange(pos, s.len() as int), h)
}

/// The error of a read whose header is `h`: `Layout` when no layout can be
/// derived, then by encoding `TruncatedData`, `Decompression` or `Decode`
/// when the payload does not decode (`TruncatedData` also for an ascii cloud
/// whose records could not fit in memory).
pub open spec fn failure_kind(s: Seq<u8>, h: PcdHeader, pos: int, r: Result<PcdRead, PcdError>) -> bool {
    let payload = s.subrange(pos, s.len() as int);
    &&& !layout_ok(h) ==> (r matches Err(PcdError::Layout(_)))
    &&& layout_ok(h) && !payload_ok(payload, h) ==> match h.data {
        DataFormat::Binary => r matches Err(PcdError::TruncatedData(_, _)),
        DataFormat::BinaryCompressed => r matches Err(PcdError::Decompression(_, _)),
        DataFormat::Ascii => (r matches Err(PcdError::Decode(_, _)))
            || (h.points * declared_stride(h, h.fields@.len() as int) > usize::MAX
                && (r matches Err(PcdError::TruncatedData(_, _)))),
    }
}

/// Two headers read from the same records agree on everything a read uses.
proof fn lemma_same_header(h1: PcdHeader, h2: PcdHeader, recs: Seq<Seq<Seq<u8>>>)
    requires
        h1.wf(),
        h2.wf(),
        header_read_from(h1, recs),
        header_read_from(h2, recs),
    ensures
        h1.fields@.len() == h2.fields@.len(),
        h1.points == h2.points,
        h1.data == h2.data,
        expand_fields(h1, h1.fields@.len() as int) == expand_fields(h2, h2.fields@.len() as int),
        declared_stride(h1, h1.fields@.len() as int) == declared_stride(h2, h2.fields@.len() as int),
        layout_ok(h1) == layout_ok(h2),
{
    let n = h1.fields@.len() as int;
    assert(views(h1.fields@).len() == views(h2.fields@).len());
    assert forall|i: int| 0 <= i < n implies {
        &&& #[trigger] h1.fields@[i]@ == h2.fields@[i]@
        &&& h1.sizes@[i] == h2.sizes@[i]
        &&& h1.types@[i] == h2.types@[i]
        &&& h1.counts@[i] == h2.counts@[i]
    } by {
        assert(views(h1.fields@)[i] == h1.fields@[i]@);
        assert(views(h2.fields@)[i] == h2.fields@[i]@);
        assert(seq![h1.types@[i]][0] == h1.types@[i]);
        assert(seq![h2.types@[i]][0] == h2.types@[i]);
    }
    lemma_same_expand(h1, h2, n);
    assert(all_kinds_valid(h1) == all_kinds_valid(h2)) by {
        if all_kinds_valid(h1) {
            assert forall|i: int| 0 <= i < n implies (#[trigger] kind_of(h2.sizes@[i] as nat, h2.types@[i])).is_some() by {
                assert(h1.fields@[i]@ == h2.fields@[i]@);
                assert(kind_of(h1.sizes@[i] as nat, h1.types@[i]).is_some());
            }
        }
        if all_kinds_valid(h2) {
            assert forall|i: int| 0 <= i < n implies (#[trigger] kind_of(h1.sizes@[i] as nat, h1.types@[i])).is_some() by {
                assert(h1.fields@[i]@ == h2.fields@[i]@);
                assert(kind_of(h2.sizes@[i] as nat, h2.types@[i]).is_some());
            }
        }
    }
    let t1 = format_token(h1.data);
    assert(seq![format_token(h1.data)][0] == format_token(h1.data));
    assert(seq![format_token(h2.data)][0] == format_token(h2.data));
    assert(t1 == format_token(h2.data));
    match h1.data {
        DataFormat::Ascii => { assert(t1.len() == 5); },
        DataFormat::Binary => { assert(t1.len() == 6); },
        DataFormat::BinaryCompressed => { assert(t1.len() == 17); },
    }
    match h2.data {
        DataFormat::Ascii => { assert(format_token(h2.data).len() == 5); },
        DataFormat::Binary => { assert(format_token(h2.data).len() == 6); },
        DataFormat::BinaryCompressed => { assert(format_token(h2.data).len() == 17); },
    }
}

proof fn lemma_same_expand(h1: PcdHeader, h2: PcdHeader, m: int)
    requires
        h1.wf(),
        h2.wf(),
        0 <= m <= h1.fields@.len(),
        h1.fields@.len() == h2.fields@.len(),
        forall|i: int| 0 <= i < h1.fields@.len() ==> {
            &&& #[trigger] h1.fields@[i]@ == h2.fields@[i]@
            &&& h1.sizes@[i] == h2.sizes@[i]
            &&& h1.types@[i] == h2.types@[i]
            &&& h1.counts@[i] == h2.counts@[i]
        },
    ensures
        expand_fields(h1, m) == expand_fields(h2, m),
        declared_stride(h1, m) == declared_stride(h2, m),
    decreases m,
{
    if m > 0 {
        lemma_same_expand(h1, h2, m - 1);
        assert(h1.fields@[m - 1]@ == h2.fields@[m - 1]@);
        assert(expand_field(h1, m - 1) == expand_field(h2, m - 1));
    }
}

/// Reads a whole PCD file held in memory: parses the header, derives the
/// layout, and decodes the payload after the `DATA` line by its encoding,
/// binary payloads over at most `workers` row ranges. Succeeds exactly when
/// the text is `readable`; the result's layout, encoding, metadata and
/// payload offset are those of the header that the text starts with.
#[verifier::rlimit(100)]
pub fn read_from_buffer(data: &[u8], workers: usize) -> (r: Result<PcdRead, PcdError>)
    ensures
        r.is_ok() <==> readable(data@),
        !header_ok(data@) ==> r matches Err(PcdError::Header(_)),
        forall|h: PcdHeader, pos: int| #[trigger] parses_to(data@, h, pos) ==> failure_kind(data@, h, pos, r),
        r matches Ok(p) ==> exists|h: PcdHeader| {
            &&& #[trigger] parses_to(data@, h, p.payload_start as int)
            &&& p.layout.pairs() == expand_fields(h, h.fields@.len() as int)
            &&& p.layout.stride == declared_stride(h, h.fields@.len() as int)
            &&& p.format == h.data
            &&& p.block.points == h.points
            &&& p.meta.version@ == h.version@ && p.meta.width == h.width && p.meta.height == h.height
            &&& p.meta.points == h.points
            &&& views(p.meta.fields@) == views(h.fields@) && views(p.meta.viewpoint@) == views(h.viewpoint@)
        },
        r matches Ok(p) ==> {
            let payload = data@.subrange(p.payload_start as int, data@.len() as int);
            &&& p.layout.wf()
            &&& p.block.wf()
            &&& p.block.matches(&p.layout)
            &&& p.block.points == p.meta.points
            &&& p.payload_start <= data@.len()
            &&& p.block.columns@.len() >= p.meta.fields@.len()
            &&& p.format == DataFormat::Binary ==> forall|j: int| 0 <= j < p.layout.fields@.len() ==>
                (#[trigger] p.block.columns@[j]).data@ == column_of(payload, p.layout.stride as nat,
                    p.layout.offset_of(j), p.layout.width_of(j), p.block.points as nat)
            &&& p.format == DataFormat::BinaryCompressed ==> forall|j: int| 0 <= j < p.layout.fields@.len() ==>
                (#[trigger] p.block.columns@[j]).data@ == column_run(unpacked_scratch(payload).unwrap(),
                    p.block.points as nat, p.layout.offset_of(j), p.layout.width_of(j))
            &&& p.format == DataFormat::Ascii ==> ascii_decoded(p.block, p.layout, p.float_tokens@)
            &&& p.format != DataFormat::Ascii ==> p.float_tokens@.len() == 0
        },
{
    let (header, start) = match parse_header(data) {
        Ok(x) => x,
        Err(e) => {
            proof { lemma_unreadable_header(data@); }
            return Err(e);
        },
    };
    let ghost recs = records_from(data@, 0, 10).unwrap().0;
    proof {
        assert(parses_to(data@, header, start as int));
        assert forall|h: PcdHeader, pos: int| #[trigger] parses_to(data@, h, pos) implies {
            &&& pos == start
            &&& layout_ok(h) == layout_ok(header)
            &&& h.data == header.data
            &&& payload_ok(data@.subrange(pos, data@.len() as int), h) == payload_ok(data@.subrange(pos, data@.len() as int), header)
            &&& declared_stride(h, h.fields@.len() as int) == declared_stride(header, header.fields@.len() as int)
            &&& h.points == header.points
        } by {
            lemma_same_header(header, h, recs);
            assert(declared_kinds(h) == declared_kinds(header));
        }
    }
    let layout = match derive_layout(&header) {
        Ok(l) => l,
        Err(e) => {
            proof { lemma_unreadable_with(data@, header, start as int); }
            return Err(e);
        },
    };
    let payload = &data[start..data.len()];
    let points = header.points;
    proof {
        assert(payload@ =~= data@.subrange(start as int, data@.len() as int));
        assert(layout.kinds() =~= declared_kinds(header)) by {
            assert(layout.pairs().len() == layout.fields@.len());
            assert forall|j: int| 0 <= j < layout.fields@.len() implies layout.kinds()[j] == declared_kinds(header)[j] by {
                assert(layout.pairs()[j].1 == layout.fields@[j].kind);
            }
        }
        lemma_ascii_ok_kinds(payload@, layout, points as nat);
    }
    let (block, float_tokens) = match header.data {
        DataFormat::Binary => {
            match decode_binary_par(payload, &layout, points, workers) {
                Ok(b) => (b, Vec::new()),
                Err(e) => {
                    proof { lemma_unreadable_with(data@, header, start as int); }
                    return Err(e);
                },
            }
        },
        DataFormat::BinaryCompressed => {
            match decode_compressed(payload, &layout, points) {
                Ok(b) => (b, Vec::new()),
                Err(e) => {
                    proof { lemma_unreadable_with(data@, header, start as int); }
                    return Err(e);
                },
            }
        },
        DataFormat::Ascii => {
            if points.checked_mul(layout.stride).is_none() {
                proof { lemma_unreadable_with(data@, header, start as int); }
                return Err(PcdError::TruncatedData(usize::MAX, payload.len()));
            }
            proof {
                assert forall|j: int| 0 <= j < layout.fields@.len() implies
                    points * (#[trigger] layout.fields@[j]).kind.width_spec() <= usize::MAX by {
                    lemma_widths_sum_mono(layout.kinds(), j, layout.fields@.len() as int);
                    assert(layout.kinds()[j] == layout.fields@[j].kind);
                    let w = layout.fields@[j].kind.width_spec();
                    assert(points * w <= points * layout.stride) by (nonlinear_arith)
                        requires w <= layout.stride;
                }
            }
            match decode_ascii(payload, &layout, points) {
                Ok(t) => (t.block, t.tokens),
                Err(e) => {
                    proof { lemma_unreadable_with(data@, header, start as int); }
                    return Err(e);
                },
            }
        },
    };
    let meta = MetaData::from_header(&header);
    proof {
        lemma_layout_covers_fields(&header, &layout);
        assert(parses_to(data@, header, start as int) && layout_ok(header)
            && payload_ok(data@.subrange(start as int, data@.len() as int), header));
        assert(views(meta.fields@) =~= views(header.fields@));
        assert(views(meta.viewpoint@) =~= views(header.viewpoint@));
    }
    Ok(PcdRead { meta, layout, format: header.data, payload_start: start, block, float_tokens })
}

proof fn lemma_ascii_ok_kinds(s: Seq<u8>, l: Layout, n: nat)
    ensures
        ascii_input_ok(s, l, n) == ascii_kinds_ok(s, l.kinds(), n),
{
    let k = l.kinds();
    assert(k.len() == l.fields@.len());
    if let Some(ls) = ascii_lines(s, n) {
        if ascii_input_ok(s, l, n) {
            assert forall|q: int, j: int| 0 <= q < n && 0 <= j < k.len() && !k[j].is_float() implies
                (#[trigger] cell_bytes(tokens_of(ls[q])[j], k[j])) is Some by {
                assert(k[j] == l.fields@[j].kind);
            }
        }
        if ascii_kinds_ok(s, k, n) {
            assert forall|q: int, j: int| 0 <= q < n && 0 <= j < l.fields@.len() && !l.fields@[j].kind.is_float() implies
                (#[trigger] cell_bytes(tokens_of(ls[q])[j], l.fields@[j].kind)) is Some by {
                assert(k[j] == l.fields@[j].kind);
            }
        }
    }
}

/// Without a well-formed header nothing is readable.
proof fn lemma_unreadable_header(s: Seq<u8>)
    requires
        !header_ok(s),
    ensures
        !readable(s),
{
    if readable(s) {
        let (h, pos) = choose|h: PcdHeader, pos: int| #[trigger] parses_to(s, h, pos) && layout_ok(h)
            && payload_ok(s.subrange(pos, s.len() as int), h);
        assert(header_ok(s));
    }
}

/// With header `h` at the start, the text is readable exactly when `h`'s
/// layout and payload are.
proof fn lemma_unreadable_with(s: Seq<u8>, h: PcdHeader, pos: int)
    requires
        parses_to(s, h, pos),
    ensures
        readable(s) <==> layout_ok(h) && payload_ok(s.subrange(pos, s.len() as int), h),
{
    if readable(s) {
        let (h2, pos2) = choose|h2: PcdHeader, pos2: int| #[trigger] parses_to(s, h2, pos2) && layout_ok(h2)
            && payload_ok(s.subrange(pos2, s.len() as int), h2);
        let recs = records_from(s, 0, 10).unwrap().0;
        lemma_same_header(h, h2, recs);
        assert(declared_kinds(h) == declared_kinds(h2));
    }
}

proof fn lemma_layout_covers_fields(h: &PcdHeader, l: &Layout)
    requires
        h.wf(),
        forall|i: int| 0 <= i < h.counts@.len() ==> #[trigger] h.counts@[i] >= 1,
        l.pairs() == crate::layout::expand_fields(*h, h.fields@.len() as int),
    ensures
        l.fields@.len() >= h.fields@.len(),
{
    lemma_expand_len(*h, h.fields@.len() as int);
    assert(l.pairs().len() == l.fields@.len());
}

proof fn lemma_expand_len(h: PcdHeader, m: int)
    requires
        h.wf(),
        0 <= m <= h.fields@.len(),
        forall|i: int| 0 <= i < h.counts@.len() ==> #[trigger] h.counts@[i] >= 1,
    ensures
        crate::layout::expand_fields(h, m).len() >= m,
    decreases m,
{
    if m > 0 {
        lemma_expand_len(h, m - 1);
        assert(h.counts@[m - 1] >= 1);
    }
}

/// Column `q` holds whole elements, as many as column 0.
pub open spec fn whole_and_equal(columns: Seq<Column>, q: int) -> bool {
    &&& columns[q].data@.len() % columns[q].kind.width_spec() == 0
    &&& columns[q].data@.len() / columns[q].kind.width_spec() == columns[0].data@.len() / columns[0].kind.width_spec()
}

/// Checks the columns handed in for writing and gathers them into a block:
/// each column's bytes must be whole elements of its kind, and all columns
/// must have as many elements as the first one. The first column that breaks
/// this is reported, before anything is encoded.
pub fn build_block(names: Vec<Vec<u8>>, columns: Vec<Column>) -> (r: Result<PointBlock, PcdError>)
    ensures
        r.is_ok() <==> names@.len() == columns@.len()
            && (columns@.len() > 0 ==> (forall|j: int| 0 <= j < columns@.len() ==>
                (#[trigger] columns@[j]).data@.len() % columns@[j].kind.width_spec() == 0
                && columns@[j].data@.len() / columns@[j].kind.width_spec()
                    == columns@[0].data@.len() / columns@[0].kind.width_spec())),
        r matches Ok(b) ==> {
            &&& b.wf()
            &&& b.names@ == names@
            &&& b.columns@ == columns@
            &&& columns@.len() > 0 ==> b.points == columns@[0].data@.len() / columns@[0].kind.width_spec()
        },
        r matches Err(e) ==> e is LengthMismatch || e is TypeMismatch,
        names@.len() != columns@.len() ==> r == Err::<PointBlock, PcdError>(PcdError::LengthMismatch(0, names@.len() as usize, columns@.len() as usize)),
        r matches Err(PcdError::TypeMismatch(j)) ==> names@.len() == columns@.len() && j < columns@.len()
            && columns@[j as int].data@.len() % columns@[j as int].kind.width_spec() != 0
            && forall|q: int| 0 <= q < j ==> whole_and_equal(columns@, q),
        r matches Err(PcdError::LengthMismatch(j, expected, actual)) ==> names@.len() != columns@.len() || (
            j < columns@.len() && 0 < columns@.len()
            && columns@[j as int].data@.len() % columns@[j as int].kind.width_spec() == 0
            && actual == columns@[j as int].data@.len() / columns@[j as int].kind.width_spec()
            && expected == columns@[0].data@.len() / columns@[0].kind.width_spec()
            && actual != expected
            && forall|q: int| 0 <= q < j ==> whole_and_equal(columns@, q)),
{
    if names.len() != columns.len() {
        return Err(PcdError::LengthMismatch(0, names.len(), columns.len()));
    }
    let mut points: usize = 0;
    if columns.len() > 0 {
        points = columns[0].data.len() / columns[0].kind.width();
    }
    let mut j: usize = 0;
    while j < columns.len()
        invariant
            j <= columns@.len(),
            columns@.len() > 0 ==> points == columns@[0].data@.len() / columns@[0].kind.width_spec(),
            forall|q: int| 0 <= q < j ==> (#[trigger] columns@[q]).data@.len() % columns@[q].kind.width_spec() == 0
                && columns@[q].data@.len() / columns@[q].kind.width_spec() == points,
            forall|q: int| 0 <= q < j ==> whole_and_equal(columns@, q),
            names@.len() == columns@.len(),
        decreases columns@.len() - j,
    {
        let w = columns[j].kind.width();
        let len = columns[j].data.len();
        if len % w != 0 {
            return Err(PcdError::TypeMismatch(j));
        }
        if len / w != points {
            return Err(PcdError::LengthMismatch(j, points, len / w));
        }
        j = j + 1;
    }
    let b = PointBlock { names, columns, points };
    proof {
        assert forall|q: int| 0 <= q < b.columns@.len() implies (#[trigger] b.columns@[q]).holds(points as nat) by {
            let c = b.columns@[q];
            let w = c.kind.width_spec() as int;
            let l = c.data@.len() as int;
            assert(l % w == 0 && l / w == points);
            assert(l == points * w) by (nonlinear_arith) requires l % w == 0, l / w == points, w > 0;
        }
    }
    Ok(b)
}

/// The header that describes a block: version 0.7, one field per column
/// with count 1, an unorganised cloud of `points` points (height 1).
pub fn header_for(b: &PointBlock, format: DataFormat, viewpoint: &Vec<Vec<u8>>) -> (h: PcdHeader)
    requires
        b.wf(),
        viewpoint@.len() == 7,
    ensures
        h.wf(),
        h.version@ == seq![48u8, 46, 55],
        h.fields@.len() == b.names@.len(),
        forall|j: int| 0 <= j < b.names@.len() ==> (#[trigger] h.fields@[j])@ == b.names@[j]@,
        forall|j: int| 0 <= j < b.columns@.len() ==> (#[trigger] h.sizes@[j]) == b.columns@[j].kind.width_spec(),
        forall|j: int| 0 <= j < b.columns@.len() ==> (#[trigger] h.types@[j]) == b.columns@[j].kind.tag_spec(),
        forall|j: int| 0 <= j < b.columns@.len() ==> (#[trigger] h.counts@[j]) == 1,
        forall|j: int| 0 <= j < 7 ==> (#[trigger] h.viewpoint@[j])@ == viewpoint@[j]@,
        h.width == b.points as u32,
        h.height == 1,
        h.points == b.points,
        h.data == format,
{
    let mut sizes: Vec<usize> = Vec::new();
    let mut types: Vec<u8> = Vec::new();
    let mut counts: Vec<usize> = Vec::new();
    let mut j: usize = 0;
    while j < b.columns.len()
        invariant
            j <= b.columns@.len(),
            sizes@.len() == j,
            types@.len() == j,
            counts@.len() == j,
            forall|q: int| 0 <= q < j ==> (#[trigger] sizes@[q]) == b.columns@[q].kind.width_spec(),
            forall|q: int| 0 <= q < j ==> (#[trigger] types@[q]) == b.columns@[q].kind.tag_spec(),
            forall|q: int| 0 <= q < j ==> (#[trigger] counts@[q]) == 1,
        decreases b.columns@.len() - j,
    {
        sizes.push(b.columns[j].kind.width());
        types.push(b.columns[j].kind.tag());
        counts.push(1);
        j = j + 1;
    }
    PcdHeader {
        version: vec![48u8, 46, 55],
        fields: copy_tokens(&b.names),
        sizes,
        types,
        counts,
        width: b.points as u32,
        height: 1,
        viewpoint: copy_tokens(viewpoint),
        points: b.points,
        data: format,
    }
}

/// The header text that describes a block: version 0.7, one field per
/// column with its size, type letter and count 1, width `points`, height 1.
pub open spec fn block_header_text(b: PointBlock, format: DataFormat, viewpoint: Seq<Vec<u8>>) -> Seq<u8> {
    record_line(0, seq![seq![48u8, 46, 55]])
        + record_line(1, views(b.names@))
        + record_line(2, b.columns@.map_values(|c: Column| decimal(c.kind.width_spec())))
        + record_line(3, b.columns@.map_values(|c: Column| seq![c.kind.tag_spec()]))
        + record_line(4, b.columns@.map_values(|c: Column| decimal(1)))
        + record_line(5, seq![decimal((b.points as u32) as nat)])
        + record_line(6, seq![decimal(1)])
        + record_line(7, views(viewpoint))
        + record_line(8, seq![decimal(b.points as nat)])
        + record_line(9, seq![format_token(format)])
}

/// The payload of a block in an encoding.
pub open spec fn payload_of(b: PointBlock, format: DataFormat, float_text: Seq<Vec<Vec<u8>>>) -> Seq<u8> {
    match format {
        DataFormat::Binary => binary_payload(b),
        DataFormat::BinaryCompressed => {
            let scratch = column_major(b.columns@, b.columns@.len() as int);
            framed(packed_body(scratch), scratch.len())
        },
        DataFormat::Ascii => ascii_text(b, float_text, b.points as int),
    }
}

/// Whether a block can be written in an encoding: a compressed block's
/// lengths must fit its 32-bit frame, and every floating-point cell of an
/// ascii payload needs its text.
pub open spec fn encodable(b: PointBlock, format: DataFormat, float_text: Seq<Vec<Vec<u8>>>) -> bool {
    match format {
        DataFormat::Binary => true,
        DataFormat::BinaryCompressed => column_major(b.columns@, b.columns@.len() as int).len() <= MAX_UNPACKED,
        DataFormat::Ascii => float_text_ok(b, float_text),
    }
}

/// Encodes a block as a whole PCD file: the header that describes it, then
/// the payload in the chosen encoding. For ascii the text of each
/// floating-point cell comes from `float_text`.
pub fn encode_pcd(b: &PointBlock, format: DataFormat, viewpoint: &Vec<Vec<u8>>, float_text: &Vec<Vec<Vec<u8>>>)
    -> (r: Result<Vec<u8>, PcdError>)
    requires
        b.wf(),
        viewpoint@.len() == 7,
    ensures
        r.is_ok() <==> encodable(*b, format, float_text@),
        r matches Ok(out) ==> out@ == block_header_text(*b, format, viewpoint@) + payload_of(*b, format, float_text@),
{
    let h = header_for(b, format, viewpoint);
    let mut out = write_header(&h);
    proof {
        assert(views(h.fields@) =~= views(b.names@));
        assert(decimals(h.sizes@) =~= b.columns@.map_values(|c: Column| decimal(c.kind.width_spec())));
        assert(letters(h.types@) =~= b.columns@.map_values(|c: Column| seq![c.kind.tag_spec()]));
        assert(decimals(h.counts@) =~= b.columns@.map_values(|c: Column| decimal(1)));
        assert(views(h.viewpoint@) =~= views(viewpoint@));
        assert(seq![h.version@] =~= seq![seq![48u8, 46, 55]]);
        assert(header_text(h) == block_header_text(*b, format, viewpoint@));
    }
    let payload = match format {
        DataFormat::Binary => encode_binary(b),
        DataFormat::BinaryCompressed => encode_compressed(b)?,
        DataFormat::Ascii => encode_ascii(b, float_text)?,
    };
    push_all(&mut out, payload.as_slice());
    Ok(out)
}

} // verus!
