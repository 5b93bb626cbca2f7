use vstd::prelude::*;
use crate::block::{Column, PointBlock};
use crate::error::PcdError;
use crate::kind::ValueKind;
use crate::header::views;
use crate::layout::Layout;
use crate::text::{all_digits, decimal, digits_value, line_end, parse_integer, push_all, push_decimal, split_tokens, token_value, tokens_of};
use vstd::arithmetic::div_mod::lemma_fundamental_div_mod_converse;

verus! {

/// The `w` little-endian bytes of `u`, modulo `256^w`.
pub open spec fn le_of(u: nat, w: nat) -> Seq<u8>
    decreases w,
{
    if w == 0 {
        seq![]
    } else {
        seq![(u % 256) as u8] + le_of(u / 256, (w - 1) as nat)
    }
}

/// The unsigned value of little-endian bytes.
pub open spec fn le_value(s: Seq<u8>) -> nat
    decreases s.len(),
{
    if s.len() == 0 {
        0
    } else {
        s[0] as nat + 256 * le_value(s.subrange(1, s.len() as int))
    }
}

/// 256 to the power `w`.
pub open spec fn pow256(w: nat) -> nat
    decreases w,
{
    if w == 0 {
        1
    } else {
        256 * pow256((w - 1) as nat)
    }
}

/// Smallest value of an integer kind.
pub open spec fn kind_min(k: ValueKind) -> int {
    match k {
        ValueKind::I8 => -128,
        ValueKind::I16 => -32768,
        ValueKind::I32 => -2147483648,
        _ => 0,
    }
}

/// Largest value of an integer kind.
pub open spec fn kind_max(k: ValueKind) -> int {
    match k {
        ValueKind::U8 => 255,
        ValueKind::U16 => 65535,
        ValueKind::U32 => 4294967295,
        ValueKind::I8 => 127,
        ValueKind::I16 => 32767,
        ValueKind::I32 => 2147483647,
        _ => 0,
    }
}

/// The element bytes of integer `v` in kind `k` (two's complement for negatives).
pub open spec fn int_bytes(v: int, k: ValueKind) -> Seq<u8> {
    let w = k.width_spec();
    if v < 0 {
        le_of((v + pow256(w)) as nat, w)
    } else {
        le_of(v as nat, w)
    }
}

/// The integer that element bytes of kind `k` stand for.
pub open spec fn int_value(s: Seq<u8>, k: ValueKind) -> int {
    let u = le_value(s);
    if k.is_signed() && u >= pow256(s.len()) / 2 {
        u - pow256(s.len())
    } else {
        u as int
    }
}

/// The text of an integer: a minus sign for negatives, then its digits.
pub open spec fn int_text(v: int) -> Seq<u8> {
    if v < 0 {
        seq![45u8] + decimal((-v) as nat)
    } else {
        decimal(v as nat)
    }
}

/// The element bytes that an ascii cell gives in an integer column.
pub open spec fn cell_bytes(tok: Seq<u8>, k: ValueKind) -> Option<Seq<u8>> {
    match token_value(tok) {
        Some(v) => if kind_min(k) <= v <= kind_max(k) { Some(int_bytes(v, k)) } else { None },
        None => None,
    }
}

/// Appends the `w` little-endian bytes of `u`.
fn push_le(u: u64, w: usize, out: &mut Vec<u8>)
    ensures
        final(out)@ == old(out)@ + le_of(u as nat, w as nat),
    decreases w,
{
    if w > 0 {
        out.push((u % 256) as u8);
        push_le(u / 256, w - 1, out);
        proof {
            assert(final(out)@ =~= old(out)@ + le_of(u as nat, w as nat));
        }
    } else {
        proof {
            assert(final(out)@ =~= old(out)@ + le_of(u as nat, w as nat));
        }
    }
}

fn kind_bounds(k: ValueKind) -> (r: (u64, u64))
    requires
        !k.is_float(),
    ensures
        r.0 == -kind_min(k),
        r.1 == kind_max(k),
{
    match k {
        ValueKind::U8 => (0, 255),
        ValueKind::U16 => (0, 65535),
        ValueKind::U32 => (0, 4294967295),
        ValueKind::I8 => (128, 127),
        ValueKind::I16 => (32768, 32767),
        _ => (2147483648, 2147483647),
    }
}

/// Appends the element bytes of an integer cell, if it is a decimal integer
/// within the kind's range.
pub fn parse_cell(tok: &[u8], k: ValueKind, out: &mut Vec<u8>) -> (ok: bool)
    requires
        !k.is_float(),
    ensures
        ok == cell_bytes(tok@, k) is Some,
        ok ==> final(out)@ == old(out)@ + cell_bytes(tok@, k).unwrap(),
        !ok ==> final(out)@ == old(out)@,
{
    let (neg, pos) = kind_bounds(k);
    match parse_integer(tok, neg, pos) {
        Some(v) => {
            let w = k.width();
            let u: u64 = if v < 0 {
                let m: u64 = if w == 1 { 256 } else if w == 2 { 65536 } else { 4294967296 };
                proof {
                    reveal_with_fuel(pow256, 5);
                }
                (m as i64 + v) as u64
            } else {
                v as u64
            };
            push_le(u, w, out);
            true
        },
        None => false,
    }
}

/// Lines and tokens of an ascii payload: `tokens[j][r]` is the text of
/// physical column `j` in record `r`.
pub struct AsciiTable {
    pub block: PointBlock,
    pub tokens: Vec<Vec<Vec<u8>>>,
}

/// The element bytes of the first `n` cells of an integer column.
pub open spec fn cells_bytes(toks: Seq<Vec<u8>>, k: ValueKind, n: int) -> Seq<u8>
    decreases n,
{
    if n <= 0 {
        seq![]
    } else {
        cells_bytes(toks, k, n - 1) + cell_bytes(toks[n - 1]@, k).unwrap()
    }
}

/// Length of the first line of `s`, without its line feed.
pub open spec fn line_break(s: Seq<u8>) -> nat
    decreases s.len(),
{
    if s.len() == 0 || s[0] == 10 {
        0
    } else {
        1 + line_break(s.drop_first())
    }
}

/// The first `n` lines of `s`, if it has that many.
pub open spec fn ascii_lines(s: Seq<u8>, n: nat) -> Option<Seq<Seq<u8>>>
    decreases n,
{
    if n == 0 {
        Some(seq![])
    } else if s.len() == 0 {
        None
    } else {
        let k = line_break(s);
        let rest = if k < s.len() { s.skip(k as int + 1) } else { s.skip(k as int) };
        match ascii_lines(rest, (n - 1) as nat) {
            Some(ls) => Some(seq![s.take(k as int)] + ls),
            None => None,
        }
    }
}

pub proof fn lemma_line_break(s: Seq<u8>, k: int)
    requires
        0 <= k <= s.len(),
        k < s.len() ==> s[k] == 10,
        forall|i: int| 0 <= i < k ==> s[i] != 10,
    ensures
        line_break(s) == k,
    decreases k,
{
    if k > 0 {
        lemma_line_break(s.drop_first(), k - 1);
    }
}

/// A line never runs past the end.
pub proof fn lemma_line_break_len(s: Seq<u8>)
    ensures
        line_break(s) <= s.len(),
    decreases s.len(),
{
    if s.len() > 0 && s[0] != 10 {
        lemma_line_break_len(s.drop_first());
    }
}

/// Splits an ascii payload into `points` lines of exactly `width` tokens each.
fn ascii_rows(payload: &[u8], points: usize, width: usize) -> (r: Result<Vec<Vec<Vec<u8>>>, PcdError>)
    ensures
        ascii_lines(payload@, points as nat) is None ==> r is Err,
        ascii_lines(payload@, points as nat) matches Some(ls) ==>
            (r.is_ok() <==> forall|q: int| 0 <= q < points ==> (#[trigger] tokens_of(ls[q])).len() == width),
        r matches Ok(rows) ==> rows@.len() == points
            && forall|q: int| 0 <= q < points ==> (#[trigger] rows@[q])@.len() == width
            && views(rows@[q]@) == tokens_of(ascii_lines(payload@, points as nat).unwrap()[q]),
        r matches Err(e) ==> e is Decode,
{
    let mut rows: Vec<Vec<Vec<u8>>> = Vec::new();
    let mut pos: usize = 0;
    let mut r: usize = 0;
    let ghost done: Seq<Seq<u8>> = seq![];
    proof {
        assert(payload@.skip(0) =~= payload@);
        match ascii_lines(payload@, points as nat) {
            Some(ls) => { assert(seq![] + ls =~= ls); },
            None => {},
        }
    }
    while r < points
        invariant
            pos <= payload@.len(),
            r <= points,
            rows@.len() == r,
            done.len() == r,
            forall|q: int| 0 <= q < r ==> (#[trigger] rows@[q])@.len() == width,
            forall|q: int| 0 <= q < r ==> views(#[trigger] rows@[q]@) == tokens_of(done[q]),
            forall|q: int| 0 <= q < r ==> (#[trigger] tokens_of(done[q])).len() == width,
            ascii_lines(payload@, points as nat) == match ascii_lines(payload@.skip(pos as int), (points - r) as nat) {
                Some(ls) => Some(done + ls),
                None => None::<Seq<Seq<u8>>>,
            },
        decreases points - r,
    {
        let ghost s = payload@.skip(pos as int);
        if pos >= payload.len() {
            return Err(PcdError::Decode(r, 0));
        }
        let end = line_end(payload, pos);
        proof {
            lemma_line_break(s, end - pos);
        }
        let toks = split_tokens(payload, pos, end);
        proof {
            assert(payload@.subrange(pos as int, end as int) =~= s.take((end - pos) as int));
        }
        let next = if end < payload.len() { end + 1 } else { end };
        proof {
            assert(payload@.skip(next as int) =~= (if end - pos < s.len() { s.skip(end - pos + 1) } else { s.skip(end - pos) }));
            match ascii_lines(payload@.skip(next as int), (points - r - 1) as nat) {
                Some(ls) => {
                    assert(seq![s.take((end - pos) as int)] + ls =~= (seq![s.take((end - pos) as int)] + ls));
                    assert(done + (seq![s.take((end - pos) as int)] + ls) =~= done.push(s.take((end - pos) as int)) + ls);
                },
                None => {},
            }
        }
        if toks.len() != width {
            proof {
                match ascii_lines(payload@, points as nat) {
                    Some(ls) => {
                        assert(ls[r as int] == s.take((end - pos) as int));
                        assert(tokens_of(ls[r as int]).len() != width);
                    },
                    None => {},
                }
            }
            return Err(PcdError::Decode(r, toks.len()));
        }
        let ghost ndone = done.push(s.take((end - pos) as int));
        rows.push(toks);
        proof {
            assert forall|q: int| 0 <= q < r + 1 implies views(#[trigger] rows@[q]@) == tokens_of(ndone[q]) by {
                if q < r {
                    assert(ndone[q] == done[q]);
                }
            }
            assert forall|q: int| 0 <= q < r + 1 implies (#[trigger] tokens_of(ndone[q])).len() == width by {
                if q < r {
                    assert(ndone[q] == done[q]);
                }
            }
            done = ndone;
        }
        pos = next;
        r = r + 1;
    }
    proof {
        match ascii_lines(payload@, points as nat) {
            Some(ls) => {
                assert(ascii_lines(payload@.skip(pos as int), 0) == Some(Seq::<Seq<u8>>::empty()));
                assert(ls =~= done);
                assert forall|q: int| 0 <= q < points implies views(#[trigger] rows@[q]@) == tokens_of(ls[q]) by {
                    assert(ls[q] == done[q]);
                }
            },
            None => {
                assert(ascii_lines(payload@.skip(pos as int), 0) == Some(Seq::<Seq<u8>>::empty()));
            },
        }
    }
    Ok(rows)
}

/// Decodes an ascii payload of `points` lines, each holding one token per
/// physical column. Integer columns are parsed into their element bytes;
/// every column's tokens are handed back in `tokens`, so that the caller can
/// read the floating-point ones. A missing line, a line with another number
/// of tokens, or an integer cell that is not a decimal integer in its kind's
/// range fails the whole decode with `Decode`.
pub fn decode_ascii(payload: &[u8], layout: &Layout, points: usize) -> (r: Result<AsciiTable, PcdError>)
    requires
        layout.wf(),
        forall|j: int| 0 <= j < layout.fields@.len() ==> points * (#[trigger] layout.fields@[j]).kind.width_spec() <= usize::MAX,
    ensures
        r matches Ok(t) ==> {
            &&& t.block.wf()
            &&& t.block.points == points
            &&& t.block.matches(layout)
            &&& t.tokens@.len() == layout.fields@.len()
            &&& forall|j: int| 0 <= j < layout.fields@.len() ==> (#[trigger] t.tokens@[j])@.len() == points
            &&& forall|j: int| 0 <= j < layout.fields@.len() && !layout.fields@[j].kind.is_float() ==>
                (#[trigger] t.block.columns@[j]).data@ == cells_bytes(t.tokens@[j]@, layout.fields@[j].kind, points as int)
            &&& forall|j: int, q: int| 0 <= j < layout.fields@.len() && 0 <= q < points ==>
                (#[trigger] t.tokens@[j]@[q])@ == tokens_of(ascii_lines(payload@, points as nat).unwrap()[q])[j]
        },
        r.is_ok() <==> ascii_input_ok(payload@, *layout, points as nat),
        r matches Err(e) ==> e is Decode,
{
    let n = layout.fields.len();
    let ghost ls = ascii_lines(payload@, points as nat).unwrap();
    let rows = ascii_rows(payload, points, n)?;
    let mut names: Vec<Vec<u8>> = Vec::new();
    let mut columns: Vec<Column> = Vec::new();
    let mut tokens: Vec<Vec<Vec<u8>>> = Vec::new();
    let mut j: usize = 0;
    while j < n
        invariant
            n == layout.fields@.len(),
            rows@.len() == points,
            forall|q: int| 0 <= q < points ==> (#[trigger] rows@[q])@.len() == n,
            forall|j: int| 0 <= j < layout.fields@.len() ==> points * (#[trigger] layout.fields@[j]).kind.width_spec() <= usize::MAX,
            j <= n,
            names@.len() == j,
            columns@.len() == j,
            tokens@.len() == j,
            forall|q: int| 0 <= q < j ==> (#[trigger] names@[q])@ == layout.fields@[q].name@,
            forall|q: int| 0 <= q < j ==> (#[trigger] columns@[q]).kind == layout.fields@[q].kind,
            forall|q: int| 0 <= q < j ==> (#[trigger] columns@[q]).holds(points as nat),
            forall|q: int| 0 <= q < j ==> (#[trigger] tokens@[q])@.len() == points,
            forall|q: int| 0 <= q < j && !layout.fields@[q].kind.is_float() ==>
                (#[trigger] columns@[q]).data@ == cells_bytes(tokens@[q]@, layout.fields@[q].kind, points as int),
            ascii_lines(payload@, points as nat) == Some(ls),
            forall|q: int| 0 <= q < points ==> views(#[trigger] rows@[q]@) == tokens_of(ls[q]),
            forall|q: int, r: int| 0 <= q < j && 0 <= r < points ==> (#[trigger] tokens@[q]@[r])@ == cell_of(rows@, r, q),
            forall|q: int, r: int| 0 <= q < j && 0 <= r < points && !layout.fields@[q].kind.is_float() ==>
                (#[trigger] cell_bytes(cell_of(rows@, r, q), layout.fields@[q].kind)) is Some,
        decreases n - j,
    {
        let kind = layout.fields[j].kind;
        let res = ascii_column(&rows, j, kind, points);
        let (data, col) = match res {
            Ok(dc) => dc,
            Err(e) => {
                proof {
                    let q = choose|q: int| 0 <= q < points && !(#[trigger] cell_bytes(cell_of(rows@, q, j as int), kind) is Some);
                    lemma_cell_is_token(rows@, ls, q, j as int);
                }
                return Err(e);
            },
        };
        let mut name: Vec<u8> = Vec::new();
        push_all(&mut name, layout.fields[j].name.as_slice());
        assert(name@ =~= layout.fields@[j as int].name@);
        let ghost on = names@;
        let ghost oc = columns@;
        let ghost ot = tokens@;
        names.push(name);
        columns.push(Column { kind, data });
        tokens.push(col);
        proof {
            assert forall|q: int| 0 <= q < j + 1 implies (#[trigger] names@[q])@ == layout.fields@[q].name@ by {
                if q < j { assert(names@[q] == on[q]); }
            }
            assert forall|q: int| 0 <= q < j + 1 implies (#[trigger] columns@[q]).kind == layout.fields@[q].kind by {
                if q < j { assert(columns@[q] == oc[q]); }
            }
            assert forall|q: int| 0 <= q < j + 1 implies (#[trigger] columns@[q]).holds(points as nat) by {
                if q < j { assert(columns@[q] == oc[q]); }
            }
            assert forall|q: int| 0 <= q < j + 1 implies (#[trigger] tokens@[q])@.len() == points by {
                if q < j { assert(tokens@[q] == ot[q]); }
            }
            assert forall|q: int| 0 <= q < j + 1 && !layout.fields@[q].kind.is_float() implies
                (#[trigger] columns@[q]).data@ == cells_bytes(tokens@[q]@, layout.fields@[q].kind, points as int) by {
                if q < j { assert(columns@[q] == oc[q]); assert(tokens@[q] == ot[q]); }
            }
            assert forall|q: int, r: int| 0 <= q < j + 1 && 0 <= r < points implies (#[trigger] tokens@[q]@[r])@ == cell_of(rows@, r, q) by {
                if q < j { assert(tokens@[q] == ot[q]); }
            }
            assert forall|q: int, r: int| 0 <= q < j + 1 && 0 <= r < points && !layout.fields@[q].kind.is_float() implies
                (#[trigger] cell_bytes(cell_of(rows@, r, q), layout.fields@[q].kind)) is Some by {
            }
        }
        j = j + 1;
    }
    let block = PointBlock { names, columns, points };
    proof {
        assert forall|j: int, q: int| 0 <= j < layout.fields@.len() && 0 <= q < points implies
            (#[trigger] tokens@[j]@[q])@ == tokens_of(ascii_lines(payload@, points as nat).unwrap()[q])[j] by {
            lemma_cell_is_token(rows@, ls, q, j);
        }
        assert(ascii_input_ok(payload@, *layout, points as nat)) by {
            assert forall|q: int, j: int| 0 <= q < points && 0 <= j < layout.fields@.len() && !layout.fields@[j].kind.is_float() implies
                (#[trigger] cell_bytes(tokens_of(ls[q])[j], layout.fields@[j].kind)) is Some by {
                lemma_cell_is_token(rows@, ls, q, j);
                assert(cell_bytes(cell_of(rows@, q, j), layout.fields@[j].kind) is Some);
            }
        }
        assert forall|q: int| 0 <= q < layout.fields@.len() implies {
            &&& (#[trigger] block.names@[q])@ == layout.fields@[q].name@
            &&& block.columns@[q].kind == layout.fields@[q].kind
        } by {
            assert(block.columns@[q].kind == layout.fields@[q].kind);
        }
    }
    Ok(AsciiTable { block, tokens })
}

/// Column `j` of the token rows: its element bytes (zeros for a
/// floating-point column) and its tokens.
fn ascii_column(rows: &Vec<Vec<Vec<u8>>>, j: usize, kind: ValueKind, points: usize) -> (r: Result<(Vec<u8>, Vec<Vec<u8>>), PcdError>)
    requires
        rows@.len() == points,
        forall|q: int| 0 <= q < points ==> j < (#[trigger] rows@[q])@.len(),
        points * kind.width_spec() <= usize::MAX,
    ensures
        r matches Ok((data, col)) ==> {
            &&& col@.len() == points
            &&& data@.len() == points * kind.width_spec()
            &&& !kind.is_float() ==> data@ == cells_bytes(col@, kind, points as int)
            &&& forall|q: int| 0 <= q < points ==> (#[trigger] col@[q])@ == cell_of(rows@, q, j as int)
        },
        r.is_ok() <==> (kind.is_float() || forall|q: int| 0 <= q < points ==> (#[trigger] cell_bytes(cell_of(rows@, q, j as int), kind)) is Some),
        r matches Err(e) ==> e is Decode,
{
    let w = kind.width();
    let mut data: Vec<u8> = Vec::new();
    let mut col: Vec<Vec<u8>> = Vec::new();
    let mut r: usize = 0;
    while r < points
        invariant
            rows@.len() == points,
            forall|q: int| 0 <= q < points ==> j < (#[trigger] rows@[q])@.len(),
            w == kind.width_spec(),
            r <= points,
            col@.len() == r,
            data@.len() == r * w,
            !kind.is_float() ==> data@ == cells_bytes(col@, kind, r as int),
            forall|q: int| 0 <= q < r ==> (#[trigger] col@[q])@ == cell_of(rows@, q, j as int),
            !kind.is_float() ==> forall|q: int| 0 <= q < r ==> (#[trigger] cell_bytes(cell_of(rows@, q, j as int), kind)) is Some,
        decreases points - r,
    {
        let tok = &rows[r][j];
        assert(tok@ == cell_of(rows@, r as int, j as int));
        let mut t: Vec<u8> = Vec::new();
        push_all(&mut t, tok.as_slice());
        assert(t@ =~= tok@);
        let ghost od = data@;
        if kind.is_float_kind() {
            let mut q: usize = 0;
            while q < w
                invariant
                    q <= w,
                    data@.len() == od.len() + q,
                decreases w - q,
            {
                data.push(0u8);
                q = q + 1;
            }
        } else {
            if !parse_cell(tok.as_slice(), kind, &mut data) {
                return Err(PcdError::Decode(r, j));
            }
        }
        let ghost oc = col@;
        col.push(t);
        proof {
            assert forall|q: int| 0 <= q < r + 1 implies (#[trigger] col@[q])@ == cell_of(rows@, q, j as int) by {
                if q < r {
                    assert(col@[q] == oc[q]);
                }
            }
            assert((r + 1) * w == r * w + w) by (nonlinear_arith);
            if !kind.is_float() {
                assert(col@.subrange(0, r as int) =~= oc);
                lemma_cells_bytes_prefix(col@, oc, kind, r as int);
                assert(int_bytes(token_value(tok@).unwrap(), kind).len() == w) by {
                    lemma_le_of_len(0, w as nat);
                    lemma_int_bytes_len(token_value(tok@).unwrap(), kind);
                }
            }
        }
        r = r + 1;
    }
    Ok((data, col))
}

proof fn lemma_cells_bytes_prefix(a: Seq<Vec<u8>>, b: Seq<Vec<u8>>, k: ValueKind, n: int)
    requires
        0 <= n <= b.len(),
        n <= a.len(),
        forall|q: int| 0 <= q < n ==> a[q] == b[q],
    ensures
        cells_bytes(a, k, n) == cells_bytes(b, k, n),
    decreases n,
{
    if n > 0 {
        lemma_cells_bytes_prefix(a, b, k, n - 1);
    }
}

proof fn lemma_le_of_len(u: nat, w: nat)
    ensures
        forall|x: nat| #[trigger] le_of(x, w).len() == w,
    decreases w,
{
    if w > 0 {
        lemma_le_of_len(u, (w - 1) as nat);
        assert forall|x: nat| #[trigger] le_of(x, w).len() == w by {
            assert(le_of(x / 256, (w - 1) as nat).len() == w - 1);
        }
    }
}

proof fn lemma_int_bytes_len(v: int, k: ValueKind)
    ensures
        int_bytes(v, k).len() == k.width_spec(),
{
    lemma_le_of_len(0, k.width_spec());
}

/// The text of cell `(r, j)`: the given text of a floating-point column,
/// the decimal integer of an integer column.
pub open spec fn cell_text(b: PointBlock, ft: Seq<Vec<Vec<u8>>>, r: int, j: int) -> Seq<u8> {
    let c = b.columns@[j];
    if c.kind.is_float() {
        ft[j]@[r]@
    } else {
        int_text(int_value(c.element(r), c.kind))
    }
}

/// The first `m` cells of row `r`, separated by single spaces.
pub open spec fn line_text(b: PointBlock, ft: Seq<Vec<Vec<u8>>>, r: int, m: int) -> Seq<u8>
    decreases m,
{
    if m <= 0 {
        seq![]
    } else if m == 1 {
        cell_text(b, ft, r, 0)
    } else {
        line_text(b, ft, r, m - 1) + seq![32u8] + cell_text(b, ft, r, m - 1)
    }
}

/// The ascii payload of the first `n` rows: one line per row.
pub open spec fn ascii_text(b: PointBlock, ft: Seq<Vec<Vec<u8>>>, n: int) -> Seq<u8>
    decreases n,
{
    if n <= 0 {
        seq![]
    } else {
        ascii_text(b, ft, n - 1) + line_text(b, ft, n - 1, b.columns@.len() as int) + seq![10u8]
    }
}

/// Every floating-point column has one text per row in `ft`.
pub open spec fn float_text_ok(b: PointBlock, ft: Seq<Vec<Vec<u8>>>) -> bool {
    forall|j: int| 0 <= j < b.columns@.len() && (#[trigger] b.columns@[j]).kind.is_float() ==>
        j < ft.len() && ft[j]@.len() == b.points
}

proof fn lemma_le_value_bound(s: Seq<u8>)
    ensures
        le_value(s) < pow256(s.len()),
    decreases s.len(),
{
    if s.len() > 0 {
        let t = s.subrange(1, s.len() as int);
        lemma_le_value_bound(t);
        assert(le_value(s) == s[0] as nat + 256 * le_value(t));
        assert(pow256(s.len()) == 256 * pow256(t.len()));
        assert(s[0] as nat + 256 * le_value(t) < 256 * pow256(t.len())) by (nonlinear_arith)
            requires s[0] < 256, le_value(t) < pow256(t.len());
    }
}

/// Appends the decimal text of element `r` of an integer column.
fn push_element_text(c: &Column, r: usize, points: usize, out: &mut Vec<u8>)
    requires
        !c.kind.is_float(),
        c.holds(points as nat),
        r < points,
    ensures
        final(out)@ == old(out)@ + int_text(int_value(c.element(r as int), c.kind)),
{
    let w = c.kind.width();
    let dl = c.data.len();
    proof {
        assert((r + 1) * w == r * w + w) by (nonlinear_arith);
        assert((r + 1) * w <= points * w) by (nonlinear_arith) requires r + 1 <= points;
    }
    let base = r * w;
    let ghost e = c.element(r as int);
    let mut u: u64 = 0;
    let mut k: usize = w;
    proof {
        reveal_with_fuel(pow256, 5);
        assert(e.subrange(w as int, w as int) =~= Seq::<u8>::empty());
    }
    while k > 0
        invariant
            k <= w,
            w == c.kind.width_spec(),
            w <= 4,
            base + w <= dl == c.data@.len(),
            e == c.data@.subrange(base as int, base + w),
            e.len() == w,
            u == le_value(e.subrange(k as int, w as int)),
        decreases k,
    {
        let ghost t = e.subrange(k as int - 1, w as int);
        proof {
            assert(t.subrange(1, t.len() as int) =~= e.subrange(k as int, w as int));
            lemma_le_value_bound(e.subrange(k as int, w as int));
            reveal_with_fuel(pow256, 5);
            assert(pow256((w - k) as nat) <= pow256(4)) by {
                reveal_with_fuel(pow256, 5);
            }
        }
        u = u * 256 + c.data[base + k - 1] as u64;
        k = k - 1;
    }
    proof {
        assert(e.subrange(0, w as int) =~= e);
        lemma_le_value_bound(e);
        reveal_with_fuel(pow256, 5);
    }
    let m: u64 = if w == 1 { 256 } else if w == 2 { 65536 } else { 4294967296 };
    let signed = match c.kind {
        ValueKind::I8 | ValueKind::I16 | ValueKind::I32 => true,
        _ => false,
    };
    if signed && u >= m / 2 {
        out.push(45u8);
        push_decimal(m - u, out);
    } else {
        push_decimal(u, out);
    }
    proof {
        assert(final(out)@ =~= old(out)@ + int_text(int_value(e, c.kind)));
    }
}

/// Encodes a block as an ascii payload: one line per row, cells separated
/// by single spaces. Integer cells are written as decimal integers; the
/// text of each floating-point cell is taken from `float_text[j][r]`.
/// Fails with `LengthMismatch` when a floating-point column has no text for
/// some row.
pub fn encode_ascii(block: &PointBlock, float_text: &Vec<Vec<Vec<u8>>>) -> (r: Result<Vec<u8>, PcdError>)
    requires
        block.wf(),
    ensures
        r.is_ok() <==> float_text_ok(*block, float_text@),
        r matches Ok(out) ==> out@ == ascii_text(*block, float_text@, block.points as int),
        r matches Err(e) ==> e is LengthMismatch,
{
    let n = block.columns.len();
    let mut j: usize = 0;
    while j < n
        invariant
            n == block.columns@.len(),
            j <= n,
            forall|q: int| 0 <= q < j && (#[trigger] block.columns@[q]).kind.is_float() ==>
                q < float_text@.len() && float_text@[q]@.len() == block.points,
        decreases n - j,
    {
        if block.columns[j].kind.is_float_kind() {
            if j >= float_text.len() {
                return Err(PcdError::LengthMismatch(j, block.points, 0));
            }
            if float_text[j].len() != block.points {
                return Err(PcdError::LengthMismatch(j, block.points, float_text[j].len()));
            }
        }
        j = j + 1;
    }
    let mut out: Vec<u8> = Vec::new();
    let mut r: usize = 0;
    while r < block.points
        invariant
            block.wf(),
            n == block.columns@.len(),
            float_text_ok(*block, float_text@),
            r <= block.points,
            out@ == ascii_text(*block, float_text@, r as int),
        decreases block.points - r,
    {
        let mut j: usize = 0;
        let ghost start = out@;
        while j < n
            invariant
                block.wf(),
                n == block.columns@.len(),
                float_text_ok(*block, float_text@),
                r < block.points,
                j <= n,
                out@ == start + line_text(*block, float_text@, r as int, j as int),
            decreases n - j,
        {
            if j > 0 {
                out.push(32u8);
            }
            let c = &block.columns[j];
            assert(c.holds(block.points as nat));
            if c.kind.is_float_kind() {
                push_all(&mut out, float_text[j][r].as_slice());
            } else {
                push_element_text(c, r, block.points, &mut out);
            }
            proof {
                assert(out@ =~= start + line_text(*block, float_text@, r as int, j as int + 1));
            }
            j = j + 1;
        }
        out.push(10u8);
        proof {
            assert(out@ =~= ascii_text(*block, float_text@, r as int + 1));
        }
        r = r + 1;
    }
    Ok(out)
}

/// The decimal digits of a number are digits and read back as that number.
proof fn lemma_decimal_reads_back(n: nat)
    ensures
        decimal(n).len() > 0,
        all_digits(decimal(n)),
        digits_value(decimal(n)) == n,
    decreases n,
{
    if n >= 10 {
        lemma_decimal_reads_back(n / 10);
        let d = decimal(n / 10);
        let s = decimal(n);
        assert(s == d.push((48 + n % 10) as u8));
        assert(s.drop_last() =~= d);
        assert forall|i: int| 0 <= i < s.len() implies crate::text::is_digit(#[trigger] s[i]) by {
            if i < d.len() {
                assert(s[i] == d[i]);
            }
        }
        assert(s.last() == (48 + n % 10) as u8);
        assert(digits_value(s) == digits_value(d) * 10 + (s.last() - 48) as nat);
        assert((n / 10) * 10 + n % 10 == n);
    } else {
        let s = decimal(n);
        assert(s.drop_last() =~= Seq::<u8>::empty());
        assert(digits_value(s) == digits_value(s.drop_last()) * 10 + (s.last() - 48) as nat);
        assert(digits_value(Seq::<u8>::empty()) == 0);
    }
}

/// The text of an integer reads back as that integer.
proof fn lemma_int_text_reads_back(v: int)
    ensures
        token_value(int_text(v)) == Some(v),
{
    if v < 0 {
        let m = (-v) as nat;
        lemma_decimal_reads_back(m);
        let s = int_text(v);
        assert(s.subrange(1, s.len() as int) =~= decimal(m));
    } else {
        lemma_decimal_reads_back(v as nat);
        let s = decimal(v as nat);
        assert(crate::text::is_digit(s[0]));
    }
}

/// Little-endian bytes are the bytes of their own value.
proof fn lemma_le_of_value(s: Seq<u8>)
    ensures
        le_of(le_value(s), s.len()) == s,
    decreases s.len(),
{
    if s.len() > 0 {
        let t = s.subrange(1, s.len() as int);
        lemma_le_of_value(t);
        let u = le_value(s);
        assert(u == s[0] as nat + 256 * le_value(t));
        lemma_fundamental_div_mod_converse(u as int, 256, le_value(t) as int, s[0] as int);
        assert(le_of(u, s.len()) =~= s);
    }
}

/// Writing an integer element as ascii text and reading that text back as
/// a cell of the same kind gives back the element's bytes.
pub proof fn lemma_ascii_int_round_trip(e: Seq<u8>, k: ValueKind)
    requires
        !k.is_float(),
        e.len() == k.width_spec(),
    ensures
        cell_bytes(int_text(int_value(e, k)), k) == Some(e),
{
    let v = int_value(e, k);
    let w = k.width_spec();
    lemma_int_text_reads_back(v);
    lemma_le_value_bound(e);
    lemma_le_of_value(e);
    reveal_with_fuel(pow256, 5);
    assert(pow256(1) == 256);
    assert(pow256(2) == 65536);
    assert(pow256(4) == 4294967296);
    assert(kind_min(k) <= v <= kind_max(k));
    assert(int_bytes(v, k) == e);
}

/// Text of cell `(r, j)` of token rows.
pub open spec fn cell_of(rows: Seq<Vec<Vec<u8>>>, r: int, j: int) -> Seq<u8> {
    rows[r]@[j]@
}

/// An ascii payload decodes: it has `n` lines, each with one token per
/// physical column, and every integer cell is a decimal integer in range.
pub open spec fn ascii_input_ok(s: Seq<u8>, l: Layout, n: nat) -> bool {
    ascii_lines(s, n) matches Some(ls) && {
        &&& forall|q: int| 0 <= q < n ==> (#[trigger] tokens_of(ls[q])).len() == l.fields@.len()
        &&& forall|q: int, j: int| 0 <= q < n && 0 <= j < l.fields@.len() && !l.fields@[j].kind.is_float() ==>
            (#[trigger] cell_bytes(tokens_of(ls[q])[j], l.fields@[j].kind)) is Some
    }
}

proof fn lemma_cell_is_token(rows: Seq<Vec<Vec<u8>>>, ls: Seq<Seq<u8>>, q: int, j: int)
    requires
        0 <= q < rows.len(),
        views(rows[q]@) == tokens_of(ls[q]),
        0 <= j < rows[q]@.len(),
    ensures
        cell_of(rows, q, j) == tokens_of(ls[q])[j],
{
    assert(views(rows[q]@)[j] == rows[q]@[j]@);
}

} // verus!
