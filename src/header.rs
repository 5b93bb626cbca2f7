use vstd::prelude::*;
use crate::error::PcdError;
use crate::kind::{TYPE_FLOAT, TYPE_SIGNED, TYPE_UNSIGNED};
use crate::ascii::{lemma_line_break, lemma_line_break_len, line_break};
use crate::text::{all_digits, bytes_eq, is_digit, decimal, digits_value, is_token, line_end, parse_digits, push_all, push_decimal, split_tokens, tokens_of};

verus! {

/// How the point records after the header are encoded.
#[derive(Debug, Clone, Copy, PartialEq, Eq, Structural)]
pub enum DataFormat {
    Ascii,
    Binary,
    BinaryCompressed,
}

/// A parsed PCD header. Text values are kept as the bytes of the file.
pub struct PcdHeader {
    pub version: Vec<u8>,
    pub fields: Vec<Vec<u8>>,
    pub sizes: Vec<usize>,
    pub types: Vec<u8>,
    pub counts: Vec<usize>,
    pub width: u32,
    pub height: u32,
    /// The seven viewpoint numbers (tx ty tz qw qx qy qz) as written.
    pub viewpoint: Vec<Vec<u8>>,
    pub points: usize,
    pub data: DataFormat,
}

impl PcdHeader {
    /// The per-field declarations run in parallel and the viewpoint has seven values.
    pub open spec fn wf(&self) -> bool {
        &&& self.sizes@.len() == self.fields@.len()
        &&& self.types@.len() == self.fields@.len()
        &&& self.counts@.len() == self.fields@.len()
        &&& self.viewpoint@.len() == 7
    }
}

/// The record keys of a header, in the order in which they must appear.
pub open spec fn key_spec(k: nat) -> Seq<u8> {
    if k == 0 {
        seq![86u8, 69, 82, 83, 73, 79, 78]
    } else if k == 1 {
        seq![70u8, 73, 69, 76, 68, 83]
    } else if k == 2 {
        seq![83u8, 73, 90, 69]
    } else if k == 3 {
        seq![84u8, 89, 80, 69]
    } else if k == 4 {
        seq![67u8, 79, 85, 78, 84]
    } else if k == 5 {
        seq![87u8, 73, 68, 84, 72]
    } else if k == 6 {
        seq![72u8, 69, 73, 71, 72, 84]
    } else if k == 7 {
        seq![86u8, 73, 69, 87, 80, 79, 73, 78, 84]
    } else if k == 8 {
        seq![80u8, 79, 73, 78, 84, 83]
    } else {
        seq![68u8, 65, 84, 65]
    }
}

pub const KEY_VERSION: usize = 0;
pub const KEY_FIELDS: usize = 1;
pub const KEY_SIZE: usize = 2;
pub const KEY_TYPE: usize = 3;
pub const KEY_COUNT: usize = 4;
pub const KEY_WIDTH: usize = 5;
pub const KEY_HEIGHT: usize = 6;
pub const KEY_VIEWPOINT: usize = 7;
pub const KEY_POINTS: usize = 8;
pub const KEY_DATA: usize = 9;

/// The header's record key number `k`.
pub fn key(k: usize) -> (r: Vec<u8>)
    ensures
        r@ == key_spec(k as nat),
{
    let r = if k == 0 {
        vec![86u8, 69, 82, 83, 73, 79, 78]
    } else if k == 1 {
        vec![70u8, 73, 69, 76, 68, 83]
    } else if k == 2 {
        vec![83u8, 73, 90, 69]
    } else if k == 3 {
        vec![84u8, 89, 80, 69]
    } else if k == 4 {
        vec![67u8, 79, 85, 78, 84]
    } else if k == 5 {
        vec![87u8, 73, 68, 84, 72]
    } else if k == 6 {
        vec![72u8, 69, 73, 71, 72, 84]
    } else if k == 7 {
        vec![86u8, 73, 69, 87, 80, 79, 73, 78, 84]
    } else if k == 8 {
        vec![80u8, 79, 73, 78, 84, 83]
    } else {
        vec![68u8, 65, 84, 65]
    };
    proof {
        assert(r@ =~= key_spec(k as nat));
    }
    r
}

/// The `DATA` token of each encoding.
pub open spec fn format_token(f: DataFormat) -> Seq<u8> {
    match f {
        DataFormat::Ascii => seq![97u8, 115, 99, 105, 105],
        DataFormat::Binary => seq![98u8, 105, 110, 97, 114, 121],
        DataFormat::BinaryCompressed => seq![98u8, 105, 110, 97, 114, 121, 95, 99, 111, 109, 112, 114, 101, 115, 115, 101, 100],
    }
}

impl DataFormat {
    /// The `DATA` token of this encoding.
    pub fn token(self) -> (r: Vec<u8>)
        ensures
            r@ == format_token(self),
    {
        let r = match self {
            DataFormat::Ascii => vec![97u8, 115, 99, 105, 105],
            DataFormat::Binary => vec![98u8, 105, 110, 97, 114, 121],
            DataFormat::BinaryCompressed => vec![98u8, 105, 110, 97, 114, 121, 95, 99, 111, 109, 112, 114, 101, 115, 115, 101, 100],
        };
        proof {
            assert(r@ =~= format_token(self));
        }
        r
    }

    /// The encoding that a `DATA` token names.
    pub fn from_token(t: &[u8]) -> (r: Option<DataFormat>)
        ensures
            r matches Some(f) ==> format_token(f) == t@,
            r is None ==> forall|f: DataFormat| format_token(f) != t@,
    {
        let a = DataFormat::Ascii.token();
        let b = DataFormat::Binary.token();
        let c = DataFormat::BinaryCompressed.token();
        if bytes_eq(t, a.as_slice()) {
            Some(DataFormat::Ascii)
        } else if bytes_eq(t, b.as_slice()) {
            Some(DataFormat::Binary)
        } else if bytes_eq(t, c.as_slice()) {
            Some(DataFormat::BinaryCompressed)
        } else {
            proof {
                assert forall|f: DataFormat| format_token(f) != t@ by {
                    match f {
                        DataFormat::Ascii => {},
                        DataFormat::Binary => {},
                        DataFormat::BinaryCompressed => {},
                    }
                }
            }
            None
        }
    }
}

/// A line that carries no record: empty, blank, or a `#` comment.
pub open spec fn is_skipped(tokens: Seq<Vec<u8>>) -> bool {
    tokens.len() == 0 || tokens[0]@[0] == 35
}

/// Start of the line that follows the one starting at `pos`.
pub open spec fn after_line(s: Seq<u8>, pos: int) -> int {
    let e = pos + line_break(s.subrange(pos, s.len() as int));
    if e < s.len() { e + 1 } else { e }
}

/// The tokens of the line starting at `pos`.
pub open spec fn line_tokens(s: Seq<u8>, pos: int) -> Seq<Seq<u8>> {
    tokens_of(s.subrange(pos, pos + line_break(s.subrange(pos, s.len() as int))))
}

/// A line that carries a record: it has a token, and is no `#` comment.
pub open spec fn carries_record(toks: Seq<Seq<u8>>) -> bool {
    toks.len() > 0 && toks[0][0] != 35
}

/// The first record line at or after `pos`: its tokens and the start of
/// the line after it.
pub open spec fn next_record(s: Seq<u8>, pos: int) -> Option<(Seq<Seq<u8>>, int)>
    decreases s.len() - pos
    via next_record_decreases
{
    if pos < 0 || pos >= s.len() {
        None
    } else if carries_record(line_tokens(s, pos)) {
        Some((line_tokens(s, pos), after_line(s, pos)))
    } else {
        next_record(s, after_line(s, pos))
    }
}

#[via_fn]
proof fn next_record_decreases(s: Seq<u8>, pos: int) {
    if 0 <= pos < s.len() {
        lemma_line_break_len(s.subrange(pos, s.len() as int));
    }
}

/// The first `n` records from `pos`, and the start of the line after them.
pub open spec fn records_from(s: Seq<u8>, pos: int, n: nat) -> Option<(Seq<Seq<Seq<u8>>>, int)>
    decreases n,
{
    if n == 0 {
        Some((seq![], pos))
    } else {
        match next_record(s, pos) {
            Some((t, nx)) => match records_from(s, nx, (n - 1) as nat) {
                Some((ts, e)) => Some((seq![t] + ts, e)),
                None => None,
            },
            None => None,
        }
    }
}

/// The values of record `k`: its tokens after the key.
pub open spec fn values(recs: Seq<Seq<Seq<u8>>>, k: int) -> Seq<Seq<u8>> {
    recs[k].subrange(1, recs[k].len() as int)
}

/// What a successfully parsed header says of the text: the first ten
/// records carry the ten keys in order, and each header value is read from
/// its record.
pub open spec fn header_read_from(h: PcdHeader, recs: Seq<Seq<Seq<u8>>>) -> bool {
    &&& recs.len() == 10
    &&& forall|k: int| 0 <= k < 10 ==> (#[trigger] recs[k]).len() >= 1 && recs[k][0] == key_spec(k as nat)
    &&& values(recs, 0) == seq![h.version@]
    &&& views(h.fields@) == values(recs, 1)
    &&& values(recs, 2).len() == h.sizes@.len()
    &&& forall|i: int| 0 <= i < h.sizes@.len() ==> #[trigger] h.sizes@[i] == digits_value(values(recs, 2)[i])
    &&& values(recs, 3).len() == h.types@.len()
    &&& forall|i: int| 0 <= i < h.types@.len() ==> values(recs, 3)[i] == seq![#[trigger] h.types@[i]]
    &&& values(recs, 4).len() == h.counts@.len()
    &&& forall|i: int| 0 <= i < h.counts@.len() ==> #[trigger] h.counts@[i] == digits_value(values(recs, 4)[i])
    &&& values(recs, 5).len() == 1 && h.width == digits_value(values(recs, 5)[0])
    &&& values(recs, 6).len() == 1 && h.height == digits_value(values(recs, 6)[0])
    &&& views(h.viewpoint@) == values(recs, 7)
    &&& values(recs, 8).len() == 1 && h.points == digits_value(values(recs, 8)[0])
    &&& values(recs, 9) == seq![format_token(h.data)]
}

/// A token that is a decimal number of at most `max`.
pub open spec fn number_within(t: Seq<u8>, max: nat) -> bool {
    t.len() > 0 && all_digits(t) && digits_value(t) <= max
}

/// A `TYPE` letter.
pub open spec fn is_type_letter(b: u8) -> bool {
    b == TYPE_UNSIGNED || b == TYPE_SIGNED || b == TYPE_FLOAT
}

/// A `DATA` token.
pub open spec fn is_format_token(t: Seq<u8>) -> bool {
    t == format_token(DataFormat::Ascii) || t == format_token(DataFormat::Binary)
        || t == format_token(DataFormat::BinaryCompressed)
}

/// The text of a viewpoint number: signs, digits, a point and exponent
/// letters only, with at least one digit.
pub open spec fn is_numeric_text(t: Seq<u8>) -> bool {
    &&& exists|i: int| 0 <= i < t.len() && is_digit(#[trigger] t[i])
    &&& forall|i: int| 0 <= i < t.len() ==> numeric_char(#[trigger] t[i])
}

pub open spec fn numeric_char(b: u8) -> bool {
    is_digit(b) || b == 43 || b == 45 || b == 46 || b == 101 || b == 69
}

/// The first ten records carry the ten keys in order with well-formed values:
/// one version token; at least one field; one size, type and count per
/// field; sizes and counts numbers below 2^32, counts at least 1, types
/// `U`, `I` or `F`; width and height numbers below 2^32; seven numeric
/// viewpoint values; a point count that fits in memory; a known `DATA` token.
pub open spec fn records_valid(recs: Seq<Seq<Seq<u8>>>) -> bool {
    let n = values(recs, 1).len();
    &&& recs.len() == 10
    &&& forall|k: int| 0 <= k < 10 ==> (#[trigger] recs[k]).len() >= 1 && recs[k][0] == key_spec(k as nat)
    &&& values(recs, 0).len() == 1
    &&& n > 0
    &&& values(recs, 2).len() == n
    &&& forall|i: int| 0 <= i < n ==> #[trigger] number_within(values(recs, 2)[i], 4294967295)
    &&& values(recs, 3).len() == n
    &&& forall|i: int| 0 <= i < n ==> (#[trigger] values(recs, 3)[i]).len() == 1 && is_type_letter(values(recs, 3)[i][0])
    &&& values(recs, 4).len() == n
    &&& forall|i: int| 0 <= i < n ==> #[trigger] number_within(values(recs, 4)[i], 4294967295)
        && digits_value(values(recs, 4)[i]) >= 1
    &&& values(recs, 5).len() == 1 && number_within(values(recs, 5)[0], 4294967295)
    &&& values(recs, 6).len() == 1 && number_within(values(recs, 6)[0], 4294967295)
    &&& values(recs, 7).len() == 7
    &&& forall|i: int| 0 <= i < 7 ==> #[trigger] is_numeric_text(values(recs, 7)[i])
    &&& values(recs, 8).len() == 1 && number_within(values(recs, 8)[0], usize::MAX as nat)
    &&& values(recs, 9).len() == 1 && is_format_token(values(recs, 9)[0])
}

/// The text starts with a well-formed header.
pub open spec fn header_ok(s: Seq<u8>) -> bool {
    records_from(s, 0, 10) matches Some((recs, e)) && records_valid(recs)
}

/// The records of a chain, each starting where the one before it ended.
pub open spec fn chain_ok(s: Seq<u8>, ts: Seq<Seq<Seq<u8>>>, ps: Seq<int>) -> bool {
    &&& ps.len() == ts.len() + 1
    &&& forall|i: int| 0 <= i < ts.len() ==> next_record(s, #[trigger] ps[i]) == Some((ts[i], ps[i + 1]))
}

proof fn lemma_chain_push(s: Seq<u8>, ts: Seq<Seq<Seq<u8>>>, ps: Seq<int>, t: Seq<Seq<u8>>, p: int)
    requires
        chain_ok(s, ts, ps),
        next_record(s, ps.last()) == Some((t, p)),
    ensures
        chain_ok(s, ts.push(t), ps.push(p)),
{
    let ts2 = ts.push(t);
    let ps2 = ps.push(p);
    assert forall|i: int| 0 <= i < ts2.len() implies next_record(s, #[trigger] ps2[i]) == Some((ts2[i], ps2[i + 1])) by {
        if i < ts.len() {
            assert(ps2[i] == ps[i] && ps2[i + 1] == ps[i + 1] && ts2[i] == ts[i]);
        }
    }
}

proof fn lemma_records_len(s: Seq<u8>, p: int, n: nat)
    ensures
        records_from(s, p, n) matches Some((r, e)) ==> r.len() == n,
    decreases n,
{
    if n > 0 {
        match next_record(s, p) {
            Some((t, nx)) => lemma_records_len(s, nx, (n - 1) as nat),
            None => {},
        }
    }
}

/// Record `k` of a chain from the start is record `k` of the header.
proof fn lemma_record_k(s: Seq<u8>, ts: Seq<Seq<Seq<u8>>>, ps: Seq<int>, k: nat, n: nat)
    requires
        chain_ok(s, ts, ps),
        k <= ts.len(),
        k < n,
        records_from(s, ps[0], n) is Some,
    ensures
        next_record(s, ps[k as int]) is Some,
        next_record(s, ps[k as int]).unwrap().0 == records_from(s, ps[0], n).unwrap().0[k as int],
    decreases k,
{
    if k > 0 {
        let ts2 = ts.drop_first();
        let ps2 = ps.drop_first();
        assert forall|i: int| 0 <= i < ts2.len() implies next_record(s, #[trigger] ps2[i]) == Some((ts2[i], ps2[i + 1])) by {
            assert(ps2[i] == ps[i + 1]);
            assert(next_record(s, ps[i + 1]) == Some((ts[i + 1], ps[i + 2])));
        }
        assert(next_record(s, ps[0]) == Some((ts[0], ps[1])));
        let rest = records_from(s, ps[1], (n - 1) as nat);
        assert(rest is Some);
        assert(records_from(s, ps[0], n).unwrap().0 == seq![ts[0]] + rest.unwrap().0);
        assert(ps2[0] == ps[1]);
        lemma_record_k(s, ts2, ps2, (k - 1) as nat, (n - 1) as nat);
        assert(ps2[k - 1] == ps[k as int]);
        lemma_records_len(s, ps[1], (n - 1) as nat);
        assert((seq![ts[0]] + rest.unwrap().0)[k as int] == rest.unwrap().0[k - 1]);
    } else {
        let nr = next_record(s, ps[0]);
        assert(nr is Some);
        let rest = records_from(s, nr.unwrap().1, (n - 1) as nat);
        assert(records_from(s, ps[0], n).unwrap().0 == seq![nr.unwrap().0] + rest.unwrap().0);
    }
}

/// Reads the next record from `pos`, skipping blank and comment lines, and
/// checks that its key is record key `k`. Returns the value tokens, the
/// position after the record's line, and that line's number.
fn read_record(bytes: &[u8], pos: usize, line: usize, k: usize) -> (r: Result<(Vec<Vec<u8>>, usize, usize), PcdError>)
    requires
        pos <= bytes@.len(),
    ensures
        r matches Ok((toks, next, l)) ==> pos < next <= bytes@.len()
            && forall|q: int| 0 <= q < toks@.len() ==> is_token(#[trigger] toks@[q]@),
        r matches Ok((toks, next, l)) ==> next_record(bytes@, pos as int) matches Some((t, n))
            && n == next && t.len() >= 1 && t[0] == key_spec(k as nat)
            && views(toks@) == t.subrange(1, t.len() as int),
        r is Err ==> !(next_record(bytes@, pos as int) matches Some((t, n)) && t.len() >= 1 && t[0] == key_spec(k as nat)),
        r matches Err(e) ==> e is Header,
{
    let mut p = pos;
    let mut l = line;
    while p < bytes.len()
        invariant
            pos <= p <= bytes@.len(),
            next_record(bytes@, pos as int) == next_record(bytes@, p as int),
        decreases bytes@.len() - p,
    {
        let end = line_end(bytes, p);
        let toks = split_tokens(bytes, p, end);
        proof {
            let rest = bytes@.subrange(p as int, bytes@.len() as int);
            lemma_line_break(rest, end - p);
            assert(views(toks@) =~= toks@.map_values(|t: Vec<u8>| t@));
            assert(views(toks@) == line_tokens(bytes@, p as int));
        }
        let next = if end < bytes.len() { end + 1 } else { end };
        l = if l < usize::MAX { l + 1 } else { l };
        if toks.len() > 0 && toks[0][0] != 35 {
            proof {
                assert(views(toks@)[0] == toks@[0]@);
                assert(carries_record(line_tokens(bytes@, p as int)));
            }
            let want = key(k);
            if !bytes_eq(toks[0].as_slice(), want.as_slice()) {
                return Err(PcdError::Header(l));
            }
            let mut vals: Vec<Vec<u8>> = Vec::new();
            let mut q: usize = 1;
            while q < toks.len()
                invariant
                    1 <= q <= toks@.len(),
                    forall|t: int| 0 <= t < toks@.len() ==> is_token(#[trigger] toks@[t]@),
                    forall|t: int| 0 <= t < vals@.len() ==> is_token(#[trigger] vals@[t]@),
                    views(vals@) == views(toks@).subrange(1, q as int),
                decreases toks@.len() - q,
            {
                let mut t: Vec<u8> = Vec::new();
                push_all(&mut t, toks[q].as_slice());
                proof {
                    assert(t@ =~= toks@[q as int]@);
                }
                let ghost ov = views(vals@);
                vals.push(t);
                proof {
                    assert(views(vals@) =~= ov.push(t@));
                    assert(views(toks@).subrange(1, q as int + 1) =~= views(toks@).subrange(1, q as int).push(views(toks@)[q as int]));
                }
                q = q + 1;
            }
            return Ok((vals, next, l));
        }
        p = next;
    }
    Err(PcdError::Header(if l < usize::MAX { l + 1 } else { l }))
}

/// Reads one unsigned number per token, each at most `max`.
fn parse_numbers(toks: &Vec<Vec<u8>>, max: u64, line: usize) -> (r: Result<Vec<u64>, PcdError>)
    ensures
        r matches Ok(v) ==> v@.len() == toks@.len() && forall|q: int| 0 <= q < v@.len() ==> #[trigger] v@[q] <= max,
        r matches Ok(v) ==> forall|q: int| 0 <= q < v@.len() ==> #[trigger] v@[q] == digits_value(toks@[q]@),
        r is Ok <==> forall|q: int| 0 <= q < toks@.len() ==> #[trigger] number_within(toks@[q]@, max as nat),
        r matches Err(e) ==> e == PcdError::Header(line),
{
    let mut out: Vec<u64> = Vec::new();
    let mut q: usize = 0;
    while q < toks.len()
        invariant
            q <= toks@.len(),
            out@.len() == q,
            forall|t: int| 0 <= t < out@.len() ==> #[trigger] out@[t] <= max,
            forall|t: int| 0 <= t < out@.len() ==> #[trigger] out@[t] == digits_value(toks@[t]@),
            forall|t: int| 0 <= t < q ==> #[trigger] number_within(toks@[t]@, max as nat),
        decreases toks@.len() - q,
    {
        match parse_digits(toks[q].as_slice(), max) {
            Some(v) => out.push(v),
            None => {
                assert(!number_within(toks@[q as int]@, max as nat));
                return Err(PcdError::Header(line));
            },
        }
        q = q + 1;
    }
    Ok(out)
}

/// Reads a single unsigned number of at most `max` from a record.
fn parse_single(toks: &Vec<Vec<u8>>, max: u64, line: usize) -> (r: Result<u64, PcdError>)
    ensures
        r matches Ok(v) ==> v <= max && toks@.len() == 1 && v == digits_value(toks@[0]@),
        r is Ok <==> toks@.len() == 1 && number_within(toks@[0]@, max as nat),
        r matches Err(e) ==> e == PcdError::Header(line),
{
    if toks.len() != 1 {
        return Err(PcdError::Header(line));
    }
    match parse_digits(toks[0].as_slice(), max) {
        Some(v) => Ok(v),
        None => Err(PcdError::Header(line)),
    }
}

/// Parses a header from the start of `bytes`: the records `VERSION, FIELDS,
/// SIZE, TYPE, COUNT, WIDTH, HEIGHT, VIEWPOINT, POINTS, DATA` in this order,
/// with blank and `#` comment lines between them. Returns the header and the
/// offset of the first payload byte, just after the `DATA` line.
#[verifier::loop_isolation(false)]
#[verifier::rlimit(100)]
pub fn parse_header(bytes: &[u8]) -> (r: Result<(PcdHeader, usize), PcdError>)
    ensures
        r is Ok <==> header_ok(bytes@),
        r matches Ok((h, pos)) ==> {
            &&& h.wf()
            &&& 0 < pos <= bytes@.len()
            &&& records_from(bytes@, 0, 10) matches Some((recs, e)) && e == pos && header_read_from(h, recs)
            &&& h.fields@.len() > 0
            &&& forall|i: int| 0 <= i < h.fields@.len() ==> is_token(#[trigger] h.fields@[i]@)
            &&& forall|i: int| 0 <= i < h.types@.len() ==>
                (#[trigger] h.types@[i] == TYPE_UNSIGNED || h.types@[i] == TYPE_SIGNED || h.types@[i] == TYPE_FLOAT)
            &&& forall|i: int| 0 <= i < h.counts@.len() ==> #[trigger] h.counts@[i] >= 1
        },
        r matches Err(e) ==> e is Header,
{
    let ghost mut ts: Seq<Seq<Seq<u8>>> = seq![];
    let ghost mut ps: Seq<int> = seq![0int];
    let (vt, p1, l) = match read_record(bytes, 0, 0, KEY_VERSION) {
        Ok(x) => x,
        Err(e) => {
            proof { lemma_missing_record(bytes@, ts, ps, 0); }
            return Err(e);
        },
    };
    proof {
        let t = next_record(bytes@, ps.last()).unwrap().0;
        lemma_chain_push(bytes@, ts, ps, t, p1 as int);
        ts = ts.push(t);
        ps = ps.push(p1 as int);
    }
    if vt.len() != 1 {
            proof {
                if header_ok(bytes@) {
                    lemma_record_values(bytes@, ts, ps, 0);
                    let recs = records_from(bytes@, 0, 10).unwrap().0;
                    assert(values(recs, 0) == views(vt@));
                    
                }
            }
            return Err(PcdError::Header(l));
    }
    let mut version: Vec<u8> = Vec::new();
    push_all(&mut version, vt[0].as_slice());
    proof {
        assert(version@ =~= vt@[0]@);
        assert(views(vt@) =~= seq![version@]);
    }

    let (fields, p2, l) = match read_record(bytes, p1, l, KEY_FIELDS) {
        Ok(x) => x,
        Err(e) => {
            proof { lemma_missing_record(bytes@, ts, ps, 1); }
            return Err(e);
        },
    };
    proof {
        let t = next_record(bytes@, ps.last()).unwrap().0;
        lemma_chain_push(bytes@, ts, ps, t, p2 as int);
        ts = ts.push(t);
        ps = ps.push(p2 as int);
    }
    let n = fields.len();
    if n == 0 {
            proof {
                if header_ok(bytes@) {
                    lemma_record_values(bytes@, ts, ps, 1);
                    let recs = records_from(bytes@, 0, 10).unwrap().0;
                    assert(values(recs, 1) == views(fields@));
                    
                }
            }
            return Err(PcdError::Header(l));
    }

    let (st, p3, l) = match read_record(bytes, p2, l, KEY_SIZE) {
        Ok(x) => x,
        Err(e) => {
            proof { lemma_missing_record(bytes@, ts, ps, 2); }
            return Err(e);
        },
    };
    proof {
        let t = next_record(bytes@, ps.last()).unwrap().0;
        lemma_chain_push(bytes@, ts, ps, t, p3 as int);
        ts = ts.push(t);
        ps = ps.push(p3 as int);
    }
    if st.len() != n {
            proof {
                if header_ok(bytes@) {
                    lemma_record_values(bytes@, ts, ps, 2);
                    let recs = records_from(bytes@, 0, 10).unwrap().0;
                    assert(values(recs, 2) == views(st@));
                    lemma_record_values(bytes@, ts, ps, 1); assert(values(recs, 1) == views(fields@));
                }
            }
            return Err(PcdError::Header(l));
    }
    let sz = match parse_numbers(&st, 4294967295, l) {
        Ok(v) => v,
        Err(e) => {
            proof {
                if header_ok(bytes@) {
                    lemma_record_values(bytes@, ts, ps, 2);
                    lemma_record_values(bytes@, ts, ps, 1);
                    let recs = records_from(bytes@, 0, 10).unwrap().0;
                    assert(values(recs, 2) == views(st@));
                    assert(values(recs, 1) == views(fields@));
                    let q = choose|q: int| 0 <= q < st@.len() && !(#[trigger] number_within(st@[q]@, 4294967295));
                    assert(views(st@)[q] == st@[q]@);
                }
            }
            return Err(e);
        },
    };
    let mut sizes: Vec<usize> = Vec::new();
    let mut q: usize = 0;
    while q < n
        invariant
            sz@.len() == n,
            q <= n,
            sizes@.len() == q,
            forall|t: int| 0 <= t < sz@.len() ==> #[trigger] sz@[t] <= 4294967295,
            forall|t: int| 0 <= t < q ==> #[trigger] sizes@[t] == sz@[t],
        decreases n - q,
    {
        sizes.push(sz[q] as usize);
        q = q + 1;
    }

    let (tt, p4, l) = match read_record(bytes, p3, l, KEY_TYPE) {
        Ok(x) => x,
        Err(e) => {
            proof { lemma_missing_record(bytes@, ts, ps, 3); }
            return Err(e);
        },
    };
    proof {
        let t = next_record(bytes@, ps.last()).unwrap().0;
        lemma_chain_push(bytes@, ts, ps, t, p4 as int);
        ts = ts.push(t);
        ps = ps.push(p4 as int);
    }
    if tt.len() != n {
            proof {
                if header_ok(bytes@) {
                    lemma_record_values(bytes@, ts, ps, 3);
                    let recs = records_from(bytes@, 0, 10).unwrap().0;
                    assert(values(recs, 3) == views(tt@));
                    lemma_record_values(bytes@, ts, ps, 1); assert(values(recs, 1) == views(fields@));
                }
            }
            return Err(PcdError::Header(l));
    }
    let mut types: Vec<u8> = Vec::new();
    let mut q: usize = 0;
    while q < n
        invariant
            tt@.len() == n,
            q <= n,
            types@.len() == q,
            forall|t: int| 0 <= t < tt@.len() ==> is_token(#[trigger] tt@[t]@),
            forall|i: int| 0 <= i < types@.len() ==>
                (#[trigger] types@[i] == TYPE_UNSIGNED || types@[i] == TYPE_SIGNED || types@[i] == TYPE_FLOAT),
            forall|i: int| 0 <= i < q ==> tt@[i]@ == seq![#[trigger] types@[i]],
        decreases n - q,
    {
        let t = &tt[q];
        if t.len() != 1 || !(t[0] == TYPE_UNSIGNED || t[0] == TYPE_SIGNED || t[0] == TYPE_FLOAT) {
            proof {
                if header_ok(bytes@) {
                    lemma_record_values(bytes@, ts, ps, 3);
                    lemma_record_values(bytes@, ts, ps, 1);
                    let recs = records_from(bytes@, 0, 10).unwrap().0;
                    assert(values(recs, 3) == views(tt@));
                    assert(values(recs, 1) == views(fields@));
                    assert(views(tt@)[q as int] == tt@[q as int]@);
                    assert((values(recs, 3)[q as int]).len() == 1 && is_type_letter(values(recs, 3)[q as int][0]));
                }
            }
            return Err(PcdError::Header(l));
        }
        types.push(t[0]);
        proof {
            assert(tt@[q as int]@ =~= seq![types@[q as int]]);
        }
        q = q + 1;
    }

    let (ct, p5, l) = match read_record(bytes, p4, l, KEY_COUNT) {
        Ok(x) => x,
        Err(e) => {
            proof { lemma_missing_record(bytes@, ts, ps, 4); }
            return Err(e);
        },
    };
    proof {
        let t = next_record(bytes@, ps.last()).unwrap().0;
        lemma_chain_push(bytes@, ts, ps, t, p5 as int);
        ts = ts.push(t);
        ps = ps.push(p5 as int);
    }
    if ct.len() != n {
            proof {
                if header_ok(bytes@) {
                    lemma_record_values(bytes@, ts, ps, 4);
                    let recs = records_from(bytes@, 0, 10).unwrap().0;
                    assert(values(recs, 4) == views(ct@));
                    lemma_record_values(bytes@, ts, ps, 1); assert(values(recs, 1) == views(fields@));
                }
            }
            return Err(PcdError::Header(l));
    }
    let cn = match parse_numbers(&ct, 4294967295, l) {
        Ok(v) => v,
        Err(e) => {
            proof {
                if header_ok(bytes@) {
                    lemma_record_values(bytes@, ts, ps, 4);
                    lemma_record_values(bytes@, ts, ps, 1);
                    let recs = records_from(bytes@, 0, 10).unwrap().0;
                    assert(values(recs, 4) == views(ct@));
                    assert(values(recs, 1) == views(fields@));
                    let q = choose|q: int| 0 <= q < ct@.len() && !(#[trigger] number_within(ct@[q]@, 4294967295));
                    assert(views(ct@)[q] == ct@[q]@);
                }
            }
            return Err(e);
        },
    };
    let mut counts: Vec<usize> = Vec::new();
    let mut q: usize = 0;
    while q < n
        invariant
            cn@.len() == n,
            ct@.len() == n,
            q <= n,
            counts@.len() == q,
            forall|t: int| 0 <= t < cn@.len() ==> #[trigger] cn@[t] <= 4294967295,
            forall|t: int| 0 <= t < cn@.len() ==> #[trigger] cn@[t] == digits_value(ct@[t]@),
            forall|t: int| 0 <= t < counts@.len() ==> #[trigger] counts@[t] >= 1,
            forall|t: int| 0 <= t < q ==> #[trigger] counts@[t] == cn@[t],
            chain_ok(bytes@, ts, ps),
            ts.len() == 5,
            ps[0] == 0,
            views(ct@) == ts[4].subrange(1, ts[4].len() as int),
            views(fields@) == ts[1].subrange(1, ts[1].len() as int),
            fields@.len() == n,
        decreases n - q,
    {
        if cn[q] == 0 {
            proof {
                if header_ok(bytes@) {
                    lemma_record_values(bytes@, ts, ps, 4);
                    lemma_record_values(bytes@, ts, ps, 1);
                    let recs = records_from(bytes@, 0, 10).unwrap().0;
                    assert(values(recs, 4) == views(ct@));
                    assert(values(recs, 1) == views(fields@));
                    assert(views(ct@)[q as int] == ct@[q as int]@);
                    assert(number_within(values(recs, 4)[q as int], 4294967295));
                }
            }
            return Err(PcdError::Header(l));
        }
        counts.push(cn[q] as usize);
        q = q + 1;
    }

    let (wt, p6, l) = match read_record(bytes, p5, l, KEY_WIDTH) {
        Ok(x) => x,
        Err(e) => {
            proof { lemma_missing_record(bytes@, ts, ps, 5); }
            return Err(e);
        },
    };
    proof {
        let t = next_record(bytes@, ps.last()).unwrap().0;
        lemma_chain_push(bytes@, ts, ps, t, p6 as int);
        ts = ts.push(t);
        ps = ps.push(p6 as int);
    }
    let width = match parse_single(&wt, 4294967295, l) {
        Ok(v) => v as u32,
        Err(e) => {
            proof {
                if header_ok(bytes@) {
                    lemma_record_values(bytes@, ts, ps, 5);
                    let recs = records_from(bytes@, 0, 10).unwrap().0;
                    assert(values(recs, 5) == views(wt@));
                    assert(views(wt@)[0] == wt@[0]@);
                }
            }
            return Err(e);
        },
    };
    let (ht, p7, l) = match read_record(bytes, p6, l, KEY_HEIGHT) {
        Ok(x) => x,
        Err(e) => {
            proof { lemma_missing_record(bytes@, ts, ps, 6); }
            return Err(e);
        },
    };
    proof {
        let t = next_record(bytes@, ps.last()).unwrap().0;
        lemma_chain_push(bytes@, ts, ps, t, p7 as int);
        ts = ts.push(t);
        ps = ps.push(p7 as int);
    }
    let height = match parse_single(&ht, 4294967295, l) {
        Ok(v) => v as u32,
        Err(e) => {
            proof {
                if header_ok(bytes@) {
                    lemma_record_values(bytes@, ts, ps, 6);
                    let recs = records_from(bytes@, 0, 10).unwrap().0;
                    assert(values(recs, 6) == views(ht@));
                    assert(views(ht@)[0] == ht@[0]@);
                }
            }
            return Err(e);
        },
    };
    let (viewpoint, p8, l) = match read_record(bytes, p7, l, KEY_VIEWPOINT) {
        Ok(x) => x,
        Err(e) => {
            proof { lemma_missing_record(bytes@, ts, ps, 7); }
            return Err(e);
        },
    };
    proof {
        let t = next_record(bytes@, ps.last()).unwrap().0;
        lemma_chain_push(bytes@, ts, ps, t, p8 as int);
        ts = ts.push(t);
        ps = ps.push(p8 as int);
    }
    if viewpoint.len() != 7 {
            proof {
                if header_ok(bytes@) {
                    lemma_record_values(bytes@, ts, ps, 7);
                    let recs = records_from(bytes@, 0, 10).unwrap().0;
                    assert(values(recs, 7) == views(viewpoint@));
                    
                }
            }
            return Err(PcdError::Header(l));
    }
    let mut q: usize = 0;
    while q < 7
        invariant
            viewpoint@.len() == 7,
            q <= 7,
            forall|i: int| 0 <= i < q ==> #[trigger] is_numeric_text(viewpoint@[i]@),
        decreases 7 - q,
    {
        if !numeric_text(viewpoint[q].as_slice()) {
            proof {
                if header_ok(bytes@) {
                    lemma_record_values(bytes@, ts, ps, 7);
                    let recs = records_from(bytes@, 0, 10).unwrap().0;
                    assert(values(recs, 7) == views(viewpoint@));
                    assert(views(viewpoint@)[q as int] == viewpoint@[q as int]@);
                    assert(is_numeric_text(values(recs, 7)[q as int]));
                }
            }
            return Err(PcdError::Header(l));
        }
        q = q + 1;
    }
    let (pt, p9, l) = match read_record(bytes, p8, l, KEY_POINTS) {
        Ok(x) => x,
        Err(e) => {
            proof { lemma_missing_record(bytes@, ts, ps, 8); }
            return Err(e);
        },
    };
    proof {
        let t = next_record(bytes@, ps.last()).unwrap().0;
        lemma_chain_push(bytes@, ts, ps, t, p9 as int);
        ts = ts.push(t);
        ps = ps.push(p9 as int);
    }
    let points = match parse_single(&pt, usize::MAX as u64, l) {
        Ok(v) => v as usize,
        Err(e) => {
            proof {
                if header_ok(bytes@) {
                    lemma_record_values(bytes@, ts, ps, 8);
                    let recs = records_from(bytes@, 0, 10).unwrap().0;
                    assert(values(recs, 8) == views(pt@));
                    assert(views(pt@)[0] == pt@[0]@);
                }
            }
            return Err(e);
        },
    };
    let (dt, p10, l) = match read_record(bytes, p9, l, KEY_DATA) {
        Ok(x) => x,
        Err(e) => {
            proof { lemma_missing_record(bytes@, ts, ps, 9); }
            return Err(e);
        },
    };
    proof {
        let t = next_record(bytes@, ps.last()).unwrap().0;
        lemma_chain_push(bytes@, ts, ps, t, p10 as int);
        ts = ts.push(t);
        ps = ps.push(p10 as int);
    }
    if dt.len() != 1 {
            proof {
                if header_ok(bytes@) {
                    lemma_record_values(bytes@, ts, ps, 9);
                    let recs = records_from(bytes@, 0, 10).unwrap().0;
                    assert(values(recs, 9) == views(dt@));
                    
                }
            }
            return Err(PcdError::Header(l));
    }
    let data = match DataFormat::from_token(dt[0].as_slice()) {
        Some(d) => d,
        None => {
            proof {
                if header_ok(bytes@) {
                    lemma_record_values(bytes@, ts, ps, 9);
                    let recs = records_from(bytes@, 0, 10).unwrap().0;
                    assert(values(recs, 9) == views(dt@));
                    assert(views(dt@)[0] == dt@[0]@);
                    assert(is_format_token(values(recs, 9)[0]));
                }
            }
            return Err(PcdError::Header(l));
        },
    };
    let h = PcdHeader { version, fields, sizes, types, counts, width, height, viewpoint, points, data };
    proof {
        let recs = ts;
        lemma_records_chain(bytes@, recs, ps, 10);
        assert(recs.subrange(0, 10) =~= recs);
        assert(values(recs, 0) == views(vt@));
        assert(values(recs, 1) == views(h.fields@));
        assert(values(recs, 2) == views(st@));
        assert(values(recs, 3) == views(tt@));
        assert(values(recs, 4) == views(ct@));
        assert(values(recs, 5) == views(wt@));
        assert(values(recs, 6) == views(ht@));
        assert(values(recs, 7) == views(h.viewpoint@));
        assert(values(recs, 8) == views(pt@));
        assert(values(recs, 9) == views(dt@));
        assert(views(dt@) =~= seq![format_token(data)]);
        assert forall|i: int| 0 <= i < h.sizes@.len() implies #[trigger] h.sizes@[i] == digits_value(values(recs, 2)[i]) by {
            assert(views(st@)[i] == st@[i]@);
        }
        assert forall|i: int| 0 <= i < h.types@.len() implies values(recs, 3)[i] == seq![#[trigger] h.types@[i]] by {
            assert(views(tt@)[i] == tt@[i]@);
        }
        assert forall|i: int| 0 <= i < h.counts@.len() implies #[trigger] h.counts@[i] == digits_value(values(recs, 4)[i]) by {
            assert(views(ct@)[i] == ct@[i]@);
        }
        assert(views(wt@)[0] == wt@[0]@);
        assert(views(ht@)[0] == ht@[0]@);
        assert(views(pt@)[0] == pt@[0]@);
        assert forall|k: int| 0 <= k < 10 implies (#[trigger] recs[k]).len() >= 1 && recs[k][0] == key_spec(k as nat) by {
            assert(next_record(bytes@, ps[k]) == Some((ts[k], ps[k + 1])));
        }
        assert(header_read_from(h, recs));
        assert forall|i: int| 0 <= i < n implies #[trigger] number_within(values(recs, 2)[i], 4294967295) by {
            assert(views(st@)[i] == st@[i]@);
        }
        assert forall|i: int| 0 <= i < n implies (#[trigger] values(recs, 3)[i]).len() == 1 && is_type_letter(values(recs, 3)[i][0]) by {
            assert(views(tt@)[i] == tt@[i]@);
            assert(tt@[i]@ == seq![h.types@[i]]);
        }
        assert forall|i: int| 0 <= i < n implies #[trigger] number_within(values(recs, 4)[i], 4294967295)
            && digits_value(values(recs, 4)[i]) >= 1 by {
            assert(views(ct@)[i] == ct@[i]@);
            assert(h.counts@[i] >= 1);
        }
        assert forall|i: int| 0 <= i < 7 implies #[trigger] is_numeric_text(values(recs, 7)[i]) by {
            assert(views(h.viewpoint@)[i] == h.viewpoint@[i]@);
        }
        assert(is_format_token(values(recs, 9)[0]));
        assert(records_valid(recs));
    }
    Ok((h, p10))
}

/// No well-formed header when record `k` is missing or has another key.
proof fn lemma_missing_record(s: Seq<u8>, ts: Seq<Seq<Seq<u8>>>, ps: Seq<int>, k: nat)
    requires
        chain_ok(s, ts, ps),
        ts.len() == k,
        ps[0] == 0,
        k < 10,
        !(next_record(s, ps.last()) matches Some((t, n)) && t.len() >= 1 && t[0] == key_spec(k)),
    ensures
        !header_ok(s),
{
    if header_ok(s) {
        lemma_record_k(s, ts, ps, k, 10);
        let recs = records_from(s, 0, 10).unwrap().0;
        assert(recs[k as int].len() >= 1 && recs[k as int][0] == key_spec(k));
    }
}

/// In a well-formed header, record `k` of a chain from the start is the
/// header's record `k`.
proof fn lemma_record_values(s: Seq<u8>, ts: Seq<Seq<Seq<u8>>>, ps: Seq<int>, k: nat)
    requires
        chain_ok(s, ts, ps),
        k < ts.len(),
        ps[0] == 0,
        k < 10,
        header_ok(s),
    ensures
        ts[k as int] == records_from(s, 0, 10).unwrap().0[k as int],
{
    lemma_record_k(s, ts, ps, k, 10);
}

/// Checks the text of a viewpoint number.
fn numeric_text(t: &[u8]) -> (r: bool)
    ensures
        r == is_numeric_text(t@),
{
    let mut digit = false;
    let mut i: usize = 0;
    while i < t.len()
        invariant
            i <= t@.len(),
            forall|q: int| 0 <= q < i ==> numeric_char(#[trigger] t@[q]),
            digit == exists|q: int| 0 <= q < i && is_digit(#[trigger] t@[q]),
        decreases t@.len() - i,
    {
        let b = t[i];
        if !((48 <= b && b <= 57) || b == 43 || b == 45 || b == 46 || b == 101 || b == 69) {
            return false;
        }
        if 48 <= b && b <= 57 {
            digit = true;
        }
        proof {
            if !digit {
                assert forall|q: int| 0 <= q < i + 1 implies !is_digit(#[trigger] t@[q]) by {}
            }
        }
        i = i + 1;
    }
    digit
}

/// A chain of records, each starting where the one before it ended, is what
/// `records_from` reads.
proof fn lemma_records_chain(s: Seq<u8>, recs: Seq<Seq<Seq<u8>>>, ps: Seq<int>, n: nat)
    requires
        recs.len() >= n,
        ps.len() >= n + 1,
        forall|k: int| 0 <= k < n ==> next_record(s, #[trigger] ps[k]) == Some((recs[k], ps[k + 1])),
    ensures
        records_from(s, ps[0], n) == Some((recs.subrange(0, n as int), ps[n as int])),
    decreases n,
{
    if n > 0 {
        let r2 = recs.drop_first();
        let p2 = ps.drop_first();
        assert forall|k: int| 0 <= k < n - 1 implies next_record(s, #[trigger] p2[k]) == Some((r2[k], p2[k + 1])) by {
            assert(p2[k] == ps[k + 1]);
            assert(next_record(s, ps[k + 1]) == Some((recs[k + 1], ps[k + 2])));
        }
        lemma_records_chain(s, r2, p2, (n - 1) as nat);
        assert(next_record(s, ps[0]) == Some((recs[0], ps[1])));
        assert(seq![recs[0]] + r2.subrange(0, n - 1) =~= recs.subrange(0, n as int));
    }
}

/// Tokens, each preceded by one space.
pub open spec fn joined(toks: Seq<Seq<u8>>) -> Seq<u8>
    decreases toks.len(),
{
    if toks.len() == 0 {
        seq![]
    } else {
        joined(toks.drop_last()) + seq![32u8] + toks.last()
    }
}

/// A header record line: its key, its value tokens, a line feed.
pub open spec fn record_line(k: nat, toks: Seq<Seq<u8>>) -> Seq<u8> {
    key_spec(k) + joined(toks) + seq![10u8]
}

pub open spec fn views(v: Seq<Vec<u8>>) -> Seq<Seq<u8>> {
    v.map_values(|t: Vec<u8>| t@)
}

pub open spec fn decimals(v: Seq<usize>) -> Seq<Seq<u8>> {
    v.map_values(|n: usize| decimal(n as nat))
}

pub open spec fn letters(v: Seq<u8>) -> Seq<Seq<u8>> {
    v.map_values(|c: u8| seq![c])
}

/// The text of a header, one record per line in the canonical key order.
pub open spec fn header_text(h: PcdHeader) -> Seq<u8> {
    record_line(0, seq![h.version@])
        + record_line(1, views(h.fields@))
        + record_line(2, decimals(h.sizes@))
        + record_line(3, letters(h.types@))
        + record_line(4, decimals(h.counts@))
        + record_line(5, seq![decimal(h.width as nat)])
        + record_line(6, seq![decimal(h.height as nat)])
        + record_line(7, views(h.viewpoint@))
        + record_line(8, seq![decimal(h.points as nat)])
        + record_line(9, seq![format_token(h.data)])
}

/// Appends record line `k` with the given value tokens.
fn push_record(out: &mut Vec<u8>, k: usize, toks: &Vec<Vec<u8>>)
    ensures
        final(out)@ == old(out)@ + record_line(k as nat, views(toks@)),
{
    let kw = key(k);
    push_all(out, kw.as_slice());
    let mut q: usize = 0;
    while q < toks.len()
        invariant
            q <= toks@.len(),
            out@ == old(out)@ + key_spec(k as nat) + joined(views(toks@.subrange(0, q as int))),
        decreases toks@.len() - q,
    {
        out.push(32u8);
        push_all(out, toks[q].as_slice());
        proof {
            let a = views(toks@.subrange(0, q as int + 1));
            assert(a.drop_last() =~= views(toks@.subrange(0, q as int)));
        }
        q = q + 1;
    }
    out.push(10u8);
    proof {
        assert(toks@.subrange(0, q as int) =~= toks@);
        assert(out@ =~= old(out)@ + record_line(k as nat, views(toks@)));
    }
}

/// The decimal tokens of a list of numbers.
fn decimal_tokens(v: &Vec<usize>) -> (r: Vec<Vec<u8>>)
    ensures
        views(r@) == decimals(v@),
{
    let mut out: Vec<Vec<u8>> = Vec::new();
    let mut q: usize = 0;
    while q < v.len()
        invariant
            q <= v@.len(),
            views(out@) =~= decimals(v@.subrange(0, q as int)),
        decreases v@.len() - q,
    {
        let mut t: Vec<u8> = Vec::new();
        push_decimal(v[q] as u64, &mut t);
        assert(t@ =~= decimal(v@[q as int] as nat));
        let ghost prev = out@;
        out.push(t);
        proof {
            assert(views(out@) =~= views(prev).push(decimal(v@[q as int] as nat)));
            assert(v@.subrange(0, q as int + 1) =~= v@.subrange(0, q as int).push(v@[q as int]));
        }
        q = q + 1;
        proof {
            assert(views(out@) =~= decimals(v@.subrange(0, q as int)));
        }
    }
    proof {
        assert(v@.subrange(0, q as int) =~= v@);
    }
    out
}

/// A one-token record value.
fn single(t: Vec<u8>) -> (r: Vec<Vec<u8>>)
    ensures
        views(r@) == seq![t@],
{
    let mut r: Vec<Vec<u8>> = Vec::new();
    r.push(t);
    proof {
        assert(views(r@) =~= seq![t@]);
    }
    r
}

fn decimal_of(n: u64) -> (r: Vec<u8>)
    ensures
        r@ == decimal(n as nat),
{
    let mut t: Vec<u8> = Vec::new();
    push_decimal(n, &mut t);
    proof {
        assert(t@ =~= decimal(n as nat));
    }
    t
}

/// Writes the text of a header.
pub fn write_header(h: &PcdHeader) -> (r: Vec<u8>)
    ensures
        r@ == header_text(*h),
{
    let mut out: Vec<Vec<u8>> = Vec::new();
    let mut text: Vec<u8> = Vec::new();
    let mut v: Vec<u8> = Vec::new();
    push_all(&mut v, h.version.as_slice());
    assert(v@ =~= h.version@);
    push_record(&mut text, KEY_VERSION, &single(v));
    push_record(&mut text, KEY_FIELDS, &h.fields);
    push_record(&mut text, KEY_SIZE, &decimal_tokens(&h.sizes));
    let mut letters_v: Vec<Vec<u8>> = Vec::new();
    let mut q: usize = 0;
    while q < h.types.len()
        invariant
            q <= h.types@.len(),
            views(letters_v@) =~= letters(h.types@.subrange(0, q as int)),
        decreases h.types@.len() - q,
    {
        let mut t: Vec<u8> = Vec::new();
        t.push(h.types[q]);
        assert(t@ =~= seq![h.types@[q as int]]);
        let ghost prev = letters_v@;
        letters_v.push(t);
        proof {
            assert(views(letters_v@) =~= views(prev).push(seq![h.types@[q as int]]));
            assert(h.types@.subrange(0, q as int + 1) =~= h.types@.subrange(0, q as int).push(h.types@[q as int]));
        }
        q = q + 1;
        proof {
            assert(views(letters_v@) =~= letters(h.types@.subrange(0, q as int)));
        }
    }
    proof {
        assert(h.types@.subrange(0, q as int) =~= h.types@);
    }
    push_record(&mut text, KEY_TYPE, &letters_v);
    push_record(&mut text, KEY_COUNT, &decimal_tokens(&h.counts));
    push_record(&mut text, KEY_WIDTH, &single(decimal_of(h.width as u64)));
    push_record(&mut text, KEY_HEIGHT, &single(decimal_of(h.height as u64)));
    push_record(&mut text, KEY_VIEWPOINT, &h.viewpoint);
    push_record(&mut text, KEY_POINTS, &single(decimal_of(h.points as u64)));
    push_record(&mut text, KEY_DATA, &single(h.data.token()));
    proof {
        assert(text@ =~= header_text(*h));
    }
    text
}

} // verus!
