use vstd::prelude::*;
use crate::error::PcdError;
use crate::header::PcdHeader;
use crate::kind::{kind_of, ValueKind};
use crate::text::{decimal, push_all, push_decimal};

verus! {

/// One physical (scalar) column of a record.
pub struct FieldLayout {
    pub name: Vec<u8>,
    pub kind: ValueKind,
    /// Byte offset of this column within a binary record.
    pub offset: usize,
}

/// The physical columns of a record, in file order, and the record stride.
pub struct Layout {
    pub fields: Vec<FieldLayout>,
    pub stride: usize,
}

/// Sum of the element widths of the first `m` kinds.
pub open spec fn widths_sum(kinds: Seq<ValueKind>, m: int) -> nat
    decreases m,
{
    if m <= 0 {
        0
    } else {
        widths_sum(kinds, m - 1) + kinds[m - 1].width_spec()
    }
}

/// Name of physical column `k` of a field declared with `count` repeats:
/// the field's own name when it has one, `name_k` otherwise.
pub open spec fn physical_name(name: Seq<u8>, count: nat, k: nat) -> Seq<u8> {
    if count == 1 {
        name
    } else {
        name + seq![95u8] + decimal(k)
    }
}

/// The physical columns that declared field `i` expands to.
pub open spec fn expand_field(h: PcdHeader, i: int) -> Seq<(Seq<u8>, ValueKind)> {
    expand_one(h.fields@[i]@, h.counts@[i] as nat, kind_of(h.sizes@[i] as nat, h.types@[i]).unwrap())
}

/// The physical columns of one field of the given name, repeat count and kind.
pub open spec fn expand_one(name: Seq<u8>, count: nat, kind: ValueKind) -> Seq<(Seq<u8>, ValueKind)> {
    Seq::new(count, |k: int| (physical_name(name, count, k as nat), kind))
}

/// The physical columns of the first `m` declared fields, in order.
pub open spec fn expand_fields(h: PcdHeader, m: int) -> Seq<(Seq<u8>, ValueKind)>
    decreases m,
{
    if m <= 0 {
        seq![]
    } else {
        expand_fields(h, m - 1) + expand_field(h, m - 1)
    }
}

/// Record bytes taken by the first `m` declared fields.
pub open spec fn declared_stride(h: PcdHeader, m: int) -> nat
    decreases m,
{
    if m <= 0 {
        0
    } else {
        declared_stride(h, m - 1) + (h.sizes@[m - 1] as nat) * (h.counts@[m - 1] as nat)
    }
}

/// Every declared `SIZE`/`TYPE` pair names one of the eight primitives.
pub open spec fn all_kinds_valid(h: PcdHeader) -> bool {
    forall|i: int| 0 <= i < h.fields@.len() ==> (#[trigger] kind_of(h.sizes@[i] as nat, h.types@[i])).is_some()
}

/// No two physical columns share a name.
pub open spec fn names_distinct(p: Seq<(Seq<u8>, ValueKind)>) -> bool {
    forall|a: int, b: int| 0 <= a < b < p.len() ==> #[trigger] p[a].0 != #[trigger] p[b].0
}

/// Whether a layout can be derived from the header: every field has a
/// supported primitive, the stride fits in memory, and the physical column
/// names are distinct.
pub open spec fn layout_ok(h: PcdHeader) -> bool {
    &&& all_kinds_valid(h)
    &&& declared_stride(h, h.fields@.len() as int) <= usize::MAX
    &&& names_distinct(expand_fields(h, h.fields@.len() as int))
}

impl FieldLayout {
    pub open spec fn view_pair(self) -> (Seq<u8>, ValueKind) {
        (self.name@, self.kind)
    }
}

impl Layout {
    pub open spec fn kinds(&self) -> Seq<ValueKind> {
        self.fields@.map_values(|f: FieldLayout| f.kind)
    }

    pub open spec fn pairs(&self) -> Seq<(Seq<u8>, ValueKind)> {
        self.fields@.map_values(|f: FieldLayout| f.view_pair())
    }

    pub open spec fn width_of(&self, j: int) -> nat {
        self.fields@[j].kind.width_spec()
    }

    pub open spec fn offset_of(&self, j: int) -> nat {
        self.fields@[j].offset as nat
    }

    /// Columns are packed back to back: each offset is the sum of the widths
    /// before it, and the stride is the sum of all widths.
    pub open spec fn wf(&self) -> bool {
        &&& forall|j: int| 0 <= j < self.fields@.len() ==>
            (#[trigger] self.fields@[j]).offset == widths_sum(self.kinds(), j)
        &&& self.stride == widths_sum(self.kinds(), self.fields@.len() as int)
    }
}

pub proof fn lemma_widths_sum_push(kinds: Seq<ValueKind>, k: ValueKind)
    ensures
        widths_sum(kinds.push(k), kinds.len() as int + 1) == widths_sum(kinds, kinds.len() as int) + k.width_spec(),
{
    lemma_widths_sum_prefix(kinds.push(k), kinds, kinds.len() as int);
}

/// The sum over a prefix depends on that prefix alone.
pub proof fn lemma_widths_sum_prefix(a: Seq<ValueKind>, b: Seq<ValueKind>, m: int)
    requires
        0 <= m <= a.len(),
        m <= b.len(),
        forall|j: int| 0 <= j < m ==> a[j] == b[j],
    ensures
        widths_sum(a, m) == widths_sum(b, m),
    decreases m,
{
    if m > 0 {
        lemma_widths_sum_prefix(a, b, m - 1);
    }
}

/// Widths never decrease along a prefix, and each column ends within the stride.
pub proof fn lemma_widths_sum_mono(kinds: Seq<ValueKind>, a: int, b: int)
    requires
        0 <= a <= b <= kinds.len(),
    ensures
        widths_sum(kinds, a) <= widths_sum(kinds, b),
        a < b ==> widths_sum(kinds, a) + kinds[a].width_spec() <= widths_sum(kinds, b),
    decreases b - a,
{
    if a < b {
        lemma_widths_sum_mono(kinds, a, b - 1);
    }
}

/// Derives the physical record layout of a header: each field declared with
/// `COUNT n > 1` becomes `n` scalar columns `name_0 .. name_{n-1}`, offsets are
/// running sums of the widths, and the stride is their total.
pub fn derive_layout(h: &PcdHeader) -> (r: Result<Layout, PcdError>)
    requires
        h.wf(),
    ensures
        r.is_ok() <==> layout_ok(*h),
        r matches Ok(l) ==> {
            &&& l.wf()
            &&& l.pairs() == expand_fields(*h, h.fields@.len() as int)
            &&& l.stride == declared_stride(*h, h.fields@.len() as int)
        },
        r matches Err(e) ==> (e matches PcdError::Layout(i) && i < h.fields@.len()),
{
    let mut fields: Vec<FieldLayout> = Vec::new();
    let mut stride: usize = 0;
    let n = h.fields.len();
    let mut i: usize = 0;
    while i < n
        invariant
            h.wf(),
            n == h.fields@.len(),
            i <= n,
            forall|j: int| 0 <= j < i ==> (#[trigger] kind_of(h.sizes@[j] as nat, h.types@[j])).is_some(),
            stride == declared_stride(*h, i as int),
            (Layout { fields, stride }).wf(),
            (Layout { fields, stride: 0 }).pairs() == expand_fields(*h, i as int),
        decreases n - i,
    {
        let size = h.sizes[i];
        let count = h.counts[i];
        let kind = match ValueKind::from_size_tag(size, h.types[i]) {
            Some(k) => k,
            None => {
                proof {
                    assert(!all_kinds_valid(*h)) by {
                        assert(kind_of(h.sizes@[i as int] as nat, h.types@[i as int]).is_none());
                    }
                }
                return Err(PcdError::Layout(i));
            },
        };
        let w = kind.width();
        assert(w == size);
        let block = match size.checked_mul(count) {
            Some(b) => b,
            None => {
                proof { lemma_declared_stride_grows(*h, i as int + 1, n as int); }
                return Err(PcdError::Layout(i));
            },
        };
        let new_stride = match stride.checked_add(block) {
            Some(s) => s,
            None => {
                proof { lemma_declared_stride_grows(*h, i as int + 1, n as int); }
                return Err(PcdError::Layout(i));
            },
        };
        append_physical(&mut fields, stride, &h.fields[i], count, kind);
        proof {
            assert(kind_of(h.sizes@[i as int] as nat, h.types@[i as int]).is_some());
        }
        stride = new_stride;
        i = i + 1;
    }
    proof {
        assert((Layout { fields, stride }).pairs() == (Layout { fields, stride: 0 }).pairs());
    }
    let l = Layout { fields, stride };
    if !names_unique(&l) {
        proof {
            if n == 0 {
                assert(l.pairs().len() == 0);
            }
        }
        return Err(PcdError::Layout(0));
    }
    Ok(l)
}

/// Whether the layout's column names are pairwise distinct.
fn names_unique(l: &Layout) -> (r: bool)
    ensures
        r == names_distinct(l.pairs()),
{
    let n = l.fields.len();
    let ghost p = l.pairs();
    let mut a: usize = 0;
    while a < n
        invariant
            n == l.fields@.len() == p.len(),
            p == l.pairs(),
            a <= n,
            forall|x: int, y: int| 0 <= x < a && x < y < n ==> #[trigger] p[x].0 != #[trigger] p[y].0,
        decreases n - a,
    {
        let mut b: usize = a + 1;
        while b < n
            invariant
                n == l.fields@.len() == p.len(),
                p == l.pairs(),
                a < n,
                a + 1 <= b <= n,
                forall|x: int, y: int| 0 <= x < a && x < y < n ==> #[trigger] p[x].0 != #[trigger] p[y].0,
                forall|y: int| a < y < b ==> p[a as int].0 != #[trigger] p[y].0,
            decreases n - b,
        {
            if crate::text::bytes_eq(l.fields[a].name.as_slice(), l.fields[b].name.as_slice()) {
                proof {
                    assert(p[a as int].0 == p[b as int].0);
                }
                return false;
            }
            b = b + 1;
        }
        proof {
            assert forall|x: int, y: int| 0 <= x < a + 1 && x < y < n implies #[trigger] p[x].0 != #[trigger] p[y].0 by {
                if x == a {
                    assert(p[a as int].0 != p[y].0);
                }
            }
        }
        a = a + 1;
    }
    true
}

/// Appends the physical columns of one declared field to a packed layout
/// whose columns so far end at `start`.
fn append_physical(fields: &mut Vec<FieldLayout>, start: usize, base: &Vec<u8>, count: usize, kind: ValueKind)
    requires
        (Layout { fields: *old(fields), stride: start }).wf(),
        start + kind.width_spec() * count <= usize::MAX,
    ensures
        (Layout { fields: *final(fields), stride: (start + kind.width_spec() * count) as usize }).wf(),
        (Layout { fields: *final(fields), stride: 0 }).pairs()
            == (Layout { fields: *old(fields), stride: 0 }).pairs() + expand_one(base@, count as nat, kind),
{
    let w = kind.width();
    let ghost before_pairs = (Layout { fields: *fields, stride: 0 }).pairs();
    let mut k: usize = 0;
    while k < count
        invariant
            w == kind.width_spec(),
            k <= count,
            start + w * count <= usize::MAX,
            (Layout { fields: *fields, stride: (start + w * k) as usize }).wf(),
            (Layout { fields: *fields, stride: 0 }).pairs()
                == before_pairs + expand_one(base@, count as nat, kind).subrange(0, k as int),
        decreases count - k,
    {
        let mut name: Vec<u8> = Vec::new();
        push_all(&mut name, base.as_slice());
        if count != 1 {
            name.push(95u8);
            push_decimal(k as u64, &mut name);
        }
        proof {
            assert(name@ =~= physical_name(base@, count as nat, k as nat));
            assert(w * k + w == w * (k + 1)) by (nonlinear_arith);
            assert(w * (k + 1) <= w * count) by (nonlinear_arith) requires k + 1 <= count;
        }
        let off = start + w * k;
        let ghost old_fields = *fields;
        let ghost old_l = Layout { fields: *fields, stride: off };
        fields.push(FieldLayout { name, kind, offset: off });
        proof {
            let l = Layout { fields: *fields, stride: (start + w * (k + 1)) as usize };
            assert(l.kinds() =~= old_l.kinds().push(kind));
            lemma_widths_sum_push(old_l.kinds(), kind);
            assert forall|j: int| 0 <= j < fields@.len() implies
                (#[trigger] fields@[j]).offset == widths_sum(l.kinds(), j) by {
                lemma_widths_sum_prefix(l.kinds(), old_l.kinds(), j);
            }
            let e = expand_one(base@, count as nat, kind);
            assert((Layout { fields: *fields, stride: 0 }).pairs()
                =~= (Layout { fields: old_fields, stride: 0 }).pairs().push(e[k as int]));
            assert(e.subrange(0, k as int + 1) =~= e.subrange(0, k as int).push(e[k as int]));
        }
        k = k + 1;
    }
    proof {
        assert(expand_one(base@, count as nat, kind).subrange(0, count as int) =~= expand_one(base@, count as nat, kind));
    }
}

/// The physical columns of the first `a` fields begin those of the first `b`.
proof fn lemma_expand_prefix(h: PcdHeader, a: int, b: int)
    requires
        0 <= a <= b,
    ensures
        expand_fields(h, a).len() <= expand_fields(h, b).len(),
        forall|q: int| 0 <= q < expand_fields(h, a).len() ==> #[trigger] expand_fields(h, b)[q] == expand_fields(h, a)[q],
    decreases b - a,
{
    if a < b {
        lemma_expand_prefix(h, a, b - 1);
        assert forall|q: int| 0 <= q < expand_fields(h, a).len() implies #[trigger] expand_fields(h, b)[q] == expand_fields(h, a)[q] by {
            assert(expand_fields(h, b)[q] == expand_fields(h, b - 1)[q]);
        }
    }
}

/// A field declared with `COUNT c` becomes `c` consecutive scalar columns of
/// its kind, placed after the columns of the fields before it; when `c > 1`
/// they are named `name_0 .. name_{c-1}`.
pub proof fn lemma_count_expansion(h: PcdHeader, i: int)
    requires
        h.wf(),
        0 <= i < h.fields@.len(),
    ensures ({
        let start = expand_fields(h, i).len() as int;
        let all = expand_fields(h, h.fields@.len() as int);
        let c = h.counts@[i] as int;
        &&& start + c <= all.len()
        &&& forall|k: int| 0 <= k < c ==> #[trigger] all[start + k] == (
            physical_name(h.fields@[i]@, c as nat, k as nat), kind_of(h.sizes@[i] as nat, h.types@[i]).unwrap())
        &&& c > 1 ==> forall|k: int| 0 <= k < c ==>
            #[trigger] all[start + k].0 == h.fields@[i]@ + seq![95u8] + decimal(k as nat)
    }),
{
    let n = h.fields@.len() as int;
    lemma_expand_prefix(h, i + 1, n);
    let start = expand_fields(h, i).len() as int;
    let c = h.counts@[i] as int;
    assert(expand_fields(h, i + 1) == expand_fields(h, i) + expand_field(h, i));
    assert forall|k: int| 0 <= k < c implies #[trigger] expand_fields(h, n)[start + k] == (
        physical_name(h.fields@[i]@, c as nat, k as nat), kind_of(h.sizes@[i] as nat, h.types@[i]).unwrap()) by {
        assert(expand_fields(h, n)[start + k] == expand_fields(h, i + 1)[start + k]);
    }
}

/// The declared stride only grows as fields are added.
proof fn lemma_declared_stride_grows(h: PcdHeader, a: int, b: int)
    requires
        h.wf(),
        0 <= a <= b <= h.fields@.len(),
    ensures
        declared_stride(h, a) <= declared_stride(h, b),
    decreases b - a,
{
    if a < b {
        lemma_declared_stride_grows(h, a, b - 1);
    }
}

} // verus!
