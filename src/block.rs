use vstd::prelude::*;
use crate::error::PcdError;
use crate::kind::ValueKind;
use crate::layout::Layout;
use crate::text::{bytes_eq, push_all};

verus! {

/// One column: `data` holds its elements back to back, each as the
/// little-endian bytes of its primitive type.
pub struct Column {
    pub kind: ValueKind,
    pub data: Vec<u8>,
}

/// Named columns of equal length, in field order.
pub struct PointBlock {
    pub names: Vec<Vec<u8>>,
    pub columns: Vec<Column>,
    pub points: usize,
}

impl Column {
    /// Column holds exactly `n` elements.
    pub open spec fn holds(&self, n: nat) -> bool {
        self.data@.len() == n * self.kind.width_spec()
    }

    /// The little-endian bytes of element `i`.
    pub open spec fn element(&self, i: int) -> Seq<u8> {
        let w = self.kind.width_spec() as int;
        self.data@.subrange(i * w, i * w + w)
    }

    pub fn kind(&self) -> (r: ValueKind)
        ensures
            r == self.kind,
    {
        self.kind
    }

    pub fn bytes(&self) -> (r: &Vec<u8>)
        ensures
            r@ == self.data@,
    {
        &self.data
    }

    /// Number of elements.
    pub fn len(&self) -> (r: usize)
        ensures
            r as nat == self.data@.len() / self.kind.width_spec(),
    {
        self.data.len() / self.kind.width()
    }
}

impl PointBlock {
    pub open spec fn wf(&self) -> bool {
        &&& self.names@.len() == self.columns@.len()
        &&& forall|j: int| 0 <= j < self.columns@.len() ==> (#[trigger] self.columns@[j]).holds(self.points as nat)
    }

    /// The block has the layout's columns, names and kinds, in its order.
    pub open spec fn matches(&self, l: &Layout) -> bool {
        &&& self.columns@.len() == l.fields@.len()
        &&& self.names@.len() == l.fields@.len()
        &&& forall|j: int| 0 <= j < l.fields@.len() ==> {
            &&& (#[trigger] self.names@[j])@ == l.fields@[j].name@
            &&& self.columns@[j].kind == l.fields@[j].kind
        }
    }

    /// A block of `points` zero elements for each `(name, kind)` of the schema.
    pub fn new(schema: &Vec<(Vec<u8>, ValueKind)>, points: usize) -> (r: PointBlock)
        requires
            forall|j: int| 0 <= j < schema@.len() ==> points * (#[trigger] schema@[j]).1.width_spec() <= usize::MAX,
        ensures
            r.wf(),
            r.points == points,
            r.names@.len() == schema@.len(),
            forall|j: int| 0 <= j < schema@.len() ==> (#[trigger] r.names@[j])@ == schema@[j].0@,
            forall|j: int| 0 <= j < schema@.len() ==> (#[trigger] r.columns@[j]).kind == schema@[j].1,
            forall|j: int| 0 <= j < schema@.len() ==>
                (#[trigger] r.columns@[j]).data@ == zero_bytes((points * schema@[j].1.width_spec()) as nat),
    {
        let mut names: Vec<Vec<u8>> = Vec::new();
        let mut columns: Vec<Column> = Vec::new();
        let mut j: usize = 0;
        while j < schema.len()
            invariant
                j <= schema@.len(),
                names@.len() == j,
                columns@.len() == j,
                forall|j: int| 0 <= j < schema@.len() ==> points * (#[trigger] schema@[j]).1.width_spec() <= usize::MAX,
                forall|q: int| 0 <= q < j ==> {
                    &&& (#[trigger] names@[q])@ == schema@[q].0@
                    &&& columns@[q].kind == schema@[q].1
                    &&& columns@[q].data@ == zero_bytes((points * schema@[q].1.width_spec()) as nat)
                },
            decreases schema@.len() - j,
        {
            let kind = schema[j].1;
            let n = points * kind.width();
            let mut name: Vec<u8> = Vec::new();
            push_all(&mut name, schema[j].0.as_slice());
            let data = zeros(n);
            let ghost old_names = names@;
            let ghost old_columns = columns@;
            names.push(name);
            columns.push(Column { kind, data });
            proof {
                assert forall|q: int| 0 <= q < j + 1 implies {
                    &&& (#[trigger] names@[q])@ == schema@[q].0@
                    &&& columns@[q].kind == schema@[q].1
                    &&& columns@[q].data@ == zero_bytes((points * schema@[q].1.width_spec()) as nat)
                } by {
                    if q < j {
                        assert(names@[q] == old_names[q]);
                        assert(columns@[q] == old_columns[q]);
                    }
                }
            }
            j = j + 1;
        }
        let r = PointBlock { names, columns, points };
        proof {
            assert forall|q: int| 0 <= q < r.columns@.len() implies (#[trigger] r.columns@[q]).holds(points as nat) by {
                assert(r.names@[q]@ == schema@[q].0@);
                assert(r.columns@[q].data@.len() == points * schema@[q].1.width_spec());
            }
            assert forall|q: int| 0 <= q < schema@.len() implies
                (#[trigger] r.columns@[q]).data@ == zero_bytes((points * schema@[q].1.width_spec()) as nat)
                && r.columns@[q].kind == schema@[q].1 by {
                assert(r.names@[q]@ == schema@[q].0@);
            }
        }
        r
    }

    /// Replaces the elements of column `j`, keeping its kind. Fails with
    /// `TypeMismatch` when there is no such column and with `LengthMismatch`
    /// when `data` is not `points` elements of the column's kind.
    pub fn set_column(&mut self, j: usize, data: Vec<u8>) -> (r: Result<(), PcdError>)
        requires
            old(self).wf(),
        ensures
            final(self).wf(),
            final(self).names@ == old(self).names@,
            final(self).points == old(self).points,
            r.is_ok() <==> j < old(self).columns@.len()
                && data@.len() == old(self).points * old(self).columns@[j as int].kind.width_spec(),
            r.is_ok() ==> final(self).columns@ == old(self).columns@.update(j as int,
                Column { kind: old(self).columns@[j as int].kind, data }),
            r.is_err() ==> final(self).columns@ == old(self).columns@,
    {
        if j >= self.columns.len() {
            return Err(PcdError::TypeMismatch(j));
        }
        let kind = self.columns[j].kind;
        let w = kind.width();
        let n = data.len();
        if n % w != 0 || n / w != self.points {
            proof {
                assert(n != self.points * w) by (nonlinear_arith)
                    requires n % w != 0 || n / w != self.points, w > 0;
            }
            return Err(PcdError::LengthMismatch(j, self.points, n / w));
        }
        proof {
            assert(n == self.points * w) by (nonlinear_arith)
                requires n % w == 0, n / w == self.points, w > 0;
        }
        self.columns[j] = Column { kind, data };
        Ok(())
    }

    /// Number of points, the length of every column.
    pub fn len(&self) -> (r: usize)
        ensures
            r == self.points,
    {
        self.points
    }

    /// Column names in field order.
    pub fn schema(&self) -> (r: &Vec<Vec<u8>>)
        ensures
            r@ == self.names@,
    {
        &self.names
    }

    /// The column at position `i`, if there is one.
    pub fn get_column_by_index(&self, i: usize) -> (r: Option<&Column>)
        ensures
            i < self.columns@.len() ==> r == Some(&self.columns@[i as int]),
            i >= self.columns@.len() ==> r.is_none(),
    {
        if i < self.columns.len() {
            Some(&self.columns[i])
        } else {
            None
        }
    }

    /// Position of the first column called `name`, if any.
    pub fn position(&self, name: &[u8]) -> (r: Option<usize>)
        ensures
            r matches Some(i) ==> i < self.names@.len() && self.names@[i as int]@ == name@
                && forall|q: int| 0 <= q < i ==> (#[trigger] self.names@[q])@ != name@,
            r.is_none() ==> forall|q: int| 0 <= q < self.names@.len() ==> (#[trigger] self.names@[q])@ != name@,
    {
        let mut i: usize = 0;
        while i < self.names.len()
            invariant
                i <= self.names@.len(),
                forall|q: int| 0 <= q < i ==> (#[trigger] self.names@[q])@ != name@,
            decreases self.names@.len() - i,
        {
            if bytes_eq(self.names[i].as_slice(), name) {
                return Some(i);
            }
            i = i + 1;
        }
        None
    }

    /// The first column called `name`, if any.
    pub fn get_column(&self, name: &[u8]) -> (r: Option<&Column>)
        requires
            self.wf(),
        ensures
            r matches Some(c) ==> exists|i: int| 0 <= i < self.names@.len() && self.names@[i]@ == name@
                && c == self.columns@[i]
                && forall|q: int| 0 <= q < i ==> (#[trigger] self.names@[q])@ != name@,
            r.is_none() ==> forall|q: int| 0 <= q < self.names@.len() ==> (#[trigger] self.names@[q])@ != name@,
    {
        match self.position(name) {
            Some(i) => {
                if i < self.columns.len() {
                    Some(&self.columns[i])
                } else {
                    None
                }
            },
            None => None,
        }
    }
}

/// `n` zero bytes.
pub open spec fn zero_bytes(n: nat) -> Seq<u8> {
    Seq::new(n, |q: int| 0u8)
}

/// `n` zero bytes.
pub fn zeros(n: usize) -> (r: Vec<u8>)
    ensures
        r@ == zero_bytes(n as nat),
{
    let mut data: Vec<u8> = Vec::new();
    let mut i: usize = 0;
    while i < n
        invariant
            i <= n,
            data@ == Seq::new(i as nat, |q: int| 0u8),
        decreases n - i,
    {
        data.push(0u8);
        i = i + 1;
        proof {
            assert(data@ =~= Seq::new(i as nat, |q: int| 0u8));
        }
    }
    assert(data@ =~= zero_bytes(n as nat));
    data
}

} // verus!
