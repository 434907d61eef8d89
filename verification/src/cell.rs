use vstd::prelude::*;

verus! {

/// One field of a record. `Null` is the explicit missing-value marker of
/// nullable record shapes; strict shapes simply never hold it.
#[derive(Clone, Debug, PartialEq)]
pub enum Cell {
    Null,
    Int(i64),
    Str(String),
    Bool(bool),
}

/// The mathematical value of one field.
#[verifier::ext_equal]
pub enum CellVal {
    Null,
    Int(int),
    Str(Seq<char>),
    Bool(bool),
}

impl View for Cell {
    type V = CellVal;

    open spec fn view(&self) -> CellVal {
        match self {
            Cell::Null => CellVal::Null,
            Cell::Int(i) => CellVal::Int(*i as int),
            Cell::Str(s) => CellVal::Str(s@),
            Cell::Bool(b) => CellVal::Bool(*b),
        }
    }
}

/// The values of a sequence of cells.
pub open spec fn cells_view(cs: Seq<Cell>) -> Seq<CellVal> {
    cs.map(|i: int, c: Cell| c@)
}

/// An ordered, fixed-arity tuple of field values flowing between operators.
/// Records are immutable once produced: every operator constructs its
/// outputs as new rows.
#[derive(Clone, Debug, PartialEq)]
pub struct Row {
    pub cells: Vec<Cell>,
}

impl View for Row {
    type V = Seq<CellVal>;

    open spec fn view(&self) -> Seq<CellVal> {
        cells_view(self.cells@)
    }
}

/// The contents of a table, row by row.
pub open spec fn rows_view(rs: Seq<Row>) -> Seq<Seq<CellVal>> {
    rs.map(|i: int, r: Row| r@)
}

impl Cell {
    /// A deep copy whose result is known to equal the original.
    pub fn dup(&self) -> (r: Cell)
        ensures
            r == *self,
    {
        match self {
            Cell::Null => Cell::Null,
            Cell::Int(i) => Cell::Int(*i),
            Cell::Str(s) => Cell::Str(s.clone()),
            Cell::Bool(b) => Cell::Bool(*b),
        }
    }
}

impl Row {
    /// A deep copy of a row; the copy carries the same cell values.
    pub fn dup(&self) -> (r: Row)
        ensures
            r.cells@ == self.cells@,
            r@ == self@,
    {
        let mut out: Vec<Cell> = Vec::new();
        let mut i: usize = 0;
        while i < self.cells.len()
            invariant
                i <= self.cells.len(),
                out@ == self.cells@.take(i as int),
            decreases self.cells.len() - i,
        {
            out.push(self.cells[i].dup());
            proof {
                assert(out@ =~= self.cells@.take(i as int + 1));
            }
            i = i + 1;
        }
        proof {
            assert(out@ =~= self.cells@);
        }
        Row { cells: out }
    }
}

/// Whether two cells hold the same value.
pub fn cell_eq(a: &Cell, b: &Cell) -> (r: bool)
    ensures
        r == (a@ == b@),
{
    match a {
        Cell::Null => match b {
            Cell::Null => true,
            _ => false,
        },
        Cell::Int(x) => match b {
            Cell::Int(y) => x == y,
            _ => false,
        },
        Cell::Str(x) => match b {
            Cell::Str(y) => *x == *y,
            _ => false,
        },
        Cell::Bool(x) => match b {
            Cell::Bool(y) => x == y,
            _ => false,
        },
    }
}

/// The key of a row under the column projection `kc`: the listed columns,
/// in the listed order.
pub open spec fn spec_key_of(r: Seq<CellVal>, kc: Seq<usize>) -> Seq<CellVal> {
    kc.map(|i: int, c: usize| r[c as int])
}

/// Whether every key column index falls inside the row.
pub open spec fn key_in_bounds(r: Seq<CellVal>, kc: Seq<usize>) -> bool {
    forall|i: int| 0 <= i < kc.len() ==> (kc[i] as int) < r.len()
}

/// Whether a key holds no missing value.
pub open spec fn key_null_free(k: Seq<CellVal>) -> bool {
    forall|i: int| 0 <= i < k.len() ==> !(k[i] is Null)
}

/// Structural key equality with non-matching-null semantics: a missing
/// value never equals another missing value and never matches any concrete
/// value, so a key holding a null matches nothing, itself included.
pub open spec fn keys_match(a: Seq<CellVal>, b: Seq<CellVal>) -> bool {
    &&& a == b
    &&& key_null_free(a)
}

/// Extracts the key cells of a row, or reports a column index out of range.
pub fn key_of(r: &Row, kc: &Vec<usize>) -> (res: Option<Vec<Cell>>)
    ensures
        match res {
            Some(k) => key_in_bounds(r@, kc@) && cells_view(k@) == spec_key_of(r@, kc@),
            None => !key_in_bounds(r@, kc@),
        },
{
    let mut out: Vec<Cell> = Vec::new();
    let mut i: usize = 0;
    while i < kc.len()
        invariant
            i <= kc.len(),
            out@.len() == i,
            forall|j: int| 0 <= j < i ==> (kc@[j] as int) < r@.len(),
            forall|j: int| 0 <= j < i ==> #[trigger] out@[j]@ == r@[kc@[j] as int],
        decreases kc.len() - i,
    {
        let c = kc[i];
        if c >= r.cells.len() {
            return None;
        }
        out.push(r.cells[c].dup());
        i = i + 1;
    }
    proof {
        assert(cells_view(out@) =~= spec_key_of(r@, kc@));
    }
    Some(out)
}

/// Whether two extracted keys match: equal, and free of missing values.
pub fn keys_match_exec(a: &Vec<Cell>, b: &Vec<Cell>) -> (r: bool)
    ensures
        r == keys_match(cells_view(a@), cells_view(b@)),
{
    if a.len() != b.len() {
        proof {
            assert(cells_view(a@).len() != cells_view(b@).len());
        }
        return false;
    }
    let mut i: usize = 0;
    while i < a.len()
        invariant
            i <= a.len(),
            a@.len() == b@.len(),
            forall|j: int| 0 <= j < i ==> #[trigger] a@[j]@ == b@[j]@,
            forall|j: int| 0 <= j < i ==> !(#[trigger] a@[j]@ is Null),
        decreases a.len() - i,
    {
        if matches!(&a[i], Cell::Null) {
            proof {
                assert(cells_view(a@)[i as int] is Null);
            }
            return false;
        }
        if !cell_eq(&a[i], &b[i]) {
            proof {
                assert(cells_view(a@)[i as int] != cells_view(b@)[i as int]);
            }
            return false;
        }
        i = i + 1;
    }
    proof {
        assert(cells_view(a@) =~= cells_view(b@));
    }
    true
}

} // verus!
