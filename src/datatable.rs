//! String-backed columns and tables, with typed casting, categorical
//! encoding and row-major / column-major export.

use vstd::prelude::*;

use crate::error::DataError;
use crate::field::{FromField, ZeroOne};

verus! {

/// The texts of a vector of strings.
pub open spec fn texts(v: Seq<String>) -> Seq<Seq<char>> {
    v.map_values(|s: String| s@)
}

/// The distinct values of `s`, in the order in which each first occurs.
pub open spec fn first_seen(s: Seq<Seq<char>>) -> Seq<Seq<char>>
    decreases s.len(),
{
    if s.len() == 0 {
        Seq::empty()
    } else {
        let prev = first_seen(s.drop_last());
        if prev.contains(s.last()) {
            prev
        } else {
            prev.push(s.last())
        }
    }
}

/// The one-hot matrix of `cells` over `cats`: one sequence per category,
/// holding one at the rows whose value is that category and zero elsewhere.
pub open spec fn one_hot<T: ZeroOne>(cats: Seq<Seq<char>>, cells: Seq<Seq<char>>) -> Seq<Seq<T>> {
    Seq::new(
        cats.len(),
        |c: int|
            Seq::new(
                cells.len(),
                |r: int|
                    if cats[c] == cells[r] {
                        T::one_spec()
                    } else {
                        T::zero_spec()
                    },
            ),
    )
}

/// True when every cell parses as a `T`.
pub open spec fn all_parse<T: FromField>(cells: Seq<Seq<char>>) -> bool {
    forall|i: int| 0 <= i < cells.len() ==> T::field_ok(#[trigger] cells[i])
}

/// True when `v` holds, position by position, the parsed values of `cells`.
pub open spec fn parsed_as<T: FromField>(cells: Seq<Seq<char>>, v: Seq<T>) -> bool {
    &&& v.len() == cells.len()
    &&& forall|i: int| 0 <= i < cells.len() ==> T::field_is(#[trigger] cells[i], v[i])
}

/// Relies on `Vec::shrink_to_fit`: only the capacity changes, never the contents.
#[verifier::external_body]
fn shrink_vec<T>(v: &mut Vec<T>)
    ensures
        final(v)@ == old(v)@,
{
    v.shrink_to_fit();
}

/// A data column consisting of strings.
pub struct DataColumn {
    /// The name associated with the column.
    pub name: Option<String>,
    categories: Option<Vec<String>>,
    data: Vec<String>,
}

impl DataColumn {
    /// The column's values, in row order.
    pub closed spec fn cells(&self) -> Seq<Seq<char>> {
        texts(self.data@)
    }

    /// The column's name.
    pub closed spec fn label(&self) -> Option<String> {
        self.name
    }

    /// The categories last computed, the index of each being its code.
    pub closed spec fn category_list(&self) -> Option<Seq<Seq<char>>> {
        match self.categories {
            Some(c) => Some(texts(c@)),
            None => None,
        }
    }

    /// Constructs an empty data column.
    pub fn empty() -> (r: DataColumn)
        ensures
            r.label() is None,
            r.cells() == Seq::<Seq<char>>::empty(),
            r.category_list() is None,
    {
        let r = DataColumn { name: None, categories: None, data: Vec::new() };
        assert(r.cells() =~= Seq::<Seq<char>>::empty());
        r
    }

    /// The number of values in the column.
    pub fn len(&self) -> (r: usize)
        ensures
            r == self.cells().len(),
    {
        self.data.len()
    }

    /// The underlying values.
    pub fn data(&self) -> (r: &Vec<String>)
        ensures
            texts(r@) == self.cells(),
    {
        &self.data
    }

    /// A copy of the categories, if they were computed; the position of each
    /// category is its code.
    pub fn categories(&self) -> (r: Option<Vec<String>>)
        ensures
            match r {
                Some(v) => self.category_list() == Some(texts(v@)),
                None => self.category_list() is None,
            },
    {
        match &self.categories {
            None => None,
            Some(cats) => {
                let mut out: Vec<String> = Vec::new();
                let mut i: usize = 0;
                while i < cats.len()
                    invariant
                        i <= cats@.len(),
                        out@.len() == i,
                        forall|a: int| 0 <= a < i ==> #[trigger] out@[a]@ == cats@[a]@,
                    decreases cats@.len() - i,
                {
                    out.push(cats[i].clone());
                    i += 1;
                }
                assert(texts(out@) =~= texts(cats@));
                Some(out)
            },
        }
    }

    /// Recomputes the categories from the current values: each distinct
    /// value gets the next code, in order of first occurrence, from zero.
    pub fn update_categories(&mut self)
        ensures
            final(self).cells() == old(self).cells(),
            final(self).label() == old(self).label(),
            final(self).category_list() == Some(first_seen(old(self).cells())),
    {
        let mut cats: Vec<String> = Vec::new();
        let n = self.data.len();
        let mut i: usize = 0;
        while i < n
            invariant
                n == self.data@.len(),
                i <= n,
                texts(cats@) == first_seen(texts(self.data@).take(i as int)),
            decreases n - i,
        {
            let s = &self.data[i];
            let mut found = false;
            let mut j: usize = 0;
            while j < cats.len()
                invariant
                    j <= cats@.len(),
                    found <==> exists|k: int| 0 <= k < j && cats@[k]@ == s@,
                decreases cats@.len() - j,
            {
                if cats[j] == *s {
                    found = true;
                }
                j += 1;
            }
            let ghost cells = texts(self.data@);
            assert(cells.take(i + 1).drop_last() =~= cells.take(i as int));
            assert(found <==> texts(cats@).contains(s@)) by {
                if found {
                    let k = choose|k: int| 0 <= k < cats@.len() && cats@[k]@ == s@;
                    assert(texts(cats@)[k] == s@);
                }
                if texts(cats@).contains(s@) {
                    let k = choose|k: int| 0 <= k < texts(cats@).len() && texts(cats@)[k] == s@;
                    assert(cats@[k]@ == s@);
                }
            }
            if !found {
                cats.push(s.clone());
                assert(texts(cats@) =~= first_seen(cells.take(i + 1)));
            }
            i += 1;
        }
        assert(texts(self.data@).take(n as int) =~= texts(self.data@));
        shrink_vec(&mut cats);
        self.categories = Some(cats);
    }

    /// Produces the one-hot encoding of the values over the categories: one
    /// vector per category, holding one at the rows whose value is that
    /// category and zero elsewhere.
    ///
    /// Fails with `InvalidStateError` when the categories were never
    /// computed or a value is not among them.
    pub fn numeric_category_data<T: ZeroOne>(&self) -> (r: Result<Vec<Vec<T>>, DataError>)
        ensures
            match r {
                Ok(v) => {
                    &&& self.category_list() matches Some(cats)
                    &&& (forall|i: int| 0 <= i < self.cells().len() ==> cats.contains(#[trigger] self.cells()[i]))
                    &&& v@.len() == cats.len()
                    &&& forall|c: int| 0 <= c < v@.len() ==> #[trigger] v@[c]@ == one_hot::<T>(cats, self.cells())[c]
                },
                Err(e) => {
                    &&& e == DataError::InvalidStateError
                    &&& match self.category_list() {
                        Some(cats) => exists|i: int| 0 <= i < self.cells().len() && !cats.contains(#[trigger] self.cells()[i]),
                        None => true,
                    }
                },
            },
    {
        let cats = match &self.categories {
            Some(c) => c,
            None => return Err(DataError::InvalidStateError),
        };
        let ghost tc = texts(cats@);
        let ghost cells = texts(self.data@);
        assert(self.category_list() == Some(tc));
        let n = self.data.len();
        let k = cats.len();
        let mut i: usize = 0;
        while i < n
            invariant
                n == self.data@.len(),
                k == cats@.len(),
                tc == texts(cats@),
                cells == texts(self.data@),
                i <= n,
                self.category_list() == Some(tc),
                forall|a: int| 0 <= a < i ==> tc.contains(#[trigger] cells[a]),
            decreases n - i,
        {
            let mut found = false;
            let mut j: usize = 0;
            while j < k
                invariant
                    k == cats@.len(),
                    j <= k,
                    i < n,
                    n == self.data@.len(),
                    tc == texts(cats@),
                    cells == texts(self.data@),
                    found <==> exists|b: int| 0 <= b < j && tc[b] == cells[i as int],
                decreases k - j,
            {
                assert(tc[j as int] == cats@[j as int]@);
                assert(cells[i as int] == self.data@[i as int]@);
                if cats[j] == self.data[i] {
                    found = true;
                }
                j += 1;
            }
            if !found {
                assert(!tc.contains(cells[i as int]));
                assert(self.cells() == cells);
                return Err(DataError::InvalidStateError);
            }
            i += 1;
        }
        let mut out: Vec<Vec<T>> = Vec::new();
        let mut c: usize = 0;
        while c < k
            invariant
                n == self.data@.len(),
                k == cats@.len(),
                tc == texts(cats@),
                cells == texts(self.data@),
                c <= k,
                out@.len() == c,
                forall|a: int| 0 <= a < c ==> #[trigger] out@[a]@ == one_hot::<T>(tc, cells)[a],
            decreases k - c,
        {
            let mut col: Vec<T> = Vec::new();
            let mut r: usize = 0;
            while r < n
                invariant
                    n == self.data@.len(),
                    k == cats@.len(),
                    c < k,
                    tc == texts(cats@),
                    cells == texts(self.data@),
                    r <= n,
                    col@ == one_hot::<T>(tc, cells)[c as int].take(r as int),
                decreases n - r,
            {
                if cats[c] == self.data[r] {
                    col.push(T::one());
                } else {
                    col.push(T::zero());
                }
                assert(col@ =~= one_hot::<T>(tc, cells)[c as int].take(r + 1));
                r += 1;
            }
            assert(col@ =~= one_hot::<T>(tc, cells)[c as int]);
            out.push(col);
            c += 1;
        }
        Ok(out)
    }

    /// Sets the column's name.
    pub fn set_name(&mut self, name: String)
        ensures
            final(self).label() == Some(name),
            final(self).cells() == old(self).cells(),
            final(self).category_list() == old(self).category_list(),
    {
        self.name = Some(name);
    }

    /// Appends a value to the column.
    pub fn push(&mut self, val: String)
        ensures
            final(self).cells() == old(self).cells().push(val@),
            final(self).label() == old(self).label(),
            final(self).category_list() == old(self).category_list(),
    {
        self.data.push(val);
        assert(texts(self.data@) =~= texts(old(self).data@).push(val@));
    }
    /// Parses the value at `idx` as a `T`; fails with `DataCastError` when
    /// its text does not parse.
    pub fn get_as<T: FromField>(&self, idx: usize) -> (r: Result<T, DataError>)
        requires
            idx < self.cells().len(),
        ensures
            match r {
                Ok(v) => T::field_is(self.cells()[idx as int], v),
                Err(e) => e == DataError::DataCastError && !T::field_ok(self.cells()[idx as int]),
            },
    {
        match T::from_field(self.data[idx].as_str()) {
            Some(x) => Ok(x),
            None => Err(DataError::DataCastError),
        }
    }

    /// Shrinks the column's storage to fit its values.
    pub fn shrink_to_fit(&mut self)
        ensures
            final(self).cells() == old(self).cells(),
            final(self).label() == old(self).label(),
            final(self).category_list() == old(self).category_list(),
    {
        shrink_vec(&mut self.data);
    }

    /// Consumes the column and parses every value as a `T`; fails with
    /// `DataCastError` when some value does not parse.
    pub fn into_vec<T: FromField>(self) -> (r: Result<Vec<T>, DataError>)
        ensures
            match r {
                Ok(v) => all_parse::<T>(self.cells()) && parsed_as(self.cells(), v@),
                Err(e) => e == DataError::DataCastError && !all_parse::<T>(self.cells()),
            },
    {
        match self.cast::<T>() {
            Some(v) => Ok(v),
            None => Err(DataError::DataCastError),
        }
    }

    /// Parses every value as a `T`, giving all of them or nothing.
    pub fn cast<T: FromField>(&self) -> (r: Option<Vec<T>>)
        ensures
            r is Some <==> all_parse::<T>(self.cells()),
            r matches Some(v) ==> parsed_as(self.cells(), v@),
    {
        let ghost cells = self.cells();
        let n = self.data.len();
        let mut out: Vec<T> = Vec::new();
        let mut i: usize = 0;
        while i < n
            invariant
                n == self.data@.len(),
                cells == texts(self.data@),
                cells == self.cells(),
                i <= n,
                all_parse::<T>(cells.take(i as int)),
                parsed_as(cells.take(i as int), out@),
            decreases n - i,
        {
            assert(cells[i as int] == self.data@[i as int]@);
            match T::from_field(self.data[i].as_str()) {
                Some(x) => out.push(x),
                None => {
                    assert(!T::field_ok(cells[i as int]));
                    return None;
                },
            }
            assert(cells.take(i + 1)[i as int] == cells[i as int]);
            assert(forall|a: int| 0 <= a < i ==> cells.take(i + 1)[a] == cells.take(i as int)[a]);
            i += 1;
        }
        assert(cells.take(n as int) =~= cells);
        Some(out)
    }

    /// Consumes the column and parses each value on its own, keeping the
    /// outcome of every parse.
    pub fn into_iter_cast<U: FromField>(self) -> (r: Vec<Result<U, DataError>>)
        ensures
            casts_each(self.cells(), r@),
    {
        from_str_iter(self.data)
    }
}

/// True when `r` holds, position by position, the outcome of parsing
/// each of `cells`.
pub open spec fn casts_each<U: FromField>(cells: Seq<Seq<char>>, r: Seq<Result<U, DataError>>) -> bool {
    &&& r.len() == cells.len()
    &&& forall|i: int|
        0 <= i < cells.len() ==> match #[trigger] r[i] {
            Ok(v) => U::field_is(cells[i], v),
            Err(e) => e == DataError::DataCastError && !U::field_ok(cells[i]),
        }
}

/// Parses each item on its own, keeping the outcome of every parse.
fn from_str_iter<U: FromField>(items: Vec<String>) -> (r: Vec<Result<U, DataError>>)
    ensures
        casts_each(texts(items@), r@),
{
    let ghost cells = texts(items@);
    let mut out: Vec<Result<U, DataError>> = Vec::new();
    let mut i: usize = 0;
    while i < items.len()
        invariant
            cells == texts(items@),
            i <= items@.len(),
            casts_each(cells.take(i as int), out@),
        decreases items@.len() - i,
    {
        assert(cells[i as int] == items@[i as int]@);
        match U::from_field(items[i].as_str()) {
            Some(x) => out.push(Ok(x)),
            None => out.push(Err(DataError::DataCastError)),
        }
        assert(cells.take(i + 1)[i as int] == cells[i as int]);
        assert(forall|a: int| 0 <= a < i ==> cells.take(i + 1)[a] == cells.take(i as int)[a]);
        i += 1;
    }
    assert(cells.take(items@.len() as int) =~= cells);
    out
}

/// The row count of a table: the length of its first column, or zero when
/// it has no column.
pub open spec fn table_rows(cols: Seq<DataColumn>) -> nat {
    if cols.len() > 0 {
        cols[0].cells().len()
    } else {
        0
    }
}

/// True when every column has the table's row count.
pub open spec fn is_rectangular(cols: Seq<DataColumn>) -> bool {
    forall|c: int| 0 <= c < cols.len() ==> (#[trigger] cols[c]).cells().len() == table_rows(cols)
}

/// True when every value of every column parses as a `T`.
pub open spec fn table_parses<T: FromField>(cols: Seq<DataColumn>) -> bool {
    forall|c: int| 0 <= c < cols.len() ==> all_parse::<T>((#[trigger] cols[c]).cells())
}

/// Where the value of column `c`, row `r` stands in the exported vector.
pub open spec fn layout_pos(row_major: bool, ncols: int, nrows: int, c: int, r: int) -> int {
    if row_major {
        r * ncols + c
    } else {
        c * nrows + r
    }
}

/// True when `v` holds the parsed values of the table's columns, laid out
/// in row-major or column-major order.
pub open spec fn laid_out<T: FromField>(cols: Seq<DataColumn>, row_major: bool, v: Seq<T>) -> bool {
    let nr = table_rows(cols) as int;
    &&& v.len() == cols.len() * nr
    &&& forall|c: int, r: int|
        0 <= c < cols.len() && 0 <= r < nr ==> T::field_is(
            cols[c].cells()[r],
            #[trigger] v[layout_pos(row_major, cols.len() as int, nr, c, r)],
        )
}

proof fn lemma_pos_bound(x: int, y: int, xn: int, yn: int)
    requires
        0 <= x < xn,
        0 <= y < yn,
    ensures
        0 <= x * yn + y < xn * yn,
        x * yn + y + 1 <= (x + 1) * yn,
{
    assert(0 <= x * yn + y < xn * yn) by (nonlinear_arith)
        requires
            0 <= x < xn,
            0 <= y < yn,
    ;
    assert(x * yn + y + 1 <= (x + 1) * yn) by (nonlinear_arith)
        requires
            0 <= y < yn,
    ;
}

proof fn lemma_first_seen_contains(s: Seq<Seq<char>>, r: int)
    requires
        0 <= r < s.len(),
    ensures
        first_seen(s).contains(s[r]),
    decreases s.len(),
{
    let prev = first_seen(s.drop_last());
    if r < s.len() - 1 {
        lemma_first_seen_contains(s.drop_last(), r);
        assert(s.drop_last()[r] == s[r]);
        let k = choose|k: int| 0 <= k < prev.len() && prev[k] == s[r];
        if !prev.contains(s.last()) {
            assert(prev.push(s.last())[k] == s[r]);
        }
    } else if !prev.contains(s.last()) {
        assert(prev.push(s.last())[prev.len() as int] == s[r]);
    }
}

proof fn lemma_first_seen_distinct(s: Seq<Seq<char>>)
    ensures
        first_seen(s).no_duplicates(),
    decreases s.len(),
{
    if s.len() > 0 {
        lemma_first_seen_distinct(s.drop_last());
    }
}

/// After the categories are computed from a column's values, every value is
/// among them, and the one-hot encoding holds one at exactly one category
/// of each row and zero at all the others.
pub proof fn lemma_one_hot_exactly_once<T: ZeroOne>(cells: Seq<Seq<char>>, r: int)
    requires
        0 <= r < cells.len(),
    ensures
        first_seen(cells).contains(cells[r]),
        ({
            let m = one_hot::<T>(first_seen(cells), cells);
            exists|c: int|
                0 <= c < m.len() && m[c][r] == T::one_spec() && forall|c2: int|
                    0 <= c2 < m.len() && c2 != c ==> m[c2][r] == T::zero_spec() && m[c2][r] != T::one_spec()
        }),
{
    let cats = first_seen(cells);
    lemma_first_seen_contains(cells, r);
    lemma_first_seen_distinct(cells);
    T::lemma_zero_ne_one();
    let m = one_hot::<T>(cats, cells);
    let c = choose|c: int| 0 <= c < cats.len() && cats[c] == cells[r];
    assert(m[c][r] == T::one_spec());
    assert forall|c2: int| 0 <= c2 < m.len() && c2 != c implies m[c2][r] == T::zero_spec() && m[c2][r] != T::one_spec() by {
        assert(cats[c2] != cats[c]);
    }
}

/// A data table: an ordered collection of columns.
pub struct DataTable {
    /// The columns, in order.
    pub data_cols: Vec<DataColumn>,
}

impl DataTable {
    /// Constructs an empty table.
    pub fn empty() -> (r: DataTable)
        ensures
            r.data_cols@.len() == 0,
    {
        DataTable { data_cols: Vec::new() }
    }

    /// The number of columns.
    pub fn cols(&self) -> (r: usize)
        ensures
            r == self.data_cols@.len(),
    {
        self.data_cols.len()
    }

    /// The number of rows: the length of the first column, or zero when there
    /// is no column. The other columns are not consulted.
    pub fn rows(&self) -> (r: usize)
        ensures
            r == table_rows(self.data_cols@),
    {
        if self.data_cols.len() > 0 {
            return self.data_cols[0].len();
        }
        0
    }

    /// The column at `idx`.
    pub fn column(&self, idx: usize) -> (r: &DataColumn)
        requires
            idx < self.data_cols@.len(),
        ensures
            *r == self.data_cols@[idx as int],
    {
        &self.data_cols[idx]
    }

    /// Shrinks the table's storage and that of each column.
    pub fn shrink_to_fit(&mut self)
        ensures
            final(self).data_cols@.len() == old(self).data_cols@.len(),
            forall|c: int|
                0 <= c < old(self).data_cols@.len() ==> {
                    &&& (#[trigger] final(self).data_cols@[c]).cells() == old(self).data_cols@[c].cells()
                    &&& final(self).data_cols@[c].label() == old(self).data_cols@[c].label()
                    &&& final(self).data_cols@[c].category_list() == old(self).data_cols@[c].category_list()
                },
    {
        let n = self.data_cols.len();
        let mut i: usize = 0;
        while i < n
            invariant
                n == old(self).data_cols@.len(),
                self.data_cols@.len() == n,
                i <= n,
                forall|c: int|
                    0 <= c < n ==> {
                        &&& (#[trigger] self.data_cols@[c]).cells() == old(self).data_cols@[c].cells()
                        &&& self.data_cols@[c].label() == old(self).data_cols@[c].label()
                        &&& self.data_cols@[c].category_list() == old(self).data_cols@[c].category_list()
                    },
            decreases n - i,
        {
            self.data_cols[i].shrink_to_fit();
            i += 1;
        }
        shrink_vec(&mut self.data_cols);
    }

    /// Consumes the table and parses all of its values as `T` into a single
    /// vector, in row-major order (row by row) when `row_major` holds, else
    /// in column-major order (column by column).
    ///
    /// Fails with `InvalidStateError` when the columns do not all have the
    /// table's row count, and otherwise with `DataCastError` when some value
    /// does not parse.
    pub fn into_consistent_data<T: FromField>(self, row_major: bool) -> (r: Result<Vec<T>, DataError>)
        ensures
            match r {
                Ok(v) => {
                    &&& is_rectangular(self.data_cols@)
                    &&& table_parses::<T>(self.data_cols@)
                    &&& laid_out(self.data_cols@, row_major, v@)
                },
                Err(e) => if is_rectangular(self.data_cols@) {
                    e == DataError::DataCastError && !table_parses::<T>(self.data_cols@)
                } else {
                    e == DataError::InvalidStateError
                },
            },
    {
        let ghost cs = self.data_cols@;
        let cols = self.cols();
        let rows = self.rows();
        let mut i: usize = 0;
        while i < cols
            invariant
                cs == self.data_cols@,
                cols == cs.len(),
                rows == table_rows(cs),
                i <= cols,
                forall|c: int| 0 <= c < i ==> (#[trigger] cs[c]).cells().len() == rows,
            decreases cols - i,
        {
            if self.data_cols[i].len() != rows {
                return Err(DataError::InvalidStateError);
            }
            i += 1;
        }
        assert(is_rectangular(cs));
        let mut out: Vec<T> = Vec::new();
        if row_major {
            let mut r: usize = 0;
            while r < rows
                invariant
                    cs == self.data_cols@,
                    cols == cs.len(),
                    rows == table_rows(cs),
                    is_rectangular(cs),
                    r <= rows,
                    out@.len() == r * cols,
                    forall|c: int, r2: int|
                        0 <= c < cols && 0 <= r2 < r ==> T::field_is(
                            cs[c].cells()[r2],
                            #[trigger] out@[layout_pos(true, cols as int, rows as int, c, r2)],
                        ),
                decreases rows - r,
            {
                let mut c: usize = 0;
                while c < cols
                    invariant
                        cs == self.data_cols@,
                        cols == cs.len(),
                        rows == table_rows(cs),
                        is_rectangular(cs),
                        r < rows,
                        c <= cols,
                        out@.len() == r * cols + c,
                        forall|c2: int, r2: int|
                            0 <= c2 < cols && 0 <= r2 < r ==> T::field_is(
                                cs[c2].cells()[r2],
                                #[trigger] out@[layout_pos(true, cols as int, rows as int, c2, r2)],
                            ),
                        forall|c2: int|
                            0 <= c2 < c ==> T::field_is(
                                cs[c2].cells()[r as int],
                                #[trigger] out@[layout_pos(true, cols as int, rows as int, c2, r as int)],
                            ),
                    decreases cols - c,
                {
                    assert(cs[c as int].cells().len() == rows);
                    match self.data_cols[c].get_as::<T>(r) {
                        Ok(x) => {
                            let ghost prev = out@;
                            out.push(x);
                            assert forall|c2: int, r2: int|
                                0 <= c2 < cols && 0 <= r2 < r implies out@[layout_pos(true, cols as int, rows as int, c2, r2)]
                                    == prev[layout_pos(true, cols as int, rows as int, c2, r2)] by {
                                lemma_pos_bound(r2, c2, r as int, cols as int);
                            }
                            assert forall|c2: int|
                                0 <= c2 <= c implies T::field_is(
                                    cs[c2].cells()[r as int],
                                    #[trigger] out@[layout_pos(true, cols as int, rows as int, c2, r as int)],
                                ) by {
                                if c2 < c {
                                    assert(out@[layout_pos(true, cols as int, rows as int, c2, r as int)]
                                        == prev[layout_pos(true, cols as int, rows as int, c2, r as int)]);
                                }
                            }
                        },
                        Err(_) => {
                            assert(!all_parse::<T>(cs[c as int].cells()));
                            return Err(DataError::DataCastError);
                        },
                    }
                    c += 1;
                }
                assert forall|c2: int, r2: int|
                    0 <= c2 < cols && 0 <= r2 < r + 1 implies T::field_is(
                        cs[c2].cells()[r2],
                        #[trigger] out@[layout_pos(true, cols as int, rows as int, c2, r2)],
                    ) by {
                    if r2 == r {
                    }
                }
                assert(out@.len() == (r + 1) * cols) by (nonlinear_arith)
                    requires
                        out@.len() == r * cols + cols,
                ;
                r += 1;
            }
        } else {
            let mut c: usize = 0;
            while c < cols
                invariant
                    cs == self.data_cols@,
                    cols == cs.len(),
                    rows == table_rows(cs),
                    is_rectangular(cs),
                    c <= cols,
                    out@.len() == c * rows,
                    forall|c2: int, r2: int|
                        0 <= c2 < c && 0 <= r2 < rows ==> T::field_is(
                            cs[c2].cells()[r2],
                            #[trigger] out@[layout_pos(false, cols as int, rows as int, c2, r2)],
                        ),
                decreases cols - c,
            {
                let mut r: usize = 0;
                while r < rows
                    invariant
                        cs == self.data_cols@,
                        cols == cs.len(),
                        rows == table_rows(cs),
                        is_rectangular(cs),
                        c < cols,
                        r <= rows,
                        out@.len() == c * rows + r,
                        forall|c2: int, r2: int|
                            0 <= c2 < c && 0 <= r2 < rows ==> T::field_is(
                                cs[c2].cells()[r2],
                                #[trigger] out@[layout_pos(false, cols as int, rows as int, c2, r2)],
                            ),
                        forall|r2: int|
                            0 <= r2 < r ==> T::field_is(
                                cs[c as int].cells()[r2],
                                #[trigger] out@[layout_pos(false, cols as int, rows as int, c as int, r2)],
                            ),
                    decreases rows - r,
                {
                    assert(cs[c as int].cells().len() == rows);
                    match self.data_cols[c].get_as::<T>(r) {
                        Ok(x) => {
                            let ghost prev = out@;
                            out.push(x);
                            assert forall|c2: int, r2: int|
                                0 <= c2 < c && 0 <= r2 < rows implies out@[layout_pos(false, cols as int, rows as int, c2, r2)]
                                    == prev[layout_pos(false, cols as int, rows as int, c2, r2)] by {
                                lemma_pos_bound(c2, r2, c as int, rows as int);
                            }
                            assert forall|r2: int|
                                0 <= r2 <= r implies T::field_is(
                                    cs[c as int].cells()[r2],
                                    #[trigger] out@[layout_pos(false, cols as int, rows as int, c as int, r2)],
                                ) by {
                                if r2 < r {
                                    assert(out@[layout_pos(false, cols as int, rows as int, c as int, r2)]
                                        == prev[layout_pos(false, cols as int, rows as int, c as int, r2)]);
                                }
                            }
                        },
                        Err(_) => {
                            assert(!all_parse::<T>(cs[c as int].cells()));
                            return Err(DataError::DataCastError);
                        },
                    }
                    r += 1;
                }
                assert(out@.len() == (c + 1) * rows) by (nonlinear_arith)
                    requires
                        out@.len() == c * rows + rows,
                ;
                c += 1;
            }
        }
        assert forall|c: int| 0 <= c < cols implies all_parse::<T>((#[trigger] cs[c]).cells()) by {
            assert forall|r2: int| 0 <= r2 < cs[c].cells().len() implies T::field_ok(#[trigger] cs[c].cells()[r2]) by {
                let p = layout_pos(row_major, cols as int, rows as int, c, r2);
                assert(T::field_is(cs[c].cells()[r2], out@[p]));
                T::lemma_field_is_ok(cs[c].cells()[r2], out@[p]);
            }
        }
        assert(out@.len() == cols * rows) by (nonlinear_arith)
            requires
                row_major ==> out@.len() == rows * cols,
                !row_major ==> out@.len() == cols * rows,
        ;
        Ok(out)
    }
}

} // verus!
