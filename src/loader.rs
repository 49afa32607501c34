//! Splitting delimited lines into fields, and loading lines into tables.

use vstd::prelude::*;

use crate::datatable::{texts, DataColumn, DataTable};

verus! {

/// The number of occurrences of `c` in `s`.
pub open spec fn count_char(s: Seq<char>, c: char) -> nat
    decreases s.len(),
{
    if s.len() == 0 {
        0
    } else {
        count_char(s.drop_last(), c) + if s.last() == c {
            1nat
        } else {
            0nat
        }
    }
}

/// True when position `i` of `s` holds a delimiter that ends a field: one
/// outside quotes, when a quote character is configured.
pub open spec fn is_cut(s: Seq<char>, quote: Option<char>, delim: char, i: int) -> bool {
    &&& 0 <= i < s.len()
    &&& s[i] == delim
    &&& match quote {
        None => true,
        Some(q) => s[i] != q && count_char(s.take(i), q) % 2 == 0,
    }
}

/// The first position at or after `i` that ends a field.
pub open spec fn cut_from(s: Seq<char>, quote: Option<char>, delim: char, i: int) -> Option<int>
    decreases s.len() - i,
{
    if i < 0 || i >= s.len() {
        None
    } else if is_cut(s, quote, delim, i) {
        Some(i)
    } else {
        cut_from(s, quote, delim, i + 1)
    }
}

/// `s` without the copies of `c` at its front.
pub open spec fn trim_front(s: Seq<char>, c: char) -> Seq<char>
    decreases s.len(),
{
    if s.len() > 0 && s[0] == c {
        trim_front(s.drop_first(), c)
    } else {
        s
    }
}

/// `s` without the copies of `c` at its back.
pub open spec fn trim_back(s: Seq<char>, c: char) -> Seq<char>
    decreases s.len(),
{
    if s.len() > 0 && s.last() == c {
        trim_back(s.drop_last(), c)
    } else {
        s
    }
}

/// A field ended by a delimiter: stripped of the quote characters at both
/// ends, when a quote character is configured.
pub open spec fn cut_field(f: Seq<char>, quote: Option<char>) -> Seq<char> {
    match quote {
        None => f,
        Some(q) => trim_back(trim_front(f, q), q),
    }
}

/// The fields still to come from the unconsumed text `rest`; `pending` holds
/// when a delimiter was just consumed, so that one more field, possibly
/// empty, follows.
pub open spec fn fields_from(rest: Seq<char>, pending: bool, quote: Option<char>, delim: char) -> Seq<Seq<char>>
    decreases rest.len(),
{
    if rest.len() == 0 {
        if pending {
            seq![Seq::<char>::empty()]
        } else {
            Seq::empty()
        }
    } else {
        match cut_from(rest, quote, delim, 0) {
            Some(i) => if 0 <= i < rest.len() {
                seq![cut_field(rest.take(i), quote)] + fields_from(rest.skip(i + 1), true, quote, delim)
            } else {
                Seq::empty()
            },
            None => seq![rest],
        }
    }
}

/// The fields of a whole line.
pub open spec fn split_fields(line: Seq<char>, quote: Option<char>, delim: char) -> Seq<Seq<char>> {
    fields_from(line, false, quote, delim)
}

/// Relies on `str::chars`: the characters of the text, in order.
#[verifier::external_body]
fn chars_of(s: &str) -> (r: Vec<char>)
    ensures
        r@ == s@,
{
    s.chars().collect()
}

/// Relies on `String::from_iter` over characters: the text of those characters.
#[verifier::external_body]
fn string_of(v: &Vec<char>) -> (r: String)
    ensures
        r@ == v@,
{
    String::from_iter(v.iter())
}

/// The characters of `v` from `from` up to `to`.
fn copy_range(v: &Vec<char>, from: usize, to: usize) -> (r: Vec<char>)
    requires
        from <= to <= v@.len(),
    ensures
        r@ == v@.subrange(from as int, to as int),
{
    let mut out: Vec<char> = Vec::new();
    let mut i: usize = from;
    while i < to
        invariant
            from <= i <= to <= v@.len(),
            out@ == v@.subrange(from as int, i as int),
        decreases to - i,
    {
        out.push(v[i]);
        assert(out@ =~= v@.subrange(from as int, i + 1));
        i += 1;
    }
    out
}

/// Splits one line into fields on a delimiter, optionally honouring a quote
/// character inside which delimiters do not end a field.
pub struct LineSplitIter {
    line: Vec<char>,
    pending: bool,
    quote_char: Option<char>,
    delimiter: char,
}

impl LineSplitIter {
    /// The fields still to be produced.
    pub closed spec fn remaining_fields(&self) -> Seq<Seq<char>> {
        fields_from(self.line@, self.pending, self.quote_char, self.delimiter)
    }

    /// A measure of the work left, which each produced field lowers.
    pub closed spec fn measure(&self) -> nat {
        2 * self.line@.len() + if self.pending {
            1nat
        } else {
            0nat
        }
    }

    /// Constructs a splitter over `line` with the given quote character and
    /// delimiter.
    pub fn new(line: String, quote_char: Option<char>, delimiter: char) -> (r: LineSplitIter)
        ensures
            r.remaining_fields() == split_fields(line@, quote_char, delimiter),
    {
        LineSplitIter { line: chars_of(line.as_str()), pending: false, quote_char, delimiter }
    }

    /// Produces the next field, or `None` when the line is exhausted.
    pub fn next(&mut self) -> (r: Option<String>)
        ensures
            match r {
                None => {
                    &&& old(self).remaining_fields().len() == 0
                    &&& final(self).remaining_fields() == old(self).remaining_fields()
                },
                Some(f) => {
                    &&& old(self).remaining_fields() == seq![f@] + final(self).remaining_fields()
                    &&& final(self).measure() < old(self).measure()
                },
            },
    {
        let len = self.line.len();
        if len == 0 {
            if self.pending {
                self.pending = false;
                let e: Vec<char> = Vec::new();
                let f = string_of(&e);
                assert(f@ =~= Seq::<char>::empty());
                assert(final(self).remaining_fields() =~= Seq::<Seq<char>>::empty());
                return Some(f);
            }
            assert(old(self).remaining_fields() =~= Seq::<Seq<char>>::empty());
            return None;
        }
        let ghost s = self.line@;
        let q = self.quote_char;
        let d = self.delimiter;
        let mut in_quotes = false;
        let mut i: usize = 0;
        let mut cut: Option<usize> = None;
        while i < len
            invariant_except_break
                cut is None,
                cut_from(s, q, d, 0) == cut_from(s, q, d, i as int),
            invariant
                s == self.line@,
                len == s.len(),
                q == self.quote_char,
                d == self.delimiter,
                i <= len,
                q is None ==> !in_quotes,
                q matches Some(qc) ==> (in_quotes <==> count_char(s.take(i as int), qc) % 2 == 1),
            ensures
                cut matches Some(k) ==> k < len && cut_from(s, q, d, 0) == Some(k as int),
                cut is None ==> cut_from(s, q, d, 0) is None,
            decreases len - i,
        {
            let c = self.line[i];
            assert(s.take(i + 1).drop_last() =~= s.take(i as int));
            let mut is_quote = false;
            if let Some(qc) = q {
                if c == qc {
                    is_quote = true;
                }
            }
            if is_quote {
                in_quotes = !in_quotes;
            } else if c == d && !in_quotes {
                assert(is_cut(s, q, d, i as int));
                assert(cut_from(s, q, d, i as int) == Some(i as int));
                cut = Some(i);
                break;
            }
            assert(!is_cut(s, q, d, i as int));
            i += 1;
        }
        match cut {
            Some(i) => {
                let (a, b) = self.field_bounds(i);
                let chars = copy_range(&self.line, a, b);
                let f = string_of(&chars);
                let rest = copy_range(&self.line, i + 1, len);
                assert(rest@ =~= s.skip(i + 1));
                self.line = rest;
                self.pending = true;
                assert(fields_from(s, old(self).pending, q, d) == seq![cut_field(s.take(i as int), q)] + fields_from(
                    s.skip(i + 1),
                    true,
                    q,
                    d,
                ));
                Some(f)
            },
            None => {
                assert(fields_from(s, old(self).pending, q, d) == seq![s]);
                let f = string_of(&self.line);
                self.line = Vec::new();
                self.pending = false;
                assert(final(self).remaining_fields() =~= Seq::<Seq<char>>::empty());
                Some(f)
            },
        }
    }

    /// The bounds of the field that ends at `i` once stripped of quotes.
    fn field_bounds(&self, i: usize) -> (r: (usize, usize))
        requires
            i <= self.line@.len(),
        ensures
            r.0 <= r.1 <= i,
            self.line@.subrange(r.0 as int, r.1 as int) == cut_field(self.line@.take(i as int), self.quote_char),
    {
        let ghost s = self.line@;
        match self.quote_char {
            None => {
                assert(s.subrange(0, i as int) =~= s.take(i as int));
                (0, i)
            },
            Some(qc) => {
                let mut a: usize = 0;
                assert(s.take(i as int) =~= s.subrange(0, i as int));
                while a < i && self.line[a] == qc
                    invariant
                        s == self.line@,
                        a <= i <= s.len(),
                        trim_front(s.take(i as int), qc) == trim_front(s.subrange(a as int, i as int), qc),
                    decreases i - a,
                {
                    assert(s.subrange(a as int, i as int).drop_first() =~= s.subrange(a + 1, i as int));
                    a += 1;
                }
                let mut b: usize = i;
                while b > a && self.line[b - 1] == qc
                    invariant
                        s == self.line@,
                        a <= b <= i <= s.len(),
                        trim_back(s.subrange(a as int, i as int), qc) == trim_back(s.subrange(a as int, b as int), qc),
                    decreases b - a,
                {
                    assert(s.subrange(a as int, b as int).drop_last() =~= s.subrange(a as int, b - 1));
                    b -= 1;
                }
                (a, b)
            },
        }
    }

    /// Consumes the splitter and produces all of its remaining fields.
    pub fn into_fields(self) -> (r: Vec<String>)
        ensures
            texts(r@) == self.remaining_fields(),
    {
        let ghost all = self.remaining_fields();
        let mut it = self;
        let mut out: Vec<String> = Vec::new();
        loop
            invariant
                all == self.remaining_fields(),
                texts(out@) + it.remaining_fields() == all,
            decreases it.measure(),
        {
            let ghost prev = out@;
            match it.next() {
                Some(f) => {
                    out.push(f);
                    assert(texts(out@) =~= texts(prev).push(f@));
                    assert(texts(out@) + it.remaining_fields() =~= texts(prev) + (seq![f@] + it.remaining_fields()));
                },
                None => {
                    assert(it.remaining_fields() =~= Seq::<Seq<char>>::empty());
                    assert(texts(out@) =~= all);
                    return out;
                },
            }
        }
    }
}

/// The fields joined back into one line, with the delimiter between each
/// two of them.
pub open spec fn join_fields(fs: Seq<Seq<char>>, delim: char) -> Seq<char>
    decreases fs.len(),
{
    if fs.len() == 0 {
        Seq::empty()
    } else if fs.len() == 1 {
        fs[0]
    } else {
        fs[0] + seq![delim] + join_fields(fs.drop_first(), delim)
    }
}

/// The number of positions below `n` that hold a delimiter ending a field.
pub open spec fn cuts_below(s: Seq<char>, quote: Option<char>, delim: char, n: int) -> nat
    decreases n,
{
    if n <= 0 {
        0
    } else {
        cuts_below(s, quote, delim, n - 1) + if is_cut(s, quote, delim, n - 1) {
            1nat
        } else {
            0nat
        }
    }
}

/// The number of delimiters of a line that stand outside quotes.
pub open spec fn unquoted_delimiters(s: Seq<char>, quote: Option<char>, delim: char) -> nat {
    cuts_below(s, quote, delim, s.len() as int)
}

proof fn lemma_cut_from(s: Seq<char>, quote: Option<char>, delim: char, i: int)
    requires
        0 <= i,
    ensures
        match cut_from(s, quote, delim, i) {
            Some(k) => {
                &&& i <= k < s.len()
                &&& is_cut(s, quote, delim, k)
                &&& forall|j: int| i <= j < k ==> !is_cut(s, quote, delim, j)
            },
            None => forall|j: int| i <= j < s.len() ==> !is_cut(s, quote, delim, j),
        },
    decreases s.len() - i,
{
    if i < s.len() && !is_cut(s, quote, delim, i) {
        lemma_cut_from(s, quote, delim, i + 1);
    }
}

proof fn lemma_count_concat(a: Seq<char>, b: Seq<char>, c: char)
    ensures
        count_char(a + b, c) == count_char(a, c) + count_char(b, c),
    decreases b.len(),
{
    if b.len() == 0 {
        assert(a + b =~= a);
    } else {
        lemma_count_concat(a, b.drop_last(), c);
        assert((a + b).drop_last() =~= a + b.drop_last());
    }
}

proof fn lemma_fields_join(rest: Seq<char>, pending: bool, delim: char)
    requires
        rest.len() > 0 || pending,
    ensures
        fields_from(rest, pending, None, delim).len() >= 1,
        join_fields(fields_from(rest, pending, None, delim), delim) == rest,
    decreases rest.len(),
{
    if rest.len() > 0 {
        lemma_cut_from(rest, None, delim, 0);
        if let Some(i) = cut_from(rest, None, delim, 0) {
            let tail = fields_from(rest.skip(i + 1), true, None, delim);
            lemma_fields_join(rest.skip(i + 1), true, delim);
            let fs = fields_from(rest, pending, None, delim);
            assert(fs == seq![rest.take(i)] + tail);
            assert(fs.drop_first() =~= tail);
            assert(rest =~= rest.take(i) + seq![delim] + rest.skip(i + 1));
        }
    } else {
        assert(fields_from(rest, pending, None, delim) =~= seq![Seq::<char>::empty()]);
        assert(rest =~= Seq::<char>::empty());
    }
}

/// Without a quote character, joining the fields of a non-empty line with
/// the delimiter gives back the line exactly; an empty line has no field.
pub proof fn lemma_split_join(line: Seq<char>, delim: char)
    ensures
        line.len() == 0 ==> split_fields(line, None, delim).len() == 0,
        line.len() > 0 ==> join_fields(split_fields(line, None, delim), delim) == line,
{
    if line.len() > 0 {
        lemma_fields_join(line, false, delim);
    }
}

proof fn lemma_no_cuts_below(s: Seq<char>, quote: Option<char>, delim: char, n: int)
    requires
        forall|j: int| 0 <= j < n ==> !is_cut(s, quote, delim, j),
    ensures
        cuts_below(s, quote, delim, n) == 0,
    decreases n,
{
    if n > 0 {
        lemma_no_cuts_below(s, quote, delim, n - 1);
    }
}

proof fn lemma_cut_shift(s: Seq<char>, quote: Option<char>, delim: char, i: int, j: int)
    requires
        is_cut(s, quote, delim, i),
        i < j < s.len(),
    ensures
        is_cut(s, quote, delim, j) == is_cut(s.skip(i + 1), quote, delim, j - i - 1),
{
    let t = s.skip(i + 1);
    assert(t[j - i - 1] == s[j]);
    if let Some(q) = quote {
        assert(s.take(j) =~= s.take(i + 1) + t.take(j - i - 1));
        lemma_count_concat(s.take(i + 1), t.take(j - i - 1), q);
        assert(s.take(i + 1).drop_last() =~= s.take(i));
    }
}

proof fn lemma_cuts_split(s: Seq<char>, quote: Option<char>, delim: char, i: int, k: int)
    requires
        is_cut(s, quote, delim, i),
        i < k <= s.len(),
    ensures
        cuts_below(s, quote, delim, k) == cuts_below(s, quote, delim, i + 1) + cuts_below(
            s.skip(i + 1),
            quote,
            delim,
            k - i - 1,
        ),
    decreases k,
{
    if k > i + 1 {
        lemma_cuts_split(s, quote, delim, i, k - 1);
        lemma_cut_shift(s, quote, delim, i, k - 1);
    }
}

proof fn lemma_fields_count(rest: Seq<char>, pending: bool, quote: Option<char>, delim: char)
    requires
        rest.len() > 0 || pending,
    ensures
        fields_from(rest, pending, quote, delim).len() == unquoted_delimiters(rest, quote, delim) + 1,
    decreases rest.len(),
{
    if rest.len() > 0 {
        lemma_cut_from(rest, quote, delim, 0);
        match cut_from(rest, quote, delim, 0) {
            Some(i) => {
                lemma_fields_count(rest.skip(i + 1), true, quote, delim);
                lemma_no_cuts_below(rest, quote, delim, i);
                lemma_cuts_split(rest, quote, delim, i, rest.len() as int);
            },
            None => {
                lemma_no_cuts_below(rest, quote, delim, rest.len() as int);
            },
        }
    }
}

/// A non-empty line splits into one field more than it has delimiters
/// outside quotes.
pub proof fn lemma_field_count(line: Seq<char>, quote: Option<char>, delim: char)
    requires
        line.len() > 0,
    ensures
        split_fields(line, quote, delim).len() == unquoted_delimiters(line, quote, delim) + 1,
{
    lemma_fields_count(line, false, quote, delim);
}

/// Options that tune how lines are split and loaded.
pub struct LoaderOptions {
    /// True if the first line holds the column names.
    pub has_header: bool,
    /// The delimiter character.
    pub delimiter: char,
    /// The quote character, if any.
    pub quote_marker: Option<char>,
}

impl Default for LoaderOptions {
    /// No header, `,` as the delimiter and no quote character.
    fn default() -> (r: LoaderOptions)
        ensures
            !r.has_header,
            r.delimiter == ',',
            r.quote_marker is None,
    {
        LoaderOptions { has_header: false, delimiter: ',', quote_marker: None }
    }
}

/// The fields of line `l` under the given options.
pub open spec fn line_fields(lines: Seq<Seq<char>>, o: LoaderOptions, l: int) -> Seq<Seq<char>> {
    split_fields(lines[l], o.quote_marker, o.delimiter)
}

/// True when every line after the first has as many fields as the first.
pub open spec fn rows_consistent(lines: Seq<Seq<char>>, o: LoaderOptions) -> bool {
    forall|l: int| 1 <= l < lines.len() ==> (#[trigger] line_fields(lines, o, l)).len() == line_fields(lines, o, 0).len()
}

/// The index of the first line that holds data.
pub open spec fn first_data_line(o: LoaderOptions) -> int {
    if o.has_header {
        1
    } else {
        0
    }
}

/// The values of column `c` from the first `m` data lines.
pub open spec fn loaded_cells(lines: Seq<Seq<char>>, o: LoaderOptions, c: int, m: int) -> Seq<Seq<char>> {
    Seq::new(m as nat, |r: int| line_fields(lines, o, first_data_line(o) + r)[c])
}

/// True when `t` is the table loaded from `lines`: one column per field of
/// the first line, named by it when it is a header, and holding in each
/// column the field at its position from every data line.
pub open spec fn loaded_from(t: DataTable, lines: Seq<Seq<char>>, o: LoaderOptions) -> bool {
    if lines.len() == 0 {
        t.data_cols@.len() == 0
    } else {
        let n = line_fields(lines, o, 0).len();
        &&& t.data_cols@.len() == n
        &&& forall|c: int|
            0 <= c < n ==> {
                &&& (#[trigger] t.data_cols@[c]).cells() == loaded_cells(lines, o, c, lines.len() - first_data_line(o))
                &&& t.data_cols@[c].category_list() is None
                &&& if o.has_header {
                    t.data_cols@[c].label() matches Some(nm) && nm@ == line_fields(lines, o, 0)[c]
                } else {
                    t.data_cols@[c].label() is None
                }
            }
    }
}

/// Loads data files into tables.
pub struct Loader<'a> {
    file: &'a str,
    options: LoaderOptions,
}

impl<'a> Loader<'a> {
    /// The path of the file to load.
    pub closed spec fn path(&self) -> &'a str {
        self.file
    }

    /// The loading options.
    pub closed spec fn opts(&self) -> LoaderOptions {
        self.options
    }

    /// Constructs a loader for `file` with no quote character.
    pub fn new(has_header: bool, file: &'a str, delimiter: char) -> (r: Loader<'a>)
        ensures
            r.path() == file,
            r.opts().has_header == has_header,
            r.opts().delimiter == delimiter,
            r.opts().quote_marker is None,
    {
        let options = LoaderOptions { has_header, delimiter, quote_marker: None };
        Loader { file, options }
    }

    /// Constructs a loader for `file` with the default options: no header,
    /// `,` as the delimiter and no quote character.
    pub fn from_file_string(file_string: &'a str) -> (r: Loader<'a>)
        ensures
            r.path() == file_string,
            !r.opts().has_header,
            r.opts().delimiter == ',',
            r.opts().quote_marker is None,
    {
        Loader { file: file_string, options: LoaderOptions::default() }
    }

    /// The path of the file to load.
    pub fn file(&self) -> (r: &'a str)
        ensures
            r == self.path(),
    {
        self.file
    }

    /// The loading options.
    pub fn options(&self) -> (r: &LoaderOptions)
        ensures
            *r == self.opts(),
    {
        &self.options
    }

    /// Builds a table from the lines of a file. The first line gives one
    /// column per field, named by it when the options declare a header and
    /// else holding it as the first row; each later line must have as many
    /// fields, which are appended to the columns by position. Returns `None`
    /// when a line has another number of fields.
    pub fn load_lines(&self, lines: &Vec<String>) -> (r: Option<DataTable>)
        ensures
            r is Some <==> rows_consistent(texts(lines@), self.opts()),
            r matches Some(t) ==> loaded_from(t, texts(lines@), self.opts()),
    {
        let ghost ls = texts(lines@);
        let ghost o = self.options;
        let q = self.options.quote_marker;
        let d = self.options.delimiter;
        let has_header = self.options.has_header;
        let mut table = DataTable::empty();
        if lines.len() == 0 {
            return Some(table);
        }
        assert(ls[0] == lines@[0]@);
        let first = LineSplitIter::new(lines[0].clone(), q, d).into_fields();
        assert(texts(first@) == line_fields(ls, o, 0));
        let n = first.len();
        let mut c: usize = 0;
        while c < n
            invariant
                o == self.options,
                q == o.quote_marker,
                d == o.delimiter,
                has_header == o.has_header,
                ls == texts(lines@),
                ls.len() > 0,
                n == first@.len(),
                texts(first@) == line_fields(ls, o, 0),
                c <= n,
                table.data_cols@.len() == c,
                forall|c2: int|
                    0 <= c2 < c ==> {
                        &&& (#[trigger] table.data_cols@[c2]).cells() == loaded_cells(ls, o, c2, 1 - first_data_line(o))
                        &&& table.data_cols@[c2].category_list() is None
                        &&& if o.has_header {
                            table.data_cols@[c2].label() matches Some(nm) && nm@ == line_fields(ls, o, 0)[c2]
                        } else {
                            table.data_cols@[c2].label() is None
                        }
                    },
            decreases n - c,
        {
            assert(texts(first@)[c as int] == first@[c as int]@);
            let mut col = DataColumn::empty();
            if has_header {
                col.set_name(first[c].clone());
                assert(col.cells() =~= loaded_cells(ls, o, c as int, 1 - first_data_line(o)));
            } else {
                col.push(first[c].clone());
                assert(col.cells() =~= loaded_cells(ls, o, c as int, 1 - first_data_line(o)));
            }
            table.data_cols.push(col);
            c += 1;
        }
        let mut l: usize = 1;
        while l < lines.len()
            invariant
                o == self.options,
                q == o.quote_marker,
                d == o.delimiter,
                ls == texts(lines@),
                ls.len() > 0,
                n == line_fields(ls, o, 0).len(),
                1 <= l <= ls.len(),
                forall|l2: int| 1 <= l2 < l ==> (#[trigger] line_fields(ls, o, l2)).len() == n,
                table.data_cols@.len() == n,
                forall|c2: int|
                    0 <= c2 < n ==> {
                        &&& (#[trigger] table.data_cols@[c2]).cells() == loaded_cells(ls, o, c2, l - first_data_line(o))
                        &&& table.data_cols@[c2].category_list() is None
                        &&& if o.has_header {
                            table.data_cols@[c2].label() matches Some(nm) && nm@ == line_fields(ls, o, 0)[c2]
                        } else {
                            table.data_cols@[c2].label() is None
                        }
                    },
            decreases ls.len() - l,
        {
            assert(ls[l as int] == lines@[l as int]@);
            let fields = LineSplitIter::new(lines[l].clone(), q, d).into_fields();
            assert(texts(fields@) == line_fields(ls, o, l as int));
            if fields.len() != n {
                return None;
            }
            let mut c: usize = 0;
            while c < n
                invariant
                    o == self.options,
                    ls == texts(lines@),
                    n == fields@.len(),
                    texts(fields@) == line_fields(ls, o, l as int),
                    1 <= l < ls.len(),
                    c <= n,
                    table.data_cols@.len() == n,
                    forall|c2: int|
                        0 <= c2 < n ==> {
                            &&& (#[trigger] table.data_cols@[c2]).cells() == loaded_cells(
                                ls,
                                o,
                                c2,
                                l + if c2 < c { 1int } else { 0int } - first_data_line(o),
                            )
                            &&& table.data_cols@[c2].category_list() is None
                            &&& if o.has_header {
                                table.data_cols@[c2].label() matches Some(nm) && nm@ == line_fields(ls, o, 0)[c2]
                            } else {
                                table.data_cols@[c2].label() is None
                            }
                        },
                decreases n - c,
            {
                assert(texts(fields@)[c as int] == fields@[c as int]@);
                table.data_cols[c].push(fields[c].clone());
                assert(table.data_cols@[c as int].cells() =~= loaded_cells(ls, o, c as int, l + 1 - first_data_line(o)));
                c += 1;
            }
            l += 1;
        }
        Some(table)
    }
}

} // verus!
