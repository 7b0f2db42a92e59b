//! The word-vector table: its text format, its rows, and token lookup.
//!
//! The numeric fields stay text here; turning them into numbers is left to
//! the caller, which keeps one row of numbers per row of the table.
use vstd::prelude::*;
use crate::text::{char_rows, chars_of, split_words_range, string_of, string_views, strings_of, words};

verus! {

/// What a row of the table holds.
pub struct RowModel {
    pub line: nat,
    pub word: Seq<char>,
    pub fields: Seq<Seq<char>>,
}

/// What goes wrong while loading a table.
pub enum ErrorModel {
    Io { message: Seq<char> },
    InvalidDimension,
    MalformedFloat { line: nat, word: Seq<char> },
    DimensionMismatch { line: nat, word: Seq<char>, expected: nat, actual: nat },
}

/// The outcome of reading a table: its dimension and rows, or an error
/// together with the dimension and rows read before the failing line.
pub enum ScanModel {
    Table { dim: nat, rows: Seq<RowModel> },
    Failed { err: ErrorModel, dim: nat, rows: Seq<RowModel> },
}

/// Whether `c` is an ASCII decimal digit.
pub open spec fn is_digit(c: char) -> bool {
    '0' <= c && c <= '9'
}

/// The value of a string of decimal digits.
pub open spec fn digits_value(s: Seq<char>) -> nat
    decreases s.len(),
{
    if s.len() == 0 {
        0
    } else {
        digits_value(s.drop_last()) * 10 + ((s.last() as int) - ('0' as int)) as nat
    }
}

/// The digits of `s` after an optional leading `+`.
pub open spec fn unsigned_digits(s: Seq<char>) -> Seq<char> {
    if s.len() > 0 && s[0] == '+' {
        s.drop_first()
    } else {
        s
    }
}

/// `s` read as an unsigned machine-size integer: an optional `+`, then one
/// or more decimal digits, with a value that fits in `usize`.
pub open spec fn parse_uint_spec(s: Seq<char>) -> Option<nat> {
    let d = unsigned_digits(s);
    if d.len() > 0 && (forall|i: int| 0 <= i < d.len() ==> is_digit(#[trigger] d[i]))
        && digits_value(d) <= usize::MAX {
        Some(digits_value(d))
    } else {
        None
    }
}

/// The lines of `t`, split at each `'\n'`.
pub open spec fn lines_spec(t: Seq<char>) -> Seq<Seq<char>>
    decreases t.len(),
{
    if t.len() == 0 {
        seq![seq![]]
    } else {
        let ls = lines_spec(t.drop_last());
        if t.last() == '\n' {
            ls.push(seq![])
        } else {
            ls.update(ls.len() - 1, ls.last().push(t.last()))
        }
    }
}

/// The effect of line number `idx` on a table read so far.
///
/// A first line of exactly two unsigned integers is a header that declares the
/// dimension. Any other line with a word and at least one field is a row; the
/// first row fixes the dimension when no header did, and every row must then
/// have exactly that many fields. Blank lines and lone words add nothing.
pub open spec fn step_spec(idx: nat, line: Seq<char>, dim: nat, rows: Seq<RowModel>) -> ScanModel {
    let f = words(line);
    if f.len() == 0 {
        ScanModel::Table { dim, rows }
    } else if idx == 0 && f.len() == 2 && parse_uint_spec(f[0]) is Some && parse_uint_spec(
        f[1],
    ) is Some {
        if parse_uint_spec(f[1])->0 == 0 {
            ScanModel::Failed { err: ErrorModel::InvalidDimension, dim, rows }
        } else {
            ScanModel::Table { dim: parse_uint_spec(f[1])->0, rows }
        }
    } else if f.len() == 1 {
        ScanModel::Table { dim, rows }
    } else if dim != 0 && f.len() - 1 != dim {
        ScanModel::Failed {
            err: ErrorModel::DimensionMismatch {
                line: idx,
                word: f[0],
                expected: dim,
                actual: (f.len() - 1) as nat,
            },
            dim,
            rows,
        }
    } else {
        ScanModel::Table {
            dim: (f.len() - 1) as nat,
            rows: rows.push(RowModel { line: idx, word: f[0], fields: f.skip(1) }),
        }
    }
}

/// The outcome of reading the lines `ls` in order, stopping at the first error.
pub open spec fn scan_lines(ls: Seq<Seq<char>>) -> ScanModel
    decreases ls.len(),
{
    if ls.len() == 0 {
        ScanModel::Table { dim: 0, rows: seq![] }
    } else {
        match scan_lines(ls.drop_last()) {
            ScanModel::Failed { err, dim, rows } => ScanModel::Failed { err, dim, rows },
            ScanModel::Table { dim, rows } => step_spec(
                (ls.len() - 1) as nat,
                ls.last(),
                dim,
                rows,
            ),
        }
    }
}

/// The outcome of reading the table text `t`.
pub open spec fn scan_spec(t: Seq<char>) -> ScanModel {
    scan_lines(lines_spec(t))
}

/// An error met while loading a table.
pub enum LoadError {
    Io { message: String },
    InvalidDimension,
    MalformedFloat { line: usize, word: String },
    DimensionMismatch { line: usize, word: String, expected: usize, actual: usize },
}

impl View for LoadError {
    type V = ErrorModel;

    open spec fn view(&self) -> ErrorModel {
        match self {
            LoadError::Io { message } => ErrorModel::Io { message: message@ },
            LoadError::InvalidDimension => ErrorModel::InvalidDimension,
            LoadError::MalformedFloat { line, word } => ErrorModel::MalformedFloat {
                line: *line as nat,
                word: word@,
            },
            LoadError::DimensionMismatch { line, word, expected, actual } =>
                ErrorModel::DimensionMismatch {
                line: *line as nat,
                word: word@,
                expected: *expected as nat,
                actual: *actual as nat,
            },
        }
    }
}

/// A row of the table: the line it came from, its word, and its numeric fields as text.
pub struct TableRow {
    pub line: usize,
    pub word: String,
    pub fields: Vec<String>,
}

impl View for TableRow {
    type V = RowModel;

    open spec fn view(&self) -> RowModel {
        RowModel { line: self.line as nat, word: self.word@, fields: string_views(self.fields@) }
    }
}

/// The models of a sequence of rows.
pub open spec fn row_models(rows: Seq<TableRow>) -> Seq<RowModel> {
    rows.map_values(|r: TableRow| r@)
}

proof fn lemma_digits_monotone(s: Seq<char>, i: int)
    requires
        0 <= i <= s.len(),
        forall|j: int| 0 <= j < s.len() ==> is_digit(#[trigger] s[j]),
    ensures
        digits_value(s.take(i)) <= digits_value(s),
    decreases s.len(),
{
    if i < s.len() {
        let p = s.drop_last();
        assert(p.take(i) =~= s.take(i));
        lemma_digits_monotone(p, i);
    } else {
        assert(s.take(i) =~= s);
    }
}

/// Reads `s` as an unsigned integer: an optional `+`, then decimal digits,
/// with a value that fits in `usize`.
pub fn parse_uint(s: &Vec<char>) -> (r: Option<usize>)
    ensures
        match r {
            Some(v) => parse_uint_spec(s@) == Some(v as nat),
            None => parse_uint_spec(s@) is None,
        },
{
    let start: usize = if s.len() > 0 && s[0] == '+' { 1 } else { 0 };
    let ghost d = unsigned_digits(s@);
    proof {
        assert(d =~= s@.subrange(start as int, s@.len() as int));
    }
    if start >= s.len() {
        return None;
    }
    let mut i: usize = start;
    while i < s.len()
        invariant
            start <= i <= s@.len(),
            d == s@.subrange(start as int, s@.len() as int),
            d == unsigned_digits(s@),
            forall|j: int| 0 <= j < i - start ==> is_digit(#[trigger] d[j]),
        decreases s.len() - i,
    {
        if !('0' <= s[i] && s[i] <= '9') {
            assert(!is_digit(d[i - start]));
            return None;
        }
        i = i + 1;
    }
    let mut v: usize = 0;
    let mut k: usize = start;
    while k < s.len()
        invariant
            start <= k <= s@.len(),
            d == s@.subrange(start as int, s@.len() as int),
            d == unsigned_digits(s@),
            forall|j: int| 0 <= j < d.len() ==> is_digit(#[trigger] d[j]),
            v as nat == digits_value(d.take(k - start)),
        decreases s.len() - k,
    {
        let ghost pre = d.take(k - start);
        proof {
            assert(d.take(k - start + 1).drop_last() =~= pre);
            assert(d.take(k - start + 1).last() == s@[k as int]);
        }
        let digit = (s[k] as u32 - '0' as u32) as usize;
        match v.checked_mul(10) {
            Some(t) => match t.checked_add(digit) {
                Some(n) => {
                    v = n;
                },
                None => {
                    proof {
                        lemma_digits_monotone(d, k - start + 1);
                    }
                    return None;
                },
            },
            None => {
                proof {
                    lemma_digits_monotone(d, k - start + 1);
                }
                return None;
            },
        }
        k = k + 1;
    }
    proof {
        assert(d.take(k - start) =~= d);
    }
    Some(v)
}

proof fn lemma_lines_nonempty(t: Seq<char>)
    ensures
        lines_spec(t).len() >= 1,
    decreases t.len(),
{
    if t.len() > 0 {
        lemma_lines_nonempty(t.drop_last());
    }
}

/// Lines completed in a prefix of `t` stay lines of every longer prefix.
proof fn lemma_lines_prefix(t: Seq<char>, i: int, j: int)
    requires
        0 <= i <= j <= t.len(),
    ensures
        lines_spec(t.take(j)).len() >= lines_spec(t.take(i)).len(),
        lines_spec(t.take(j)).take(lines_spec(t.take(i)).len() - 1) == lines_spec(
            t.take(i),
        ).drop_last(),
    decreases j - i,
{
    lemma_lines_nonempty(t.take(i));
    if j > i {
        lemma_lines_prefix(t, i, j - 1);
        lemma_lines_nonempty(t.take(j - 1));
        assert(t.take(j).drop_last() =~= t.take(j - 1));
        let n = lines_spec(t.take(i)).len() - 1;
        assert(lines_spec(t.take(j)).take(n) =~= lines_spec(t.take(j - 1)).take(n));
    } else {
        assert(lines_spec(t.take(j)).take(lines_spec(t.take(i)).len() - 1) =~= lines_spec(
            t.take(i),
        ).drop_last());
    }
}

/// Once reading fails, reading further lines fails with the same error.
proof fn lemma_scan_failed_stays(ls: Seq<Seq<char>>, k: int)
    requires
        0 <= k <= ls.len(),
        scan_lines(ls.take(k)) is Failed,
    ensures
        scan_lines(ls) == scan_lines(ls.take(k)),
    decreases ls.len(),
{
    if k == ls.len() {
        assert(ls.take(k) =~= ls);
    } else {
        assert(ls.drop_last().take(k) =~= ls.take(k));
        lemma_scan_failed_stays(ls.drop_last(), k);
    }
}

/// Every row read so far has exactly `dim` fields, and rows exist only once
/// the dimension is fixed.
pub open spec fn rows_fit(dim: nat, rows: Seq<RowModel>) -> bool {
    &&& forall|i: int| 0 <= i < rows.len() ==> (#[trigger] rows[i]).fields.len() == dim
    &&& rows.len() > 0 ==> dim > 0
}

proof fn lemma_scan_rows_fit(ls: Seq<Seq<char>>)
    ensures
        scan_lines(ls) matches ScanModel::Table { dim, rows } ==> rows_fit(dim, rows),
    decreases ls.len(),
{
    if ls.len() > 0 {
        lemma_scan_rows_fit(ls.drop_last());
        if let ScanModel::Table { dim, rows } = scan_lines(ls.drop_last()) {
            let f = words(ls.last());
            if let ScanModel::Table { dim: d2, rows: r2 } = scan_lines(ls) {
                if r2.len() > rows.len() {
                    assert(r2 == rows.push(RowModel { line: (ls.len() - 1) as nat, word: f[0], fields: f.skip(1) }));
                    assert forall|i: int| 0 <= i < r2.len() implies (#[trigger] r2[i]).fields.len() == d2 by {
                        if i < rows.len() {
                            assert(r2[i] == rows[i]);
                        }
                    }
                }
            }
        }
    }
}

/// Applies one line, `t[lo..hi]` with number `idx`, to a table read so far.
fn scan_line(
    t: &Vec<char>,
    lo: usize,
    hi: usize,
    idx: usize,
    dim: usize,
    rows: &mut Vec<TableRow>,
) -> (r: Result<usize, LoadError>)
    requires
        lo <= hi <= t@.len(),
    ensures
        match step_spec(
            idx as nat,
            t@.subrange(lo as int, hi as int),
            dim as nat,
            row_models(old(rows)@),
        ) {
            ScanModel::Table { dim: d, rows: rs } => r matches Ok(nd) && nd == d && row_models(
                final(rows)@,
            ) == rs,
            ScanModel::Failed { err, .. } => r matches Err(e) && e@ == err && final(rows)@ == old(
                rows,
            )@,
        },
{
    let ws = split_words_range(t, lo, hi);
    let ghost f = char_rows(ws@);
    assert(f.len() == ws@.len());
    if ws.len() == 0 {
        return Ok(dim);
    }
    if idx == 0 && ws.len() == 2 {
        match (parse_uint(&ws[0]), parse_uint(&ws[1])) {
            (Some(_), Some(d)) => {
                if d == 0 {
                    return Err(LoadError::InvalidDimension);
                }
                return Ok(d);
            },
            _ => {},
        }
    }
    if ws.len() == 1 {
        return Ok(dim);
    }
    let nf = ws.len() - 1;
    let word = string_of(ws[0].as_slice());
    if dim != 0 && nf != dim {
        return Err(LoadError::DimensionMismatch { line: idx, word, expected: dim, actual: nf });
    }
    let mut fields: Vec<String> = Vec::new();
    let mut k: usize = 1;
    while k < ws.len()
        invariant
            1 <= k <= ws@.len(),
            f == char_rows(ws@),
            fields@.len() == k - 1,
            string_views(fields@) == f.skip(1).take(k - 1),
        decreases ws.len() - k,
    {
        let field = string_of(ws[k].as_slice());
        let ghost prev = fields@;
        fields.push(field);
        proof {
            assert forall|j: int| 0 <= j < k implies #[trigger] string_views(fields@)[j] == f.skip(
                1,
            ).take(k as int)[j] by {
                if j < k - 1 {
                    assert(string_views(prev)[j] == f.skip(1).take(k - 1)[j]);
                }
            }
            assert(string_views(fields@) =~= f.skip(1).take(k as int));
        }
        k = k + 1;
    }
    proof {
        assert(f.skip(1).take(k - 1) =~= f.skip(1));
    }
    let ghost prev_rows = rows@;
    let row = TableRow { line: idx, word, fields };
    rows.push(row);
    proof {
        assert(row_models(rows@) =~= row_models(prev_rows).push(row@));
    }
    Ok(nf)
}

/// A word-vector table read from its text form: a dimension, and rows that
/// each hold a word and that many numeric fields, in the order of the text.
///
/// A word may occur in several rows; looking it up finds the last of them.
pub struct EmbeddingTable {
    dim: usize,
    rows: Vec<TableRow>,
}

impl EmbeddingTable {
    /// The dimension of the table: how many numbers each row holds.
    pub closed spec fn dim_spec(&self) -> nat {
        self.dim as nat
    }

    /// The rows of the table, in order.
    pub closed spec fn rows_spec(&self) -> Seq<RowModel> {
        row_models(self.rows@)
    }

    /// Every row holds exactly `dim` fields, and a table with rows has a
    /// positive dimension.
    pub open spec fn wf(&self) -> bool {
        rows_fit(self.dim_spec(), self.rows_spec())
    }

    /// Reads a table from its text, line by line, up to the first error:
    /// returns the table read so far, with the error when there is one.
    /// Lines are a word and numeric fields separated by whitespace, with an
    /// optional first line `count dim`. A header that declares a zero
    /// dimension fails, as does a row whose field count differs from the
    /// dimension; the table returned then holds the rows before that line.
    pub fn scan(content: &str) -> (r: (EmbeddingTable, Option<LoadError>))
        ensures
            r.0.wf(),
            match scan_spec(content@) {
                ScanModel::Table { dim, rows } => r.1 is None && r.0.dim_spec() == dim
                    && r.0.rows_spec() == rows,
                ScanModel::Failed { err, dim, rows } => (r.1 matches Some(e) && e@ == err)
                    && r.0.dim_spec() == dim && r.0.rows_spec() == rows,
            },
    {
        let t = chars_of(content);
        let mut rows: Vec<TableRow> = Vec::new();
        let mut dim: usize = 0;
        let mut idx: usize = 0;
        let mut lo: usize = 0;
        let mut i: usize = 0;
        let ghost mut done: Seq<Seq<char>> = seq![];
        proof {
            assert(t@.take(0) =~= Seq::<char>::empty());
            assert(lines_spec(t@.take(0)) =~= done.push(t@.subrange(0, 0)));
            assert(row_models(rows@) =~= Seq::<RowModel>::empty());
        }
        while i < t.len()
            invariant
                lo <= i <= t@.len(),
                t@ == content@,
                done.len() == idx,
                idx <= i,
                lines_spec(t@.take(i as int)) == done.push(t@.subrange(lo as int, i as int)),
                scan_lines(done) == (ScanModel::Table { dim: dim as nat, rows: row_models(rows@) }),
            decreases t.len() - i,
        {
            let ghost cur = t@.subrange(lo as int, i as int);
            proof {
                assert(t@.take(i + 1).drop_last() =~= t@.take(i as int));
                assert(t@.take(i + 1).last() == t@[i as int]);
            }
            if t[i] == '\n' {
                let ghost next = done.push(cur);
                proof {
                    assert(next.drop_last() =~= done);
                    assert(lines_spec(t@.take(i + 1)) == next.push(seq![]));
                    lemma_scan_rows_fit(done);
                }
                let res = scan_line(&t, lo, i, idx, dim, &mut rows);
                match res {
                    Err(e) => {
                        proof {
                            lemma_lines_prefix(t@, i + 1, t@.len() as int);
                            assert(t@.take(t@.len() as int) =~= t@);
                            assert(lines_spec(t@).take(idx + 1) =~= next);
                            lemma_scan_failed_stays(lines_spec(t@), idx + 1);
                        }
                        return (EmbeddingTable { dim, rows }, Some(e));
                    },
                    Ok(d) => {
                        dim = d;
                    },
                }
                proof {
                    done = next;
                    assert(t@.subrange(i + 1, i + 1) =~= Seq::<char>::empty());
                }
                idx = idx + 1;
                lo = i + 1;
            } else {
                proof {
                    lemma_lines_nonempty(t@.take(i as int));
                    assert(cur.push(t@[i as int]) =~= t@.subrange(lo as int, i + 1));
                    assert(done.push(cur).update(done.len() as int, cur.push(t@[i as int]))
                        =~= done.push(t@.subrange(lo as int, i + 1)));
                }
            }
            i = i + 1;
        }
        proof {
            assert(t@.take(i as int) =~= t@);
            assert(done.push(t@.subrange(lo as int, i as int)).drop_last() =~= done);
            lemma_scan_rows_fit(done);
            lemma_scan_rows_fit(lines_spec(t@));
        }
        let res = scan_line(&t, lo, t.len(), idx, dim, &mut rows);
        match res {
            Err(e) => (EmbeddingTable { dim, rows }, Some(e)),
            Ok(d) => (EmbeddingTable { dim: d, rows }, None),
        }
    }

    /// Reads a whole table from its text, as `scan` does; on an error,
    /// nothing but the error is returned.
    pub fn parse(content: &str) -> (r: Result<EmbeddingTable, LoadError>)
        ensures
            match scan_spec(content@) {
                ScanModel::Table { dim, rows } => r matches Ok(tab) && tab.dim_spec() == dim
                    && tab.rows_spec() == rows && tab.wf(),
                ScanModel::Failed { err, .. } => r matches Err(e) && e@ == err,
            },
    {
        let (table, failure) = EmbeddingTable::scan(content);
        match failure {
            Some(e) => Err(e),
            None => Ok(table),
        }
    }

    /// The dimension of the table.
    pub fn dim(&self) -> (r: usize)
        ensures
            r == self.dim_spec(),
    {
        self.dim
    }

    /// How many rows the table holds.
    pub fn num_rows(&self) -> (r: usize)
        ensures
            r == self.rows_spec().len(),
    {
        self.rows.len()
    }

    /// The row at index `i`.
    pub fn row(&self, i: usize) -> (r: &TableRow)
        requires
            i < self.rows_spec().len(),
        ensures
            r@ == self.rows_spec()[i as int],
    {
        &self.rows[i]
    }

    /// The index of the last row whose word is `token`, if any.
    pub fn lookup(&self, token: &str) -> (r: Option<usize>)
        ensures
            match r {
                Some(i) => last_index(self.rows_spec(), token@) == Some(i as int),
                None => last_index(self.rows_spec(), token@) is None,
            },
    {
        let tok = token.to_owned();
        let mut i: usize = self.rows.len();
        proof {
            assert(self.rows_spec().take(i as int) =~= self.rows_spec());
        }
        while i > 0
            invariant
                i <= self.rows@.len(),
                tok@ == token@,
                last_index(self.rows_spec(), token@) == last_index(
                    self.rows_spec().take(i as int),
                    token@,
                ),
            decreases i,
        {
            proof {
                assert(self.rows_spec().take(i as int).drop_last() =~= self.rows_spec().take(
                    i - 1,
                ));
                assert(self.rows_spec().take(i as int).last() == self.rows@[i - 1]@);
            }
            if self.rows[i - 1].word == tok {
                return Some(i - 1);
            }
            i = i - 1;
        }
        None
    }

    /// The rows that the found tokens of `tokens` select, in token order,
    /// unknown tokens skipped; `None` when no token is found. These are the
    /// rows whose mean is the pooled vector of the tokens.
    pub fn rows_for_tokens(&self, tokens: &Vec<String>) -> (r: Option<Vec<usize>>)
        ensures
            found_rows(self.rows_spec(), string_views(tokens@)).len() == 0 ==> r is None,
            found_rows(self.rows_spec(), string_views(tokens@)).len() > 0 ==> (r matches Some(v)
                && v@.map_values(|x: usize| x as int) == found_rows(
                self.rows_spec(),
                string_views(tokens@),
            )),
    {
        let ghost toks = string_views(tokens@);
        let mut out: Vec<usize> = Vec::new();
        let mut k: usize = 0;
        while k < tokens.len()
            invariant
                k <= tokens@.len(),
                toks == string_views(tokens@),
                out@.map_values(|x: usize| x as int) == found_rows(
                    self.rows_spec(),
                    toks.take(k as int),
                ),
            decreases tokens.len() - k,
        {
            proof {
                assert(toks.take(k + 1).drop_last() =~= toks.take(k as int));
                assert(toks.take(k + 1).last() == tokens@[k as int]@);
            }
            let ghost prev = out@;
            match self.lookup(tokens[k].as_str()) {
                Some(i) => {
                    out.push(i);
                    proof {
                        assert(out@.map_values(|x: usize| x as int) =~= prev.map_values(
                            |x: usize| x as int,
                        ).push(i as int));
                    }
                },
                None => {},
            }
            k = k + 1;
        }
        proof {
            assert(toks.take(k as int) =~= toks);
        }
        if out.len() == 0 {
            None
        } else {
            Some(out)
        }
    }
}

/// The index of the last row of `rows` whose word is `tok`.
pub open spec fn last_index(rows: Seq<RowModel>, tok: Seq<char>) -> Option<int>
    decreases rows.len(),
{
    if rows.len() == 0 {
        None
    } else if rows.last().word == tok {
        Some(rows.len() - 1)
    } else {
        last_index(rows.drop_last(), tok)
    }
}

/// The rows selected by the tokens of `toks` that are found, in token order.
pub open spec fn found_rows(rows: Seq<RowModel>, toks: Seq<Seq<char>>) -> Seq<int>
    decreases toks.len(),
{
    if toks.len() == 0 {
        seq![]
    } else {
        let pre = found_rows(rows, toks.drop_last());
        match last_index(rows, toks.last()) {
            Some(i) => pre.push(i),
            None => pre,
        }
    }
}

} // verus!
