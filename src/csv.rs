//! Projection of a stream of flat JSON objects onto CSV rows: every key
//! seen becomes a column, in order of first appearance.
use vstd::prelude::*;
use indexmap::IndexMap;
use crate::json::{kind_name, Json, JsonV, ValueExt};
use crate::path::{chars_of, string_of, views_of};
use crate::flatten::entry_views;

verus! {

/// One CSV cell.
#[derive(Debug, PartialEq)]
pub enum OutputField {
    Empty,
    Bool(bool),
    Number(serde_json::Number),
    String(String),
    QuotedString(String),
}

/// The model of a cell.
pub enum FieldV {
    Empty,
    Bool(bool),
    Number(serde_json::Number),
    Str(Seq<char>),
    Quoted(Seq<char>),
}

impl View for OutputField {
    type V = FieldV;

    open spec fn view(&self) -> FieldV {
        match self {
            OutputField::Empty => FieldV::Empty,
            OutputField::Bool(b) => FieldV::Bool(*b),
            OutputField::Number(n) => FieldV::Number(*n),
            OutputField::String(s) => FieldV::Str(s@),
            OutputField::QuotedString(s) => FieldV::Quoted(s@),
        }
    }
}

/// A record that is not an object; it holds the kind of what was found.
#[derive(Debug, PartialEq, Eq)]
pub struct NotAnObject {
    pub found: &'static str,
}

/// The columns seen so far, each key with its column position.
pub uninterp spec fn header_entries(m: IndexMap<String, usize>) -> Seq<(Seq<char>, usize)>;

/// Relies on `IndexMap::new`: the new map is empty.
#[verifier::external_body]
fn header_new() -> (r: IndexMap<String, usize>)
    ensures
        header_entries(r) == Seq::<(Seq<char>, usize)>::empty(),
{
    IndexMap::new()
}

/// Relies on `IndexMap::len`: the number of entries.
#[verifier::external_body]
fn header_len(m: &IndexMap<String, usize>) -> (r: usize)
    ensures
        r == header_entries(*m).len(),
{
    m.len()
}

/// The value stored under `k`, if any.
pub open spec fn lookup(m: Seq<(Seq<char>, usize)>, k: Seq<char>) -> Option<usize> {
    if exists|i: int| 0 <= i < m.len() && m[i].0 == k {
        Some(m[choose|i: int| 0 <= i < m.len() && m[i].0 == k].1)
    } else {
        None
    }
}

/// Relies on `IndexMap::get`: the value stored under an equal key, if any.
#[verifier::external_body]
fn header_get(m: &IndexMap<String, usize>, k: &String) -> (r: Option<usize>)
    ensures
        r == lookup(header_entries(*m), k@),
{
    m.get(k).copied()
}

/// Relies on `IndexMap::insert` of a key that is not present: it goes last.
#[verifier::external_body]
fn header_insert(m: &mut IndexMap<String, usize>, k: String, v: usize)
    requires
        forall|i: int| 0 <= i < header_entries(*old(m)).len() ==> header_entries(*old(m))[i].0 != k@,
    ensures
        header_entries(*final(m)) == header_entries(*old(m)).push((k@, v)),
{
    m.insert(k, v);
}

/// Relies on `IndexMap::keys`: the keys in map order.
#[verifier::external_body]
fn header_keys(m: &IndexMap<String, usize>) -> (r: Vec<String>)
    ensures
        r@.len() == header_entries(*m).len(),
        forall|i: int| 0 <= i < r@.len() ==> r@[i]@ == header_entries(*m)[i].0,
{
    m.keys().cloned().collect()
}

/// The text that `Display` gives a JSON number.
pub uninterp spec fn number_text(n: serde_json::Number) -> Seq<char>;

/// Relies on `Display for serde_json::Number`: the text depends on the number alone.
#[verifier::external_body]
fn number_to_text(n: &serde_json::Number) -> (r: String)
    ensures
        r@ == number_text(*n),
{
    n.to_string()
}

/// `s` with a backslash before each double quote.
pub open spec fn escape_quotes(s: Seq<char>) -> Seq<char>
    decreases s.len(),
{
    if s.len() == 0 {
        Seq::empty()
    } else {
        let n = s.len() - 1;
        let c = s[n];
        escape_quotes(s.subrange(0, n)) + if c == '"' {
            seq!['\\', '"']
        } else {
            seq![c]
        }
    }
}

/// `s` in double quotes, its own double quotes escaped.
pub open spec fn quoted(s: Seq<char>) -> Seq<char> {
    seq!['"'] + escape_quotes(s) + seq!['"']
}

/// The text of a cell: nothing for an empty cell, `0` or `1` for a boolean.
pub open spec fn field_text(f: FieldV) -> Seq<char> {
    match f {
        FieldV::Empty => Seq::empty(),
        FieldV::Bool(b) => if b { seq!['1'] } else { seq!['0'] },
        FieldV::Number(n) => number_text(n),
        FieldV::Str(s) => s,
        FieldV::Quoted(s) => quoted(s),
    }
}

/// Cells joined by the delimiter.
pub open spec fn delimited(cells: Seq<Seq<char>>, delim: Seq<char>) -> Seq<char>
    decreases cells.len(),
{
    if cells.len() == 0 {
        Seq::empty()
    } else if cells.len() == 1 {
        cells[0]
    } else {
        let n = cells.len() - 1;
        delimited(cells.subrange(0, n), delim) + delim + cells[n]
    }
}

/// The cell of a scalar value; containers give no cell.
pub open spec fn field_of(v: JsonV, quote: bool) -> FieldV {
    match v {
        JsonV::Str(s) => if quote { FieldV::Quoted(s) } else { FieldV::Str(s) },
        JsonV::Bool(b) => FieldV::Bool(b),
        JsonV::Number(n) => FieldV::Number(n),
        _ => FieldV::Empty,
    }
}

/// The position of `k` among the columns, or -1.
pub open spec fn column_of(h: Seq<Seq<char>>, k: Seq<char>) -> int {
    if exists|i: int| 0 <= i < h.len() && h[i] == k {
        choose|i: int| 0 <= i < h.len() && h[i] == k
    } else {
        -1
    }
}

/// Columns and row after the fields of one record: a scalar goes to the
/// column of its key, a new key adds a column at the end, and arrays and
/// objects are skipped.
pub open spec fn fill_row(
    h: Seq<Seq<char>>,
    row: Seq<FieldV>,
    fields: Seq<(Seq<char>, JsonV)>,
    quote: bool,
) -> (Seq<Seq<char>>, Seq<FieldV>)
    decreases fields.len(),
{
    if fields.len() == 0 {
        (h, row)
    } else {
        let n = fields.len() - 1;
        let (h1, r1) = fill_row(h, row, fields.subrange(0, n), quote);
        let (k, v) = fields[n];
        if v is Array || v is Object {
            (h1, r1)
        } else if column_of(h1, k) >= 0 {
            (h1, r1.update(column_of(h1, k), field_of(v, quote)))
        } else {
            (h1.push(k), r1.push(field_of(v, quote)))
        }
    }
}

/// Distinct keys.
pub open spec fn distinct(h: Seq<Seq<char>>) -> bool {
    forall|i: int, j: int| 0 <= i < h.len() && 0 <= j < h.len() && i != j ==> h[i] != h[j]
}

/// The columns and rows read so far.
pub struct CsvTable {
    pub header: IndexMap<String, usize>,
    pub rows: Vec<Vec<OutputField>>,
}

/// The models of a row of cells.
pub open spec fn row_view(r: Seq<OutputField>) -> Seq<FieldV> {
    r.map_values(|f: OutputField| f@)
}

impl CsvTable {
    /// The column keys, in order.
    pub open spec fn columns(&self) -> Seq<Seq<char>> {
        header_entries(self.header).map_values(|e: (Seq<char>, usize)| e.0)
    }

    /// The rows, as models.
    pub open spec fn row_views(&self) -> Seq<Seq<FieldV>> {
        self.rows@.map_values(|r: Vec<OutputField>| row_view(r@))
    }

    /// Each key is stored with its own position, keys are distinct, and no
    /// row is longer than the header.
    pub open spec fn wf(&self) -> bool {
        &&& forall|i: int| 0 <= i < header_entries(self.header).len() ==> (#[trigger] header_entries(self.header)[i]).1 == i
        &&& distinct(self.columns())
        &&& forall|i: int| 0 <= i < self.rows.len() ==> (#[trigger] self.rows@[i]).len() <= self.columns().len()
    }

    /// A table with no column and no row.
    pub fn new() -> (r: CsvTable)
        ensures
            r.wf(),
            r.columns() == Seq::<Seq<char>>::empty(),
            r.row_views() == Seq::<Seq<FieldV>>::empty(),
    {
        let r = CsvTable { header: header_new(), rows: Vec::new() };
        assert(r.columns() =~= Seq::<Seq<char>>::empty());
        assert(r.row_views() =~= Seq::<Seq<FieldV>>::empty());
        r
    }
}

/// The header cells: each key, quoted when strings are quoted.
pub open spec fn header_cells(h: Seq<Seq<char>>, quote: bool) -> Seq<Seq<char>> {
    h.map_values(|k: Seq<char>| if quote { quoted(k) } else { k })
}

/// The cells of a row padded with empty cells to `ncols`.
pub open spec fn row_cells(row: Seq<FieldV>, ncols: nat) -> Seq<Seq<char>> {
    Seq::new(ncols, |i: int| if i < row.len() { field_text(row[i]) } else { Seq::empty() })
}

/// The row lines, each ended by a newline.
pub open spec fn rows_text(rows: Seq<Seq<FieldV>>, ncols: nat, delim: Seq<char>) -> Seq<char>
    decreases rows.len(),
{
    if rows.len() == 0 {
        Seq::empty()
    } else {
        let n = rows.len() - 1;
        rows_text(rows.subrange(0, n), ncols, delim) + delimited(row_cells(rows[n], ncols), delim)
            + seq!['\n']
    }
}

/// The whole CSV text: the header line, then one line per row.
pub open spec fn csv_text(
    h: Seq<Seq<char>>,
    rows: Seq<Seq<FieldV>>,
    quote: bool,
    delim: Seq<char>,
) -> Seq<char> {
    delimited(header_cells(h, quote), delim) + seq!['\n'] + rows_text(rows, h.len(), delim)
}

/// The empty row of `n` cells.
pub open spec fn empty_row(n: nat) -> Seq<FieldV> {
    Seq::new(n, |i: int| FieldV::Empty)
}

/// Appends the cells to `out`, separated by `delim`.
pub fn write_delimited(out: &mut String, cells: &Vec<String>, delim: &str)
    ensures
        final(out)@ == old(out)@ + delimited(views_of(cells@), delim@),
{
    let ghost start = out@;
    let ghost cv = views_of(cells@);
    let mut i: usize = 0;
    assert(cv.subrange(0, 0) =~= Seq::<Seq<char>>::empty());
    assert(out@ =~= start + delimited(cv.subrange(0, 0), delim@));
    while i < cells.len()
        invariant
            i <= cells.len(),
            cv == views_of(cells@),
            out@ == start + delimited(cv.subrange(0, i as int), delim@),
        decreases cells.len() - i,
    {
        let ghost before = out@;
        if i > 0 {
            out.append(delim);
        }
        out.append(cells[i].as_str());
        proof {
            let sub = cv.subrange(0, i + 1);
            assert(sub.subrange(0, i as int) =~= cv.subrange(0, i as int));
            if i == 0 {
                assert(delimited(sub, delim@) == cv[0]);
                assert(out@ =~= start + delimited(sub, delim@));
            } else {
                assert(out@ =~= start + delimited(sub, delim@));
            }
        }
        i += 1;
    }
    assert(cv.subrange(0, cv.len() as int) =~= cv);
}

fn push_escaped(out: &mut Vec<char>, s: &str)
    ensures
        final(out)@ == old(out)@ + escape_quotes(s@),
{
    let cs = chars_of(s);
    let ghost start = out@;
    let mut i: usize = 0;
    while i < cs.len()
        invariant
            i <= cs.len(),
            cs@ == s@,
            out@ == start + escape_quotes(cs@.subrange(0, i as int)),
        decreases cs.len() - i,
    {
        let c = cs[i];
        if c == '"' {
            out.push('\\');
            out.push('"');
        } else {
            out.push(c);
        }
        proof {
            let sub = cs@.subrange(0, i + 1);
            assert(sub.subrange(0, i as int) =~= cs@.subrange(0, i as int));
            assert(out@ =~= start + escape_quotes(sub));
        }
        i += 1;
    }
    assert(cs@.subrange(0, cs.len() as int) =~= cs@);
}

/// `s` in double quotes, its own double quotes escaped with a backslash.
pub fn quote_text(s: &str) -> (r: String)
    ensures
        r@ == quoted(s@),
{
    let mut cs: Vec<char> = Vec::new();
    cs.push('"');
    push_escaped(&mut cs, s);
    cs.push('"');
    assert(cs@ =~= quoted(s@));
    string_of(&cs)
}

/// The text of a cell.
pub fn field_to_text(f: &OutputField) -> (r: String)
    ensures
        r@ == field_text(f@),
{
    match f {
        OutputField::Empty => String::new(),
        OutputField::Bool(b) => {
            let mut cs: Vec<char> = Vec::new();
            cs.push(if *b { '1' } else { '0' });
            assert(cs@ =~= field_text(f@));
            string_of(&cs)
        },
        OutputField::Number(n) => number_to_text(n),
        OutputField::String(s) => s.clone(),
        OutputField::QuotedString(s) => quote_text(s.as_str()),
    }
}

/// CSV output options.
pub struct Json2Csv {
    pub delimiter: String,
    pub quote_strings: bool,
}

impl Json2Csv {
    /// The cell of a scalar; `None` for an array or an object.
    pub fn cell(&self, v: Json) -> (r: Option<OutputField>)
        ensures
            (v@ is Array || v@ is Object) <==> r is None,
            r is Some ==> r->Some_0@ == field_of(v@, self.quote_strings),
    {
        match v {
            Json::Array(_) => None,
            Json::Object(_) => None,
            Json::String(s) => if self.quote_strings {
                Some(OutputField::QuotedString(s))
            } else {
                Some(OutputField::String(s))
            },
            Json::Bool(b) => Some(OutputField::Bool(b)),
            Json::Number(n) => Some(OutputField::Number(n)),
            Json::Null => Some(OutputField::Empty),
        }
    }

    /// Adds one record as a row: its scalars go to the columns of their
    /// keys, new keys add columns. Anything but an object is refused and
    /// leaves the table as it was.
    pub fn add_record(&self, table: &mut CsvTable, value: Json) -> (r: Result<(), NotAnObject>)
        requires
            old(table).wf(),
        ensures
            final(table).wf(),
            (value@ is Object) <==> (r is Ok),
            r is Ok ==> ({
                let (h, row) = fill_row(
                    old(table).columns(),
                    empty_row(old(table).columns().len()),
                    value@->Object_0,
                    self.quote_strings,
                );
                &&& final(table).columns() == h
                &&& final(table).row_views() == old(table).row_views().push(row)
            }),
            r is Err ==> r->Err_0.found@ == kind_name(value@) && *final(table) == *old(table),
    {
        let found = value.kind();
        let ghost whole = value@;
        match value {
            Json::Object(entries) => {
                let ghost all = entries@;
                let ghost ev = entry_views(all);
                assert(whole->Object_0 =~= ev);
                let ghost h0 = table.columns();
                let ghost rows0 = table.rows@;
                let n = header_len(&table.header);
                let mut row: Vec<OutputField> = Vec::new();
                for i in 0..n
                    invariant
                        row_view(row@) =~= empty_row(i as nat),
                {
                    let ghost before = row_view(row@);
                    row.push(OutputField::Empty);
                    assert(row_view(row@) =~= before.push(FieldV::Empty));
                    assert(empty_row((i + 1) as nat) =~= empty_row(i as nat).push(FieldV::Empty));
                }
                assert(ev.subrange(0, 0) =~= Seq::<(Seq<char>, JsonV)>::empty());
                for pair in it: entries.into_iter()
                    invariant
                        it.seq() == all,
                        ev == entry_views(all),
                        table.rows@ == rows0,
                        forall|i: int| 0 <= i < rows0.len() ==> (#[trigger] rows0[i]).len() <= h0.len(),
                        h0.len() <= table.columns().len(),
                        forall|i: int| 0 <= i < header_entries(table.header).len() ==> (#[trigger] header_entries(table.header)[i]).1 == i,
                        distinct(table.columns()),
                        row.len() == table.columns().len(),
                        (table.columns(), row_view(row@)) == fill_row(
                            h0,
                            empty_row(h0.len()),
                            ev.subrange(0, it.index() as int),
                            self.quote_strings,
                        ),
                {
                    let ghost i = it.index() as int;
                    let ghost hb = table.columns();
                    let ghost rb = row_view(row@);
                    assert(pair == all[i]);
                    let (key, v) = pair;
                    let ghost vv = v@;
                    let ghost sub = ev.subrange(0, i + 1);
                    assert(sub.subrange(0, i) =~= ev.subrange(0, i));
                    assert(sub[i] == (key@, vv));
                    if let Some(f) = self.cell(v) {
                        match header_get(&table.header, &key) {
                            Some(idx) => {
                                proof {
                                    let he = header_entries(table.header);
                                    let j = choose|j: int| 0 <= j < he.len() && he[j].0 == key@;
                                    assert(he[j].1 == j);
                                    assert(hb[j] == key@);
                                    let c = column_of(hb, key@);
                                    assert(0 <= c < hb.len() && hb[c] == key@);
                                    assert(c == j);
                                }
                                row.set(idx, f);
                                assert(row_view(row@) =~= rb.update(idx as int, field_of(vv, self.quote_strings)));
                            },
                            None => {
                                let l = header_len(&table.header);
                                proof {
                                    let he = header_entries(table.header);
                                    assert forall|j: int| 0 <= j < he.len() implies he[j].0 != key@ by {
                                        assert(hb[j] == he[j].0);
                                    }
                                    assert(!exists|j: int| 0 <= j < hb.len() && hb[j] == key@) by {
                                        if exists|j: int| 0 <= j < hb.len() && hb[j] == key@ {
                                            let j = choose|j: int| 0 <= j < hb.len() && hb[j] == key@;
                                            assert(hb[j] == he[j].0);
                                        }
                                    }
                                }
                                let ghost kv = key@;
                                header_insert(&mut table.header, key, l);
                                row.push(f);
                                assert(table.columns() =~= hb.push(kv));
                                assert(row_view(row@) =~= rb.push(field_of(vv, self.quote_strings)));
                            },
                        }
                    }
                }
                assert(ev.subrange(0, ev.len() as int) =~= ev);
                let ghost final_row = row_view(row@);
                table.rows.push(row);
                assert(table.row_views() =~= old(table).row_views().push(final_row));
                Ok(())
            },
            _ => Err(NotAnObject { found }),
        }
    }

    /// The cells of one row, padded with empty cells to `ncols`.
    fn row_texts(row: &Vec<OutputField>, ncols: usize) -> (r: Vec<String>)
        ensures
            views_of(r@) == row_cells(row_view(row@), ncols as nat),
    {
        let ghost rv = row_view(row@);
        let mut rc: Vec<String> = Vec::new();
        for j in 0..ncols
            invariant
                rv == row_view(row@),
                views_of(rc@) =~= row_cells(rv, ncols as nat).subrange(0, j as int),
        {
            let ghost before = views_of(rc@);
            if j < row.len() {
                rc.push(field_to_text(&row[j]));
            } else {
                rc.push(String::new());
            }
            assert(views_of(rc@) =~= before.push(row_cells(rv, ncols as nat)[j as int]));
        }
        assert(row_cells(rv, ncols as nat).subrange(0, ncols as int) =~= row_cells(rv, ncols as nat));
        rc
    }

    /// The CSV text of the table: the header line, then each row padded
    /// to the number of columns.
    pub fn render(&self, table: &CsvTable) -> (r: String)
        requires
            table.wf(),
        ensures
            r@ == csv_text(table.columns(), table.row_views(), self.quote_strings, self.delimiter@),
    {
        let ghost h = table.columns();
        let ghost hc = header_cells(h, self.quote_strings);
        let keys = header_keys(&table.header);
        let ncols = keys.len();
        let mut cells: Vec<String> = Vec::new();
        for i in 0..ncols
            invariant
                ncols == h.len(),
                keys@.len() == h.len(),
                forall|x: int| 0 <= x < keys@.len() ==> keys@[x]@ == h[x],
                hc == header_cells(h, self.quote_strings),
                views_of(cells@) =~= hc.subrange(0, i as int),
        {
            let ghost before = views_of(cells@);
            if self.quote_strings {
                cells.push(quote_text(keys[i].as_str()));
            } else {
                cells.push(keys[i].clone());
            }
            assert(views_of(cells@) =~= before.push(hc[i as int]));
        }
        assert(hc.subrange(0, ncols as int) =~= hc);
        let mut out = String::new();
        write_delimited(&mut out, &cells, self.delimiter.as_str());
        proof {
            reveal_strlit("\n");
        }
        out.append("\n");
        let ghost head = out@;
        let ghost rows = table.row_views();
        assert(rows.subrange(0, 0) =~= Seq::<Seq<FieldV>>::empty());
        for r in 0..table.rows.len()
            invariant
                ncols == h.len(),
                rows == table.row_views(),
                out@ == head + rows_text(rows.subrange(0, r as int), ncols as nat, self.delimiter@),
        {
            let rc = Self::row_texts(&table.rows[r], ncols);
            let ghost before = out@;
            write_delimited(&mut out, &rc, self.delimiter.as_str());
            proof {
                reveal_strlit("\n");
            }
            out.append("\n");
            proof {
                let sub = rows.subrange(0, r + 1);
                assert(sub.subrange(0, r as int) =~= rows.subrange(0, r as int));
                assert(sub[r as int] == row_view(table.rows@[r as int]@));
                assert(out@ =~= head + rows_text(sub, ncols as nat, self.delimiter@));
            }
        }
        assert(rows.subrange(0, rows.len() as int) =~= rows);
        out
    }
}

} // verus!
