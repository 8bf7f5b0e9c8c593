use vstd::prelude::*;
use crate::log_record::{Accessor, LogRecord, resolved, strs};
use crate::operation::{OpType, Operation, fresh, op_after, op_value};
use crate::value::{LogValue, Val, val_lt, lemma_val_lt_strict};
use crate::text::{text_lt, str_lt, lemma_bytes_lt_transitive, lemma_bytes_lt_asymmetric};

verus! {

/// One aggregated column: where its value lies and how it is reduced.
#[derive(Clone, Debug)]
pub struct Field {
    pub accessor: Accessor,
    pub op_type: OpType,
}

impl Field {
    pub fn new(accessor: Accessor, op_type: OpType) -> (r: Field)
        ensures
            r.accessor == accessor,
            r.op_type == op_type,
    {
        Field { accessor, op_type }
    }

    pub fn name(&self) -> (r: &str)
        ensures
            r@ == self.accessor.name@,
    {
        self.accessor.name.as_str()
    }

    /// A copy of this field.
    pub fn copied(&self) -> (r: Field)
        ensures
            r.accessor.name@ == self.accessor.name@,
            strs(r.accessor.path@) == strs(self.accessor.path@),
            r.accessor.dtype == self.accessor.dtype,
            r.op_type == self.op_type,
    {
        Field { accessor: self.accessor.copied(), op_type: self.op_type }
    }
}

/// The grouping key: where it lies in a record.
#[derive(Clone, Debug)]
pub struct Index {
    pub accessor: Accessor,
}

impl Index {
    pub fn new(accessor: Accessor) -> (r: Index)
        ensures
            r.accessor == accessor,
    {
        Index { accessor }
    }

    pub fn name(&self) -> (r: &str)
        ensures
            r@ == self.accessor.name@,
    {
        self.accessor.name.as_str()
    }
}

/// The schema of a table: key, columns in output order, and sort policy.
#[derive(Clone, Debug)]
pub struct TableDef {
    pub index: Index,
    pub fields: Vec<Field>,
    pub order_by: Option<Field>,
    pub ascending: bool,
}

/// Whether some field of `fields` is named `name`.
pub open spec fn has_field(fields: Seq<Field>, name: Seq<char>) -> bool {
    exists|i: int| 0 <= i < fields.len() && (#[trigger] fields[i]).accessor.name@ == name
}

impl TableDef {
    /// The sort field, if any, is one of the columns.
    pub open spec fn wf(&self) -> bool {
        match self.order_by {
            Some(f) => has_field(self.fields@, f.accessor.name@),
            None => true,
        }
    }

    pub fn new(index: Index, fields: Vec<Field>, order_by: Option<Field>, ascending: bool) -> (r:
        TableDef)
        ensures
            r.index == index,
            r.fields == fields,
            r.order_by == order_by,
            r.ascending == ascending,
    {
        TableDef { index, fields, order_by, ascending }
    }

    /// The accessors of the columns, in order.
    pub fn field_accessor(&self) -> (r: Vec<&Accessor>)
        ensures
            r@.len() == self.fields@.len(),
            forall|i: int| 0 <= i < r@.len() ==> *r@[i] == self.fields@[i].accessor,
    {
        let mut result: Vec<&Accessor> = Vec::new();
        let mut i: usize = 0;
        while i < self.fields.len()
            invariant
                i <= self.fields@.len(),
                result@.len() == i,
                forall|k: int| 0 <= k < i ==> *result@[k] == self.fields@[k].accessor,
            decreases self.fields@.len() - i,
        {
            result.push(&self.fields[i].accessor);
            i = i + 1;
        }
        result
    }

    pub fn key_accessor(&self) -> (r: &Accessor)
        ensures
            *r == self.index.accessor,
    {
        &self.index.accessor
    }

    pub fn field_num(&self) -> (r: usize)
        ensures
            r == self.fields@.len(),
    {
        self.fields.len()
    }
}

/// The mathematical content of a row: field name and reducer, per column.
pub type RowView = Seq<(Seq<char>, Operation)>;

/// Whether some entry of `row` is named `name`.
pub open spec fn row_has(row: RowView, name: Seq<char>) -> bool {
    exists|i: int| 0 <= i < row.len() && (#[trigger] row[i]).0 == name
}

/// The position of the entry named `name` (names are unique in a row).
pub open spec fn row_pos(row: RowView, name: Seq<char>) -> int {
    choose|i: int| 0 <= i < row.len() && (#[trigger] row[i]).0 == name
}

/// The row after one column observes `v`: its reducer is created if missing.
pub open spec fn row_step(row: RowView, name: Seq<char>, kind: OpType, v: Val) -> RowView {
    if row_has(row, name) {
        let i = row_pos(row, name);
        row.update(i, (name, op_after(row[i].1, v)))
    } else {
        row.push((name, op_after(fresh(kind), v)))
    }
}

/// The row after every column of `fields` observes its value in `rec`, in order.
pub open spec fn row_after(row: RowView, fields: Seq<Field>, rec: LogRecord) -> RowView
    decreases fields.len(),
{
    if fields.len() == 0 {
        row
    } else {
        let f = fields.last();
        row_step(
            row_after(row, fields.drop_last(), rec),
            f.accessor.name@,
            f.op_type,
            resolved(rec, f.accessor),
        )
    }
}

/// The aggregate of column `name` in `row`; absent where it was never updated.
pub open spec fn row_get(row: RowView, name: Seq<char>) -> Val {
    if row_has(row, name) {
        op_value(row[row_pos(row, name)].1)
    } else {
        Val::Absent
    }
}

/// The reducers of one group, keyed by field name.
#[derive(Clone, Debug)]
pub struct TableRow {
    values: Vec<(String, Operation)>,
}

impl View for TableRow {
    type V = RowView;

    closed spec fn view(&self) -> RowView {
        self.values@.map_values(|p: (String, Operation)| (p.0@, p.1))
    }
}

impl Default for TableRow {
    fn default() -> (r: TableRow)
        ensures
            r@ == Seq::<(Seq<char>, Operation)>::empty(),
            r.wf(),
    {
        TableRow::new()
    }
}

impl TableRow {
    /// Names are unique and every reducer is within bounds.
    pub open spec fn wf(&self) -> bool {
        &&& forall|i: int, j: int|
            0 <= i < j < self@.len() ==> (#[trigger] self@[i]).0 != (#[trigger] self@[j]).0
        &&& forall|i: int| 0 <= i < self@.len() ==> (#[trigger] self@[i]).1.wf()
    }

    /// A row that has observed nothing.
    pub fn new() -> (r: TableRow)
        ensures
            r@ == Seq::<(Seq<char>, Operation)>::empty(),
            r.wf(),
    {
        let r = TableRow { values: Vec::new() };
        assert(r@ =~= Seq::<(Seq<char>, Operation)>::empty());
        r
    }

    /// Where the entry named `name` stands.
    fn find(&self, name: &String) -> (r: Option<usize>)
        requires
            self.wf(),
        ensures
            match r {
                Some(i) => row_has(self@, name@) && i == row_pos(self@, name@) && i
                    < self@.len(),
                None => !row_has(self@, name@),
            },
    {
        let mut i: usize = 0;
        while i < self.values.len()
            invariant
                self.wf(),
                i <= self@.len(),
                self@.len() == self.values@.len(),
                forall|k: int| 0 <= k < i ==> (#[trigger] self@[k]).0 != name@,
            decreases self.values@.len() - i,
        {
            assert(self@[i as int].0 == self.values@[i as int].0@);
            if self.values[i].0.eq(name) {
                proof {
                    let p = row_pos(self@, name@);
                    assert(0 <= p < self@.len() && self@[p].0 == name@);
                    if p > i {
                        let ii = i as int;
                        assert(0 <= ii < p < self@.len());
                        assert(self@[ii].0 != self@[p].0);
                    }
                }
                return Some(i);
            }
            i = i + 1;
        }
        None
    }

    /// Every column of `fields` observes its value in `record`, in order; a
    /// column's reducer is created, of the column's kind, on its first value.
    pub fn update(&mut self, record: &LogRecord, fields: &[Field])
        requires
            old(self).wf(),
        ensures
            final(self).wf(),
            final(self)@ == row_after(old(self)@, fields@, *record),
    {
        let mut i: usize = 0;
        while i < fields.len()
            invariant
                i <= fields@.len(),
                self.wf(),
                self@ == row_after(old(self)@, fields@.take(i as int), *record),
            decreases fields@.len() - i,
        {
            let f = &fields[i];
            let v = record.resolve(&f.accessor);
            let ghost before = self@;
            assert(fields@.take(i + 1).drop_last() =~= fields@.take(i as int));
            assert(fields@.take(i + 1).last() == f);
            match self.find(&f.accessor.name) {
                Some(p) => {
                    let mut op = self.values[p].1;
                    op.update(&v);
                    let name = self.values[p].0.clone();
                    self.values.set(p, (name, op));
                    assert(self@ =~= before.update(p as int, (f.accessor.name@, op)));
                },
                None => {
                    let mut op = Operation::new(f.op_type);
                    op.update(&v);
                    self.values.push((f.accessor.name.clone(), op));
                    assert(self@ =~= before.push((f.accessor.name@, op)));
                },
            }
            i = i + 1;
        }
        assert(fields@.take(i as int) =~= fields@);
    }

    /// The aggregate of `field`; absent where the row never updated it.
    pub fn get(&self, field: &Field) -> (r: LogValue)
        requires
            self.wf(),
        ensures
            r@ == row_get(self@, field.accessor.name@),
    {
        match self.find(&field.accessor.name) {
            Some(p) => self.values[p].1.value(),
            None => LogValue::Absent,
        }
    }

    /// The aggregates of `fields`, in their order.
    pub fn get_row(&self, fields: &[Field]) -> (r: Vec<LogValue>)
        requires
            self.wf(),
        ensures
            r@.len() == fields@.len(),
            forall|i: int| 0 <= i < r@.len() ==> (#[trigger] r@[i])@ == row_get(
                self@,
                fields@[i].accessor.name@,
            ),
    {
        let mut result: Vec<LogValue> = Vec::new();
        let mut i: usize = 0;
        while i < fields.len()
            invariant
                self.wf(),
                i <= fields@.len(),
                result@.len() == i,
                forall|k: int| 0 <= k < i ==> (#[trigger] result@[k])@ == row_get(
                    self@,
                    fields@[k].accessor.name@,
                ),
            decreases fields@.len() - i,
        {
            result.push(self.get(&fields[i]));
            i = i + 1;
        }
        result
    }
}


/// A table: one row per distinct key, and one row for records without a key.
#[derive(Clone, Debug)]
pub struct Table {
    pub definition: TableDef,
    pub rows: Vec<(String, TableRow)>,
    pub undefined: TableRow,
    pub has_undefined: bool,
}

/// Keys and rows of a table, in the order of their creation.
pub open spec fn rows_view(rows: Seq<(String, TableRow)>) -> Seq<(Seq<char>, RowView)> {
    rows.map_values(|p: (String, TableRow)| (p.0@, p.1@))
}

/// The group key of `rec`: the text found by the key's accessor, if any.
pub open spec fn key_of(rec: LogRecord, def: TableDef) -> Option<Seq<char>> {
    match resolved(rec, def.index.accessor) {
        Val::Text(k) => Some(k),
        _ => None,
    }
}

/// Whether some row has key `k`.
pub open spec fn has_key(rows: Seq<(Seq<char>, RowView)>, k: Seq<char>) -> bool {
    exists|i: int| 0 <= i < rows.len() && (#[trigger] rows[i]).0 == k
}

/// The rows after `rec`, whose key is `k`, is folded into the row of `k`; that
/// row is created at the end where there is none yet.
pub open spec fn grouped(
    rows: Seq<(Seq<char>, RowView)>,
    k: Seq<char>,
    fields: Seq<Field>,
    rec: LogRecord,
) -> Seq<(Seq<char>, RowView)> {
    if has_key(rows, k) {
        let i = choose|i: int| 0 <= i < rows.len() && (#[trigger] rows[i]).0 == k;
        rows.update(i, (k, row_after(rows[i].1, fields, rec)))
    } else {
        rows.push((k, row_after(Seq::empty(), fields, rec)))
    }
}

/// What ingestion changes: keyed rows, the row without key, and whether
/// that row was ever updated.
pub type TableState = (Seq<(Seq<char>, RowView)>, RowView, bool);

pub open spec fn state_of(t: Table) -> TableState {
    (rows_view(t.rows@), t.undefined@, t.has_undefined)
}

/// The state after one record is folded in.
pub open spec fn ingest_step(s: TableState, def: TableDef, rec: LogRecord) -> TableState {
    match key_of(rec, def) {
        Some(k) => (grouped(s.0, k, def.fields@, rec), s.1, s.2),
        None => (s.0, row_after(s.1, def.fields@, rec), true),
    }
}

/// The state after the records are folded in, in order.
pub open spec fn ingest_all(s: TableState, def: TableDef, recs: Seq<LogRecord>) -> TableState
    decreases recs.len(),
{
    if recs.len() == 0 {
        s
    } else {
        ingest_step(ingest_all(s, def, recs.drop_last()), def, recs.last())
    }
}

/// Two records with the same key land in one row, which folds both in order.
pub proof fn lemma_same_key_one_row(
    rows: Seq<(Seq<char>, RowView)>,
    k: Seq<char>,
    fields: Seq<Field>,
    r1: LogRecord,
    r2: LogRecord,
)
    requires
        forall|i: int, j: int| 0 <= i < j < rows.len() ==> (#[trigger] rows[i]).0 != (#[trigger] rows[j]).0,
    ensures
        ({
            let after = grouped(grouped(rows, k, fields, r1), k, fields, r2);
            let prev = if has_key(rows, k) {
                rows[choose|i: int| 0 <= i < rows.len() && (#[trigger] rows[i]).0 == k].1
            } else {
                Seq::empty()
            };
            &&& exists|i: int|
                0 <= i < after.len() && (#[trigger] after[i]) == (k, row_after(
                    row_after(prev, fields, r1),
                    fields,
                    r2,
                ))
            &&& forall|i: int, j: int|
                0 <= i < after.len() && 0 <= j < after.len() && (#[trigger] after[i]).0 == k
                    && (#[trigger] after[j]).0 == k ==> i == j
            &&& after.len() == rows.len() + if has_key(rows, k) { 0int } else { 1int }
        }),
{
    let mid = grouped(rows, k, fields, r1);
    let after = grouped(mid, k, fields, r2);
    if has_key(rows, k) {
        let c = choose|i: int| 0 <= i < rows.len() && (#[trigger] rows[i]).0 == k;
        assert(mid[c].0 == k);
        assert(has_key(mid, k));
        let d = choose|i: int| 0 <= i < mid.len() && (#[trigger] mid[i]).0 == k;
        if d != c {
            assert(rows[d].0 == k);
        }
        assert(after[c] == (k, row_after(row_after(rows[c].1, fields, r1), fields, r2)));
        assert forall|i: int, j: int|
            0 <= i < after.len() && 0 <= j < after.len() && (#[trigger] after[i]).0 == k
                && (#[trigger] after[j]).0 == k implies i == j by {
            if i != c {
                assert(rows[i].0 == k);
            }
            if j != c {
                assert(rows[j].0 == k);
            }
        }
    } else {
        let c = rows.len() as int;
        assert(mid[c].0 == k);
        assert(has_key(mid, k));
        let d = choose|i: int| 0 <= i < mid.len() && (#[trigger] mid[i]).0 == k;
        if d != c {
            assert(rows[d].0 == k);
        }
        assert(after[c] == (k, row_after(row_after(Seq::empty(), fields, r1), fields, r2)));
        assert forall|i: int, j: int|
            0 <= i < after.len() && 0 <= j < after.len() && (#[trigger] after[i]).0 == k
                && (#[trigger] after[j]).0 == k implies i == j by {
            if i != c {
                assert(rows[i].0 == k);
            }
            if j != c {
                assert(rows[j].0 == k);
            }
        }
    }
}

/// A record without a key never touches the keyed rows.
pub proof fn lemma_no_key_fallback(s: TableState, def: TableDef, rec: LogRecord)
    requires
        key_of(rec, def) is None,
    ensures
        ingest_step(s, def, rec).0 == s.0,
        ingest_step(s, def, rec).1 == row_after(s.1, def.fields@, rec),
        ingest_step(s, def, rec).2,
{
}

/// The value that rows are ordered by: the sort column's aggregate.
pub open spec fn sort_val(def: TableDef, row: RowView) -> Val {
    match def.order_by {
        Some(f) => row_get(row, f.accessor.name@),
        None => Val::Absent,
    }
}

/// Whether row `a` comes before row `b`: by the sort value in the table's
/// direction, and on equal values by key, ascending.
pub open spec fn before(def: TableDef, a: (Seq<char>, RowView), b: (Seq<char>, RowView)) -> bool {
    let va = sort_val(def, a.1);
    let vb = sort_val(def, b.1);
    if def.ascending {
        val_lt(va, vb) || (va == vb && text_lt(a.0, b.0))
    } else {
        val_lt(vb, va) || (va == vb && text_lt(a.0, b.0))
    }
}

/// The order of rows is a strict order.
pub proof fn lemma_before_strict(
    def: TableDef,
    a: (Seq<char>, RowView),
    b: (Seq<char>, RowView),
    c: (Seq<char>, RowView),
)
    ensures
        before(def, a, b) && before(def, b, c) ==> before(def, a, c),
        !(before(def, a, b) && before(def, b, a)),
{
    let va = sort_val(def, a.1);
    let vb = sort_val(def, b.1);
    let vc = sort_val(def, c.1);
    lemma_val_lt_strict(va, vb, vc);
    lemma_val_lt_strict(vc, vb, va);
    let ea = vstd::utf8::encode_utf8(a.0);
    let eb = vstd::utf8::encode_utf8(b.0);
    let ec = vstd::utf8::encode_utf8(c.0);
    lemma_bytes_lt_asymmetric(ea, eb);
    if bytes_lt_both(ea, eb, ec) {
        lemma_bytes_lt_transitive(ea, eb, ec);
    }
}

spec fn bytes_lt_both(a: Seq<u8>, b: Seq<u8>, c: Seq<u8>) -> bool {
    crate::text::bytes_lt(a, b) && crate::text::bytes_lt(b, c)
}

impl Table {
    /// Keys are unique, rows are well formed, and the schema holds.
    pub open spec fn wf(&self) -> bool {
        &&& self.definition.wf()
        &&& forall|i: int, j: int|
            0 <= i < j < self.rows@.len() ==> (#[trigger] self.rows@[i]).0@ != (
            #[trigger] self.rows@[j]).0@
        &&& forall|i: int| 0 <= i < self.rows@.len() ==> (#[trigger] self.rows@[i]).1.wf()
        &&& self.undefined.wf()
    }

    /// An empty table over `definition`.
    pub fn new(definition: TableDef) -> (r: Table)
        requires
            definition.wf(),
        ensures
            r.wf(),
            r.definition == definition,
            r.rows@.len() == 0,
            r.undefined@ == Seq::<(Seq<char>, Operation)>::empty(),
            !r.has_undefined,
    {
        Table { definition, rows: Vec::new(), undefined: TableRow::new(), has_undefined: false }
    }

    fn find_key(&self, k: &String) -> (r: Option<usize>)
        requires
            self.wf(),
        ensures
            match r {
                Some(i) => i < self.rows@.len() && self.rows@[i as int].0@ == k@,
                None => !has_key(rows_view(self.rows@), k@),
            },
    {
        let mut i: usize = 0;
        while i < self.rows.len()
            invariant
                i <= self.rows@.len(),
                forall|q: int| 0 <= q < i ==> (#[trigger] self.rows@[q]).0@ != k@,
            decreases self.rows@.len() - i,
        {
            if self.rows[i].0.eq(k) {
                return Some(i);
            }
            i = i + 1;
        }
        proof {
            let rv = rows_view(self.rows@);
            assert forall|q: int| 0 <= q < rv.len() implies (#[trigger] rv[q]).0 != k@ by {
                assert(self.rows@[q].0@ != k@);
            }
        }
        None
    }

    /// Folds one record in: into the row of its key, created on first sight,
    /// or into the row for records without a key.
    pub fn ingest(&mut self, record: &LogRecord)
        requires
            old(self).wf(),
        ensures
            final(self).wf(),
            final(self).definition == old(self).definition,
            state_of(*final(self)) == ingest_step(state_of(*old(self)), old(self).definition, *record),
            match key_of(*record, old(self).definition) {
                Some(k) => {
                    &&& rows_view(final(self).rows@) == grouped(
                        rows_view(old(self).rows@),
                        k,
                        old(self).definition.fields@,
                        *record,
                    )
                    &&& final(self).undefined@ == old(self).undefined@
                    &&& final(self).has_undefined == old(self).has_undefined
                },
                None => {
                    &&& rows_view(final(self).rows@) == rows_view(old(self).rows@)
                    &&& final(self).undefined@ == row_after(
                        old(self).undefined@,
                        old(self).definition.fields@,
                        *record,
                    )
                    &&& final(self).has_undefined
                },
            },
    {
        let key = record.resolve(&self.definition.index.accessor);
        let ghost rv = rows_view(self.rows@);
        match key {
            LogValue::String(k) => {
                match self.find_key(&k) {
                    Some(p) => {
                        let mut slot = (String::new(), TableRow::new());
                        self.rows.set_and_swap(p, &mut slot);
                        let (name, mut row) = slot;
                        row.update(record, self.definition.fields.as_slice());
                        self.rows.set(p, (name, row));
                        proof {
                            let c = choose|i: int| 0 <= i < rv.len() && (#[trigger] rv[i]).0 == k@;
                            assert(rv[p as int].0 == k@);
                            if c != p {
                                assert(old(self).rows@[c].0@ != old(self).rows@[p as int].0@);
                            }
                            assert(rows_view(self.rows@) =~= grouped(
                                rv,
                                k@,
                                self.definition.fields@,
                                *record,
                            ));
                        }
                    },
                    None => {
                        let mut row = TableRow::new();
                        row.update(record, self.definition.fields.as_slice());
                        self.rows.push((k, row));
                        proof {
                            assert(rows_view(self.rows@) =~= grouped(
                                rv,
                                k@,
                                self.definition.fields@,
                                *record,
                            ));
                            assert forall|i: int, j: int|
                                0 <= i < j < self.rows@.len() implies (#[trigger] self.rows@[i]).0@
                                != (#[trigger] self.rows@[j]).0@ by {
                                if j == self.rows@.len() - 1 {
                                    assert(rv[i].0 != k@);
                                }
                            }
                        }
                    },
                }
            },
            _ => {
                self.undefined.update(record, self.definition.fields.as_slice());
                self.has_undefined = true;
            },
        }
    }

    /// Folds in the records in order.
    pub fn aggregate(&mut self, records: &[LogRecord])
        requires
            old(self).wf(),
        ensures
            final(self).wf(),
            final(self).definition == old(self).definition,
            state_of(*final(self)) == ingest_all(
                state_of(*old(self)),
                old(self).definition,
                records@,
            ),
    {
        let mut i: usize = 0;
        while i < records.len()
            invariant
                self.wf(),
                self.definition == old(self).definition,
                i <= records@.len(),
                state_of(*self) == ingest_all(
                    state_of(*old(self)),
                    old(self).definition,
                    records@.take(i as int),
                ),
            decreases records@.len() - i,
        {
            assert(records@.take(i + 1).drop_last() =~= records@.take(i as int));
            self.ingest(&records[i]);
            i = i + 1;
        }
        assert(records@.take(i as int) =~= records@);
    }

    fn sort_value(&self, i: usize) -> (r: LogValue)
        requires
            self.wf(),
            i < self.rows@.len(),
        ensures
            r@ == sort_val(self.definition, rows_view(self.rows@)[i as int].1),
    {
        match &self.definition.order_by {
            Some(f) => self.rows[i].1.get(f),
            None => LogValue::Absent,
        }
    }

    fn before_idx(&self, vals: &Vec<LogValue>, i: usize, j: usize) -> (r: bool)
        requires
            self.wf(),
            vals@.len() == self.rows@.len(),
            forall|k: int|
                0 <= k < vals@.len() ==> (#[trigger] vals@[k])@ == sort_val(
                    self.definition,
                    rows_view(self.rows@)[k].1,
                ),
            i < self.rows@.len(),
            j < self.rows@.len(),
        ensures
            r == before(self.definition, rows_view(self.rows@)[i as int], rows_view(
                self.rows@,
            )[j as int]),
    {
        let vi = &vals[i];
        let vj = &vals[j];
        let ki = self.rows[i].0.as_str();
        let kj = self.rows[j].0.as_str();
        if self.definition.ascending {
            vi.lt(vj) || (vi.same(vj) && str_lt(ki, kj))
        } else {
            vj.lt(vi) || (vi.same(vj) && str_lt(ki, kj))
        }
    }

    /// Positions of the keyed rows in output order: sorted by the sort column
    /// in the table's direction, ties broken by key.
    fn sort(&self) -> (order: Vec<usize>)
        requires
            self.wf(),
        ensures
            order@.len() == self.rows@.len(),
            forall|a: int| 0 <= a < order@.len() ==> (#[trigger] order@[a]) < self.rows@.len(),
            forall|a: int, b: int|
                0 <= a < b < order@.len() ==> (#[trigger] order@[a]) != (#[trigger] order@[b]),
            forall|a: int, b: int|
                0 <= a < b < order@.len() ==> !before(
                    self.definition,
                    rows_view(self.rows@)[(#[trigger] order@[b]) as int],
                    rows_view(self.rows@)[(#[trigger] order@[a]) as int],
                ),
    {
        let n = self.rows.len();
        let ghost rv = rows_view(self.rows@);
        let ghost def = self.definition;
        let mut vals: Vec<LogValue> = Vec::new();
        let mut i: usize = 0;
        while i < n
            invariant
                self.wf(),
                n == self.rows@.len(),
                rv == rows_view(self.rows@),
                i <= n,
                vals@.len() == i,
                forall|k: int|
                    0 <= k < i ==> (#[trigger] vals@[k])@ == sort_val(self.definition, rv[k].1),
            decreases n - i,
        {
            vals.push(self.sort_value(i));
            i = i + 1;
        }
        let mut order: Vec<usize> = Vec::new();
        i = 0;
        while i < n
            invariant
                self.wf(),
                n == self.rows@.len(),
                rv == rows_view(self.rows@),
                def == self.definition,
                vals@.len() == n,
                forall|k: int|
                    0 <= k < n ==> (#[trigger] vals@[k])@ == sort_val(self.definition, rv[k].1),
                i <= n,
                order@.len() == i,
                forall|a: int| 0 <= a < order@.len() ==> (#[trigger] order@[a]) < i,
                forall|a: int, b: int|
                    0 <= a < b < order@.len() ==> (#[trigger] order@[a]) != (#[trigger] order@[b]),
                forall|a: int, b: int|
                    0 <= a < b < order@.len() ==> !before(
                        def,
                        rv[(#[trigger] order@[b]) as int],
                        rv[(#[trigger] order@[a]) as int],
                    ),
            decreases n - i,
        {
            let mut p: usize = 0;
            while p < order.len() && !self.before_idx(&vals, i, order[p])
                invariant
                    self.wf(),
                    n == self.rows@.len(),
                    rv == rows_view(self.rows@),
                    def == self.definition,
                    vals@.len() == n,
                    forall|k: int|
                        0 <= k < n ==> (#[trigger] vals@[k])@ == sort_val(
                            self.definition,
                            rv[k].1,
                        ),
                    i < n,
                    p <= order@.len(),
                    forall|a: int| 0 <= a < order@.len() ==> (#[trigger] order@[a]) < i,
                    forall|a: int|
                        0 <= a < p ==> !before(def, rv[i as int], rv[(#[trigger] order@[a]) as int]),
                decreases order@.len() - p,
            {
                p = p + 1;
            }
            let ghost old_order = order@;
            proof {
                if p < old_order.len() {
                    assert(before(def, rv[i as int], rv[old_order[p as int] as int]));
                }
            }
            order.insert(p, i);
            proof {
                let o = old_order;
                let w = order@;
                assert forall|a: int, b: int|
                    0 <= a < b < w.len() implies !before(
                    def,
                    rv[(#[trigger] w[b]) as int],
                    rv[(#[trigger] w[a]) as int],
                ) by {
                    if a < p && b < p {
                        assert(w[a] == o[a] && w[b] == o[b]);
                    } else if a < p && b == p {
                        assert(w[a] == o[a]);
                    } else if a < p {
                        assert(w[a] == o[a] && w[b] == o[b - 1]);
                    } else if a == p {
                        assert(w[b] == o[b - 1]);
                        lemma_before_strict(
                            def,
                            rv[o[b - 1] as int],
                            rv[i as int],
                            rv[o[p as int] as int],
                        );
                    } else {
                        assert(w[a] == o[a - 1] && w[b] == o[b - 1]);
                    }
                }
                assert forall|a: int, b: int|
                    0 <= a < b < w.len() implies (#[trigger] w[a]) != (#[trigger] w[b]) by {
                    if a < p && b < p {
                        assert(w[a] == o[a] && w[b] == o[b]);
                    } else if a < p && b == p {
                        assert(w[a] == o[a]);
                    } else if a < p {
                        assert(w[a] == o[a] && w[b] == o[b - 1]);
                    } else if a == p {
                        assert(w[b] == o[b - 1]);
                    } else {
                        assert(w[a] == o[a - 1] && w[b] == o[b - 1]);
                    }
                }
                assert forall|a: int| 0 <= a < w.len() implies (#[trigger] w[a]) < i + 1 by {
                    if a < p {
                        assert(w[a] == o[a]);
                    } else if a > p {
                        assert(w[a] == o[a - 1]);
                    }
                }
            }
            i = i + 1;
        }
        order
    }

    /// The rows in output order: keyed rows sorted by the sort column in the
    /// table's direction (by key where there is none), ties broken by key;
    /// then, if any record had no key, that row under the name `undefined`.
    pub fn sorted_rows(&self) -> (r: Vec<(&str, &TableRow)>)
        requires
            self.wf(),
        ensures
            ({
                let rv = rows_view(self.rows@);
                let n = rv.len() as int;
                &&& r@.len() == n + if self.has_undefined { 1int } else { 0int }
                &&& forall|i: int|
                    0 <= i < n ==> rv.contains(((#[trigger] r@[i]).0@, r@[i].1@))
                &&& forall|i: int, j: int|
                    0 <= i < j < n ==> (#[trigger] r@[i]).0@ != (#[trigger] r@[j]).0@
                &&& forall|i: int, j: int|
                    0 <= i < j < n ==> !before(
                        self.definition,
                        ((#[trigger] r@[j]).0@, r@[j].1@),
                        ((#[trigger] r@[i]).0@, r@[i].1@),
                    )
                &&& self.has_undefined ==> r@[n].0@ == "undefined"@ && r@[n].1@
                    == self.undefined@
            }),
    {
        let n = self.rows.len();
        let ghost rv = rows_view(self.rows@);
        let ghost def = self.definition;
        let order = self.sort();
        let mut result: Vec<(&str, &TableRow)> = Vec::new();
        let mut k: usize = 0;
        while k < n
            invariant
                self.wf(),
                n == self.rows@.len(),
                rv == rows_view(self.rows@),
                def == self.definition,
                order@.len() == n,
                forall|a: int| 0 <= a < n ==> (#[trigger] order@[a]) < n,
                k <= n,
                result@.len() == k,
                forall|a: int|
                    0 <= a < k ==> (#[trigger] result@[a]).0@ == rv[order@[a] as int].0
                        && result@[a].1@ == rv[order@[a] as int].1,
            decreases n - k,
        {
            let q = order[k];
            result.push((self.rows[q].0.as_str(), &self.rows[q].1));
            k = k + 1;
        }
        proof {
            assert forall|a: int| 0 <= a < n implies rv.contains(
                ((#[trigger] result@[a]).0@, result@[a].1@),
            ) by {
                assert(rv[order@[a] as int] == (result@[a].0@, result@[a].1@));
            }
            assert forall|a: int, b: int|
                0 <= a < b < n implies (#[trigger] result@[a]).0@ != (#[trigger] result@[b]).0@ by {
                let x = order@[a] as int;
                let y = order@[b] as int;
                assert(x != y);
                if x < y {
                    assert(self.rows@[x].0@ != self.rows@[y].0@);
                } else {
                    assert(self.rows@[y].0@ != self.rows@[x].0@);
                }
            }
            assert forall|a: int, b: int|
                0 <= a < b < n implies !before(
                def,
                ((#[trigger] result@[b]).0@, result@[b].1@),
                ((#[trigger] result@[a]).0@, result@[a].1@),
            ) by {
                assert(rv[order@[a] as int] == (result@[a].0@, result@[a].1@));
                assert(rv[order@[b] as int] == (result@[b].0@, result@[b].1@));
            }
        }
        if self.has_undefined {
            result.push(("undefined", &self.undefined));
        }
        result
    }
}

} // verus!
