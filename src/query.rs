//! The query executor: runs the statements of a small SQL dialect against the
//! pager. Parsing SQL text into `Statement`s happens before it, at the edge.
use crate::document::{
    names_unique, doc_fits, doc_text, enc_doc, lemma_document_round_trip, same_doc, AuraDocument, DataValue,
};
use crate::error::StoreError;
use crate::index::{enc_index, index_fits, PrimaryIndex};
use crate::order::{compare_keys, key_seq};
use crate::page::{Page, DATA_SIZE, KIND_DATA};
use crate::pager::Pager;
use crate::text::{concat, parse_i64};
use vstd::prelude::*;
use vstd::string::StrSliceExecFns;

verus! {

/// A literal in the VALUES list of an INSERT.
#[derive(Debug)]
pub enum SqlValue {
    Number(String),
    SingleQuotedString(String),
    Boolean(bool),
    /// Any other expression.
    Other,
}

/// Where the rows of an INSERT come from.
#[derive(Debug)]
pub enum InsertSource {
    /// `VALUES (...), ...`: the rows.
    Values(Vec<Vec<SqlValue>>),
    /// A query or other form.
    Other,
}

/// A parsed statement, as much of it as the executor reads.
#[derive(Debug)]
pub enum Statement {
    /// `INSERT INTO <table> (columns) <source>`; `source` is absent for an
    /// INSERT without one.
    Insert { columns: Vec<String>, source: Option<InsertSource> },
    /// `SELECT ...` with its WHERE condition, if it has one.
    Select { condition: Option<Condition> },
    /// Any other statement.
    Other,
}

/// One side of a WHERE equality.
#[derive(Debug)]
pub enum Operand {
    /// A column name.
    Column(String),
    /// A single-quoted string.
    Text(String),
    /// Any other expression.
    Other,
}

/// A WHERE condition, as much of it as the executor reads.
#[derive(Debug)]
pub enum Condition {
    /// `<left> = <right>`.
    Equals(Operand, Operand),
    /// Any other condition.
    Other,
}

/// The key a WHERE condition names: `id = '<key>'` or `'<key>' = id`.
pub open spec fn key_of(c: Option<Condition>) -> Option<Seq<char>> {
    match c {
        Some(Condition::Equals(Operand::Column(n), Operand::Text(k))) => if n@ == "id"@ {
            Some(k@)
        } else {
            None
        },
        Some(Condition::Equals(Operand::Text(k), Operand::Column(n))) => if n@ == "id"@ {
            Some(k@)
        } else {
            None
        },
        _ => None,
    }
}

/// The key that a SELECT's WHERE condition names (see `key_of`).
pub fn where_key(condition: &Option<Condition>) -> (r: Option<String>)
    ensures
        match r {
            Some(k) => key_of(*condition) == Some(k@),
            None => key_of(*condition) is None,
        },
{
    proof { reveal_strlit("id"); }
    match condition {
        Some(Condition::Equals(Operand::Column(n), Operand::Text(k))) => if compare_keys(n.as_str(), "id") == 0 {
            Some(k.clone())
        } else {
            None
        },
        Some(Condition::Equals(Operand::Text(k), Operand::Column(n))) => if compare_keys(n.as_str(), "id") == 0 {
            Some(k.clone())
        } else {
            None
        },
        _ => None,
    }
}

/// Errors of the executor.
#[derive(Debug)]
pub enum QueryError {
    /// The SQL text does not parse; the parser's message.
    Parse(String),
    Unimplemented(String),
    Store(StoreError),
    Serialization(String),
}

impl QueryError {
    pub open spec fn label(&self) -> Seq<char> {
        match self {
            QueryError::Parse(_) => "SQL Parse Error: "@,
            QueryError::Unimplemented(_) => "Not Implemented: "@,
            QueryError::Store(_) => "Storage Error: "@,
            QueryError::Serialization(_) => "Serialization Error: "@,
        }
    }

    /// The message, where it is fixed: all but storage I/O errors, whose
    /// detail is the system's text.
    pub open spec fn message(&self) -> Option<Seq<char>> {
        match self {
            QueryError::Parse(s) => Some(self.label() + s@),
            QueryError::Unimplemented(s) => Some(self.label() + s@),
            QueryError::Serialization(s) => Some(self.label() + s@),
            QueryError::Store(e) => if e is Io {
                None
            } else {
                Some(self.label() + e.message())
            },
        }
    }

    /// The message: the kind's label, then the detail.
    pub fn to_string(&self) -> (r: String)
        ensures
            r@.len() >= self.label().len(),
            r@.subrange(0, self.label().len() as int) == self.label(),
            match self {
                QueryError::Parse(s) => r@ == self.label() + s@,
                QueryError::Unimplemented(s) => r@ == self.label() + s@,
                QueryError::Serialization(s) => r@ == self.label() + s@,
                QueryError::Store(e) => !(e is Io) ==> r@ == self.label() + e.message(),
            },
            self.message() matches Some(m) ==> r@ == m,
    {
        let r = match self {
            QueryError::Parse(s) => concat("SQL Parse Error: ", s.as_str()),
            QueryError::Unimplemented(s) => concat("Not Implemented: ", s.as_str()),
            QueryError::Store(e) => {
                let detail = e.to_string();
                concat("Storage Error: ", detail.as_str())
            },
            QueryError::Serialization(s) => concat("Serialization Error: ", s.as_str()),
        };
        proof {
            reveal_strlit("SQL Parse Error: ");
            reveal_strlit("Not Implemented: ");
            reveal_strlit("Storage Error: ");
            reveal_strlit("Serialization Error: ");
            assert(r@.subrange(0, self.label().len() as int) =~= self.label());
        }
        r
    }
}

/// The value that a literal is stored as: a number as an integer (0 where it
/// does not parse as one), a quoted string as text, a boolean as itself,
/// anything else as null.
pub open spec fn literal_matches(lit: SqlValue, v: DataValue) -> bool {
    match lit {
        SqlValue::Number(n) => v == DataValue::Integer(
            match crate::text::int_text(n@) {
                Some(x) => if i64::MIN <= x <= i64::MAX {
                    x as i64
                } else {
                    0i64
                },
                None => 0i64,
            },
        ),
        SqlValue::SingleQuotedString(s) => v matches DataValue::Text(t) && t@ == s@,
        SqlValue::Boolean(b) => v == DataValue::Boolean(b),
        SqlValue::Other => v == DataValue::Null,
    }
}

/// The stored value of a literal.
pub fn literal_value(lit: &SqlValue) -> (r: DataValue)
    ensures
        literal_matches(*lit, r),
{
    match lit {
        SqlValue::Number(n) => DataValue::Integer(
            match parse_i64(n.as_str()) {
                Some(x) => x,
                None => 0,
            },
        ),
        SqlValue::SingleQuotedString(s) => DataValue::Text(s.clone()),
        SqlValue::Boolean(b) => DataValue::Boolean(*b),
        SqlValue::Other => DataValue::Null,
    }
}

/// Relies on `uuid::Uuid::new_v4` and its hyphenated text form: a random
/// id of 36 lower-case hex digits and hyphens.
#[verifier::external_body]
fn fresh_id() -> (r: String)
    ensures
        r@.len() == 36,
        forall|i: int|
            0 <= i < 36 ==> (#[trigger] r@[i] == '-' || ('0' <= r@[i] && r@[i] <= '9') || ('a' <= r@[i]
                && r@[i] <= 'f')),
{
    uuid::Uuid::new_v4().to_string()
}

/// The key that an `id` column given as a quoted string sets: the last such.
pub open spec fn given_id(columns: Seq<String>, row: Seq<SqlValue>, n: int) -> Option<Seq<char>>
    decreases n,
{
    if n <= 0 {
        None
    } else if columns[n - 1]@ == "id"@ && row[n - 1] is SingleQuotedString {
        Some(row[n - 1]->SingleQuotedString_0@)
    } else {
        given_id(columns, row, n - 1)
    }
}

/// The key that an INSERT names: the `id` column of its first row, where
/// that is a non-empty quoted string.
pub open spec fn chosen_id(columns: Seq<String>, source: InsertSource) -> Option<Seq<char>> {
    match source {
        InsertSource::Values(rows) => if rows@.len() > 0 {
            match given_id(columns, rows@[0]@, columns.len() as int) {
                Some(g) => if g.len() > 0 {
                    Some(g)
                } else {
                    None
                },
                None => None,
            }
        } else {
            None
        },
        InsertSource::Other => None,
    }
}

/// What a SELECT returns: without a key, `Unimplemented`; for a key that the
/// index lacks, `Document not found`; for one it has, `Found: ` and the text
/// of the document stored in the key's page, or an error where that page
/// does not read or decode.
pub open spec fn select_outcome(p: &Pager, key: Option<Seq<char>>, r: Result<String, QueryError>) -> bool {
    match key {
        None => r matches Err(QueryError::Unimplemented(_)),
        Some(k) => if !p.index@.contains_key(k) {
            r matches Ok(m) && m@ == "Document not found"@
        } else {
            (r matches Ok(m) ==> exists|d: AuraDocument|
                m@ == "Found: "@ + doc_text(d) && document_in_page(p, p.index@[k], d))
            && forall|d: AuraDocument|
                document_in_page(p, p.index@[k], d) && doc_fits(d) ==> (r matches Ok(m) && exists|d2: AuraDocument|
                    #[trigger] same_doc(d2, d) && m@ == "Found: "@ + doc_text(d2))
        },
    }
}

/// What running a parsed text gives, as far as it is fixed before any page
/// is touched: a parse failure is a `Parse` error with the parser's message;
/// no statement, an unsupported one, or an INSERT without a source is
/// `Unimplemented`, with the pager unchanged; an INSERT goes by
/// `insert_outcome` and a SELECT by `select_outcome`.
pub open spec fn execute_outcome(
    p: &Pager,
    p1: &Pager,
    parsed: Result<Vec<Statement>, String>,
    r: Result<String, QueryError>,
) -> bool {
    match parsed {
        Err(m) => r matches Err(QueryError::Parse(e)) && e@ == m@ && p1 == p,
        Ok(v) => if v@.len() == 0 {
            r matches Err(QueryError::Unimplemented(_)) && p1 == p
        } else {
            match v@[0] {
                Statement::Other => r matches Err(QueryError::Unimplemented(_)) && p1 == p,
                Statement::Insert { columns, source } => match source {
                    None => r matches Err(QueryError::Unimplemented(_)) && p1 == p,
                    Some(src) => insert_outcome(p, p1, columns@, src, r),
                },
                Statement::Select { condition } => select_outcome(p, key_of(condition), r) && p1 == p,
            }
        },
    }
}

/// Page `id` reads and its used payload is the encoding of `d`.
pub open spec fn document_in_page(p: &Pager, id: u32, d: AuraDocument) -> bool {
    &&& p.read_outcome(id) matches Some(pg)
    &&& pg.used_space <= DATA_SIZE
    &&& enc_doc(d) == pg.data.subrange(0, pg.used_space as int)
}

/// Column `c` is the last of the first `n` columns with its name.
pub open spec fn last_of(columns: Seq<String>, c: int, n: int) -> bool {
    forall|c2: int| c < c2 < n ==> #[trigger] columns[c2]@ != columns[c]@
}

/// The document has a field called `name` whose value is what `lit` is
/// stored as.
pub open spec fn has_field(d: AuraDocument, name: Seq<char>, lit: SqlValue) -> bool {
    exists|j: int|
        0 <= j < d.data@.len() && #[trigger] d.data@[j].0@ == name && literal_matches(lit, d.data@[j].1)
}

/// One of the first `n` columns is called `name`.
pub open spec fn named_column(columns: Seq<String>, n: int, name: Seq<char>) -> bool {
    exists|c: int| 0 <= c < n && columns[c]@ == name
}

/// `d` is the document an INSERT builds from `row` under the key `id`: that
/// id, version 1, and exactly one field per column name, holding the value
/// of the last column with that name.
pub open spec fn row_doc(d: AuraDocument, id: Seq<char>, columns: Seq<String>, row: Seq<SqlValue>) -> bool {
    &&& d.id@ == id
    &&& d.version == 1
    &&& names_unique(d.data@)
    &&& forall|j: int|
        0 <= j < d.data@.len() ==> #[trigger] named_column(columns, columns.len() as int, d.data@[j].0@)
    &&& forall|c: int|
        0 <= c < columns.len() && last_of(columns, c, columns.len() as int) ==> has_field(
            d,
            #[trigger] columns[c]@,
            row[c],
        )
}

/// The key an INSERT stores under: the `id` column's non-empty quoted string
/// where there is one, otherwise a generated UUID of 36 characters.
pub open spec fn insert_key(id: Seq<char>, columns: Seq<String>, source: InsertSource) -> bool {
    match chosen_id(columns, source) {
        Some(g) => id == g,
        None => id.len() == 36,
    }
}

/// The document fits its length prefixes and a page's payload.
pub open spec fn storable(d: AuraDocument) -> bool {
    doc_fits(d) && enc_doc(d).len() <= DATA_SIZE
}

/// The index encodes and its bytes fit page 0's payload.
pub open spec fn index_storable(ix: PrimaryIndex) -> bool {
    index_fits(key_seq(ix.keys@)) && enc_index(key_seq(ix.keys@), ix.pages@).len() <= DATA_SIZE
}

/// The page that a pager hands out next.
pub open spec fn next_page(p: &Pager) -> u32 {
    if p.total() == 0 {
        1
    } else {
        p.total()
    }
}

/// After an INSERT stored document `d` under `id`: the next free page holds
/// `d` and the index maps `id` to that page.
pub open spec fn stored_under(p0: &Pager, p1: &Pager, id: Seq<char>, d: AuraDocument) -> bool {
    &&& p1.index@ == p0.index@.insert(id, next_page(p0))
    &&& document_in_page(p1, next_page(p0), d)
}

/// What an INSERT gives, from the pager before (`p0`) and after (`p1`).
/// - No rows, fewer values than columns, or another source: `Unimplemented`,
///   nothing changed.
/// - Page ids exhausted or the built document not storable: `Serialization`,
///   nothing changed.
/// - Otherwise the document is stored in the next free page and indexed;
///   then `Ok`, naming the id, with the index written and clean, exactly when
///   the index still fits page 0, and a storage `Serialization` error, with
///   the index changed but not written, when it does not.
pub open spec fn insert_outcome(
    p0: &Pager,
    p1: &Pager,
    columns: Seq<String>,
    source: InsertSource,
    r: Result<String, QueryError>,
) -> bool {
    match source {
        InsertSource::Other => r matches Err(QueryError::Unimplemented(_)) && p1 == p0,
        InsertSource::Values(rows) => if rows@.len() == 0 || rows@[0]@.len() < columns.len() {
            r matches Err(QueryError::Unimplemented(_)) && p1 == p0
        } else {
            let row = rows@[0]@;
            match r {
                Ok(msg) => exists|id: Seq<char>, d: AuraDocument|
                    #![trigger row_doc(d, id, columns, row)]
                    msg@ == "Inserted Document ID: "@ + id && insert_key(id, columns, source) && row_doc(
                        d,
                        id,
                        columns,
                        row,
                    ) && storable(d) && p0.total() < u32::MAX - 2 && stored_under(p0, p1, id, d)
                        && !p1.index.dirty && index_storable(p1.index),
                Err(QueryError::Serialization(_)) => p1 == p0 && (p0.total() >= u32::MAX - 2
                    || exists|id: Seq<char>, d: AuraDocument|
                    #![trigger row_doc(d, id, columns, row)]
                    insert_key(id, columns, source) && row_doc(d, id, columns, row) && !storable(d)),
                Err(QueryError::Store(e)) => e is Serialization && exists|id: Seq<char>, d: AuraDocument|
                    #![trigger row_doc(d, id, columns, row)]
                    insert_key(id, columns, source) && row_doc(d, id, columns, row) && storable(d)
                        && p0.total() < u32::MAX - 2 && stored_under(p0, p1, id, d) && p1.index.dirty
                        && !index_storable(p1.index),
                _ => false,
            }
        },
    }
}

/// Borrows the pager for the length of a statement.
pub struct QueryEngine<'a> {
    pub pager: &'a mut Pager,
}

impl<'a> QueryEngine<'a> {
    pub fn new(pager: &'a mut Pager) -> (r: QueryEngine<'a>)
        ensures
            *r.pager == *old(pager),
    {
        QueryEngine { pager }
    }

    /// The pager as it stands.
    pub open spec fn store(&self) -> &Pager {
        &*self.pager
    }

    /// Runs the first statement of a parsed SQL text. A parse failure is a
    /// `Parse` error with the parser's message; no statement, or one other
    /// than INSERT and SELECT, is `Unimplemented`.
    pub fn execute(&mut self, parsed: Result<Vec<Statement>, String>) -> (r: Result<String, QueryError>)
        requires
            old(self).store().wf(),
        ensures
            final(self).store().wf(),
            final(self).store().key() == old(self).store().key(),
            execute_outcome(old(self).store(), final(self).store(), parsed, r),
    {
        let statements = match parsed {
            Err(m) => {
                return Err(QueryError::Parse(m));
            },
            Ok(v) => v,
        };
        if statements.len() == 0 {
            return Err(QueryError::Unimplemented("Empty SQL statement".to_owned()));
        }
        match &statements[0] {
            Statement::Insert { columns, source } => match source {
                Some(src) => self.handle_insert(columns, src),
                None => Err(QueryError::Unimplemented("INSERT without source not supported".to_owned())),
            },
            Statement::Select { condition } => {
                let key = where_key(condition);
                self.handle_select(&key)
            },
            Statement::Other => Err(QueryError::Unimplemented("Only INSERT and SELECT are supported".to_owned())),
        }
    }

    /// Builds a document from the first row (id from the `id` column given as
    /// a string, else a fresh UUID; version 1; one field per column), stores
    /// it in a fresh page, maps its id to that page in the primary index and
    /// writes the index. Returns `Inserted Document ID: <id>`.
    fn handle_insert(&mut self, columns: &Vec<String>, source: &InsertSource) -> (r: Result<String, QueryError>)
        requires
            old(self).store().wf(),
        ensures
            final(self).store().wf(),
            final(self).store().key() == old(self).store().key(),
            insert_outcome(old(self).store(), final(self).store(), columns@, *source, r),
    {
        let row = match source {
            InsertSource::Values(rows) => {
                if rows.len() == 0 {
                    return Err(QueryError::Unimplemented("INSERT without rows".to_owned()));
                }
                &rows[0]
            },
            InsertSource::Other => {
                return Err(QueryError::Unimplemented("Complex INSERT not supported".to_owned()));
            },
        };
        if row.len() < columns.len() {
            return Err(QueryError::Unimplemented("fewer values than columns".to_owned()));
        }
        let mut doc_id = String::new();
        let mut doc = AuraDocument::new("");
        let mut i: usize = 0;
        while i < columns.len()
            invariant
                i <= columns@.len() <= row@.len(),
                doc_id@ == match given_id(columns@, row@, i as int) {
                    Some(g) => g,
                    None => Seq::<char>::empty(),
                },
                doc.version == 1,
                *self == *old(self),
                forall|c: int|
                    0 <= c < i && last_of(columns@, c, i as int) ==> has_field(doc, #[trigger] columns@[c]@, row@[c]),
                names_unique(doc.data@),
                forall|j: int| 0 <= j < doc.data@.len() ==> #[trigger] named_column(columns@, i as int, doc.data@[j].0@),
            decreases columns@.len() - i,
        {
            let value = literal_value(&row[i]);
            let ghost before = doc;
            proof { reveal_strlit("id"); }
            if compare_keys(columns[i].as_str(), "id") == 0 {
                match &row[i] {
                    SqlValue::SingleQuotedString(s) => {
                        doc_id = s.clone();
                    },
                    _ => {},
                }
            }
            let name = columns[i].clone();
            let ghost vi = value;
            doc.set(name, value);
            proof {
                assert forall|c: int|
                    0 <= c < i + 1 && last_of(columns@, c, i + 1) implies has_field(doc, #[trigger] columns@[c]@, row@[c]) by {
                    if c == i as int {
                        let j = choose|j: int| 0 <= j < doc.data@.len() && doc.data@[j].0@ == columns@[c]@ && doc.data@[j].1 == vi;
                        assert(doc.data@[j].0@ == columns@[c]@);
                    } else {
                        assert(columns@[i as int]@ != columns@[c]@);
                        assert(last_of(columns@, c, i as int));
                        let j = choose|j: int| 0 <= j < before.data@.len() && #[trigger] before.data@[j].0@ == columns@[c]@
                            && literal_matches(row@[c], before.data@[j].1);
                        assert(doc.data@[j] == before.data@[j]);
                        assert(doc.data@[j].0@ == columns@[c]@);
                    }
                }
                assert forall|j: int| 0 <= j < doc.data@.len() implies #[trigger] named_column(columns@, i + 1, doc.data@[j].0@) by {
                    if j < before.data@.len() && doc.data@[j] == before.data@[j] {
                        assert(named_column(columns@, i as int, before.data@[j].0@));
                        let c = choose|c: int| 0 <= c < i && columns@[c]@ == before.data@[j].0@;
                        assert(0 <= c < i + 1 && columns@[c]@ == doc.data@[j].0@);
                    } else {
                        assert(doc.data@[j].0@ == columns@[i as int]@);
                    }
                }
            }
            i = i + 1;
        }
        if doc_id.as_str().unicode_len() == 0 {
            doc_id = fresh_id();
        }
        assert(i as int == columns@.len());
        let ghost built = doc;
        doc.id = doc_id.clone();
        assert forall|c: int|
            0 <= c < columns@.len() && last_of(columns@, c, columns@.len() as int) implies has_field(
            doc,
            #[trigger] columns@[c]@,
            row@[c],
        ) by {
            assert(has_field(built, columns@[c]@, row@[c]));
            let j = choose|j: int| 0 <= j < built.data@.len() && #[trigger] built.data@[j].0@ == columns@[c]@
                && literal_matches(row@[c], built.data@[j].1);
            assert(doc.data@[j] == built.data@[j]);
        }
        proof {
            assert forall|j: int| 0 <= j < doc.data@.len() implies #[trigger] named_column(columns@, columns@.len() as int, doc.data@[j].0@) by {
                assert(doc.data@[j] == built.data@[j]);
                assert(named_column(columns@, i as int, built.data@[j].0@));
            }
            assert(row_doc(doc, doc_id@, columns@, row@));
            assert(insert_key(doc_id@, columns@, *source));
        }
        let page_id = match self.write_document_to_disk(&doc) {
            Ok(id) => id,
            Err(e) => {
                return Err(e);
            },
        };
        let ghost key = doc_id@;
        let ghost written = crate::page::payload_page(page_id, KIND_DATA, enc_doc(doc));
        self.pager.index.insert(doc_id.clone(), page_id);
        assert(self.pager.index@.contains_key(key));
        assert(self.pager.index@[key] == page_id);
        let ghost mid = *self.store();
        assert(mid.stores(page_id, crate::page::image_of(written)));
        match self.pager.sync_index() {
            Ok(()) => {},
            Err(e) => {
                proof {
                    assert(self.store().records() == mid.records());
                    crate::pager::lemma_read_after_write(self.store(), written);
                    assert(written.data.subrange(0, written.used_space as int) =~= enc_doc(doc));
                    assert(self.pager.index@ == mid.index@) by {
                        crate::index::lemma_same_entries_same_map(self.pager.index, mid.index);
                    }
                    assert(stored_under(old(self).store(), self.store(), doc_id@, doc));
                    assert(!index_storable(self.pager.index)) by {
                        if index_storable(self.pager.index) {
                            assert forall|k: int| 0 <= k < mid.index.keys@.len() implies crate::bytes::str_fits(
                                #[trigger] mid.index.keys@[k]@) by {
                                assert(key_seq(mid.index.keys@)[k] == mid.index.keys@[k]@);
                            }
                        }
                    }
                }
                return Err(QueryError::Store(e));
            },
        }
        proof {
            assert(self.pager.index@ == mid.index@) by {
                crate::index::lemma_same_entries_same_map(self.pager.index, mid.index);
            }
            assert(index_storable(self.pager.index)) by {
                assert forall|k: int| 0 <= k < key_seq(self.pager.index.keys@).len() implies crate::bytes::str_fits(
                    #[trigger] key_seq(self.pager.index.keys@)[k]) by {
                    assert(key_seq(self.pager.index.keys@)[k] == mid.index.keys@[k]@);
                }
            }
            assert(self.store().stores(page_id, crate::page::image_of(written)));
            crate::pager::lemma_read_after_write(self.store(), written);
            assert(written.data.subrange(0, written.used_space as int) =~= enc_doc(doc));
            assert(document_in_page(self.store(), page_id, doc));
            assert(self.store().index@[key] == page_id);
            assert(self.store().index@ == old(self).store().index@.insert(key, next_page(old(self).store())));
        }
        proof {
            reveal_strlit("Inserted Document ID: ");
        }
        Ok(concat("Inserted Document ID: ", doc_id.as_str()))
    }

    /// Encodes the document and writes it as the payload of a freshly
    /// allocated data page; returns that page's id.
    fn write_document_to_disk(&mut self, doc: &AuraDocument) -> (r: Result<u32, QueryError>)
        requires
            old(self).store().wf(),
        ensures
            final(self).store().wf(),
            final(self).store().key() == old(self).store().key(),
            final(self).store().index == old(self).store().index,
            r is Err ==> (r matches Err(QueryError::Serialization(_))) && final(self).store() == old(self).store()
                && (old(self).store().total() >= u32::MAX - 2 || !(doc_fits(*doc) && enc_doc(*doc).len() <= DATA_SIZE)),
            r matches Ok(id) ==> doc_fits(*doc) && old(self).store().total() < u32::MAX - 2 && id == next_page(old(self).store()) && id > 0 && id < final(self).store().total() && enc_doc(*doc).len() <= DATA_SIZE
                && final(self).store().stores(
                id,
                crate::page::image_of(crate::page::payload_page(id, KIND_DATA, crate::document::enc_doc(*doc))),
            ),
    {
        let bytes = match doc.to_bytes() {
            Ok(b) => b,
            Err(_) => {
                return Err(QueryError::Serialization("document does not encode".to_owned()));
            },
        };
        if bytes.len() > DATA_SIZE {
            return Err(QueryError::Serialization("Document too large for single page".to_owned()));
        }
        if self.pager.total_pages() >= u32::MAX - 2 {
            return Err(QueryError::Serialization("No page ids left".to_owned()));
        }
        let page_id = self.pager.allocate_page();
        let page = Page::with_payload(page_id, KIND_DATA, bytes.as_slice());
        let written = self.pager.write_page(&page);
        assert(written is Ok);
        Ok(page_id)
    }

    /// Looks the key up in the primary index and returns `Found: ` and the
    /// stored document's text, or `Document not found`.
    fn handle_select(&mut self, key: &Option<String>) -> (r: Result<String, QueryError>)
        requires
            old(self).store().wf(),
        ensures
            final(self).store() == old(self).store(),
            select_outcome(
                old(self).store(),
                match key {
                    Some(k) => Some(k@),
                    None => None,
                },
                r,
            ),
    {
        let target = match key {
            Some(k) => k,
            None => {
                return Err(QueryError::Unimplemented("SELECT needs WHERE id = '<key>'".to_owned()));
            },
        };
        match self.pager.index.get(target.as_str()) {
            None => Ok("Document not found".to_owned()),
            Some(page_id) => {
                let page = match self.pager.read_page(page_id) {
                    Ok(p) => p,
                    Err(e) => {
                        return Err(QueryError::Store(e));
                    },
                };
                if page.used_space as usize > DATA_SIZE {
                    return Err(QueryError::Serialization("page used space out of range".to_owned()));
                }
                let stored = page.used_bytes();
                let doc = match AuraDocument::from_bytes(stored.as_slice()) {
                    Ok(d) => d,
                    Err(_) => {
                        proof {
                            assert forall|d: AuraDocument|
                                document_in_page(self.store(), page_id, d) && doc_fits(d) implies false by {
                                assert(enc_doc(d) == stored@);
                            }
                        }
                        return Err(QueryError::Serialization("stored document does not decode".to_owned()));
                    },
                };
                let text = doc.describe();
                let m = concat("Found: ", text.as_str());
                proof {
                    assert(document_in_page(self.store(), page_id, doc));
                    assert forall|d: AuraDocument| document_in_page(self.store(), page_id, d) && doc_fits(d)
                        implies exists|d2: AuraDocument| #[trigger] same_doc(d2, d) && m@ == "Found: "@ + doc_text(d2) by {
                        lemma_document_round_trip(d, doc);
                        assert(same_doc(doc, d));
                    }
                }
                Ok(m)
            },
        }
    }
}

} // verus!
