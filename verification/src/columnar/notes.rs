//! What the schema of a table says besides its columns: notes on the table and on each column.
//! They go into the log with the columns, and count towards what a stream can hold.

use vstd::prelude::*;
use vstd::utf8::encode_utf8;
use crate::columnar::batch::{batch_columns, column_count, column_name, ArrowBatch};

verus! {

/// How many tables a message of a stream can have: the reader takes no more.
pub const MAX_TABLES: usize = 1_000_000;

/// How long a message of a stream can be.
pub const MAX_MESSAGE: u64 = 2_147_483_647;

/// What a table of a message takes at most besides its text.
pub const TABLE_BYTES: u64 = 512;

/// The notes on the table itself.
pub uninterp spec fn schema_notes(batch: ArrowBatch) -> Map<Seq<char>, Seq<char>>;

/// The notes on each column.
pub uninterp spec fn column_notes(batch: ArrowBatch) -> Seq<Map<Seq<char>, Seq<char>>>;

/// Rows that list some notes, each once, in whatever order.
pub open spec fn lists(
    rows: Seq<(String, String)>,
    notes: Map<Seq<char>, Seq<char>>,
) -> bool {
    &&& forall|i: int, j: int|
        0 <= i < j < rows.len() ==> (#[trigger] rows[i]).0@ != (#[trigger] rows[j]).0@
    &&& forall|i: int|
        0 <= i < rows.len() ==> notes.contains_key((#[trigger] rows[i]).0@) && notes[rows[i].0@]
            == rows[i].1@
    &&& forall|k: Seq<char>| #[trigger]
        notes.contains_key(k) ==> exists|i: int| 0 <= i < rows.len() && (#[trigger] rows[i]).0@
            == k
}

/// `Schema::metadata`: the notes on the table, in no particular order.
#[verifier::external_body]
fn notes_on_table(batch: &ArrowBatch) -> (r: Vec<(String, String)>)
    ensures
        lists(r@, schema_notes(*batch)),
{
    let schema = batch.inner.schema();
    schema.metadata().iter().map(|(k, v)| (k.clone(), v.clone())).collect()
}

/// `Field::metadata` of a column: the notes on it, in no particular order.
#[verifier::external_body]
fn notes_on_column(batch: &ArrowBatch, i: usize) -> (r: Vec<(String, String)>)
    requires
        i < batch_columns(*batch).len(),
    ensures
        lists(r@, column_notes(*batch)[i as int]),
{
    let schema = batch.inner.schema();
    schema.field(i).metadata().iter().map(|(k, v)| (k.clone(), v.clone())).collect()
}

/// The bytes of some notes, keys and values.
pub open spec fn notes_bytes(notes: Map<Seq<char>, Seq<char>>) -> nat
    decreases notes.dom().len(),
    when notes.dom().finite()
{
    if notes.dom().len() == 0 {
        0
    } else {
        let k = notes.dom().choose();
        encode_utf8(k).len() + encode_utf8(notes[k]).len() + notes_bytes(notes.remove(k))
    }
}

/// How many tables the schema of a batch has in a message, up to its first `k` columns: two for
/// the message and the schema, two for a column, one for a note.
pub open spec fn table_count(batch: ArrowBatch, k: nat) -> nat
    decreases k,
{
    if k == 0 {
        2 + schema_notes(batch).len()
    } else {
        table_count(batch, (k - 1) as nat) + 2 + column_notes(batch)[k - 1].len()
    }
}

/// The bytes of all text in the schema of a batch, up to its first `k` columns.
pub open spec fn text_bytes(batch: ArrowBatch, k: nat) -> nat
    decreases k,
{
    if k == 0 {
        notes_bytes(schema_notes(batch))
    } else {
        text_bytes(batch, (k - 1) as nat) + encode_utf8(batch_columns(batch)[k - 1].0).len()
            + notes_bytes(column_notes(batch)[k - 1])
    }
}

/// Whether a stream can hold the schema of a batch: its message has no more tables than the
/// reader takes, and does not grow too long.
pub open spec fn fits_stream(batch: ArrowBatch) -> bool {
    let n = batch_columns(batch).len();
    table_count(batch, n) <= MAX_TABLES && text_bytes(batch, n) + TABLE_BYTES * table_count(
        batch,
        n,
    ) <= MAX_MESSAGE
}

spec fn rows_bytes(rows: Seq<(String, String)>, k: nat) -> nat
    decreases k,
{
    if k == 0 {
        0
    } else {
        rows_bytes(rows, (k - 1) as nat) + encode_utf8(rows[k - 1].0@).len() + encode_utf8(
            rows[k - 1].1@,
        ).len()
    }
}

proof fn lemma_notes_remove(notes: Map<Seq<char>, Seq<char>>, key: Seq<char>)
    requires
        notes.dom().finite(),
        notes.contains_key(key),
    ensures
        notes_bytes(notes) == encode_utf8(key).len() + encode_utf8(notes[key]).len() + notes_bytes(
            notes.remove(key),
        ),
    decreases notes.dom().len(),
{
    let k = notes.dom().choose();
    if k != key {
        let a = notes.remove(k);
        let b = notes.remove(key);
        lemma_notes_remove(a, key);
        lemma_notes_remove(b, k);
        assert(a.remove(key) =~= b.remove(k));
    }
}

proof fn lemma_rows_bytes_same(a: Seq<(String, String)>, b: Seq<(String, String)>, k: nat)
    requires
        k <= a.len(),
        k <= b.len(),
        forall|i: int| 0 <= i < k ==> #[trigger] a[i] == b[i],
    ensures
        rows_bytes(a, k) == rows_bytes(b, k),
    decreases k,
{
    if k > 0 {
        lemma_rows_bytes_same(a, b, (k - 1) as nat);
        assert(a[k - 1] == b[k - 1]);
    }
}

/// Notes take what the rows that list them take.
proof fn lemma_rows_sum(rows: Seq<(String, String)>, notes: Map<Seq<char>, Seq<char>>)
    requires
        lists(rows, notes),
    ensures
        notes.dom().finite(),
        notes.len() == rows.len(),
        notes_bytes(notes) == rows_bytes(rows, rows.len()),
    decreases rows.len(),
{
    if rows.len() == 0 {
        assert(notes.dom() =~= Set::empty());
    } else {
        let init = rows.drop_last();
        let key = rows.last().0@;
        let rest = notes.remove(key);
        assert(rows[rows.len() - 1].0@ == key);
        assert(lists(init, rest)) by {
            assert forall|i: int, j: int| 0 <= i < j < init.len() implies (
            #[trigger] init[i]).0@ != (#[trigger] init[j]).0@ by {
                assert(rows[i].0@ != rows[j].0@);
            }
            assert forall|i: int| 0 <= i < init.len() implies rest.contains_key(
                (#[trigger] init[i]).0@,
            ) && rest[init[i].0@] == init[i].1@ by {
                assert(rows[i].0@ != rows[rows.len() - 1].0@);
            }
            assert forall|k: Seq<char>| #[trigger] rest.contains_key(k) implies exists|i: int|
                0 <= i < init.len() && (#[trigger] init[i]).0@ == k by {
                assert(notes.contains_key(k));
                let i = choose|i: int| 0 <= i < rows.len() && (#[trigger] rows[i]).0@ == k;
                assert(init[i].0@ == k);
            }
        }
        lemma_rows_sum(init, rest);
        assert(notes.dom() =~= rest.dom().insert(key));
        lemma_notes_remove(notes, key);
        lemma_rows_bytes_same(init, rows, init.len());
    }
}

proof fn lemma_rows_grow(rows: Seq<(String, String)>, i: nat, k: nat)
    requires
        i <= k,
    ensures
        rows_bytes(rows, i) <= rows_bytes(rows, k),
    decreases k,
{
    if i < k {
        lemma_rows_grow(rows, i, (k - 1) as nat);
    }
}

/// The bytes of some notes, where a message could hold them.
fn measure(rows: &Vec<(String, String)>) -> (r: Option<u64>)
    ensures
        match r {
            Some(n) => n == rows_bytes(rows@, rows@.len()) && n <= MAX_MESSAGE,
            None => rows_bytes(rows@, rows@.len()) > MAX_MESSAGE,
        },
{
    let mut sum: u64 = 0;
    let mut i: usize = 0;
    while i < rows.len()
        invariant
            i <= rows@.len(),
            sum == rows_bytes(rows@, i as nat),
            sum <= MAX_MESSAGE,
        decreases rows@.len() - i,
    {
        let key: usize = rows[i].0.as_str().as_bytes().len();
        let value: usize = rows[i].1.as_str().as_bytes().len();
        let more: u128 = sum as u128 + key as u128 + value as u128;
        if more > MAX_MESSAGE as u128 {
            proof {
                lemma_rows_grow(rows@, (i + 1) as nat, rows@.len());
            }
            return None;
        }
        sum = more as u64;
        i = i + 1;
    }
    Some(sum)
}

proof fn lemma_schema_grows(batch: ArrowBatch, i: nat, k: nat)
    requires
        i <= k,
    ensures
        table_count(batch, i) <= table_count(batch, k),
        text_bytes(batch, i) <= text_bytes(batch, k),
    decreases k,
{
    if i < k {
        lemma_schema_grows(batch, i, (k - 1) as nat);
    }
}

/// Whether a stream can hold the schema of a batch.
pub fn stream_holds(batch: &ArrowBatch) -> (r: bool)
    ensures
        r == fits_stream(*batch),
{
    let n: usize = column_count(batch);
    let rows: Vec<(String, String)> = notes_on_table(batch);
    proof {
        lemma_rows_sum(rows@, schema_notes(*batch));
        lemma_schema_grows(*batch, 0, n as nat);
    }
    if rows.len() > MAX_TABLES {
        return false;
    }
    let mut tables: usize = 2 + rows.len();
    let mut text: u64 = match measure(&rows) {
        Some(t) => t,
        None => return false,
    };
    let mut i: usize = 0;
    while i < n
        invariant
            n == batch_columns(*batch).len(),
            i <= n,
            tables == table_count(*batch, i as nat),
            text == text_bytes(*batch, i as nat),
            tables <= MAX_TABLES + 2,
            text <= MAX_MESSAGE,
        decreases n - i,
    {
        let rows: Vec<(String, String)> = notes_on_column(batch, i);
        let name: usize = column_name(batch, i).as_str().as_bytes().len();
        proof {
            lemma_rows_sum(rows@, column_notes(*batch)[i as int]);
            lemma_schema_grows(*batch, (i + 1) as nat, n as nat);
        }
        let notes: u64 = match measure(&rows) {
            Some(t) => t,
            None => return false,
        };
        let more: u128 = text as u128 + name as u128 + notes as u128;
        if rows.len() > MAX_TABLES || tables + 2 + rows.len() > MAX_TABLES || more
            > MAX_MESSAGE as u128 {
            return false;
        }
        tables = tables + 2 + rows.len();
        text = more as u64;
        i = i + 1;
    }
    tables <= MAX_TABLES && text + TABLE_BYTES * tables as u64 <= MAX_MESSAGE
}

/// The schema of a table without notes fits a stream exactly where its columns, two tables each,
/// and their names do: with the message itself, no more than a million tables, and no more than
/// two gigabytes at 512 bytes for each table.
pub proof fn plain_schemas_fit(batch: ArrowBatch)
    requires
        schema_notes(batch) == Map::<Seq<char>, Seq<char>>::empty(),
        forall|i: int|
            0 <= i < batch_columns(batch).len() ==> #[trigger] column_notes(batch)[i] == Map::<
                Seq<char>,
                Seq<char>,
            >::empty(),
    ensures
        ({
            let n = batch_columns(batch).len();
            fits_stream(batch) <==> 2 + 2 * n <= 1_000_000 && name_bytes(batch, n) + 512 * (2 + 2
                * n) <= 0x7FFF_FFFF
        }),
{
    lemma_plain(batch, batch_columns(batch).len());
}

/// The bytes of the names of the first `k` columns.
pub open spec fn name_bytes(batch: ArrowBatch, k: nat) -> nat
    decreases k,
{
    if k == 0 {
        0
    } else {
        name_bytes(batch, (k - 1) as nat) + encode_utf8(batch_columns(batch)[k - 1].0).len()
    }
}

proof fn lemma_plain(batch: ArrowBatch, k: nat)
    requires
        k <= batch_columns(batch).len(),
        schema_notes(batch) == Map::<Seq<char>, Seq<char>>::empty(),
        forall|i: int|
            0 <= i < batch_columns(batch).len() ==> #[trigger] column_notes(batch)[i] == Map::<
                Seq<char>,
                Seq<char>,
            >::empty(),
    ensures
        table_count(batch, k) == 2 + 2 * k,
        text_bytes(batch, k) == name_bytes(batch, k),
    decreases k,
{
    let none = Map::<Seq<char>, Seq<char>>::empty();
    assert(none.dom().len() == 0 && none.dom().finite());
    assert(notes_bytes(none) == 0);
    if k > 0 {
        lemma_plain(batch, (k - 1) as nat);
        assert(column_notes(batch)[k - 1] == none);
    }
}

/// Notes only add: a schema with a note more has a table more, and the text of the note.
pub proof fn notes_add_up(notes: Map<Seq<char>, Seq<char>>, key: Seq<char>, value: Seq<char>)
    requires
        notes.dom().finite(),
        !notes.contains_key(key),
    ensures
        notes.insert(key, value).len() == notes.len() + 1,
        notes_bytes(notes.insert(key, value)) == notes_bytes(notes) + encode_utf8(key).len()
            + encode_utf8(value).len(),
{
    let more = notes.insert(key, value);
    lemma_notes_remove(more, key);
    assert(more.remove(key) =~= notes);
}

/// How many notes there are on the first `k` columns.
pub open spec fn column_note_count(batch: ArrowBatch, k: nat) -> nat
    decreases k,
{
    if k == 0 {
        0
    } else {
        column_notes(batch)[k - 1].len() + column_note_count(batch, (k - 1) as nat)
    }
}

/// The bytes of the notes on the first `k` columns.
pub open spec fn column_note_bytes(batch: ArrowBatch, k: nat) -> nat
    decreases k,
{
    if k == 0 {
        0
    } else {
        notes_bytes(column_notes(batch)[k - 1]) + column_note_bytes(batch, (k - 1) as nat)
    }
}

proof fn lemma_schema_sums(batch: ArrowBatch, k: nat)
    ensures
        table_count(batch, k) == 2 + 2 * k + schema_notes(batch).len() + column_note_count(
            batch,
            k,
        ),
        text_bytes(batch, k) == name_bytes(batch, k) + notes_bytes(schema_notes(batch))
            + column_note_bytes(batch, k),
    decreases k,
{
    if k > 0 {
        lemma_schema_sums(batch, (k - 1) as nat);
    }
}

/// A schema fits a stream exactly where it does by tables and by text: two tables for the message,
/// two for each column and one for each note, at most a million in all; and the names and notes
/// with 512 bytes for each table are at most two gigabytes.
pub proof fn schemas_fit_by_tables_and_text(batch: ArrowBatch)
    ensures
        ({
            let n = batch_columns(batch).len();
            let tables = 2 + 2 * n + schema_notes(batch).len() + column_note_count(batch, n);
            let text = name_bytes(batch, n) + notes_bytes(schema_notes(batch)) + column_note_bytes(
                batch,
                n,
            );
            fits_stream(batch) <==> tables <= 1_000_000 && text + 512 * tables <= 0x7FFF_FFFF
        }),
{
    lemma_schema_sums(batch, batch_columns(batch).len());
}

} // verus!
