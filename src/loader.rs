use vstd::prelude::*;
use crate::field::{count_or_zero, parse_count};
use crate::record::{
    PlayerRecord, ATTACK_WINS_COLUMN, BUILDER_TROPHIES_COLUMN, DEFENSE_WINS_COLUMN,
    DONATIONS_COLUMN, FIELDS_NEEDED, TROPHIES_COLUMN,
};

verus! {

/// The pieces of `s` between occurrences of `sep`, in order. There is always
/// at least one piece: an empty `s` gives a single empty piece.
pub open spec fn split_spec(s: Seq<u8>, sep: u8) -> Seq<Seq<u8>>
    decreases s.len(),
{
    if s.len() == 0 {
        seq![Seq::empty()]
    } else {
        let prev = split_spec(s.drop_last(), sep);
        if s.last() == sep {
            prev.push(Seq::empty())
        } else {
            prev.update(prev.len() - 1, prev.last().push(s.last()))
        }
    }
}

/// Splitting always gives at least one piece.
pub proof fn lemma_split_nonempty(s: Seq<u8>, sep: u8)
    ensures
        split_spec(s, sep).len() >= 1,
    decreases s.len(),
{
    if s.len() > 0 {
        lemma_split_nonempty(s.drop_last(), sep);
    }
}

/// Splits `s` at every occurrence of `sep`.
pub fn split_on(s: &[u8], sep: u8) -> (r: Vec<Vec<u8>>)
    ensures
        r@.map_values(|p: Vec<u8>| p@) == split_spec(s@, sep),
{
    let mut done: Vec<Vec<u8>> = Vec::new();
    let mut cur: Vec<u8> = Vec::new();
    let mut i: usize = 0;
    while i < s.len()
        invariant
            i <= s@.len(),
            done@.map_values(|p: Vec<u8>| p@).push(cur@) == split_spec(s@.subrange(0, i as int), sep),
        decreases s@.len() - i,
    {
        proof {
            assert(s@.subrange(0, i + 1).drop_last() == s@.subrange(0, i as int));
        }
        if s[i] == sep {
            let piece = cur;
            cur = Vec::new();
            done.push(piece);
            assert(done@.map_values(|p: Vec<u8>| p@).push(cur@) =~= split_spec(s@.subrange(0, i + 1), sep));
        } else {
            cur.push(s[i]);
            assert(done@.map_values(|p: Vec<u8>| p@).push(cur@) =~= split_spec(s@.subrange(0, i + 1), sep));
        }
        i = i + 1;
    }
    assert(s@.subrange(0, s@.len() as int) == s@);
    done.push(cur);
    assert(done@.map_values(|p: Vec<u8>| p@) =~= split_spec(s@, sep));
    done
}

/// A line holding a trailing carriage return loses it.
pub open spec fn strip_cr(l: Seq<u8>) -> Seq<u8> {
    if l.len() > 0 && l.last() == 13 {
        l.drop_last()
    } else {
        l
    }
}

/// The lines of a text: the pieces between line feeds, each line that a line
/// feed ends losing a carriage return before it; a last piece that is empty
/// (the text ends with a line feed, or is empty) is no line.
pub open spec fn lines_spec(text: Seq<u8>) -> Seq<Seq<u8>> {
    let p = split_spec(text, 10);
    let ended = p.drop_last().map_values(|l: Seq<u8>| strip_cr(l));
    if p.last().len() == 0 {
        ended
    } else {
        ended.push(p.last())
    }
}

/// The comma-separated fields of a line.
pub open spec fn fields_spec(line: Seq<u8>) -> Seq<Seq<u8>> {
    split_spec(line, 44)
}

/// A row is well formed when it has a field at every position that is read.
pub open spec fn row_ok(line: Seq<u8>) -> bool {
    fields_spec(line).len() >= FIELDS_NEEDED
}

/// The record that a well-formed row stands for.
pub open spec fn record_spec(line: Seq<u8>) -> PlayerRecord {
    let f = fields_spec(line);
    PlayerRecord {
        attack_wins: count_or_zero(f[ATTACK_WINS_COLUMN as int]) as usize,
        defense_wins: count_or_zero(f[DEFENSE_WINS_COLUMN as int]) as usize,
        donations: count_or_zero(f[DONATIONS_COLUMN as int]) as usize,
        builder_tropies: count_or_zero(f[BUILDER_TROPHIES_COLUMN as int]) as usize,
        trophies: count_or_zero(f[TROPHIES_COLUMN as int]) as usize,
    }
}

/// Why a text could not be loaded.
#[derive(Debug, Clone, Copy, PartialEq, Eq, Structural)]
pub enum LoadError {
    /// The row on this line (counted from 1, the header being line 1) has
    /// fewer fields than the positions that are read.
    ShortRow { line: usize },
}

/// The outcome of loading the data rows `rows`, the first of which stands on
/// line `first` of the text: the records in order, or the first short row.
pub open spec fn load_rows(rows: Seq<Seq<u8>>, first: int) -> Result<Seq<PlayerRecord>, LoadError>
    decreases rows.len(),
{
    if rows.len() == 0 {
        Ok(Seq::empty())
    } else {
        match load_rows(rows.drop_last(), first) {
            Err(e) => Err(e),
            Ok(v) => if row_ok(rows.last()) {
                Ok(v.push(record_spec(rows.last())))
            } else {
                Err(LoadError::ShortRow { line: (first + rows.len() - 1) as usize })
            },
        }
    }
}

/// The data rows of a text: every line after the first, which is a header.
pub open spec fn data_rows(text: Seq<u8>) -> Seq<Seq<u8>> {
    let ls = lines_spec(text);
    if ls.len() == 0 {
        Seq::empty()
    } else {
        ls.drop_first()
    }
}

/// The outcome of loading a whole text.
pub open spec fn load_spec(text: Seq<u8>) -> Result<Seq<PlayerRecord>, LoadError> {
    load_rows(data_rows(text), 2)
}

/// Reads one row into a record, or `None` when the row is short.
pub fn parse_record(line: &[u8]) -> (r: Option<PlayerRecord>)
    ensures
        r is Some <==> row_ok(line@),
        r is Some ==> r->Some_0 == record_spec(line@),
{
    let fields = split_on(line, 44);
    proof {
        assert(fields@.map_values(|p: Vec<u8>| p@).len() == fields@.len());
    }
    if fields.len() < FIELDS_NEEDED {
        return None;
    }
    let ghost f = fields_spec(line@);
    assert(fields@[ATTACK_WINS_COLUMN as int]@ == f[ATTACK_WINS_COLUMN as int]);
    assert(fields@[DEFENSE_WINS_COLUMN as int]@ == f[DEFENSE_WINS_COLUMN as int]);
    assert(fields@[DONATIONS_COLUMN as int]@ == f[DONATIONS_COLUMN as int]);
    assert(fields@[BUILDER_TROPHIES_COLUMN as int]@ == f[BUILDER_TROPHIES_COLUMN as int]);
    assert(fields@[TROPHIES_COLUMN as int]@ == f[TROPHIES_COLUMN as int]);
    Some(
        PlayerRecord {
            attack_wins: parse_count(fields[ATTACK_WINS_COLUMN].as_slice()),
            defense_wins: parse_count(fields[DEFENSE_WINS_COLUMN].as_slice()),
            donations: parse_count(fields[DONATIONS_COLUMN].as_slice()),
            builder_tropies: parse_count(fields[BUILDER_TROPHIES_COLUMN].as_slice()),
            trophies: parse_count(fields[TROPHIES_COLUMN].as_slice()),
        },
    )
}

/// Loads the records of a comma-separated text whose first line is a
/// header: one record per later line, or the first line that is too short.
pub fn parse_records(text: &[u8]) -> (r: Result<Vec<PlayerRecord>, LoadError>)
    ensures
        r is Ok <==> load_spec(text@) is Ok,
        r is Ok ==> r->Ok_0@ == load_spec(text@)->Ok_0,
        r is Err ==> r->Err_0 == load_spec(text@)->Err_0,
{
    let pieces = split_on(text, 10);
    let ghost p = split_spec(text@, 10);
    let ghost ls = lines_spec(text@);
    proof {
        lemma_split_nonempty(text@, 10);
        assert(pieces@.map_values(|q: Vec<u8>| q@).len() == pieces@.len());
    }
    let n: usize = pieces.len();
    assert(pieces@[n - 1]@ == p.last());
    let n_lines: usize = if pieces[n - 1].len() == 0 { n - 1 } else { n };
    assert(ls.len() == n_lines);
    let mut records: Vec<PlayerRecord> = Vec::new();
    if n_lines == 0 {
        assert(data_rows(text@) =~= Seq::<Seq<u8>>::empty());
        return Ok(records);
    }
    let ghost rows = data_rows(text@);
    assert(rows.len() == n_lines - 1);
    let mut k: usize = 1;
    while k < n_lines
        invariant
            1 <= k <= n_lines <= n,
            n == pieces@.len(),
            p == split_spec(text@, 10),
            pieces@.map_values(|q: Vec<u8>| q@) == p,
            ls == lines_spec(text@),
            ls.len() == n_lines,
            rows == data_rows(text@),
            rows == ls.drop_first(),
            n_lines < n ==> p.last().len() == 0,
            load_rows(rows.subrange(0, k - 1), 2) == Ok::<Seq<PlayerRecord>, LoadError>(records@),
        decreases n_lines - k,
    {
        let piece = pieces[k].as_slice();
        assert(piece@ == p[k as int]);
        let len: usize = piece.len();
        let end: usize = if k + 1 < n && len > 0 && piece[len - 1] == 13 { len - 1 } else { len };
        let line = vstd::slice::slice_subrange(piece, 0, end);
        assert(line@ == ls[k as int]) by {
            if k + 1 < n {
                assert(ls[k as int] == strip_cr(p[k as int]));
            } else {
                assert(ls[k as int] == p[k as int]);
                assert(p[k as int].subrange(0, len as int) == p[k as int]);
            }
        }
        let ghost prefix = rows.subrange(0, k as int);
        assert(prefix.drop_last() == rows.subrange(0, k - 1));
        assert(prefix.last() == line@);
        match parse_record(line) {
            None => {
                assert(load_rows(prefix, 2) == Err::<Seq<PlayerRecord>, LoadError>(LoadError::ShortRow { line: (k + 1) as usize }));
                proof {
                    lemma_load_error_persists(rows, 2, k as int);
                }
                return Err(LoadError::ShortRow { line: k + 1 });
            },
            Some(rec) => {
                records.push(rec);
            },
        }
        k = k + 1;
    }
    assert(rows.subrange(0, k - 1) == rows);
    Ok(records)
}

/// Once a prefix of the rows fails to load, the whole of them fails the same
/// way.
proof fn lemma_load_error_persists(rows: Seq<Seq<u8>>, first: int, j: int)
    requires
        0 <= j <= rows.len(),
        load_rows(rows.subrange(0, j), first) is Err,
    ensures
        load_rows(rows, first) == load_rows(rows.subrange(0, j), first),
    decreases rows.len(),
{
    if j < rows.len() {
        assert(rows.drop_last().subrange(0, j) == rows.subrange(0, j));
        lemma_load_error_persists(rows.drop_last(), first, j);
    } else {
        assert(rows.subrange(0, j) == rows);
    }
}

/// Rows that are all well formed load into one record each.
proof fn lemma_rows_all_ok(rows: Seq<Seq<u8>>, first: int)
    requires
        forall|i: int| 0 <= i < rows.len() ==> row_ok(#[trigger] rows[i]),
    ensures
        load_rows(rows, first) is Ok,
        load_rows(rows, first)->Ok_0.len() == rows.len(),
        forall|i: int|
            0 <= i < rows.len() ==> #[trigger] load_rows(rows, first)->Ok_0[i] == record_spec(rows[i]),
    decreases rows.len(),
{
    if rows.len() > 0 {
        let prev = rows.drop_last();
        assert forall|i: int| 0 <= i < prev.len() implies row_ok(#[trigger] prev[i]) by {
            assert(prev[i] == rows[i]);
        }
        lemma_rows_all_ok(prev, first);
        assert(row_ok(rows[rows.len() - 1]));
    }
}

/// A header followed by rows that each have every field read loads without
/// error, into one record per row, in order, each read from its own row.
pub proof fn lemma_well_formed_rows_load(text: Seq<u8>)
    requires
        forall|i: int| 0 <= i < data_rows(text).len() ==> row_ok(#[trigger] data_rows(text)[i]),
    ensures
        load_spec(text) is Ok,
        load_spec(text)->Ok_0.len() == data_rows(text).len(),
        forall|i: int|
            0 <= i < data_rows(text).len() ==> #[trigger] load_spec(text)->Ok_0[i] == record_spec(
                data_rows(text)[i],
            ),
{
    lemma_rows_all_ok(data_rows(text), 2);
}

/// A row with fewer fields than the positions read makes the whole text fail
/// to load.
pub proof fn lemma_short_row_fails(text: Seq<u8>, i: int)
    requires
        0 <= i < data_rows(text).len(),
        !row_ok(data_rows(text)[i]),
    ensures
        load_spec(text) is Err,
{
    let rows = data_rows(text);
    let prefix = rows.subrange(0, i + 1);
    assert(prefix.drop_last() == rows.subrange(0, i));
    assert(prefix.last() == rows[i]);
    assert(load_rows(prefix, 2) is Err);
    lemma_load_error_persists(rows, 2, i + 1);
}

} // verus!
