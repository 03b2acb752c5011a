//! Rows grouped by the day that their timestamp begins with.

use vstd::prelude::*;
use vstd::string::*;
use vstd::utf8::{encode_utf8, is_char_boundary};
use crate::error::Error;
use crate::reorder::{keys_view, order_by_keys, orders, row_before};
use crate::table::{row_indices, Cells, Table};
use crate::text::{
    bytes_before,
    lemma_bytes_before_irreflexive,
    lemma_bytes_before_transitive,
    rank_bytes,
    Rank,
};
use crate::view::CellsView;

verus! {

/// The day that a timestamp begins with, as bytes: the first ten bytes of
/// the text in UTF-8, where it has that many and they end with the end of a
/// character.
pub open spec fn day_key(text: Seq<char>) -> Option<Seq<u8>> {
    let bytes = encode_utf8(text);
    if bytes.len() >= 10 && is_char_boundary(bytes, 10) {
        Some(bytes.take(10))
    } else {
        None
    }
}

/// Where the rows of a day are kept, below the directory of the table:
/// a directory named after the day, and one file in it.
pub open spec fn part_path(day: Seq<char>) -> Seq<char> {
    seq!['d', 't', '='] + day + seq![
        '/',
        'p',
        'a',
        'r',
        't',
        '-',
        '0',
        '0',
        '0',
        '1',
        '.',
        'p',
        'a',
        'r',
        'q',
        'u',
        'e',
        't',
    ]
}

/// The path, below the directory of the table, of the file that holds the
/// rows of `day`.
pub fn part_file(day: &str) -> (path: String)
    ensures
        path@ == part_path(day@),
{
    proof {
        reveal_strlit("dt=");
        reveal_strlit("/part-0001.parquet");
    }
    let mut path = String::from_str("dt=");
    path.append(day);
    path.append("/part-0001.parquet");
    assert(path@ =~= part_path(day@));
    path
}

/// The day of the cell at row `i`; a null and a number have none.
pub open spec fn cell_day(cells: CellsView, i: int) -> Option<Seq<u8>> {
    match cells {
        CellsView::Text(s) => match s[i] {
            Some(text) => day_key(text),
            None => None,
        },
        CellsView::Number(_) => None,
    }
}

/// The day of each row.
pub open spec fn days_of(cells: CellsView) -> Seq<Option<Seq<u8>>> {
    Seq::new(cells.len(), |i: int| cell_day(cells, i))
}

/// The rows of one day.
#[derive(Debug, Clone)]
pub struct DayRows {
    /// The day, as the timestamps write it.
    pub day: String,
    /// The rows of that day, ascending.
    pub rows: Vec<usize>,
}

/// `part` holds rows of its day only, at least one, in ascending order.
pub open spec fn is_day_group(days: Seq<Option<Seq<u8>>>, part: DayRows) -> bool {
    &&& part.rows@.len() > 0
    &&& forall|a: int, b: int| 0 <= a < b < part.rows@.len() ==> part.rows@[a] < part.rows@[b]
    &&& forall|k: int|
        0 <= k < part.rows@.len() ==> (#[trigger] part.rows@[k]) < days.len()
            && days[part.rows@[k] as int] == Some(encode_utf8(part.day@))
}

/// Row `r` stands in one of `parts`.
pub open spec fn is_placed(parts: Seq<DayRows>, r: usize) -> bool {
    exists|p: int| 0 <= p < parts.len() && (#[trigger] parts[p]).rows@.contains(r)
}

/// `parts` groups the rows by their days: the days ascend from part to
/// part, each part holds the rows of its day in ascending order, and every
/// row that has a day stands in a part.
pub open spec fn is_day_partition(days: Seq<Option<Seq<u8>>>, parts: Seq<DayRows>) -> bool {
    &&& forall|p: int, q: int|
        0 <= p < q < parts.len() ==> bytes_before(
            encode_utf8((#[trigger] parts[p]).day@),
            encode_utf8((#[trigger] parts[q]).day@),
        )
    &&& forall|p: int| 0 <= p < parts.len() ==> is_day_group(days, #[trigger] parts[p])
    &&& forall|r: usize| r < days.len() && days[r as int] is Some ==> #[trigger] is_placed(parts, r)
}

/// The day that `text` begins with, as bytes and as text.
fn day_of(text: &str) -> (r: Option<(Vec<u8>, String)>)
    ensures
        match r {
            Some((key, day)) => day_key(text@) == Some(key@) && encode_utf8(day@) == key@,
            None => day_key(text@) is None,
        },
{
    if text.as_bytes().len() >= 10 && text.is_char_boundary(10) {
        let (head, _) = text.split_at(10);
        let key = head.as_bytes_vec();
        let day = head.to_owned();
        proof {
            assert(text.spec_bytes().subrange(0, 10) =~= encode_utf8(text@).take(10));
        }
        Some((key, day))
    } else {
        None
    }
}

/// The day of the cell at `row`.
fn day_at(cells: &Cells, row: usize) -> (r: Option<(Vec<u8>, String)>)
    requires
        row < cells@.len(),
    ensures
        match r {
            Some((key, day)) => cell_day(cells@, row as int) == Some(key@) && encode_utf8(day@)
                == key@,
            None => cell_day(cells@, row as int) is None,
        },
{
    match cells {
        Cells::Text(texts) => match &texts[row] {
            Some(text) => day_of(text.as_str()),
            None => None,
        },
        Cells::Number(_) => None,
    }
}

/// Row `r` stands in one of `parts`, or among `current`.
spec fn is_seen(parts: Seq<DayRows>, current: Seq<usize>, r: usize) -> bool {
    is_placed(parts, r) || current.contains(r)
}

/// Groups the rows of `table` by the day that their timestamp in `date_col`
/// begins with. The groups come in ascending order of their days, compared
/// byte by byte, and each lists its rows in ascending order. A row whose
/// timestamp is null, is a number or has no day stands in no group.
pub fn date_partitions(table: &Table, date_col: &str) -> (r: Result<Vec<DayRows>, Error>)
    ensures
        r is Ok <==> table@.has_column(date_col@),
        r is Err ==> r->Err_0 == Error::MissingColumn,
        r is Ok ==> is_day_partition(days_of(table@.column(date_col@).cells), r->Ok_0@),
{
    let column = match table.column(date_col) {
        Some(column) => column,
        None => {
            return Err(Error::MissingColumn);
        },
    };
    let n = table.height();
    let ghost days = days_of(column@.cells);
    let mut keys: Vec<Vec<u8>> = Vec::new();
    let mut i: usize = 0;
    while i < n
        invariant
            i <= n,
            n == column@.cells.len(),
            days == days_of(column@.cells),
            keys@.len() == i,
            forall|j: int|
                0 <= j < i ==> (#[trigger] keys@[j])@ == (match days[j] {
                    Some(key) => key,
                    None => Seq::<u8>::empty(),
                }),
        decreases n - i,
    {
        let key = match day_at(&column.cells, i) {
            Some((key, _)) => key,
            None => Vec::new(),
        };
        keys.push(key);
        i += 1;
    }
    let order = order_by_keys(&keys);
    let ghost kv = keys_view(keys@);
    let ghost rows = row_indices(order@);
    let mut parts: Vec<DayRows> = Vec::new();
    let mut current: Vec<usize> = Vec::new();
    let mut current_key: Vec<u8> = Vec::new();
    let mut current_day: String = String::new();
    let mut k: usize = 0;
    proof {
        assert forall|j: int| 0 <= j < n implies kv[j] == (match days[j] {
            Some(key) => key,
            None => Seq::<u8>::empty(),
        }) by {
            assert(kv[j] == keys@[j]@);
        }
    }
    while k < n
        invariant
            k <= n,
            n == column@.cells.len(),
            n == days.len(),
            days == days_of(column@.cells),
            kv == keys_view(keys@),
            kv.len() == n,
            rows == row_indices(order@),
            orders(kv, rows),
            forall|j: int|
                0 <= j < n ==> #[trigger] kv[j] == (match days[j] {
                    Some(key) => key,
                    None => Seq::<u8>::empty(),
                }),
            forall|p: int, q: int|
                0 <= p < q < parts@.len() ==> bytes_before(
                    encode_utf8((#[trigger] parts@[p]).day@),
                    encode_utf8((#[trigger] parts@[q]).day@),
                ),
            forall|p: int| 0 <= p < parts@.len() ==> is_day_group(days, #[trigger] parts@[p]),
            current@.len() == 0 ==> parts@.len() == 0,
            current@.len() > 0 ==> encode_utf8(current_day@) == current_key@,
            current@.len() > 0 ==> exists|j: int| 0 <= j < k && rows[j] == current@.last(),
            forall|a: int, b: int| 0 <= a < b < current@.len() ==> current@[a] < current@[b],
            forall|a: int|
                0 <= a < current@.len() ==> (#[trigger] current@[a]) < n && days[current@[a] as int]
                    == Some(current_key@),
            forall|p: int|
                0 <= p < parts@.len() ==> bytes_before(
                    encode_utf8((#[trigger] parts@[p]).day@),
                    current_key@,
                ),
            forall|j: int|
                0 <= j < k && days[rows[j]] is Some ==> is_seen(
                    parts@,
                    current@,
                    #[trigger] order@[j],
                ),
        decreases n - k,
    {
        let r = order[k];
        proof {
            assert(rows[k as int] == r);
            assert(0 <= rows[k as int] < n);
        }
        match day_at(&column.cells, r) {
            Some((key, day)) => {
                let same = current.len() > 0 && rank_bytes(&key, &current_key) == Rank::Same;
                proof {
                    assert(kv[r as int] == key@);
                    if current@.len() > 0 {
                        let j = choose|j: int| 0 <= j < k && rows[j] == current@.last();
                        let last = current@.last();
                        assert(current@[current@.len() - 1] == last);
                        assert(kv[last as int] == current_key@);
                        assert(row_before(kv, rows[j], rows[k as int]));
                        lemma_bytes_before_irreflexive(key@);
                    }
                }
                if same {
                    let ghost before = current@;
                    current.push(r);
                    proof {
                        assert forall|j: int|
                            0 <= j < k + 1 && days[rows[j]] is Some implies is_seen(
                            parts@,
                            current@,
                            #[trigger] order@[j],
                        ) by {
                            if j < k {
                                assert(is_seen(parts@, before, order@[j]));
                                if before.contains(order@[j]) {
                                    let at = choose|at: int|
                                        0 <= at < before.len() && before[at] == order@[j];
                                    assert(current@[at] == order@[j]);
                                }
                            } else {
                                assert(current@[current@.len() - 1] == r);
                            }
                        }
                        assert(rows[k as int] == current@.last());
                    }
                } else {
                    let ghost before = current@;
                    let ghost old_parts = parts@;
                    if current.len() > 0 {
                        parts.push(DayRows { day: current_day, rows: current });
                        proof {
                            let added = parts@[parts@.len() - 1];
                            assert(added.rows@ == before);
                            assert(is_day_group(days, added));
                            assert forall|p: int| 0 <= p < parts@.len() implies bytes_before(
                                encode_utf8((#[trigger] parts@[p]).day@),
                                key@,
                            ) by {
                                if p < old_parts.len() {
                                    assert(parts@[p] == old_parts[p]);
                                    lemma_bytes_before_transitive(
                                        encode_utf8(parts@[p].day@),
                                        current_key@,
                                        key@,
                                    );
                                }
                            }
                            assert forall|p: int, q: int|
                                0 <= p < q < parts@.len() implies bytes_before(
                                encode_utf8((#[trigger] parts@[p]).day@),
                                encode_utf8((#[trigger] parts@[q]).day@),
                            ) by {
                                assert(parts@[p] == old_parts[p]);
                                if q < old_parts.len() {
                                    assert(parts@[q] == old_parts[q]);
                                }
                            }
                            assert forall|p: int| 0 <= p < parts@.len() implies is_day_group(
                                days,
                                #[trigger] parts@[p],
                            ) by {
                                if p < old_parts.len() {
                                    assert(parts@[p] == old_parts[p]);
                                }
                            }
                        }
                    }
                    current = Vec::new();
                    current.push(r);
                    current_key = key;
                    current_day = day;
                    proof {
                        assert(current@[0] == r);
                        assert forall|j: int|
                            0 <= j < k + 1 && days[rows[j]] is Some implies is_seen(
                            parts@,
                            current@,
                            #[trigger] order@[j],
                        ) by {
                            if j < k {
                                assert(is_seen(old_parts, before, order@[j]));
                                if is_placed(old_parts, order@[j]) {
                                    let p = choose|p: int|
                                        0 <= p < old_parts.len() && (#[trigger] old_parts[p]).rows@.contains(
                                            order@[j],
                                        );
                                    assert(parts@[p] == old_parts[p]);
                                } else {
                                    assert(before.contains(order@[j]));
                                    assert(parts@[parts@.len() - 1].rows@ == before);
                                }
                            }
                        }
                        assert(rows[k as int] == current@.last());
                    }
                }
            },
            None => {},
        }
        k += 1;
    }
    let ghost before = current@;
    let ghost old_parts = parts@;
    if current.len() > 0 {
        parts.push(DayRows { day: current_day, rows: current });
        proof {
            let added = parts@[parts@.len() - 1];
            assert(added.rows@ == before);
            assert(is_day_group(days, added));
            assert forall|p: int, q: int| 0 <= p < q < parts@.len() implies bytes_before(
                encode_utf8((#[trigger] parts@[p]).day@),
                encode_utf8((#[trigger] parts@[q]).day@),
            ) by {
                assert(parts@[p] == old_parts[p]);
                if q < old_parts.len() {
                    assert(parts@[q] == old_parts[q]);
                }
            }
            assert forall|p: int| 0 <= p < parts@.len() implies is_day_group(
                days,
                #[trigger] parts@[p],
            ) by {
                if p < old_parts.len() {
                    assert(parts@[p] == old_parts[p]);
                }
            }
        }
    }
    proof {
        assert forall|r: usize| r < days.len() && days[r as int] is Some implies #[trigger] is_placed(
            parts@,
            r,
        ) by {
            assert(rows.contains(r as int));
            let j = choose|j: int| 0 <= j < rows.len() && rows[j] == r as int;
            assert(order@[j] == r);
            assert(is_seen(old_parts, before, order@[j]));
            if is_placed(old_parts, r) {
                let p = choose|p: int|
                    0 <= p < old_parts.len() && (#[trigger] old_parts[p]).rows@.contains(r);
                assert(parts@[p] == old_parts[p]);
            } else {
                assert(parts@[parts@.len() - 1].rows@ == before);
            }
        }
    }
    Ok(parts)
}

} // verus!
