use vstd::prelude::*;

use crate::parser::{digit_char, numeral, numeral_value};
use crate::value::{texts_view, RecordType, Value, ValueView};

verus! {

/// Why a CSV row could not be read.
#[derive(PartialEq, Eq, Structural, Clone, Copy, Debug)]
pub enum CsvError {
    /// The row has `found` cells where the header names `expected` fields.
    CellCount { expected: usize, found: usize },
}

/// The cells of a line: the text between commas, in order (one cell for a
/// line without commas).
pub open spec fn split_commas(t: Seq<char>) -> Seq<Seq<char>>
    decreases t.len(),
{
    if t.len() == 0 {
        seq![Seq::empty()]
    } else {
        let p = split_commas(t.drop_last());
        if t.last() == ',' {
            p.push(Seq::empty())
        } else {
            p.update(p.len() - 1, p.last().push(t.last()))
        }
    }
}

proof fn lemma_split_nonempty(t: Seq<char>)
    ensures
        split_commas(t).len() >= 1,
    decreases t.len(),
{
    if t.len() > 0 {
        lemma_split_nonempty(t.drop_last());
    }
}

/// The value of a cell: an integer where the cell is decimal digits,
/// optionally after `-`, that fit in an `i64` (down to `-i64::MAX`); the
/// text otherwise.
pub open spec fn cell_spec(t: Seq<char>) -> ValueView {
    if numeral(t) && numeral_value(t) <= i64::MAX {
        ValueView::Integer(numeral_value(t) as i64)
    } else if t.len() > 1 && t[0] == '-' && numeral(t.skip(1)) && numeral_value(t.skip(1)) <= i64::MAX {
        ValueView::Integer((-numeral_value(t.skip(1))) as i64)
    } else {
        ValueView::Str(t)
    }
}

/// The cells of `line`, split at commas.
pub fn split_line(line: &str) -> (cells: Vec<String>)
    ensures
        texts_view(cells@) == split_commas(line@),
{
    let n = line.unicode_len();
    let mut cells: Vec<String> = Vec::new();
    let mut cur: usize = 0;
    let mut i: usize = 0;
    assert(line@.take(0) =~= Seq::<char>::empty());
    assert(line@.subrange(0, 0) =~= Seq::<char>::empty());
    while i < n
        invariant
            n == line@.len(),
            cur <= i <= n,
            split_commas(line@.take(i as int)) =~= texts_view(cells@).push(line@.subrange(cur as int, i as int)),
        decreases n - i,
    {
        let c = line.get_char(i);
        let ghost pre = line@.take(i as int);
        let ghost p = split_commas(pre);
        assert(line@.take(i + 1).drop_last() =~= pre);
        assert(line@.take(i + 1).last() == c);
        assert(line@.take(i + 1).len() > 0);
        if c == ',' {
            assert(split_commas(line@.take(i + 1)) == p.push(Seq::empty()));
            let ghost before = cells@;
            cells.push(String::from_str(line.substring_char(cur, i)));
            assert(texts_view(cells@) =~= texts_view(before).push(line@.subrange(cur as int, i as int)));
            cur = i + 1;
            assert(line@.subrange(cur as int, i + 1) =~= Seq::<char>::empty());
        } else {
            assert(split_commas(line@.take(i + 1)) == p.update(p.len() - 1, p.last().push(c)));
            assert(line@.subrange(cur as int, i + 1) =~= line@.subrange(cur as int, i as int).push(c));
        }
        i = i + 1;
    }
    let ghost before = cells@;
    cells.push(String::from_str(line.substring_char(cur, n)));
    assert(line@.take(n as int) =~= line@);
    assert(texts_view(cells@) =~= texts_view(before).push(line@.subrange(cur as int, n as int)));
    cells
}

/// The number that the digits `t[from..]` denote, if it is at most
/// `i64::MAX`.
fn digits_from(t: &Vec<char>, from: usize) -> (r: Option<i64>)
    requires
        from < t@.len(),
    ensures
        r matches Some(v) ==> v >= 0 && numeral(t@.skip(from as int)) && v == numeral_value(t@.skip(from as int)),
        r is None ==> !(numeral(t@.skip(from as int)) && numeral_value(t@.skip(from as int)) <= i64::MAX),
{
    let n = t.len();
    let mut v: i64 = 0;
    let mut i = from;
    assert(t@.subrange(from as int, from as int) =~= Seq::<char>::empty());
    while i < n
        invariant
            from <= i <= n,
            n == t@.len(),
            from < n,
            v >= 0,
            v == numeral_value(t@.subrange(from as int, i as int)),
            forall|j: int| from <= j < i ==> digit_char(#[trigger] t@[j]),
        decreases n - i,
    {
        let c = t[i];
        if !('0' <= c && c <= '9') {
            assert(t@.skip(from as int)[i - from] == c);
            return None;
        }
        let d = ((c as u32) - 48) as i64;
        assert(t@.subrange(from as int, i + 1).drop_last() =~= t@.subrange(from as int, i as int));
        if v > (i64::MAX - d) / 10 {
            assert(v * 10 + d > i64::MAX) by (nonlinear_arith)
                requires
                    v > (i64::MAX - d) / 10,
                    0 <= d <= 9,
            ;
            proof {
                let s = t@.skip(from as int);
                if numeral(s) {
                    crate::parser::lemma_numeral_prefix(s, i + 1 - from);
                    assert(s.take(i + 1 - from) =~= t@.subrange(from as int, i + 1));
                }
            }
            return None;
        }
        assert(v * 10 + d <= i64::MAX) by (nonlinear_arith)
            requires
                0 <= v <= (i64::MAX - d) / 10,
                0 <= d <= 9,
        ;
        v = v * 10 + d;
        i = i + 1;
    }
    assert(t@.subrange(from as int, n as int) =~= t@.skip(from as int));
    Some(v)
}

/// The value of one cell.
pub fn cell_value(cell: &String) -> (v: Value)
    ensures
        v@ == cell_spec(cell@),
{
    let n = cell.unicode_len();
    let mut t: Vec<char> = Vec::new();
    let mut i: usize = 0;
    while i < n
        invariant
            n == cell@.len(),
            i <= n,
            t@ == cell@.take(i as int),
        decreases n - i,
    {
        t.push(cell.as_str().get_char(i));
        assert(cell@.take(i + 1) =~= cell@.take(i as int).push(cell@[i as int]));
        i = i + 1;
    }
    assert(cell@.take(n as int) =~= cell@);
    assert(t@.skip(0) =~= t@);
    if n > 0 {
        if let Some(v) = digits_from(&t, 0) {
            return Value::Integer(v);
        }
        if n > 1 && t[0] == '-' {
            if let Some(v) = digits_from(&t, 1) {
                return Value::Integer(-v);
            }
        }
    }
    Value::Str(cell.clone())
}

/// The record of one CSV row under the header's field names; a row whose
/// cell count differs from the header's is an error.
pub fn csv_record(header: &Vec<String>, line: &str) -> (r: Result<RecordType, CsvError>)
    ensures
        split_commas(line@).len() != header@.len() <==> r is Err,
        r matches Err(CsvError::CellCount { expected, found }) ==> expected == header@.len()
            && found == split_commas(line@).len(),
        r matches Ok(rec) ==> rec@.len() == header@.len() && forall|i: int|
            0 <= i < rec@.len() ==> (#[trigger] rec@[i]).0@ == header@[i]@ && rec@[i].1@ == cell_spec(
                split_commas(line@)[i],
            ),
{
    let cells = split_line(line);
    if cells.len() != header.len() {
        return Err(CsvError::CellCount { expected: header.len(), found: cells.len() });
    }
    let mut rec: RecordType = Vec::new();
    let mut i: usize = 0;
    while i < cells.len()
        invariant
            cells@.len() == header@.len(),
            texts_view(cells@) == split_commas(line@),
            i <= cells@.len(),
            rec@.len() == i,
            forall|j: int|
                0 <= j < i ==> (#[trigger] rec@[j]).0@ == header@[j]@ && rec@[j].1@ == cell_spec(
                    split_commas(line@)[j],
                ),
        decreases cells.len() - i,
    {
        assert(texts_view(cells@)[i as int] == cells@[i as int]@);
        rec.push((header[i].clone(), cell_value(&cells[i])));
        i = i + 1;
    }
    Ok(rec)
}

} // verus!
