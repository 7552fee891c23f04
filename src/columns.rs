use vstd::prelude::*;

use crate::value::{
    field_of, field_value, kind_of, lemma_text_lt_total,
    lemma_text_lt_transitive, text_less, text_lt, texts_view, Kind, RecordType, Value, ValueView,
};

verus! {

/// A column under construction: one variant per value kind, and `MixedVec`
/// once values of different kinds have met.
#[derive(Debug)]
pub enum VecType {
    NullVec(usize),
    BoolVec(Vec<bool>),
    TimestampVec(Vec<u64>),
    IntegerVec(Vec<i64>),
    StringVec(Vec<String>),
    SetVec(Vec<Vec<String>>),
    MixedVec(Vec<Value>),
}

/// Whether every value of `s` is of kind `k`.
pub open spec fn uniform(s: Seq<ValueView>, k: Kind) -> bool {
    forall|i: int| 0 <= i < s.len() ==> kind_of(#[trigger] s[i]) == k
}

/// The kind a column holding the values `s` has: the common kind of its
/// values if they share one, and `Mixed` otherwise.
pub open spec fn column_kind(s: Seq<ValueView>) -> Kind {
    if s.len() > 0 && uniform(s, kind_of(s[0])) {
        kind_of(s[0])
    } else {
        Kind::Mixed
    }
}

pub proof fn lemma_column_kind_push(s: Seq<ValueView>, v: ValueView)
    requires
        s.len() > 0,
    ensures
        column_kind(s.push(v)) == (if column_kind(s) == Kind::Mixed || kind_of(v) != kind_of(
            s[0],
        ) {
            Kind::Mixed
        } else {
            kind_of(s[0])
        }),
{
    let t = s.push(v);
    assert(t[0] == s[0]);
    if column_kind(s) == Kind::Mixed {
        let i = choose|i: int| 0 <= i < s.len() && kind_of(#[trigger] s[i]) != kind_of(s[0]);
        assert(t[i] == s[i]);
    } else if kind_of(v) != kind_of(s[0]) {
        assert(t[s.len() as int] == v);
    } else {
        assert forall|i: int| 0 <= i < t.len() implies kind_of(#[trigger] t[i]) == kind_of(t[0]) by {
            if i < s.len() {
                assert(t[i] == s[i]);
            }
        }
    }
}

impl VecType {
    pub open spec fn kind(&self) -> Kind {
        match self {
            VecType::NullVec(_) => Kind::Null,
            VecType::BoolVec(_) => Kind::Bool,
            VecType::TimestampVec(_) => Kind::Timestamp,
            VecType::IntegerVec(_) => Kind::Integer,
            VecType::StringVec(_) => Kind::Str,
            VecType::SetVec(_) => Kind::StrSet,
            VecType::MixedVec(_) => Kind::Mixed,
        }
    }

    /// The values held, in order.
    pub open spec fn values(&self) -> Seq<ValueView> {
        match self {
            VecType::NullVec(n) => Seq::new(*n as nat, |i: int| ValueView::Null),
            VecType::BoolVec(v) => v@.map_values(|b: bool| ValueView::Bool(b)),
            VecType::TimestampVec(v) => v@.map_values(|t: u64| ValueView::Timestamp(t)),
            VecType::IntegerVec(v) => v@.map_values(|i: i64| ValueView::Integer(i)),
            VecType::StringVec(v) => v@.map_values(|s: String| ValueView::Str(s@)),
            VecType::SetVec(v) => v@.map_values(|s: Vec<String>| ValueView::StrSet(texts_view(s@))),
            VecType::MixedVec(v) => v@.map_values(|x: Value| x@),
        }
    }

    /// An empty builder of the kind of `value`.
    pub fn new_with_value(value: &Value) -> (r: VecType)
        ensures
            r.kind() == kind_of(value@),
            r.values().len() == 0,
    {
        match value {
            Value::Null => VecType::NullVec(0),
            Value::Bool(_) => VecType::BoolVec(Vec::new()),
            Value::Timestamp(_) => VecType::TimestampVec(Vec::new()),
            Value::Integer(_) => VecType::IntegerVec(Vec::new()),
            Value::Str(_) => VecType::StringVec(Vec::new()),
            Value::StrSet(_) => VecType::SetVec(Vec::new()),
        }
    }

    /// The number of values held.
    pub fn len(&self) -> (n: usize)
        ensures
            n == self.values().len(),
    {
        match self {
            VecType::NullVec(n) => *n,
            VecType::BoolVec(v) => v.len(),
            VecType::TimestampVec(v) => v.len(),
            VecType::IntegerVec(v) => v.len(),
            VecType::StringVec(v) => v.len(),
            VecType::SetVec(v) => v.len(),
            VecType::MixedVec(v) => v.len(),
        }
    }

    /// The value at position `i`.
    pub fn get(&self, i: usize) -> (r: Value)
        requires
            i < self.values().len(),
        ensures
            r@ == self.values()[i as int],
    {
        match self {
            VecType::NullVec(_) => Value::Null,
            VecType::BoolVec(v) => Value::Bool(v[i]),
            VecType::TimestampVec(v) => Value::Timestamp(v[i]),
            VecType::IntegerVec(v) => Value::Integer(v[i]),
            VecType::StringVec(v) => Value::Str(v[i].clone()),
            VecType::SetVec(v) => Value::StrSet(crate::value::copy_texts(&v[i])),
            VecType::MixedVec(v) => v[i].duplicate(),
        }
    }

    /// Appends `value` if it fits this builder's kind (a `MixedVec` takes
    /// every value); otherwise leaves the builder as it is and hands the value
    /// back.
    pub fn push(&mut self, value: Value) -> (r: Option<Value>)
        requires
            old(self).values().len() < usize::MAX,
        ensures
            r is None <==> (old(self).kind() == Kind::Mixed || kind_of(value@) == old(self).kind()),
            r is None ==> final(self).kind() == old(self).kind() && final(self).values()
                == old(self).values().push(value@),
            r matches Some(v) ==> v@ == value@ && *final(self) == *old(self),
    {
        match self {
            VecType::NullVec(n) => match value {
                Value::Null => {
                    *n = *n + 1;
                    assert(final(self).values() =~= old(self).values().push(value@));
                    None
                },
                _ => Some(value),
            },
            VecType::BoolVec(v) => match value {
                Value::Bool(b) => {
                    v.push(b);
                    assert(final(self).values() =~= old(self).values().push(value@));
                    None
                },
                _ => Some(value),
            },
            VecType::TimestampVec(v) => match value {
                Value::Timestamp(t) => {
                    v.push(t);
                    assert(final(self).values() =~= old(self).values().push(value@));
                    None
                },
                _ => Some(value),
            },
            VecType::IntegerVec(v) => match value {
                Value::Integer(i) => {
                    v.push(i);
                    assert(final(self).values() =~= old(self).values().push(value@));
                    None
                },
                _ => Some(value),
            },
            VecType::StringVec(v) => match value {
                Value::Str(s) => {
                    v.push(s);
                    assert(final(self).values() =~= old(self).values().push(value@));
                    None
                },
                _ => Some(value),
            },
            VecType::SetVec(v) => match value {
                Value::StrSet(s) => {
                    v.push(s);
                    assert(final(self).values() =~= old(self).values().push(value@));
                    None
                },
                _ => Some(value),
            },
            VecType::MixedVec(v) => {
                v.push(value);
                assert(final(self).values() =~= old(self).values().push(value@));
                None
            },
        }
    }

    /// The same values in a `MixedVec`.
    pub fn to_mixed(self) -> (r: VecType)
        ensures
            r.kind() == Kind::Mixed,
            r.values() == self.values(),
    {
        match self {
            VecType::MixedVec(v) => VecType::MixedVec(v),
            _ => {
                let n = self.len();
                let mut out: Vec<Value> = Vec::new();
                let mut i: usize = 0;
                while i < n
                    invariant
                        n == self.values().len(),
                        i <= n,
                        out@.len() == i,
                        forall|j: int| 0 <= j < i ==> (#[trigger] out@[j])@ == self.values()[j],
                    decreases n - i,
                {
                    out.push(self.get(i));
                    i = i + 1;
                }
                let r = VecType::MixedVec(out);
                assert(r.values() =~= self.values());
                r
            },
        }
    }

    /// The finished column, named `name`.
    pub fn to_column(self, name: String) -> (c: Column)
        ensures
            c.name@ == name@,
            c.data == self,
    {
        Column { name, data: self }
    }
}

/// A named column of values; its kind is that of its storage.
#[derive(Debug)]
pub struct Column {
    pub name: String,
    pub data: VecType,
}

impl Column {
    pub open spec fn values(&self) -> Seq<ValueView> {
        self.data.values()
    }

    pub open spec fn kind(&self) -> Kind {
        self.data.kind()
    }

    pub fn get_name(&self) -> (r: &String)
        ensures
            r@ == self.name@,
    {
        &self.name
    }

    pub fn column_kind(&self) -> (k: Kind)
        ensures
            k == self.kind(),
    {
        match &self.data {
            VecType::NullVec(_) => Kind::Null,
            VecType::BoolVec(_) => Kind::Bool,
            VecType::TimestampVec(_) => Kind::Timestamp,
            VecType::IntegerVec(_) => Kind::Integer,
            VecType::StringVec(_) => Kind::Str,
            VecType::SetVec(_) => Kind::StrSet,
            VecType::MixedVec(_) => Kind::Mixed,
        }
    }

    pub fn len(&self) -> (n: usize)
        ensures
            n == self.values().len(),
    {
        self.data.len()
    }

    pub fn get(&self, i: usize) -> (r: Value)
        requires
            i < self.values().len(),
        ensures
            r@ == self.values()[i as int],
    {
        self.data.get(i)
    }

    /// A fresh pass over the column's values from the start.
    pub fn iter(&self) -> (it: ColIter<'_>)
        ensures
            it.col == self,
            it.pos == 0,
    {
        ColIter { col: self, pos: 0 }
    }
}

/// A single pass over the values of a column.
pub struct ColIter<'a> {
    pub col: &'a Column,
    pub pos: usize,
}

impl<'a> ColIter<'a> {
    /// The values not yet handed out.
    pub open spec fn remaining(&self) -> Seq<ValueView> {
        self.col.values().skip(self.pos as int)
    }

    pub fn next(&mut self) -> (r: Option<Value>)
        ensures
            final(self).col == old(self).col,
            old(self).pos < old(self).col.values().len() ==> {
                &&& r matches Some(v)
                &&& v@ == old(self).col.values()[old(self).pos as int]
                &&& final(self).pos == old(self).pos + 1
            },
            old(self).pos >= old(self).col.values().len() ==> r is None && final(self).pos
                == old(self).pos,
    {
        if self.pos < self.col.len() {
            let v = self.col.get(self.pos);
            self.pos = self.pos + 1;
            Some(v)
        } else {
            None
        }
    }
}


/// Whether each text of `s` comes strictly before every later one: ascending
/// and without repeats.
pub open spec fn strictly_sorted(s: Seq<Seq<char>>) -> bool {
    forall|i: int, j: int| 0 <= i < j < s.len() ==> text_lt(#[trigger] s[i], #[trigger] s[j])
}

/// Whether some record holds a field named `name`.
pub open spec fn has_field(records: Seq<RecordType>, name: Seq<char>) -> bool {
    exists|r: int, i: int|
        0 <= r < records.len() && 0 <= i < records[r]@.len() && (#[trigger] records[r]@[i]).0@
            == name
}

/// The column of field `name`: one value per record, `Null` where the
/// record lacks the field.
pub open spec fn column_of(records: Seq<RecordType>, name: Seq<char>) -> Seq<ValueView> {
    Seq::new(records.len(), |r: int| field_of(records[r]@, name))
}

/// Columns of equal length; a contiguous slice of records.
#[derive(Debug)]
pub struct Batch {
    pub cols: Vec<Column>,
    pub rows: usize,
}

impl Batch {
    /// The column names, in column order.
    pub open spec fn names(&self) -> Seq<Seq<char>> {
        self.cols@.map_values(|c: Column| c.name@)
    }

    /// Every column holds exactly `rows` values.
    pub open spec fn wf(&self) -> bool {
        forall|j: int| 0 <= j < self.cols@.len() ==> (#[trigger] self.cols@[j]).values().len() == self.rows
    }

    /// Row `r` read across all columns, in column order.
    pub open spec fn record(&self, r: int) -> Seq<ValueView> {
        Seq::new(self.cols@.len(), |j: int| self.cols@[j].values()[r])
    }
}

/// Adds `n` to the strictly sorted list `names` unless it is there already.
pub(crate) fn insert_sorted(names: &mut Vec<String>, n: &String)
    requires
        strictly_sorted(texts_view(old(names)@)),
    ensures
        strictly_sorted(texts_view(final(names)@)),
        forall|x: Seq<char>|
            texts_view(final(names)@).contains(x) <==> (texts_view(old(names)@).contains(x) || x
                == n@),
{
    let len = names.len();
    let mut i: usize = 0;
    let mut stop = false;
    while i < len && !stop
        invariant
            len == names@.len(),
            i <= len,
            forall|j: int| 0 <= j < i ==> text_lt(#[trigger] names@[j]@, n@),
            stop ==> i < len && !text_lt(names@[i as int]@, n@),
        decreases len - i + (if stop { 0int } else { 1int }),
    {
        if text_less(names[i].as_str(), n.as_str()) {
            i = i + 1;
        } else {
            stop = true;
        }
    }
    let ghost old_view = texts_view(names@);
    if i < len && names[i] == *n {
        assert(old_view[i as int] == n@);
        return;
    }
    proof {
        if i < len {
            lemma_text_lt_total(names@[i as int]@, n@);
        }
    }
    names.insert(i, n.clone());
    let ghost new_view = texts_view(names@);
    assert(new_view =~= old_view.insert(i as int, n@));
    assert forall|a: int, b: int| 0 <= a < b < new_view.len() implies text_lt(
        #[trigger] new_view[a],
        #[trigger] new_view[b],
    ) by {
        if a < i && b < i {
            assert(text_lt(old_view[a], old_view[b]));
        } else if a < i && b == i {
            assert(text_lt(names@[a]@, n@));
        } else if a < i {
            assert(text_lt(old_view[a], old_view[b - 1]));
        } else if a == i {
            assert(text_lt(n@, old_view[i as int]));
            if b - 1 > i {
                assert(text_lt(old_view[i as int], old_view[b - 1]));
                lemma_text_lt_transitive(n@, old_view[i as int], old_view[b - 1]);
            }
        } else {
            assert(text_lt(old_view[a - 1], old_view[b - 1]));
        }
    }
    assert forall|x: Seq<char>|
        new_view.contains(x) <==> (old_view.contains(x) || x == n@) by {
        if new_view.contains(x) {
            let k = choose|k: int| 0 <= k < new_view.len() && new_view[k] == x;
            if k < i {
                assert(old_view[k] == x);
            } else if k > i {
                assert(old_view[k - 1] == x);
            }
        }
        if old_view.contains(x) {
            let k = choose|k: int| 0 <= k < old_view.len() && old_view[k] == x;
            if k < i {
                assert(new_view[k] == x);
            } else {
                assert(new_view[k + 1] == x);
            }
        }
        if x == n@ {
            assert(new_view[i as int] == x);
        }
    }
}


/// The distinct field names of `records`, in ascending order.
fn collect_names(records: &Vec<RecordType>) -> (names: Vec<String>)
    ensures
        strictly_sorted(texts_view(names@)),
        forall|x: Seq<char>| texts_view(names@).contains(x) <==> has_field(records@, x),
{
    let mut names: Vec<String> = Vec::new();
    let mut r: usize = 0;
    while r < records.len()
        invariant
            r <= records@.len(),
            strictly_sorted(texts_view(names@)),
            forall|x: Seq<char>|
                texts_view(names@).contains(x) <==> has_field(records@.subrange(0, r as int), x),
        decreases records.len() - r,
    {
        let rec = &records[r];
        let mut k: usize = 0;
        while k < rec.len()
            invariant
                r < records@.len(),
                *rec == records@[r as int],
                k <= rec@.len(),
                strictly_sorted(texts_view(names@)),
                forall|x: Seq<char>|
                    texts_view(names@).contains(x) <==> (has_field(
                        records@.subrange(0, r as int),
                        x,
                    ) || exists|i: int| 0 <= i < k && (#[trigger] rec@[i]).0@ == x),
            decreases rec.len() - k,
        {
            insert_sorted(&mut names, &rec[k].0);
            assert forall|x: Seq<char>|
                texts_view(names@).contains(x) <==> (has_field(records@.subrange(0, r as int), x)
                    || exists|i: int| 0 <= i < k + 1 && (#[trigger] rec@[i]).0@ == x) by {
                if x == rec@[k as int].0@ {
                    assert(exists|i: int| 0 <= i < k + 1 && (#[trigger] rec@[i]).0@ == x);
                }
                if exists|i: int| 0 <= i < k + 1 && (#[trigger] rec@[i]).0@ == x {
                    let i = choose|i: int| 0 <= i < k + 1 && (#[trigger] rec@[i]).0@ == x;
                    if i < k {
                        assert(exists|i: int| 0 <= i < k && (#[trigger] rec@[i]).0@ == x);
                    }
                }
            }
            k = k + 1;
        }
        assert forall|x: Seq<char>|
            texts_view(names@).contains(x) <==> has_field(records@.subrange(0, r + 1), x) by {
            let pre = records@.subrange(0, r as int);
            let next = records@.subrange(0, r + 1);
            if has_field(pre, x) {
                let (a, b) = choose|a: int, b: int|
                    0 <= a < pre.len() && 0 <= b < pre[a]@.len() && (#[trigger] pre[a]@[b]).0@
                        == x;
                assert(next[a] == pre[a]);
            }
            if exists|i: int| 0 <= i < k && (#[trigger] rec@[i]).0@ == x {
                let i = choose|i: int| 0 <= i < k && (#[trigger] rec@[i]).0@ == x;
                assert(next[r as int]@[i] == rec@[i]);
            }
            if has_field(next, x) {
                let (a, b) = choose|a: int, b: int|
                    0 <= a < next.len() && 0 <= b < next[a]@.len() && (#[trigger] next[a]@[b]).0@
                        == x;
                if a < r {
                    assert(pre[a]@[b] == next[a]@[b]);
                } else {
                    assert(rec@[b] == next[a]@[b]);
                }
            }
        }
        r = r + 1;
    }
    assert(records@.subrange(0, r as int) =~= records@);
    names
}

/// The column of field `name` over all records, with its kind settled by
/// one-way promotion to `MixedVec`.
fn build_column(records: &Vec<RecordType>, name: &String) -> (c: VecType)
    requires
        records@.len() > 0,
    ensures
        c.values() == column_of(records@, name@),
        c.kind() == column_kind(c.values()),
{
    let first = field_value(&records[0], name);
    let mut b = VecType::new_with_value(&first);
    let mut r: usize = 0;
    while r < records.len()
        invariant
            r <= records@.len(),
            first@ == field_of(records@[0]@, name@),
            b.values() =~= column_of(records@, name@).subrange(0, r as int),
            r == 0 ==> b.kind() == kind_of(first@),
            r > 0 ==> b.kind() == column_kind(b.values()),
        decreases records.len() - r,
    {
        let v = field_value(&records[r], name);
        let ghost vv = v@;
        let ghost before = b.values();
        proof {
            if r > 0 {
                lemma_column_kind_push(before, vv);
            }
        }
        match b.push(v) {
            None => {},
            Some(v) => {
                let mut m = b.to_mixed();
                m.push(v);
                b = m;
            },
        }
        assert(b.values() == before.push(vv));
        r = r + 1;
    }
    assert(column_of(records@, name@).subrange(0, r as int) =~= column_of(records@, name@));
    b
}

/// If every record gives field `name` a value of kind `k`, the column of
/// `name` has kind `k`: no promotion happens without a conflict.
pub proof fn lemma_uniform_field_keeps_kind(records: Seq<RecordType>, name: Seq<char>, k: Kind)
    requires
        records.len() > 0,
        forall|r: int| 0 <= r < records.len() ==> kind_of(field_of(#[trigger] records[r]@, name)) == k,
    ensures
        column_kind(column_of(records, name)) == k,
{
    let c = column_of(records, name);
    assert(kind_of(c[0]) == k);
    assert forall|i: int| 0 <= i < c.len() implies kind_of(#[trigger] c[i]) == kind_of(c[0]) by {
        assert(kind_of(field_of(records[i]@, name)) == k);
    }
}

/// Whether the field names of a record are pairwise different.
pub open spec fn unique_fields(rec: Seq<(String, Value)>) -> bool {
    forall|i: int, j: int| 0 <= i < j < rec.len() ==> (#[trigger] rec[i]).0@ != (#[trigger] rec[j]).0@
}

/// In a record with unique field names, `field_of` reads the one field of
/// that name.
pub proof fn lemma_field_of_unique(rec: Seq<(String, Value)>, name: Seq<char>, i: int)
    requires
        unique_fields(rec),
        0 <= i < rec.len(),
        rec[i].0@ == name,
    ensures
        field_of(rec, name) == rec[i].1@,
    decreases rec.len(),
{
    if i > 0 {
        assert(rec[0].0@ != rec[i].0@);
        let d = rec.drop_first();
        assert forall|a: int, b: int| 0 <= a < b < d.len() implies (#[trigger] d[a]).0@ != (#[trigger] d[b]).0@ by {
            assert(d[a] == rec[a + 1] && d[b] == rec[b + 1]);
        }
        assert(d[i - 1] == rec[i]);
        lemma_field_of_unique(d, name, i - 1);
    }
}

/// Records with unique field names that all give field `name` a value of
/// kind `k`: the column of `name` has kind `k`.
pub proof fn lemma_uniform_field_keeps_kind_unique(records: Seq<RecordType>, name: Seq<char>, k: Kind)
    requires
        records.len() > 0,
        forall|r: int| 0 <= r < records.len() ==> unique_fields(#[trigger] records[r]@),
        forall|r: int|
            #![trigger records[r]]
            0 <= r < records.len() ==> exists|i: int|
                0 <= i < records[r]@.len() && (#[trigger] records[r]@[i]).0@ == name && kind_of(records[r]@[i].1@) == k,
    ensures
        column_kind(column_of(records, name)) == k,
{
    assert forall|r: int| 0 <= r < records.len() implies kind_of(field_of(#[trigger] records[r]@, name)) == k by {
        let i = choose|i: int|
            0 <= i < records[r]@.len() && (#[trigger] records[r]@[i]).0@ == name && kind_of(records[r]@[i].1@) == k;
        assert(unique_fields(records[r]@));
        lemma_field_of_unique(records[r]@, name, i);
    }
    lemma_uniform_field_keeps_kind(records, name, k);
}

/// Records with unique field names, two of which give field `name` non-null
/// values of different kinds: the column of `name` is `Mixed`.
pub proof fn lemma_conflicting_kinds_promote_unique(
    records: Seq<RecordType>,
    name: Seq<char>,
    r1: int,
    i1: int,
    r2: int,
    i2: int,
)
    requires
        0 <= r1 < records.len(),
        0 <= r2 < records.len(),
        unique_fields(records[r1]@),
        unique_fields(records[r2]@),
        0 <= i1 < records[r1]@.len(),
        0 <= i2 < records[r2]@.len(),
        records[r1]@[i1].0@ == name,
        records[r2]@[i2].0@ == name,
        records[r1]@[i1].1@ != ValueView::Null,
        records[r2]@[i2].1@ != ValueView::Null,
        kind_of(records[r1]@[i1].1@) != kind_of(records[r2]@[i2].1@),
    ensures
        column_kind(column_of(records, name)) == Kind::Mixed,
{
    lemma_field_of_unique(records[r1]@, name, i1);
    lemma_field_of_unique(records[r2]@, name, i2);
    lemma_conflicting_kinds_promote(records, name, r1, r2);
}

/// If two records give field `name` non-null values of different kinds, the
/// column of `name` is `Mixed`.
pub proof fn lemma_conflicting_kinds_promote(records: Seq<RecordType>, name: Seq<char>, r1: int, r2: int)
    requires
        0 <= r1 < records.len(),
        0 <= r2 < records.len(),
        field_of(records[r1]@, name) != ValueView::Null,
        field_of(records[r2]@, name) != ValueView::Null,
        kind_of(field_of(records[r1]@, name)) != kind_of(field_of(records[r2]@, name)),
    ensures
        column_kind(column_of(records, name)) == Kind::Mixed,
{
    let c = column_of(records, name);
    assert(kind_of(c[r1]) != kind_of(c[r2]));
}

/// Whether `b` is the batch that `columnarize` makes of `records`.
pub open spec fn columnarized(b: Batch, records: Seq<RecordType>) -> bool {
    &&& b.rows == records.len()
    &&& b.wf()
    &&& strictly_sorted(b.names())
    &&& forall|x: Seq<char>| b.names().contains(x) <==> has_field(records, x)
    &&& forall|j: int|
        0 <= j < b.cols@.len() ==> (#[trigger] b.cols@[j]).values() == column_of(records, b.cols@[j].name@)
    &&& forall|j: int| 0 <= j < b.cols@.len() ==> (#[trigger] b.cols@[j]).kind() == column_kind(b.cols@[j].values())
}

/// The records of chunk `i` when records are cut into chunks of `size`.
pub open spec fn chunk_of(records: Seq<RecordType>, size: nat, i: int) -> Seq<RecordType> {
    let lo = i * size;
    let hi = if (i + 1) * size < records.len() {
        (i + 1) * size
    } else {
        records.len() as int
    };
    records.subrange(lo, hi)
}

/// Cuts `records` into consecutive chunks of `size` (the last may be
/// shorter) and transposes each into a batch, in order.
pub fn chunk_batches(records: Vec<RecordType>, size: usize) -> (bs: Vec<Batch>)
    requires
        size > 0,
    ensures
        bs@.len() * size >= records@.len(),
        bs@.len() == 0 || (bs@.len() - 1) * size < records@.len(),
        forall|i: int| 0 <= i < bs@.len() ==> columnarized(#[trigger] bs@[i], chunk_of(records@, size as nat, i)),
{
    let ghost all = records@;
    let n = records.len();
    let mut rest = records;
    let mut bs: Vec<Batch> = Vec::new();
    let mut done: usize = 0;
    assert(bs@.len() * size == 0) by (nonlinear_arith)
        requires
            bs@.len() == 0,
    ;
    while rest.len() > 0
        invariant
            n == all.len(),
            size > 0,
            done + rest@.len() == n,
            rest@ == all.subrange(done as int, n as int),
            done <= bs@.len() * size,
            rest@.len() > 0 ==> done == bs@.len() * size,
            bs@.len() == 0 || (bs@.len() - 1) * size < n,
            forall|i: int| 0 <= i < bs@.len() ==> columnarized(#[trigger] bs@[i], chunk_of(all, size as nat, i)),
        decreases rest@.len(),
    {
        let k = bs.len();
        let take = if size < rest.len() {
            size
        } else {
            rest.len()
        };
        let tail = rest.split_off(take);
        let chunk = rest;
        rest = tail;
        proof {
            assert((k + 1) * size == k * size + size) by (nonlinear_arith);
            assert(k * size < n);
            assert(chunk@ =~= chunk_of(all, size as nat, k as int));
        }
        let b = columnarize(chunk);
        bs.push(b);
        done = done + take;
        proof {
            assert forall|i: int| 0 <= i < bs@.len() implies columnarized(#[trigger] bs@[i], chunk_of(all, size as nat, i)) by {
            }
        }
    }
    bs
}

/// Transposes records into a batch: one column per distinct field name, in
/// ascending name order, each holding one value per record (`Null` where the
/// record lacks the field).
pub fn columnarize(records: Vec<RecordType>) -> (b: Batch)
    ensures
        b.rows == records@.len(),
        b.wf(),
        strictly_sorted(b.names()),
        forall|x: Seq<char>| b.names().contains(x) <==> has_field(records@, x),
        forall|j: int|
            0 <= j < b.cols@.len() ==> (#[trigger] b.cols@[j]).values() == column_of(
                records@,
                b.cols@[j].name@,
            ),
        forall|j: int|
            0 <= j < b.cols@.len() ==> (#[trigger] b.cols@[j]).kind() == column_kind(
                b.cols@[j].values(),
            ),
{
    let names = collect_names(&records);
    let mut cols: Vec<Column> = Vec::new();
    let mut j: usize = 0;
    while j < names.len()
        invariant
            j <= names@.len(),
            cols@.len() == j,
            strictly_sorted(texts_view(names@)),
            forall|x: Seq<char>| texts_view(names@).contains(x) <==> has_field(records@, x),
            forall|k: int| 0 <= k < j ==> (#[trigger] cols@[k]).name@ == names@[k]@,
            forall|k: int|
                0 <= k < j ==> (#[trigger] cols@[k]).values() == column_of(records@, cols@[k].name@),
            forall|k: int|
                0 <= k < j ==> (#[trigger] cols@[k]).kind() == column_kind(cols@[k].values()),
        decreases names.len() - j,
    {
        proof {
            assert(texts_view(names@).contains(names@[j as int]@)) by {
                assert(texts_view(names@)[j as int] == names@[j as int]@);
            }
            assert(has_field(records@, names@[j as int]@));
        }
        let data = build_column(&records, &names[j]);
        cols.push(data.to_column(names[j].clone()));
        j = j + 1;
    }
    let b = Batch { cols, rows: records.len() };
    assert(b.names() =~= texts_view(names@));
    b
}

} // verus!
