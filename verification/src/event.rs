//! Compact per-instance columns of the template tables.
//!
//! Each column keeps the values of one field for every instance of a
//! template.  While templates are being built the columns hold one value per
//! instance; `compact` then shrinks a column into its most compact variant
//! (a constant, or `i32` storage when the values fit) without changing the
//! values it holds.

use vstd::prelude::*;

pub use crate::args::{ArgColumn, ArgValue};
use crate::dict::StringDict;
use crate::text::{
    bytes_le, bytes_less, decimal_chars, int_decimal, lemma_bytes_less_total, push_char, repeat_char, sort_strings,
    string_from_chars, utf8, zero_pad,
};

verus! {

/// A chrome-trace event phase: `X` (complete), `M` (metadata), `i`
/// (instant), and so on.
#[derive(Clone, Copy, Debug, PartialEq, Eq, Hash, Structural)]
pub struct Phase(pub u8);

impl Phase {
    /// The phase byte as a `char`.
    pub fn as_char(self) -> (c: char)
        ensures
            c as u32 == self.0 as u32,
    {
        self.0 as char
    }
}

/// Sum of a sequence of integers.
pub open spec fn seq_sum(s: Seq<i64>) -> int
    decreases s.len(),
{
    if s.len() == 0 {
        0
    } else {
        seq_sum(s.drop_last()) + s.last()
    }
}

/// Every prefix sum of `s` fits in an `i64`.
pub open spec fn prefix_sums_fit(s: Seq<i64>) -> bool {
    forall|k: int|
        0 <= k <= s.len() ==> i64::MIN <= #[trigger] seq_sum(s.take(k)) <= i64::MAX
}

/// `n` copies of `v`.
pub open spec fn const_seq<T>(n: nat, v: T) -> Seq<T> {
    Seq::new(n, |_i: int| v)
}

/// All elements of `s` are equal to its first one.
pub open spec fn all_same<T>(s: Seq<T>) -> bool {
    forall|i: int| 0 <= i < s.len() ==> #[trigger] s[i] == s[0]
}

/// All elements of `s` lie in the `i32` range.
pub open spec fn fits_i32(s: Seq<i64>) -> bool {
    forall|i: int| 0 <= i < s.len() ==> i32::MIN <= #[trigger] s[i] <= i32::MAX
}

/// Compact integer column.  `Empty` is an optional column that received no
/// values; `Constant` is a column whose instances all share one value.
#[derive(Clone, Debug)]
pub enum NumColumn {
    Empty,
    Constant { len: u32, value: i64 },
    I32(Vec<i32>),
    I64(Vec<i64>),
}

impl View for NumColumn {
    type V = Seq<i64>;

    /// The values of the column, one per instance.
    open spec fn view(&self) -> Seq<i64> {
        match self {
            NumColumn::Empty => Seq::empty(),
            NumColumn::Constant { len, value } => const_seq(*len as nat, *value),
            NumColumn::I32(v) => v@.map(|_i: int, x: i32| x as i64),
            NumColumn::I64(v) => v@,
        }
    }
}

impl NumColumn {
    /// Number of instances in the column.
    pub fn len(&self) -> (n: usize)
        ensures
            n == self@.len(),
    {
        match self {
            NumColumn::Empty => 0,
            NumColumn::Constant { len, .. } => *len as usize,
            NumColumn::I32(v) => v.len(),
            NumColumn::I64(v) => v.len(),
        }
    }

    /// True iff the column holds no instance.
    pub fn is_empty(&self) -> (b: bool)
        ensures
            b == (self@.len() == 0),
    {
        self.len() == 0
    }

    /// The value of instance `i`, if there is one.
    pub fn get(&self, i: usize) -> (r: Option<i64>)
        ensures
            r == (if i < self@.len() { Some(self@[i as int]) } else { None::<i64> }),
    {
        match self {
            NumColumn::Empty => None,
            NumColumn::Constant { len, value } => {
                if i < *len as usize {
                    Some(*value)
                } else {
                    None
                }
            },
            NumColumn::I32(v) => {
                if i < v.len() {
                    Some(v[i] as i64)
                } else {
                    None
                }
            },
            NumColumn::I64(v) => {
                if i < v.len() {
                    Some(v[i])
                } else {
                    None
                }
            },
        }
    }
}


impl NumColumn {
    /// The values as `i64`, one per instance.
    fn to_i64_vec(&self) -> (out: Vec<i64>)
        ensures
            out@ == self@,
    {
        let n = self.len();
        let mut out: Vec<i64> = Vec::new();
        let mut i: usize = 0;
        while i < n
            invariant
                n == self@.len(),
                i <= n,
                out@ == self@.take(i as int),
            decreases n - i,
        {
            let v = match self.get(i) {
                Some(v) => v,
                None => 0,
            };
            out.push(v);
            i += 1;
            assert(out@ =~= self@.take(i as int));
        }
        assert(out@ =~= self@);
        out
    }

    /// Iterator over the values as `i64`.
    pub fn iter_i64(&self) -> (it: NumIter<'_>)
        ensures
            it.col == self,
            it.idx == 0,
            it.end == self@.len(),
    {
        NumIter::new(self)
    }

    /// Sum of every instance's value.
    pub fn sum_i64(&self) -> (total: i64)
        requires
            prefix_sums_fit(self@),
        ensures
            total == seq_sum(self@),
    {
        match self {
            NumColumn::Empty => 0,
            NumColumn::Constant { len, value } => {
                proof {
                    lemma_sum_constant(*len as nat, *value);
                    assert(self@.take(*len as int) =~= self@);
                }
                (*len as i64) * (*value)
            },
            NumColumn::I32(_) | NumColumn::I64(_) => {
                let vals = self.to_i64_vec();
                let mut total: i64 = 0;
                let mut i: usize = 0;
                while i < vals.len()
                    invariant
                        vals@ == self@,
                        prefix_sums_fit(self@),
                        i <= vals.len(),
                        total == seq_sum(self@.take(i as int)),
                    decreases vals.len() - i,
                {
                    proof {
                        assert(self@.take(i + 1).drop_last() =~= self@.take(i as int));
                        assert(i64::MIN <= seq_sum(self@.take(i + 1)) <= i64::MAX);
                    }
                    total = total + vals[i];
                    i += 1;
                }
                assert(self@.take(vals.len() as int) =~= self@);
                total
            },
        }
    }

    /// Appends one value.  The column is held in `I64` storage afterwards.
    pub fn push(&mut self, v: i64)
        ensures
            final(self)@ == old(self)@.push(v),
            *final(self) is I64,
    {
        match self {
            NumColumn::I64(values) => {
                values.push(v);
            },
            _ => {
                let mut values = self.to_i64_vec();
                values.push(v);
                *self = NumColumn::I64(values);
            },
        }
    }

    /// Appends every value of `other`.  Takes `other` as is when `self` is
    /// empty, keeps `self` when `other` is empty, and otherwise holds the
    /// concatenation in `I64` storage.
    pub fn extend_from(&mut self, other: NumColumn)
        ensures
            final(self)@ == old(self)@ + other@,
            other@.len() == 0 ==> *final(self) == *old(self),
            other@.len() != 0 && old(self)@.len() == 0 ==> *final(self) == other,
            other@.len() != 0 && old(self)@.len() != 0 ==> *final(self) is I64,
    {
        if other.is_empty() {
            assert(old(self)@ + other@ =~= old(self)@);
            return;
        }
        if self.is_empty() {
            assert(old(self)@ + other@ =~= other@);
            *self = other;
            return;
        }
        let extra = other.to_i64_vec();
        let mut values = self.to_i64_vec();
        let mut extra = extra;
        values.append(&mut extra);
        *self = NumColumn::I64(values);
    }

    /// Shrinks the column: an empty column becomes `Empty`, a column whose
    /// values are all equal becomes `Constant`, a column whose values fit in
    /// `i32` becomes `I32`, and any other column is held as `I64`.
    pub fn compact(&mut self)
        ensures
            old(self)@.len() == 0 ==> *final(self) == NumColumn::Empty,
            old(self)@.len() != 0 && all_same(old(self)@) ==> *final(self) == (NumColumn::Constant {
                len: old(self)@.len() as u32,
                value: old(self)@[0],
            }),
            old(self)@.len() != 0 && !all_same(old(self)@) && fits_i32(old(self)@) ==> *final(self) is I32
                && final(self)@ == old(self)@,
            old(self)@.len() != 0 && !all_same(old(self)@) && !fits_i32(old(self)@) ==> *final(self) is I64
                && final(self)@ == old(self)@,
    {
        let n = self.len();
        if n == 0 {
            *self = NumColumn::Empty;
            return;
        }
        let first = match self.get(0) {
            Some(v) => v,
            None => { return; },
        };
        let mut all_same_so_far = true;
        let mut min_v = first;
        let mut max_v = first;
        let mut i: usize = 1;
        while i < n
            invariant
                n == self@.len(),
                n > 0,
                1 <= i <= n,
                first == self@[0],
                all_same_so_far == (forall|j: int| 0 <= j < i ==> #[trigger] self@[j] == first),
                forall|j: int| 0 <= j < i ==> min_v <= #[trigger] self@[j] <= max_v,
                exists|j: int| 0 <= j < i && self@[j] == min_v,
                exists|j: int| 0 <= j < i && self@[j] == max_v,
            decreases n - i,
        {
            let v = match self.get(i) {
                Some(v) => v,
                None => 0,
            };
            if v != first {
                all_same_so_far = false;
            }
            if v < min_v {
                min_v = v;
            }
            if v > max_v {
                max_v = v;
            }
            i += 1;
        }
        if all_same_so_far {
            *self = NumColumn::Constant { len: n as u32, value: first };
            return;
        }
        if min_v >= i32::MIN as i64 && max_v <= i32::MAX as i64 {
            let ghost old_view = self@;
            let mut values: Vec<i32> = Vec::with_capacity(n);
            let mut k: usize = 0;
            while k < n
                invariant
                    n == self@.len(),
                    self@ == old_view,
                    k <= n,
                    forall|j: int| 0 <= j < n ==> min_v <= #[trigger] self@[j] <= max_v,
                    i32::MIN <= min_v,
                    max_v <= i32::MAX,
                    values@.len() == k,
                    forall|j: int| 0 <= j < k ==> #[trigger] values@[j] as i64 == self@[j],
                decreases n - k,
            {
                let v = match self.get(k) {
                    Some(v) => v,
                    None => 0,
                };
                values.push(v as i32);
                k += 1;
            }
            let ghost vals = values@;
            *self = NumColumn::I32(values);
            assert(self@ =~= old_view);
        } else {
            proof {
                let j1 = choose|j: int| 0 <= j < n && old(self)@[j] == min_v;
                let j2 = choose|j: int| 0 <= j < n && old(self)@[j] == max_v;
                assert(!fits_i32(old(self)@)) by {
                    if fits_i32(old(self)@) {
                        assert(i32::MIN <= old(self)@[j1]);
                        assert(old(self)@[j2] <= i32::MAX);
                    }
                }
            }
            match self {
                NumColumn::I64(_) => {},
                _ => {
                    let values = self.to_i64_vec();
                    *self = NumColumn::I64(values);
                },
            }
        }
    }
}

/// `n` copies of `v` sum to `n * v`.
pub proof fn lemma_sum_constant(n: nat, v: i64)
    ensures
        seq_sum(const_seq(n, v)) == n * v,
    decreases n,
{
    if n == 0 {
        assert(const_seq(n, v).len() == 0);
    } else {
        let s = const_seq(n, v);
        let m: nat = (n - 1) as nat;
        lemma_sum_constant(m, v);
        assert(s.drop_last() =~= const_seq(m, v));
        assert(seq_sum(s) == seq_sum(const_seq(m, v)) + v);
        assert(n * v == m * v + v) by (nonlinear_arith)
            requires
                m + 1 == n,
        ;
    }
}

/// Cursor over the values of a [`NumColumn`].
pub struct NumIter<'a> {
    pub col: &'a NumColumn,
    pub idx: usize,
    pub end: usize,
}

impl<'a> NumIter<'a> {
    fn new(col: &'a NumColumn) -> (it: Self)
        ensures
            it.col == col,
            it.idx == 0,
            it.end == col@.len(),
    {
        let end = col.len();
        NumIter { col, idx: 0, end }
    }

    /// The next value, or `None` once every value has been handed out.
    pub fn next(&mut self) -> (r: Option<i64>)
        requires
            old(self).end == old(self).col@.len(),
        ensures
            final(self).col == old(self).col,
            final(self).end == old(self).end,
            old(self).idx < old(self).end ==> r == Some(old(self).col@[old(self).idx as int])
                && final(self).idx == old(self).idx + 1,
            old(self).idx >= old(self).end ==> r is None && final(self).idx == old(self).idx,
    {
        if self.idx >= self.end {
            return None;
        }
        let v = match self.col.get(self.idx) {
            Some(v) => v,
            None => { return None; },
        };
        self.idx += 1;
        Some(v)
    }
}


/// Views of a sequence of strings.
pub open spec fn string_views(v: Seq<String>) -> Seq<Seq<char>> {
    v.map(|_i: int, s: String| s@)
}

/// Compact string column (the GPU `stream_tid` per instance).
#[derive(Clone, Debug)]
pub enum StringColumn {
    Empty,
    Constant { len: u32, value: String },
    PerInstance(Vec<String>),
}

impl View for StringColumn {
    type V = Seq<Seq<char>>;

    /// The strings of the column, one per instance.
    open spec fn view(&self) -> Seq<Seq<char>> {
        match self {
            StringColumn::Empty => Seq::empty(),
            StringColumn::Constant { len, value } => const_seq(*len as nat, value@),
            StringColumn::PerInstance(v) => string_views(v@),
        }
    }
}

impl StringColumn {
    /// Number of instances in the column.
    pub fn len(&self) -> (n: usize)
        ensures
            n == self@.len(),
    {
        match self {
            StringColumn::Empty => 0,
            StringColumn::Constant { len, .. } => *len as usize,
            StringColumn::PerInstance(v) => v.len(),
        }
    }

    /// True iff the column holds no instance.
    pub fn is_empty(&self) -> (b: bool)
        ensures
            b == (self@.len() == 0),
    {
        self.len() == 0
    }

    /// The string of instance `i`, if there is one.
    pub fn get(&self, i: usize) -> (r: Option<&str>)
        ensures
            i < self@.len() ==> r is Some && r->0@ == self@[i as int],
            i >= self@.len() ==> r is None,
    {
        match self {
            StringColumn::Empty => None,
            StringColumn::Constant { len, value } => {
                if i < *len as usize {
                    Some(value.as_str())
                } else {
                    None
                }
            },
            StringColumn::PerInstance(v) => {
                if i < v.len() {
                    Some(v[i].as_str())
                } else {
                    None
                }
            },
        }
    }

    /// The strings as owned values, one per instance.
    fn to_strings(&self) -> (out: Vec<String>)
        ensures
            string_views(out@) == self@,
    {
        let n = self.len();
        let mut out: Vec<String> = Vec::new();
        let mut i: usize = 0;
        while i < n
            invariant
                n == self@.len(),
                i <= n,
                string_views(out@) == self@.take(i as int),
            decreases n - i,
        {
            let s = match self.get(i) {
                Some(s) => s.to_owned(),
                None => String::new(),
            };
            let ghost before = out@;
            out.push(s);
            assert(string_views(out@) =~= string_views(before).push(s@));
            i += 1;
            assert(string_views(out@) =~= self@.take(i as int));
        }
        assert(self@.take(n as int) =~= self@);
        out
    }

    /// Appends one string.  The column is held per instance afterwards.
    pub fn push(&mut self, v: String)
        ensures
            final(self)@ == old(self)@.push(v@),
            *final(self) is PerInstance,
    {
        match self {
            StringColumn::PerInstance(values) => {
                values.push(v);
                assert(string_views(values@) =~= old(self)@.push(v@));
            },
            _ => {
                let mut values = self.to_strings();
                let ghost before = values@;
                values.push(v);
                assert(string_views(values@) =~= string_views(before).push(v@));
                *self = StringColumn::PerInstance(values);
            },
        }
    }

    /// Appends every string of `other`.  Takes `other` as is when `self` is
    /// empty, keeps `self` when `other` is empty, and otherwise holds the
    /// concatenation per instance.
    pub fn extend_from(&mut self, other: StringColumn)
        ensures
            final(self)@ == old(self)@ + other@,
            other@.len() == 0 ==> *final(self) == *old(self),
            other@.len() != 0 && old(self)@.len() == 0 ==> *final(self) == other,
            other@.len() != 0 && old(self)@.len() != 0 ==> *final(self) is PerInstance,
    {
        if other.is_empty() {
            assert(old(self)@ + other@ =~= old(self)@);
            return;
        }
        if self.is_empty() {
            assert(old(self)@ + other@ =~= other@);
            *self = other;
            return;
        }
        let mut other_values = other.to_strings();
        let mut values = self.to_strings();
        let ghost a = values@;
        let ghost b = other_values@;
        values.append(&mut other_values);
        assert(string_views(values@) =~= string_views(a) + string_views(b));
        *self = StringColumn::PerInstance(values);
    }

    /// Shrinks the column: an empty column becomes `Empty`, and a column whose
    /// strings are all equal becomes `Constant`; any other column is unchanged.
    pub fn compact(&mut self)
        ensures
            old(self)@.len() == 0 ==> *final(self) == StringColumn::Empty,
            old(self)@.len() != 0 && all_same(old(self)@) ==> final(self)@ == const_seq(
                old(self)@.len() as u32 as nat,
                old(self)@[0],
            ) && *final(self) is Constant,
            old(self)@.len() != 0 && !all_same(old(self)@) ==> *final(self) == *old(self),
    {
        let n = self.len();
        if n == 0 {
            *self = StringColumn::Empty;
            return;
        }
        let first: String = match self.get(0) {
            Some(s) => s.to_owned(),
            None => { return; },
        };
        let mut same = true;
        match self {
            StringColumn::PerInstance(v) => {
                let mut i: usize = 1;
                while i < n
                    invariant_except_break
                        same,
                        forall|j: int| 0 <= j < i ==> #[trigger] v@[j]@ == first@,
                    invariant
                        n == v@.len(),
                        1 <= i <= n,
                        first@ == v@[0]@,
                    ensures
                        same ==> forall|j: int| 0 <= j < n ==> #[trigger] v@[j]@ == first@,
                        !same ==> exists|j: int| 0 <= j < n && v@[j]@ != first@,
                    decreases n - i,
                {
                    if v[i] != first {
                        same = false;
                        break;
                    }
                    i += 1;
                }
                proof {
                    if same {
                        assert forall|j: int| 0 <= j < n implies #[trigger] old(self)@[j] == old(self)@[0] by {
                            assert(old(self)@[j] == v@[j]@);
                        }
                    } else {
                        let j = choose|j: int| 0 <= j < n && v@[j]@ != first@;
                        assert(old(self)@[j] != old(self)@[0]);
                    }
                }
            },
            _ => {},
        }
        if same {
            *self = StringColumn::Constant { len: n as u32, value: first };
        }
    }
}

/// Compact phase column.  Phases overwhelmingly take one value across a
/// template, so the column collapses to a constant when it can.
#[derive(Clone, Debug)]
pub enum PhaseColumn {
    Empty,
    Constant { len: u32, value: u8 },
    PerInstance(Vec<u8>),
}

impl View for PhaseColumn {
    type V = Seq<u8>;

    /// The phase bytes of the column, one per instance.
    open spec fn view(&self) -> Seq<u8> {
        match self {
            PhaseColumn::Empty => Seq::empty(),
            PhaseColumn::Constant { len, value } => const_seq(*len as nat, *value),
            PhaseColumn::PerInstance(v) => v@,
        }
    }
}

impl PhaseColumn {
    /// Number of instances in the column.
    pub fn len(&self) -> (n: usize)
        ensures
            n == self@.len(),
    {
        match self {
            PhaseColumn::Empty => 0,
            PhaseColumn::Constant { len, .. } => *len as usize,
            PhaseColumn::PerInstance(v) => v.len(),
        }
    }

    /// True iff the column holds no instance.
    pub fn is_empty(&self) -> (b: bool)
        ensures
            b == (self@.len() == 0),
    {
        self.len() == 0
    }

    /// The phase of instance `i`, if there is one.
    pub fn get(&self, i: usize) -> (r: Option<Phase>)
        ensures
            r == (if i < self@.len() { Some(Phase(self@[i as int])) } else { None::<Phase> }),
    {
        match self {
            PhaseColumn::Empty => None,
            PhaseColumn::Constant { len, value } => {
                if i < *len as usize {
                    Some(Phase(*value))
                } else {
                    None
                }
            },
            PhaseColumn::PerInstance(v) => {
                if i < v.len() {
                    Some(Phase(v[i]))
                } else {
                    None
                }
            },
        }
    }

    /// The phase bytes, one per instance.
    fn to_bytes(&self) -> (out: Vec<u8>)
        ensures
            out@ == self@,
    {
        let n = self.len();
        let mut out: Vec<u8> = Vec::new();
        let mut i: usize = 0;
        while i < n
            invariant
                n == self@.len(),
                i <= n,
                out@ == self@.take(i as int),
            decreases n - i,
        {
            let b = match self.get(i) {
                Some(p) => p.0,
                None => 88u8,
            };
            out.push(b);
            i += 1;
            assert(out@ =~= self@.take(i as int));
        }
        assert(self@.take(n as int) =~= self@);
        out
    }

    /// Appends one phase.  The column is held per instance afterwards.
    pub fn push(&mut self, ph: Phase)
        ensures
            final(self)@ == old(self)@.push(ph.0),
            *final(self) is PerInstance,
    {
        match self {
            PhaseColumn::PerInstance(values) => {
                values.push(ph.0);
            },
            _ => {
                let mut values = self.to_bytes();
                values.push(ph.0);
                *self = PhaseColumn::PerInstance(values);
            },
        }
    }

    /// Appends every phase of `other`.  Takes `other` as is when `self` is
    /// empty, keeps `self` when `other` is empty, and otherwise holds the
    /// concatenation per instance.
    pub fn extend_from(&mut self, other: PhaseColumn)
        ensures
            final(self)@ == old(self)@ + other@,
            other@.len() == 0 ==> *final(self) == *old(self),
            other@.len() != 0 && old(self)@.len() == 0 ==> *final(self) == other,
            other@.len() != 0 && old(self)@.len() != 0 ==> *final(self) is PerInstance,
    {
        if other.is_empty() {
            assert(old(self)@ + other@ =~= old(self)@);
            return;
        }
        if self.is_empty() {
            assert(old(self)@ + other@ =~= other@);
            *self = other;
            return;
        }
        let mut other_values = other.to_bytes();
        let mut values = self.to_bytes();
        values.append(&mut other_values);
        *self = PhaseColumn::PerInstance(values);
    }

    /// Shrinks the column: an empty column becomes `Empty`, and a column whose
    /// phases are all equal becomes `Constant`; any other column is unchanged.
    pub fn compact(&mut self)
        ensures
            old(self)@.len() == 0 ==> *final(self) == PhaseColumn::Empty,
            old(self)@.len() != 0 && all_same(old(self)@) ==> *final(self) == (PhaseColumn::Constant {
                len: old(self)@.len() as u32,
                value: old(self)@[0],
            }),
            old(self)@.len() != 0 && !all_same(old(self)@) ==> *final(self) == *old(self),
    {
        let n = self.len();
        if n == 0 {
            *self = PhaseColumn::Empty;
            return;
        }
        let first = match self.get(0) {
            Some(p) => p.0,
            None => { return; },
        };
        let mut same = true;
        let mut i: usize = 1;
        while i < n
            invariant_except_break
                same,
                forall|j: int| 0 <= j < i ==> #[trigger] self@[j] == first,
            invariant
                n == self@.len(),
                1 <= i <= n,
                first == self@[0],
            ensures
                same ==> forall|j: int| 0 <= j < n ==> #[trigger] self@[j] == first,
                !same ==> exists|j: int| 0 <= j < n && self@[j] != first,
            decreases n - i,
        {
            let differs = match self.get(i) {
                Some(p) => p.0 != first,
                None => true,
            };
            if differs {
                same = false;
                break;
            }
            i += 1;
        }
        proof {
            if !same {
                let j = choose|j: int| 0 <= j < n && self@[j] != first;
                assert(self@[j] != self@[0]);
            }
        }
        if same {
            *self = PhaseColumn::Constant { len: n as u32, value: first };
        }
    }
}


/// The text that `format_int_with_width` gives for `v` and `width`.
pub open spec fn width_decimal(v: int, width: nat) -> Seq<char> {
    if width == 0 {
        int_decimal(v)
    } else {
        zero_pad(int_decimal(v), width)
    }
}

/// Decimal text of `v`, padded on the left with `'0'` to `width`
/// characters (no padding when `width` is 0).
pub fn format_int_with_width(v: i64, width: u8) -> (s: String)
    ensures
        s@ == width_decimal(v as int, width as nat),
{
    let digits = decimal_chars(v);
    if width == 0 {
        return string_from_chars(&digits);
    }
    if digits.len() >= width as usize {
        string_from_chars(&digits)
    } else {
        let pad = width as usize - digits.len();
        let mut out = String::new();
        let mut i: usize = 0;
        while i < pad
            invariant
                i <= pad,
                out@ == repeat_char('0', i as nat),
            decreases pad - i,
        {
            push_char(&mut out, '0');
            i += 1;
            assert(out@ =~= repeat_char('0', i as nat));
        }
        let mut j: usize = 0;
        while j < digits.len()
            invariant
                j <= digits.len(),
                out@ == repeat_char('0', pad as nat) + digits@.take(j as int),
            decreases digits.len() - j,
        {
            push_char(&mut out, digits[j]);
            j += 1;
            assert(out@ =~= repeat_char('0', pad as nat) + digits@.take(j as int));
        }
        assert(digits@.take(digits.len() as int) =~= digits@);
        out
    }
}

/// One column of digit fillers that rebuild an instance's name from the
/// template's `name_pattern`.  `width` (when not 0) is the original width
/// including leading zeros, so `"040"` is stored as `width = 3, value = 40`.
#[derive(Clone, Debug)]
pub enum DigitColumn {
    /// All instances share this digit string.
    Constant(String),
    /// Per-instance digits stored as `i32`.
    I32 { width: u8, values: Vec<i32> },
    /// Per-instance digits stored as `i64`.
    I64 { width: u8, values: Vec<i64> },
    /// Free-form digit strings.
    Strings(Vec<String>),
}

impl DigitColumn {
    /// The digit string that instance `i` gets back.
    pub open spec fn spec_string_at(&self, i: int) -> Seq<char> {
        match self {
            DigitColumn::Constant(s) => s@,
            DigitColumn::I32 { width, values } => width_decimal(
                if 0 <= i < values@.len() { values@[i] as int } else { 0 },
                *width as nat,
            ),
            DigitColumn::I64 { width, values } => width_decimal(
                if 0 <= i < values@.len() { values@[i] as int } else { 0 },
                *width as nat,
            ),
            DigitColumn::Strings(v) => if 0 <= i < v@.len() { v@[i]@ } else { Seq::empty() },
        }
    }

    /// Number of stored entries (1 for a constant column).
    pub open spec fn spec_len(&self) -> nat {
        match self {
            DigitColumn::Constant(_) => 1,
            DigitColumn::I32 { values, .. } => values@.len(),
            DigitColumn::I64 { values, .. } => values@.len(),
            DigitColumn::Strings(v) => v@.len(),
        }
    }

    /// Number of stored entries (1 for a constant column).
    pub fn len(&self) -> (n: usize)
        ensures
            n == self.spec_len(),
    {
        match self {
            DigitColumn::Constant(_) => 1,
            DigitColumn::I32 { values, .. } => values.len(),
            DigitColumn::I64 { values, .. } => values.len(),
            DigitColumn::Strings(v) => v.len(),
        }
    }

    /// The digit string of instance `i`: the constant for a constant column,
    /// the padded decimal of the stored value (0 past the end) for integer
    /// columns, and the stored string (empty past the end) otherwise.
    pub fn get_string(&self, i: usize) -> (s: String)
        ensures
            s@ == self.spec_string_at(i as int),
    {
        match self {
            DigitColumn::Constant(s) => s.clone(),
            DigitColumn::I32 { width, values } => {
                let v: i32 = if i < values.len() { values[i] } else { 0 };
                format_int_with_width(v as i64, *width)
            },
            DigitColumn::I64 { width, values } => {
                let v: i64 = if i < values.len() { values[i] } else { 0 };
                format_int_with_width(v, *width)
            },
            DigitColumn::Strings(v) => {
                if i < v.len() {
                    v[i].clone()
                } else {
                    String::new()
                }
            },
        }
    }
}

/// Per-instance digit fillers of a template.
#[derive(Clone, Debug)]
pub enum NameNums {
    /// The raw names had no digits at all.
    Empty,
    /// Per-instance digit lists, as appended (row-major).
    Rows(Vec<Vec<String>>),
    /// Transposed form: one [`DigitColumn`] per `0` in the name pattern.
    Columnar(Vec<DigitColumn>),
}


/// Aggregated CPU template: the shared fields of a group of events, and one
/// column entry per instance.
#[derive(Clone, Debug)]
pub struct MergeEvent {
    /// Digit-collapsed name pattern, shared by every instance.
    pub name_pattern: String,
    /// Per-instance digit fillers.
    pub name_nums: NameNums,
    pub cat: Option<String>,
    pub bp: Option<String>,
    pub s: Option<String>,
    /// Sorted args keys; one [`ArgColumn`] per key, parallel to this list.
    pub arg_keys: Vec<String>,
    pub args_columns: Vec<ArgColumn>,
    pub ts: NumColumn,
    pub dur: NumColumn,
    pub id: NumColumn,
}

impl MergeEvent {
    /// Number of instances (the length of the `ts` column).
    pub fn instance_count(&self) -> (n: usize)
        ensures
            n == self.ts@.len(),
    {
        self.ts.len()
    }
}

/// Aggregated GPU template.  GPU instances also carry their `pid`, stream
/// and phase, because they are placed back on their own streams.
#[derive(Clone, Debug)]
pub struct MergeKernelEvent {
    pub name_pattern: String,
    pub name_nums: NameNums,
    pub cat: Option<String>,
    pub arg_keys: Vec<String>,
    pub args_columns: Vec<ArgColumn>,
    pub ts: NumColumn,
    pub dur: NumColumn,
    pub pid: NumColumn,
    pub stream_tid: StringColumn,
    pub ph: PhaseColumn,
}

impl MergeKernelEvent {
    /// Number of instances (the length of the `ts` column).
    pub fn instance_count(&self) -> (n: usize)
        ensures
            n == self.ts@.len(),
    {
        self.ts.len()
    }
}

/// A template, CPU or GPU.
#[derive(Clone, Debug)]
pub enum Template {
    Cpu(MergeEvent),
    Gpu(MergeKernelEvent),
}

impl Template {
    /// The `ts` column of the template.
    pub open spec fn ts_view(&self) -> Seq<i64> {
        match self {
            Template::Cpu(t) => t.ts@,
            Template::Gpu(t) => t.ts@,
        }
    }

    /// The `dur` column of the template.
    pub open spec fn dur_view(&self) -> Seq<i64> {
        match self {
            Template::Cpu(t) => t.dur@,
            Template::Gpu(t) => t.dur@,
        }
    }

    /// The name pattern of the template.
    pub open spec fn pattern_view(&self) -> Seq<char> {
        match self {
            Template::Cpu(t) => t.name_pattern@,
            Template::Gpu(t) => t.name_pattern@,
        }
    }

    /// Number of instances.
    pub fn instance_count(&self) -> (n: usize)
        ensures
            n == self.ts_view().len(),
    {
        match self {
            Template::Cpu(t) => t.instance_count(),
            Template::Gpu(t) => t.instance_count(),
        }
    }

    /// Sum of every instance's `dur` (zero for an empty column).
    pub fn dur_total(&self) -> (total: i64)
        requires
            prefix_sums_fit(self.dur_view()),
        ensures
            total == seq_sum(self.dur_view()),
    {
        match self {
            Template::Cpu(t) => t.dur.sum_i64(),
            Template::Gpu(t) => t.dur.sum_i64(),
        }
    }

    /// The `dur` of instance `i`, if it has one.
    pub fn dur_at(&self, i: usize) -> (r: Option<i64>)
        ensures
            r == (if i < self.dur_view().len() { Some(self.dur_view()[i as int]) } else { None::<i64> }),
    {
        match self {
            Template::Cpu(t) => t.dur.get(i),
            Template::Gpu(t) => t.dur.get(i),
        }
    }

    /// The `ts` of instance `i`, if it has one.
    pub fn ts_at(&self, i: usize) -> (r: Option<i64>)
        ensures
            r == (if i < self.ts_view().len() { Some(self.ts_view()[i as int]) } else { None::<i64> }),
    {
        match self {
            Template::Cpu(t) => t.ts.get(i),
            Template::Gpu(t) => t.ts.get(i),
        }
    }

    /// The name pattern shared by every instance.
    pub fn name_pattern(&self) -> (p: &str)
        ensures
            p@ == self.pattern_view(),
    {
        match self {
            Template::Cpu(t) => t.name_pattern.as_str(),
            Template::Gpu(t) => t.name_pattern.as_str(),
        }
    }

    /// The per-instance digit fillers.
    pub fn name_nums(&self) -> (n: &NameNums)
        ensures
            *n == (match self {
                Template::Cpu(t) => t.name_nums,
                Template::Gpu(t) => t.name_nums,
            }),
    {
        match self {
            Template::Cpu(t) => &t.name_nums,
            Template::Gpu(t) => &t.name_nums,
        }
    }

    /// True for a GPU template.
    pub fn is_gpu(&self) -> (b: bool)
        ensures
            b == (*self is Gpu),
    {
        match self {
            Template::Gpu(_) => true,
            Template::Cpu(_) => false,
        }
    }
}

/// One trace event.  Its arguments are kept as key/value pairs.
#[derive(Clone, Debug)]
pub struct Event {
    pub name: String,
    pub ts: i64,
    /// Duration in microseconds; instants and metadata have none.
    pub dur: Option<i64>,
    pub cat: Option<String>,
    pub ph: Phase,
    pub pid: i64,
    pub tid: String,
    pub args: Option<Vec<(String, ArgValue)>>,
    /// Async id.
    pub id: Option<i64>,
    /// Binding point.
    pub bp: Option<String>,
    /// Scope.
    pub s: Option<String>,
}

/// The value of the first argument named `key`, if any.
pub open spec fn arg_value(args: Seq<(String, ArgValue)>, key: Seq<char>) -> Option<ArgValue>
    decreases args.len(),
{
    if args.len() == 0 {
        None
    } else if args[0].0@ == key {
        Some(args[0].1)
    } else {
        arg_value(args.drop_first(), key)
    }
}

/// The value of argument `key` of an event: `Null` when the event has no
/// such argument.
pub open spec fn event_arg(args: Option<Vec<(String, ArgValue)>>, key: Seq<char>) -> ArgValue {
    match args {
        Some(a) => match arg_value(a@, key) {
            Some(v) => v,
            None => ArgValue::Null,
        },
        None => ArgValue::Null,
    }
}

/// The value of argument `key` of an event, `Null` when it has none.
pub fn lookup_arg(args: &Option<Vec<(String, ArgValue)>>, key: &String) -> (v: ArgValue)
    ensures
        v == event_arg(*args, key@),
{
    match args {
        None => ArgValue::Null,
        Some(a) => {
            let mut i: usize = 0;
            assert(a@.skip(0) =~= a@);
            while i < a.len()
                invariant
                    i <= a@.len(),
                    *args == Some(*a),
                    arg_value(a@, key@) == arg_value(a@.skip(i as int), key@),
                decreases a@.len() - i,
            {
                proof {
                    assert(a@.skip(i as int)[0] == a@[i as int]);
                    assert(a@.skip(i as int).drop_first() =~= a@.skip(i + 1));
                }
                if a[i].0 == *key {
                    proof {
                        assert(arg_value(a@.skip(i as int), key@) == Some(a@[i as int].1));
                    }
                    return a[i].1.copy();
                }
                i += 1;
            }
            proof {
                assert(a@.skip(i as int).len() == 0);
            }
            ArgValue::Null
        },
    }
}

/// The value of argument `key` of an event, if it has one.
pub fn find_arg(args: &Option<Vec<(String, ArgValue)>>, key: &String) -> (v: Option<ArgValue>)
    ensures
        v == (match *args {
            Some(a) => arg_value(a@, key@),
            None => None::<ArgValue>,
        }),
{
    match args {
        None => None,
        Some(a) => {
            let mut i: usize = 0;
            assert(a@.skip(0) =~= a@);
            while i < a.len()
                invariant
                    i <= a@.len(),
                    *args == Some(*a),
                    arg_value(a@, key@) == arg_value(a@.skip(i as int), key@),
                decreases a@.len() - i,
            {
                proof {
                    assert(a@.skip(i as int)[0] == a@[i as int]);
                    assert(a@.skip(i as int).drop_first() =~= a@.skip(i + 1));
                }
                if a[i].0 == *key {
                    proof {
                        assert(arg_value(a@.skip(i as int), key@) == Some(a@[i as int].1));
                    }
                    return Some(a[i].1.copy());
                }
                i += 1;
            }
            proof {
                assert(a@.skip(i as int).len() == 0);
            }
            None
        },
    }
}

/// The event has an argument named `key`.
pub open spec fn has_arg_key(args: Option<Vec<(String, ArgValue)>>, key: Seq<char>) -> bool {
    match args {
        Some(a) => exists|q: int| 0 <= q < a@.len() && #[trigger] a@[q].0@ == key,
        None => false,
    }
}

/// The total number of arguments of a list of events.
pub open spec fn total_args(evs: Seq<Event>) -> int
    decreases evs.len(),
{
    if evs.len() == 0 {
        0
    } else {
        total_args(evs.drop_last()) + arg_count_of(evs.last())
    }
}

/// The number of arguments of an event.
pub open spec fn arg_count_of(e: Event) -> int {
    match e.args {
        Some(a) => a@.len() as int,
        None => 0,
    }
}

/// Appending an event adds its arguments to the total.
pub proof fn lemma_total_args_push(evs: Seq<Event>, e: Event)
    ensures
        total_args(evs.push(e)) == total_args(evs) + arg_count_of(e),
{
    assert(evs.push(e).drop_last() =~= evs);
}

/// A prefix has no more arguments than the whole list.
pub proof fn lemma_total_args_prefix(evs: Seq<Event>, k: int)
    requires
        0 <= k <= evs.len(),
    ensures
        total_args(evs.take(k)) <= total_args(evs),
        0 <= total_args(evs.take(k)),
    decreases evs.len(),
{
    if k == evs.len() {
        assert(evs.take(k) =~= evs);
        lemma_total_args_nonneg(evs);
    } else {
        lemma_total_args_prefix(evs.drop_last(), k);
        assert(evs.drop_last().take(k) =~= evs.take(k));
    }
}

/// The total is never negative.
pub proof fn lemma_total_args_nonneg(evs: Seq<Event>)
    ensures
        total_args(evs) >= 0,
    decreases evs.len(),
{
    if evs.len() > 0 {
        lemma_total_args_nonneg(evs.drop_last());
    }
}

/// Some event of `evs` has an argument named `key`.
pub open spec fn some_event_has_key(evs: Seq<Event>, key: Seq<char>) -> bool {
    exists|t: int| 0 <= t < evs.len() && has_arg_key(#[trigger] evs[t].args, key)
}

/// The views of a list of strings.
pub open spec fn string_list_view(v: Seq<String>) -> Seq<Seq<char>> {
    v.map(|_i: int, s: String| s@)
}

/// The distinct argument keys of `events`, in ascending byte order.
pub fn collect_arg_keys(events: &Vec<Event>) -> (keys: Vec<String>)
    requires
        total_args(events@) <= u32::MAX,
    ensures
        string_list_view(keys@).no_duplicates(),
        forall|key: Seq<char>| #[trigger] string_list_view(keys@).contains(key) <==> some_event_has_key(events@, key),
        forall|i: int, j: int| 0 <= i < j < keys@.len() ==> bytes_le(utf8(keys@[i]@), utf8(keys@[j]@)),
{
    let mut seen = StringDict::new();
    let mut t: usize = 0;
    proof {
        lemma_total_args_nonneg(events@);
    }
    while t < events.len()
        invariant
            t <= events@.len(),
            total_args(events@) <= u32::MAX,
            seen.wf(),
            seen@.len() <= total_args(events@.take(t as int)),
            forall|key: Seq<char>| #[trigger] seen@.contains(key) <==> some_event_has_key(events@.take(t as int), key),
        decreases events@.len() - t,
    {
        let ghost seen0 = seen@;
        let ghost prefix = events@.take(t as int);
        proof {
            lemma_total_args_prefix(events@, t + 1);
            assert(events@.take(t + 1) =~= prefix.push(events@[t as int]));
            lemma_total_args_push(prefix, events@[t as int]);
        }
        match &events[t].args {
            Some(a) => {
                let mut q: usize = 0;
                while q < a.len()
                    invariant
                        q <= a@.len(),
                        events@[t as int].args == Some(*a),
                        seen.wf(),
                        seen@.len() <= seen0.len() + q,
                        seen0.len() + a@.len() <= u32::MAX,
                        forall|key: Seq<char>| #[trigger] seen@.contains(key) <==> (seen0.contains(key) || exists|q2: int|
                            0 <= q2 < q && a@[q2].0@ == key),
                    decreases a@.len() - q,
                {
                    let ghost before = seen@;
                    seen.intern(a[q].0.as_str());
                    proof {
                        assert forall|key: Seq<char>| #[trigger] seen@.contains(key) <==> (seen0.contains(key) || exists|q2: int|
                            0 <= q2 < q + 1 && a@[q2].0@ == key) by {
                            if key == a@[q as int].0@ {
                                let id = choose|id: int| 0 <= id < seen@.len() && seen@[id] == key;
                                assert(seen@.contains(key));
                            }
                            if before.contains(key) {
                                let i = choose|i: int| 0 <= i < before.len() && before[i] == key;
                                assert(seen@[i] == key);
                            }
                            if seen@.contains(key) && key != a@[q as int].0@ {
                                let i = choose|i: int| 0 <= i < seen@.len() && seen@[i] == key;
                                if !before.contains(a@[q as int].0@) {
                                    assert(i < before.len());
                                }
                                assert(before[i] == key);
                            }
                        }
                    }
                    q += 1;
                }
            },
            None => {},
        }
        t += 1;
        proof {
            let e = events@[t - 1];
            assert(events@.take(t as int) == prefix.push(e));
            assert forall|key: Seq<char>| #[trigger] seen@.contains(key) <==> some_event_has_key(events@.take(t as int), key) by {
                let now = events@.take(t as int);
                if some_event_has_key(now, key) {
                    let w = choose|w: int| 0 <= w < now.len() && has_arg_key(#[trigger] now[w].args, key);
                    if w < t - 1 {
                        assert(prefix[w] == now[w]);
                        assert(some_event_has_key(prefix, key));
                    } else {
                        let a = e.args->0;
                        let q2 = choose|q2: int| 0 <= q2 < a@.len() && #[trigger] a@[q2].0@ == key;
                    }
                }
                if seen0.contains(key) {
                    let w = choose|w: int| 0 <= w < prefix.len() && has_arg_key(#[trigger] prefix[w].args, key);
                    assert(now[w] == prefix[w]);
                }
                match e.args {
                    Some(a) => {
                        if exists|q2: int| 0 <= q2 < a@.len() && a@[q2].0@ == key {
                            let q2 = choose|q2: int| 0 <= q2 < a@.len() && a@[q2].0@ == key;
                            assert(has_arg_key(now[t - 1].args, key));
                        }
                    },
                    None => {},
                }
            }
        }
    }
    proof {
        assert(events@.take(events@.len() as int) =~= events@);
        seen.lemma_distinct();
    }
    let ghost sv = seen@;
    let distinct = seen.into_strings();
    let keys = sort_strings(distinct);
    proof {
        let dv = string_list_view(distinct@);
        let kv = string_list_view(keys@);
        assert(dv == sv);
        assert(dv =~= distinct@.map(|_i: int, s: String| s@));
        assert(kv =~= keys@.map(|_i: int, s: String| s@));
        assert(kv.to_multiset() == dv.to_multiset());
        assert(dv.no_duplicates());
        dv.lemma_multiset_has_no_duplicates();
        assert forall|x: Seq<char>| kv.to_multiset().contains(x) implies kv.to_multiset().count(x) == 1 by {}
        kv.lemma_multiset_has_no_duplicates_conv();
        kv.to_multiset_ensures();
        dv.to_multiset_ensures();
        assert forall|key: Seq<char>| #[trigger] kv.contains(key) <==> dv.contains(key) by {
            assert(kv.contains(key) <==> kv.to_multiset().count(key) > 0);
            assert(dv.contains(key) <==> dv.to_multiset().count(key) > 0);
        }
    }
    keys
}

/// What identifies a template: every event with the same signature is
/// folded into the same template.
#[derive(Clone, Debug, PartialEq, Eq, Hash)]
pub struct EventSignature {
    pub normalized_name: String,
    pub cat: Option<String>,
    pub bp: Option<String>,
    pub s: Option<String>,
    /// The argument keys, in ascending byte order.
    pub arg_keys: Vec<String>,
}

/// The argument keys of optional argument entries, in entry order.
pub open spec fn arg_keys_of(args: Option<Vec<(String, ArgValue)>>) -> Seq<Seq<char>> {
    match args {
        Some(a) => a@.map(|_i: int, e: (String, ArgValue)| e.0@),
        None => Seq::empty(),
    }
}

/// `keys` holds the texts of `expected` (as a multiset), in ascending byte
/// order.
pub open spec fn sorted_keys_of(keys: Seq<String>, expected: Seq<Seq<char>>) -> bool {
    &&& string_list_view(keys).to_multiset() == expected.to_multiset()
    &&& forall|i: int, j: int| 0 <= i < j < keys.len() ==> bytes_le(utf8(keys[i]@), utf8(keys[j]@))
}

/// Two lists of texts in ascending byte order that hold the same texts
/// are the same list.
pub proof fn lemma_sorted_texts_unique(a: Seq<Seq<char>>, b: Seq<Seq<char>>)
    requires
        a.to_multiset() == b.to_multiset(),
        forall|i: int, j: int| 0 <= i < j < a.len() ==> bytes_le(utf8(a[i]), utf8(a[j])),
        forall|i: int, j: int| 0 <= i < j < b.len() ==> bytes_le(utf8(b[i]), utf8(b[j])),
    ensures
        a == b,
    decreases a.len(),
{
    broadcast use vstd::seq_lib::group_to_multiset_ensures, vstd::multiset::group_multiset_axioms;

    vstd::seq_lib::to_multiset_len(a);
    vstd::seq_lib::to_multiset_len(b);
    if a.len() == 0 {
        assert(b.len() == 0);
        assert(a =~= b);
    } else {
        assert(b.len() == a.len());
        vstd::seq_lib::to_multiset_contains(a, a[0]);
        vstd::seq_lib::to_multiset_contains(b, a[0]);
        assert(a.contains(a[0]));
        assert(b.contains(a[0]));
        let jb = choose|j: int| 0 <= j < b.len() && b[j] == a[0];
        vstd::seq_lib::to_multiset_contains(a, b[0]);
        vstd::seq_lib::to_multiset_contains(b, b[0]);
        assert(b.contains(b[0]));
        assert(a.contains(b[0]));
        let ja = choose|j: int| 0 <= j < a.len() && a[j] == b[0];
        let x = utf8(a[0]);
        let y = utf8(b[0]);
        if jb > 0 {
            assert(bytes_le(utf8(b[0]), utf8(b[jb])));
        }
        if ja > 0 {
            assert(bytes_le(utf8(a[0]), utf8(a[ja])));
        }
        crate::text::lemma_bytes_less_irreflexive(x);
        crate::text::lemma_bytes_less_irreflexive(y);
        assert(!bytes_less(x, y) && !bytes_less(y, x));
        if x != y {
            lemma_bytes_less_total(x, y);
        }
        vstd::utf8::encode_utf8_decode_utf8(a[0]);
        vstd::utf8::encode_utf8_decode_utf8(b[0]);
        assert(a[0] == b[0]);
        let ta = a.drop_first();
        let tb = b.drop_first();
        assert(a =~= seq![a[0]] + ta);
        assert(b =~= seq![b[0]] + tb);
        vstd::seq_lib::lemma_multiset_commutative(seq![a[0]], ta);
        vstd::seq_lib::lemma_multiset_commutative(seq![b[0]], tb);
        assert(ta.to_multiset() =~= tb.to_multiset()) by {
            assert forall|v: Seq<char>| ta.to_multiset().count(v) == tb.to_multiset().count(v) by {
                assert(a.to_multiset().count(v) == seq![a[0]].to_multiset().count(v) + ta.to_multiset().count(v));
                assert(b.to_multiset().count(v) == seq![b[0]].to_multiset().count(v) + tb.to_multiset().count(v));
            }
        }
        assert forall|i: int, j: int| 0 <= i < j < ta.len() implies bytes_le(utf8(ta[i]), utf8(ta[j])) by {
            assert(ta[i] == a[i + 1] && ta[j] == a[j + 1]);
        }
        assert forall|i: int, j: int| 0 <= i < j < tb.len() implies bytes_le(utf8(tb[i]), utf8(tb[j])) by {
            assert(tb[i] == b[i + 1] && tb[j] == b[j + 1]);
        }
        lemma_sorted_texts_unique(ta, tb);
    }
}

/// A copy of an optional string.
pub fn copy_opt_string(s: &Option<String>) -> (r: Option<String>)
    ensures
        r == *s,
{
    match s {
        Some(x) => Some(x.clone()),
        None => None,
    }
}

/// A list of strings, sorted in ascending byte order.
pub fn sorted_copy(keys: &Vec<String>) -> (r: Vec<String>)
    ensures
        sorted_keys_of(r@, string_list_view(keys@)),
{
    let mut out: Vec<String> = Vec::new();
    let mut i: usize = 0;
    while i < keys.len()
        invariant
            i <= keys@.len(),
            out@.len() == i,
            string_list_view(out@) == string_list_view(keys@).take(i as int),
        decreases keys@.len() - i,
    {
        let k = keys[i].clone();
        proof {
            assert(k@ == keys@[i as int]@);
        }
        let ghost prev = out@;
        out.push(k);
        i += 1;
        proof {
            assert(out@ == prev.push(k));
            assert forall|j: int| 0 <= j < i implies #[trigger] string_list_view(out@)[j] == string_list_view(keys@).take(
                i as int,
            )[j] by {
                if j < i - 1 {
                    assert(string_list_view(prev)[j] == string_list_view(keys@).take(i - 1)[j]);
                    assert(out@[j] == prev[j]);
                }
            }
            assert(string_list_view(out@) =~= string_list_view(keys@).take(i as int));
        }
    }
    proof {
        assert(string_list_view(keys@).take(keys@.len() as int) =~= string_list_view(keys@));
    }
    let ghost ov = out@;
    let r = sort_strings(out);
    proof {
        assert(string_list_view(r@) =~= r@.map(|_i: int, s: String| s@));
        assert(string_list_view(ov) =~= ov.map(|_i: int, s: String| s@));
    }
    r
}

/// Events with the same normalized name, category, `bp`, `s` and argument
/// keys (in any order) get the same template signature, whatever their
/// times, ids, phases, threads and argument values: the signature holds
/// the same texts, its keys in the same ascending order.
pub proof fn lemma_signature_determined(
    e1: Event,
    n1: String,
    s1: EventSignature,
    e2: Event,
    n2: String,
    s2: EventSignature,
)
    requires
        s1.normalized_name == n1 && s1.cat == e1.cat && s1.bp == e1.bp && s1.s == e1.s && sorted_keys_of(
            s1.arg_keys@,
            arg_keys_of(e1.args),
        ),
        s2.normalized_name == n2 && s2.cat == e2.cat && s2.bp == e2.bp && s2.s == e2.s && sorted_keys_of(
            s2.arg_keys@,
            arg_keys_of(e2.args),
        ),
        n1@ == n2@,
        e1.cat.is_some() == e2.cat.is_some() && (e1.cat.is_some() ==> e1.cat->0@ == e2.cat->0@),
        e1.bp.is_some() == e2.bp.is_some() && (e1.bp.is_some() ==> e1.bp->0@ == e2.bp->0@),
        e1.s.is_some() == e2.s.is_some() && (e1.s.is_some() ==> e1.s->0@ == e2.s->0@),
        arg_keys_of(e1.args).to_multiset() == arg_keys_of(e2.args).to_multiset(),
    ensures
        s1.normalized_name@ == s2.normalized_name@,
        string_list_view(s1.arg_keys@) == string_list_view(s2.arg_keys@),
{
    let a = string_list_view(s1.arg_keys@);
    let b = string_list_view(s2.arg_keys@);
    assert forall|i: int, j: int| 0 <= i < j < a.len() implies bytes_le(utf8(a[i]), utf8(a[j])) by {
        assert(a[i] == s1.arg_keys@[i]@);
        assert(a[j] == s1.arg_keys@[j]@);
    }
    assert forall|i: int, j: int| 0 <= i < j < b.len() implies bytes_le(utf8(b[i]), utf8(b[j])) by {
        assert(b[i] == s2.arg_keys@[i]@);
        assert(b[j] == s2.arg_keys@[j]@);
    }
    lemma_sorted_texts_unique(a, b);
}

impl Event {
    /// The event's template signature, with its name in normalized form
    /// `normalized_name`: the name, its category, `bp` and `s`, and its
    /// argument keys sorted.
    pub fn template_signature(&self, normalized_name: String) -> (sig: EventSignature)
        ensures
            sig.normalized_name == normalized_name,
            sig.cat == self.cat,
            sig.bp == self.bp,
            sig.s == self.s,
            sorted_keys_of(sig.arg_keys@, arg_keys_of(self.args)),
    {
        let mut keys: Vec<String> = Vec::new();
        match &self.args {
            Some(a) => {
                let mut i: usize = 0;
                while i < a.len()
                    invariant
                        i <= a@.len(),
                        keys@.len() == i,
                        self.args == Some(*a),
                        string_list_view(keys@) == arg_keys_of(self.args).take(i as int),
                    decreases a@.len() - i,
                {
                    let k = a[i].0.clone();
                    proof {
                        assert(k@ == a@[i as int].0@);
                    }
                    let ghost prev = keys@;
                    keys.push(k);
                    i += 1;
                    proof {
                        assert(keys@ == prev.push(k));
                        assert forall|j: int| 0 <= j < i implies #[trigger] string_list_view(keys@)[j] == arg_keys_of(
                            self.args,
                        ).take(i as int)[j] by {
                            if j < i - 1 {
                                assert(string_list_view(prev)[j] == arg_keys_of(self.args).take(i - 1)[j]);
                                assert(keys@[j] == prev[j]);
                            }
                        }
                        assert(string_list_view(keys@) =~= arg_keys_of(self.args).take(i as int));
                    }
                }
                proof {
                    assert(arg_keys_of(self.args).take(a@.len() as int) =~= arg_keys_of(self.args));
                }
            },
            None => {
                proof {
                    assert(string_list_view(keys@) =~= arg_keys_of(self.args));
                }
            },
        }
        EventSignature {
            normalized_name,
            cat: copy_opt_string(&self.cat),
            bp: copy_opt_string(&self.bp),
            s: copy_opt_string(&self.s),
            arg_keys: sorted_copy(&keys),
        }
    }
}

} // verus!
