//! Argument values and the compact per-instance argument columns.

use vstd::prelude::*;

use crate::dict::StringDict;
use crate::event::fits_i32;

verus! {

/// Mask of every bit of an IEEE-754 double but the sign bit.
pub const MAGNITUDE_MASK: u64 = 0x7fff_ffff_ffff_ffffu64;

/// One argument value of a chrome-trace event.  Numbers keep the three
/// shapes of a JSON number: an integer that fits `i64`, a larger unsigned
/// integer, and a double (by its bit pattern).  Nested arrays and objects are
/// held as their JSON text.
#[derive(Clone, Debug)]
pub enum ArgValue {
    Null,
    Bool(bool),
    Int(i64),
    UInt(u64),
    Float(u64),
    Str(String),
    Json(String),
}

/// Two doubles, by their bit patterns, compare equal: the same bits, or both
/// a zero of either sign.
pub open spec fn same_float(a: u64, b: u64) -> bool {
    a == b || ((a & MAGNITUDE_MASK) == 0 && (b & MAGNITUDE_MASK) == 0)
}

/// Equality of argument values as JSON values.
pub open spec fn same_arg(a: ArgValue, b: ArgValue) -> bool {
    match (a, b) {
        (ArgValue::Null, ArgValue::Null) => true,
        (ArgValue::Bool(x), ArgValue::Bool(y)) => x == y,
        (ArgValue::Int(x), ArgValue::Int(y)) => x == y,
        (ArgValue::UInt(x), ArgValue::UInt(y)) => x == y,
        (ArgValue::Float(x), ArgValue::Float(y)) => same_float(x, y),
        (ArgValue::Str(x), ArgValue::Str(y)) => x@ == y@,
        (ArgValue::Json(x), ArgValue::Json(y)) => x@ == y@,
        _ => false,
    }
}

/// The bit pattern is a finite double (not an infinity or a NaN).
pub open spec fn finite_float(bits: u64) -> bool {
    (bits >> 52u64) & 0x7ffu64 != 0x7ffu64
}

impl ArgValue {
    /// A copy of the value.
    pub fn copy(&self) -> (r: ArgValue)
        ensures
            r == *self,
    {
        match self {
            ArgValue::Null => ArgValue::Null,
            ArgValue::Bool(b) => ArgValue::Bool(*b),
            ArgValue::Int(i) => ArgValue::Int(*i),
            ArgValue::UInt(u) => ArgValue::UInt(*u),
            ArgValue::Float(f) => ArgValue::Float(*f),
            ArgValue::Str(s) => ArgValue::Str(s.clone()),
            ArgValue::Json(s) => ArgValue::Json(s.clone()),
        }
    }

    /// Equality as JSON values.
    pub fn same(&self, other: &ArgValue) -> (b: bool)
        ensures
            b == same_arg(*self, *other),
    {
        match (self, other) {
            (ArgValue::Null, ArgValue::Null) => true,
            (ArgValue::Bool(x), ArgValue::Bool(y)) => *x == *y,
            (ArgValue::Int(x), ArgValue::Int(y)) => *x == *y,
            (ArgValue::UInt(x), ArgValue::UInt(y)) => *x == *y,
            (ArgValue::Float(x), ArgValue::Float(y)) => *x == *y || ((*x & MAGNITUDE_MASK) == 0 && (
            *y & MAGNITUDE_MASK) == 0),
            (ArgValue::Str(x), ArgValue::Str(y)) => *x == *y,
            (ArgValue::Json(x), ArgValue::Json(y)) => *x == *y,
            _ => false,
        }
    }
}


/// The integer of an `Int` value (0 for any other value).
pub open spec fn int_of(v: ArgValue) -> i64 {
    match v {
        ArgValue::Int(i) => i,
        _ => 0,
    }
}

/// The characters of a `Str` value (empty for any other value).
pub open spec fn str_of(v: ArgValue) -> Seq<char> {
    match v {
        ArgValue::Str(s) => s@,
        _ => Seq::empty(),
    }
}

/// The flag of a `Bool` value (`false` for any other value).
pub open spec fn bool_of(v: ArgValue) -> bool {
    match v {
        ArgValue::Bool(b) => b,
        _ => false,
    }
}

/// Every value equals the first one.
pub open spec fn all_same_arg(vals: Seq<ArgValue>) -> bool {
    forall|i: int| 0 <= i < vals.len() ==> same_arg(#[trigger] vals[i], vals[0])
}

/// Every value is a boolean.
pub open spec fn all_bool(vals: Seq<ArgValue>) -> bool {
    forall|i: int| 0 <= i < vals.len() ==> #[trigger] vals[i] is Bool
}

/// Every value is an integer that fits `i64`.
pub open spec fn all_int(vals: Seq<ArgValue>) -> bool {
    forall|i: int| 0 <= i < vals.len() ==> #[trigger] vals[i] is Int
}

/// Every value is a double.
pub open spec fn all_float(vals: Seq<ArgValue>) -> bool {
    forall|i: int| 0 <= i < vals.len() ==> #[trigger] vals[i] is Float
}

/// The bit patterns of the doubles among `vals` (0 for any other value).
pub open spec fn floats_of(vals: Seq<ArgValue>) -> Seq<u64> {
    vals.map(|_i: int, v: ArgValue| match v {
        ArgValue::Float(b) => b,
        _ => 0u64,
    })
}

/// Every value is a string.
pub open spec fn all_str(vals: Seq<ArgValue>) -> bool {
    forall|i: int| 0 <= i < vals.len() ==> #[trigger] vals[i] is Str
}

/// The integers of the values.
pub open spec fn ints_of(vals: Seq<ArgValue>) -> Seq<i64> {
    vals.map(|_i: int, v: ArgValue| int_of(v))
}

/// The strings of the values.
pub open spec fn strs_of(vals: Seq<ArgValue>) -> Seq<Seq<char>> {
    vals.map(|_i: int, v: ArgValue| str_of(v))
}

/// The distinct elements of `s`, in the order of their first occurrence.
pub open spec fn first_occurrences(s: Seq<Seq<char>>) -> Seq<Seq<char>>
    decreases s.len(),
{
    if s.len() == 0 {
        Seq::empty()
    } else {
        let d = first_occurrences(s.drop_last());
        if d.contains(s.last()) {
            d
        } else {
            d.push(s.last())
        }
    }
}

/// Compact argument column.  While templates are built every column holds
/// one value per instance (`PerInstance`); `compact` turns it into a
/// constant, a typed numeric or boolean column, or a (dictionary-encoded)
/// string column when the values allow it.  A constant column answers every
/// index with its value.
#[derive(Clone, Debug)]
pub enum ArgColumn {
    Constant(ArgValue),
    I32(Vec<i32>),
    I64(Vec<i64>),
    /// Doubles, by their bit patterns.
    F64(Vec<u64>),
    Bool(Vec<u8>),
    Str(Vec<String>),
    StrDict { dict: Vec<String>, ids: Vec<u32> },
    PerInstance(Vec<ArgValue>),
}

impl ArgColumn {
    /// Number of stored entries (1 for a constant column).
    pub open spec fn spec_len(&self) -> nat {
        match self {
            ArgColumn::Constant(_) => 1,
            ArgColumn::I32(v) => v@.len(),
            ArgColumn::I64(v) => v@.len(),
            ArgColumn::F64(v) => v@.len(),
            ArgColumn::Bool(v) => v@.len(),
            ArgColumn::Str(v) => v@.len(),
            ArgColumn::StrDict { ids, .. } => ids@.len(),
            ArgColumn::PerInstance(v) => v@.len(),
        }
    }

    /// The value instance `i` gets back, if any.
    pub open spec fn spec_get(&self, i: int) -> Option<ArgValue> {
        match self {
            ArgColumn::Constant(v) => Some(*v),
            ArgColumn::I32(v) => if 0 <= i < v@.len() {
                Some(ArgValue::Int(v@[i] as i64))
            } else {
                None
            },
            ArgColumn::I64(v) => if 0 <= i < v@.len() {
                Some(ArgValue::Int(v@[i]))
            } else {
                None
            },
            ArgColumn::F64(v) => if 0 <= i < v@.len() && finite_float(v@[i]) {
                Some(ArgValue::Float(v@[i]))
            } else {
                None
            },
            ArgColumn::Bool(v) => if 0 <= i < v@.len() {
                Some(ArgValue::Bool(v@[i] != 0))
            } else {
                None
            },
            ArgColumn::Str(v) => if 0 <= i < v@.len() {
                Some(ArgValue::Str(v@[i]))
            } else {
                None
            },
            ArgColumn::StrDict { dict, ids } => if 0 <= i < ids@.len() && ids@[i] < dict@.len() {
                Some(ArgValue::Str(dict@[ids@[i] as int]))
            } else {
                None
            },
            ArgColumn::PerInstance(v) => if 0 <= i < v@.len() {
                Some(v@[i])
            } else {
                None
            },
        }
    }

    /// Number of stored entries (1 for a constant column).
    pub fn len(&self) -> (n: usize)
        ensures
            n == self.spec_len(),
    {
        match self {
            ArgColumn::Constant(_) => 1,
            ArgColumn::I32(v) => v.len(),
            ArgColumn::I64(v) => v.len(),
            ArgColumn::F64(v) => v.len(),
            ArgColumn::Bool(v) => v.len(),
            ArgColumn::Str(v) => v.len(),
            ArgColumn::StrDict { ids, .. } => ids.len(),
            ArgColumn::PerInstance(v) => v.len(),
        }
    }

    /// True iff nothing is stored.
    pub fn is_empty(&self) -> (b: bool)
        ensures
            b == (self.spec_len() == 0),
    {
        self.len() == 0
    }

    /// The value of instance `i`, rebuilt from the column.
    pub fn get_owned(&self, i: usize) -> (r: Option<ArgValue>)
        ensures
            r == self.spec_get(i as int),
    {
        match self {
            ArgColumn::Constant(v) => Some(v.copy()),
            ArgColumn::I32(v) => if i < v.len() {
                Some(ArgValue::Int(v[i] as i64))
            } else {
                None
            },
            ArgColumn::I64(v) => if i < v.len() {
                Some(ArgValue::Int(v[i]))
            } else {
                None
            },
            ArgColumn::F64(v) => if i < v.len() && (v[i] >> 52u64) & 0x7ffu64 != 0x7ffu64 {
                Some(ArgValue::Float(v[i]))
            } else {
                None
            },
            ArgColumn::Bool(v) => if i < v.len() {
                Some(ArgValue::Bool(v[i] != 0))
            } else {
                None
            },
            ArgColumn::Str(v) => if i < v.len() {
                Some(ArgValue::Str(v[i].clone()))
            } else {
                None
            },
            ArgColumn::StrDict { dict, ids } => if i < ids.len() && (ids[i] as usize) < dict.len() {
                Some(ArgValue::Str(dict[ids[i] as usize].clone()))
            } else {
                None
            },
            ArgColumn::PerInstance(v) => if i < v.len() {
                Some(v[i].copy())
            } else {
                None
            },
        }
    }

    /// Appends one value to a column that is still being built.
    pub fn push(&mut self, value: ArgValue)
        requires
            *old(self) is PerInstance,
        ensures
            *final(self) is PerInstance,
            (*final(self))->PerInstance_0@ == (*old(self))->PerInstance_0@.push(value),
    {
        if let ArgColumn::PerInstance(vs) = self {
            vs.push(value);
        }
    }
}


/// The column `compact` makes of the values `vals` of a non-empty
/// `PerInstance` column; `None` when the values stay per instance (a mix
/// of kinds, such as integers with doubles, is kept as it is).
pub open spec fn compacted_shape(vals: Seq<ArgValue>) -> Option<ArgShape> {
    if all_same_arg(vals) {
        Some(ArgShape::Constant(vals[0]))
    } else if all_bool(vals) {
        Some(ArgShape::Bool(vals.map(|_i: int, v: ArgValue| if bool_of(v) { 1u8 } else { 0u8 })))
    } else if all_int(vals) {
        if fits_i32(ints_of(vals)) {
            Some(ArgShape::I32(ints_of(vals)))
        } else {
            Some(ArgShape::I64(ints_of(vals)))
        }
    } else if all_float(vals) {
        Some(ArgShape::F64(floats_of(vals)))
    } else if all_str(vals) {
        let dict = first_occurrences(strs_of(vals));
        if dict.len() * 2 <= vals.len() {
            Some(ArgShape::StrDict(dict))
        } else {
            Some(ArgShape::Str(strs_of(vals)))
        }
    } else {
        None
    }
}

/// The shape (and contents) of a compacted argument column.
pub enum ArgShape {
    Constant(ArgValue),
    Bool(Seq<u8>),
    I32(Seq<i64>),
    I64(Seq<i64>),
    F64(Seq<u64>),
    StrDict(Seq<Seq<char>>),
    Str(Seq<Seq<char>>),
}

impl ArgColumn {
    /// The column has the given shape and contents for the values `vals`.
    pub open spec fn has_shape(&self, shape: ArgShape, vals: Seq<ArgValue>) -> bool {
        match (shape, *self) {
            (ArgShape::Constant(v), ArgColumn::Constant(w)) => v == w,
            (ArgShape::Bool(b), ArgColumn::Bool(w)) => w@ == b,
            (ArgShape::I32(x), ArgColumn::I32(w)) => w@.map(|_i: int, y: i32| y as i64) == x,
            (ArgShape::I64(x), ArgColumn::I64(w)) => w@ == x,
            (ArgShape::F64(x), ArgColumn::F64(w)) => w@ == x,
            (ArgShape::StrDict(d), ArgColumn::StrDict { dict, ids }) => {
                &&& dict@.map(|_i: int, s: String| s@) == d
                &&& ids@.len() == vals.len()
                &&& forall|i: int|
                    0 <= i < vals.len() ==> #[trigger] ids@[i] < d.len() && d[ids@[i] as int]
                        == str_of(vals[i])
            },
            (ArgShape::Str(x), ArgColumn::Str(w)) => w@.map(|_i: int, s: String| s@) == x,
            _ => false,
        }
    }

    /// Compacts a non-empty `PerInstance` column into its most compact
    /// variant (see [`compacted_shape`]); any other column is left as it is.
    pub fn compact(&mut self)
        requires
            *old(self) is PerInstance ==> (*old(self))->PerInstance_0@.len() <= u32::MAX,
        ensures
            match *old(self) {
                ArgColumn::PerInstance(vals) => if vals@.len() == 0 {
                    *final(self) == *old(self)
                } else {
                    match compacted_shape(vals@) {
                        Some(shape) => final(self).has_shape(shape, vals@),
                        None => *final(self) == *old(self),
                    }
                },
                _ => *final(self) == *old(self),
            },
    {
        let values = match self {
            ArgColumn::PerInstance(v) => v,
            _ => { return; },
        };
        if values.len() == 0 {
            return;
        }
        let ghost vals = values@;
        let n = values.len();
        assert(n <= u32::MAX);
        // 1. Constant detection.
        let mut same = true;
        let mut i: usize = 1;
        while i < n
            invariant_except_break
                same,
                forall|j: int| 0 <= j < i ==> same_arg(#[trigger] vals[j], vals[0]),
            invariant
                n == vals.len(),
                vals == values@,
                1 <= i <= n,
            ensures
                same == all_same_arg(vals),
            decreases n - i,
        {
            if !values[i].same(&values[0]) {
                same = false;
                break;
            }
            i += 1;
        }
        if same {
            let first = values[0].copy();
            *self = ArgColumn::Constant(first);
            return;
        }
        // 2. Typed numeric / bool / string.
        let mut is_int = true;
        let mut is_float = true;
        let mut is_bool = true;
        let mut is_string = true;
        let mut min_i: i64 = i64::MAX;
        let mut max_i: i64 = i64::MIN;
        let mut k: usize = 0;
        let ghost mut min_w: int = 0;
        let ghost mut max_w: int = 0;
        while k < n
            invariant
                n == vals.len(),
                vals == values@,
                k <= n,
                is_int == (forall|j: int| 0 <= j < k ==> #[trigger] vals[j] is Int),
                is_float == (forall|j: int| 0 <= j < k ==> #[trigger] vals[j] is Float),
                is_bool == (forall|j: int| 0 <= j < k ==> #[trigger] vals[j] is Bool),
                is_string == (forall|j: int| 0 <= j < k ==> #[trigger] vals[j] is Str),
                forall|j: int| 0 <= j < k && #[trigger] vals[j] is Int ==> min_i <= int_of(vals[j]) <= max_i,
                k == 0 ==> min_w == 0 && max_w == 0 && min_i == i64::MAX && max_i == i64::MIN,
                is_int && k > 0 ==> 0 <= min_w < k && int_of(vals[min_w]) == min_i,
                is_int && k > 0 ==> 0 <= max_w < k && int_of(vals[max_w]) == max_i,
            decreases n - k,
        {
            match &values[k] {
                ArgValue::Bool(_) => {
                    is_int = false;
                    is_float = false;
                    is_string = false;
                },
                ArgValue::Int(x) => {
                    is_bool = false;
                    is_string = false;
                    is_float = false;
                    assert(int_of(vals[k as int]) == *x);
                    if *x < min_i {
                        min_i = *x;
                        proof {
                            min_w = k as int;
                        }
                    }
                    if *x > max_i {
                        max_i = *x;
                        proof {
                            max_w = k as int;
                        }
                    }
                },
                ArgValue::Float(_) => {
                    is_bool = false;
                    is_string = false;
                    is_int = false;
                },
                ArgValue::UInt(_) => {
                    is_bool = false;
                    is_string = false;
                    is_int = false;
                    is_float = false;
                },
                ArgValue::Str(_) => {
                    is_int = false;
                    is_float = false;
                    is_bool = false;
                },
                _ => {
                    is_int = false;
                    is_float = false;
                    is_bool = false;
                    is_string = false;
                },
            }
            k += 1;
        }
        assert(is_int == all_int(vals));
        assert(is_float == all_float(vals));
        assert(is_bool == all_bool(vals));
        assert(is_string == all_str(vals));
        if is_bool {
            let mut bools: Vec<u8> = Vec::new();
            let mut j: usize = 0;
            while j < n
                invariant
                    n == vals.len(),
                    vals == values@,
                    j <= n,
                    bools@ == vals.take(j as int).map(|_i: int, v: ArgValue| if bool_of(v) { 1u8 } else { 0u8 }),
                decreases n - j,
            {
                let b: u8 = match &values[j] {
                    ArgValue::Bool(b) => if *b { 1u8 } else { 0u8 },
                    _ => 0u8,
                };
                bools.push(b);
                j += 1;
                assert(bools@ =~= vals.take(j as int).map(|_i: int, v: ArgValue| if bool_of(v) { 1u8 } else { 0u8 }));
            }
            assert(vals.take(n as int) =~= vals);
            *self = ArgColumn::Bool(bools);
            return;
        }
        if is_int {
            proof {
                assert(ints_of(vals)[min_w] == min_i);
                assert(ints_of(vals)[max_w] == max_i);
            }
            if min_i >= i32::MIN as i64 && max_i <= i32::MAX as i64 {
                let mut ints: Vec<i32> = Vec::new();
                let mut j: usize = 0;
                while j < n
                    invariant
                        n == vals.len(),
                        vals == values@,
                        all_int(vals),
                        forall|t: int| 0 <= t < n ==> min_i <= #[trigger] int_of(vals[t]) <= max_i,
                        i32::MIN <= min_i,
                        max_i <= i32::MAX,
                        j <= n,
                        ints@.len() == j,
                        forall|t: int| 0 <= t < j ==> #[trigger] ints@[t] as i64 == int_of(vals[t]),
                    decreases n - j,
                {
                    let x: i64 = match &values[j] {
                        ArgValue::Int(x) => *x,
                        _ => 0,
                    };
                    assert(x == int_of(vals[j as int]));
                    ints.push(x as i32);
                    j += 1;
                }
                assert(ints@.map(|_i: int, y: i32| y as i64) =~= ints_of(vals));
                *self = ArgColumn::I32(ints);
            } else {
                let mut ints: Vec<i64> = Vec::new();
                let mut j: usize = 0;
                while j < n
                    invariant
                        n == vals.len(),
                        vals == values@,
                        j <= n,
                        ints@ == ints_of(vals).take(j as int),
                    decreases n - j,
                {
                    let x: i64 = match &values[j] {
                        ArgValue::Int(x) => *x,
                        _ => 0,
                    };
                    ints.push(x);
                    j += 1;
                    assert(ints@ =~= ints_of(vals).take(j as int));
                }
                assert(ints_of(vals).take(n as int) =~= ints_of(vals));
                *self = ArgColumn::I64(ints);
            }
            return;
        }
        if is_float {
            let mut floats: Vec<u64> = Vec::new();
            let mut j: usize = 0;
            while j < n
                invariant
                    j <= n,
                    n == vals.len(),
                    vals == values@,
                    floats@ == floats_of(vals).take(j as int),
                decreases n - j,
            {
                let b: u64 = match &values[j] {
                    ArgValue::Float(b) => *b,
                    _ => 0u64,
                };
                floats.push(b);
                j += 1;
                assert(floats@ =~= floats_of(vals).take(j as int));
            }
            assert(floats_of(vals).take(n as int) =~= floats_of(vals));
            *self = ArgColumn::F64(floats);
            return;
        }
        if is_string {
            let mut dict = StringDict::new();
            let mut ids: Vec<u32> = Vec::new();
            let mut j: usize = 0;
            while j < n
                invariant
                    n == vals.len(),
                    n <= u32::MAX,
                    vals == values@,
                    all_str(vals),
                    j <= n,
                    dict.wf(),
                    dict@ == first_occurrences(strs_of(vals).take(j as int)),
                    dict@.len() <= j,
                    ids@.len() == j,
                    forall|t: int|
                        0 <= t < j ==> #[trigger] ids@[t] < dict@.len() && dict@[ids@[t] as int]
                            == str_of(vals[t]),
                decreases n - j,
            {
                let id = match &values[j] {
                    ArgValue::Str(s) => dict.intern(s.as_str()),
                    _ => dict.intern(""),
                };
                ids.push(id);
                proof {
                    let pre = strs_of(vals).take(j as int);
                    assert(strs_of(vals).take(j + 1).drop_last() =~= pre);
                    assert(strs_of(vals).take(j + 1).last() == str_of(vals[j as int]));
                }
                j += 1;
            }
            assert(strs_of(vals).take(n as int) =~= strs_of(vals));
            let total = n;
            let dict_len = dict.len();
            let strings = dict.into_strings();
            if dict_len <= total / 2 {
                *self = ArgColumn::StrDict { dict: strings, ids };
            } else {
                let mut strs: Vec<String> = Vec::new();
                let mut t: usize = 0;
                while t < n
                    invariant
                        n == vals.len(),
                        ids@.len() == n,
                        strings@.len() == dict_len,
                        forall|q: int|
                            0 <= q < n ==> #[trigger] ids@[q] < dict_len && strings@[ids@[q] as int]@
                                == str_of(vals[q]),
                        t <= n,
                        strs@.map(|_i: int, s: String| s@) == strs_of(vals).take(t as int),
                    decreases n - t,
                {
                    let ghost before = strs@;
                    let s = strings[ids[t] as usize].clone();
                    strs.push(s);
                    assert(strs@.map(|_i: int, s: String| s@) =~= before.map(|_i: int, s: String| s@).push(str_of(vals[t as int])));
                    t += 1;
                    assert(strs@.map(|_i: int, s: String| s@) =~= strs_of(vals).take(t as int));
                }
                assert(strs_of(vals).take(n as int) =~= strs_of(vals));
                *self = ArgColumn::Str(strs);
            }
            return;
        }
    }
}

} // verus!
