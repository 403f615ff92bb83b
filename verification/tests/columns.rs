use padoc::event::{
    find_arg, format_int_with_width, lookup_arg, ArgColumn, ArgValue, DigitColumn, NumColumn, Phase, PhaseColumn,
    StringColumn,
};

#[test]
fn num_column_push_and_get() {
    let mut c = NumColumn::Empty;
    assert!(c.is_empty());
    c.push(3);
    c.push(-4);
    assert_eq!(c.len(), 2);
    assert_eq!(c.get(0), Some(3));
    assert_eq!(c.get(1), Some(-4));
    assert_eq!(c.get(2), None);
    assert_eq!(c.sum_i64(), -1);
}

#[test]
fn num_column_compact_variants() {
    let mut empty = NumColumn::I64(vec![]);
    empty.compact();
    assert!(matches!(empty, NumColumn::Empty));

    let mut same = NumColumn::I64(vec![7, 7, 7]);
    same.compact();
    assert!(matches!(same, NumColumn::Constant { len: 3, value: 7 }));
    assert_eq!(same.sum_i64(), 21);

    let mut small = NumColumn::I64(vec![1, -2, 3]);
    small.compact();
    assert!(matches!(small, NumColumn::I32(_)));
    assert_eq!(small.get(1), Some(-2));

    let mut big = NumColumn::I64(vec![1, 5_000_000_000]);
    big.compact();
    assert!(matches!(big, NumColumn::I64(_)));
    assert_eq!(big.get(1), Some(5_000_000_000));
}

#[test]
fn num_column_extend_and_iterate() {
    let mut a = NumColumn::Constant { len: 2, value: 1 };
    a.extend_from(NumColumn::I32(vec![4, 5]));
    assert_eq!(a.len(), 4);
    let mut it = a.iter_i64();
    let mut seen = Vec::new();
    while let Some(v) = it.next() {
        seen.push(v);
    }
    assert_eq!(seen, vec![1, 1, 4, 5]);

    let mut e = NumColumn::Empty;
    e.extend_from(NumColumn::Constant { len: 3, value: 9 });
    assert!(matches!(e, NumColumn::Constant { len: 3, value: 9 }));
}

#[test]
fn string_column_behaviour() {
    let mut c = StringColumn::Constant { len: 1, value: "stream 7".to_string() };
    c.push("stream 7".to_string());
    assert!(matches!(c, StringColumn::PerInstance(_)));
    assert_eq!(c.get(1), Some("stream 7"));
    c.compact();
    assert!(matches!(c, StringColumn::Constant { len: 2, .. }));
    c.push("stream 8".to_string());
    c.compact();
    assert!(matches!(c, StringColumn::PerInstance(_)));
    assert_eq!(c.len(), 3);
    assert_eq!(c.get(2), Some("stream 8"));
    assert_eq!(c.get(3), None);
}

#[test]
fn phase_column_behaviour() {
    let mut c = PhaseColumn::Empty;
    c.push(Phase(b'X'));
    c.push(Phase(b'X'));
    c.compact();
    assert!(matches!(c, PhaseColumn::Constant { len: 2, value: b'X' }));
    c.extend_from(PhaseColumn::PerInstance(vec![b'i']));
    assert_eq!(c.len(), 3);
    assert_eq!(c.get(2).map(|p| p.as_char()), Some('i'));
    c.compact();
    assert!(matches!(c, PhaseColumn::PerInstance(_)));
}

#[test]
fn width_formatting() {
    assert_eq!(format_int_with_width(40, 3), "040");
    assert_eq!(format_int_with_width(12345, 3), "12345");
    assert_eq!(format_int_with_width(-5, 3), "0-5");
    assert_eq!(format_int_with_width(7, 0), "7");
}

#[test]
fn digit_column_strings() {
    let c = DigitColumn::I32 { width: 2, values: vec![3, 12] };
    assert_eq!(c.len(), 2);
    assert_eq!(c.get_string(0), "03");
    assert_eq!(c.get_string(1), "12");
    assert_eq!(c.get_string(5), "00");
    let k = DigitColumn::Constant("9".to_string());
    assert_eq!(k.len(), 1);
    assert_eq!(k.get_string(4), "9");
    let s = DigitColumn::Strings(vec!["0x1f".to_string()]);
    assert_eq!(s.get_string(0), "0x1f");
    assert_eq!(s.get_string(1), "");
}

fn str_vals(v: &[&str]) -> Vec<ArgValue> {
    v.iter().map(|s| ArgValue::Str(s.to_string())).collect()
}

#[test]
fn arg_column_compacts_to_constant_and_bool() {
    let mut c = ArgColumn::PerInstance(vec![ArgValue::Int(4), ArgValue::Int(4)]);
    c.compact();
    assert!(matches!(c, ArgColumn::Constant(ArgValue::Int(4))));
    assert!(matches!(c.get_owned(9), Some(ArgValue::Int(4))));

    let mut b = ArgColumn::PerInstance(vec![ArgValue::Bool(true), ArgValue::Bool(false)]);
    b.compact();
    match &b {
        ArgColumn::Bool(v) => assert_eq!(v, &vec![1u8, 0u8]),
        other => panic!("unexpected {:?}", other),
    }
    assert!(matches!(b.get_owned(1), Some(ArgValue::Bool(false))));
}

#[test]
fn arg_column_compacts_integers() {
    let mut c = ArgColumn::PerInstance(vec![ArgValue::Int(1), ArgValue::Int(-70000)]);
    c.compact();
    assert!(matches!(c, ArgColumn::I32(_)));
    let mut w = ArgColumn::PerInstance(vec![ArgValue::Int(1), ArgValue::Int(1 << 40)]);
    w.compact();
    assert!(matches!(w, ArgColumn::I64(_)));
    assert!(matches!(w.get_owned(1), Some(ArgValue::Int(v)) if v == 1 << 40));
}

#[test]
fn arg_column_compacts_strings() {
    let mut d = ArgColumn::PerInstance(str_vals(&["a", "b", "a", "a"]));
    d.compact();
    match &d {
        ArgColumn::StrDict { dict, ids } => {
            assert_eq!(dict, &vec!["a".to_string(), "b".to_string()]);
            assert_eq!(ids, &vec![0, 1, 0, 0]);
        }
        other => panic!("unexpected {:?}", other),
    }
    let mut s = ArgColumn::PerInstance(str_vals(&["a", "b", "c"]));
    s.compact();
    assert!(matches!(s, ArgColumn::Str(_)));
    assert!(matches!(s.get_owned(2), Some(ArgValue::Str(ref x)) if x == "c"));
}

#[test]
fn arg_column_mixed_values_stay_per_instance() {
    let mut m = ArgColumn::PerInstance(vec![ArgValue::Int(1), ArgValue::Str("x".to_string())]);
    m.compact();
    assert!(matches!(m, ArgColumn::PerInstance(_)));
    m.push(ArgValue::Null);
    assert_eq!(m.len(), 3);
}

#[test]
fn arg_column_floats_keep_bits() {
    let one = 1.0f64.to_bits();
    let half = 0.5f64.to_bits();
    let mut f = ArgColumn::PerInstance(vec![ArgValue::Float(one), ArgValue::Float(half)]);
    f.compact();
    match &f {
        ArgColumn::F64(v) => assert_eq!(v, &vec![one, half]),
        other => panic!("unexpected {:?}", other),
    }
}

#[test]
fn argument_lookup() {
    let args = Some(vec![
        ("stream".to_string(), ArgValue::Int(7)),
        ("stream".to_string(), ArgValue::Int(8)),
        ("name".to_string(), ArgValue::Str("k".to_string())),
    ]);
    assert!(matches!(lookup_arg(&args, &"stream".to_string()), ArgValue::Int(7)));
    assert!(matches!(lookup_arg(&args, &"missing".to_string()), ArgValue::Null));
    assert!(matches!(lookup_arg(&None, &"stream".to_string()), ArgValue::Null));
    assert!(matches!(find_arg(&args, &"name".to_string()), Some(ArgValue::Str(_))));
    assert!(find_arg(&args, &"missing".to_string()).is_none());
}

#[test]
fn arg_value_equality_as_json() {
    assert!(ArgValue::Float(0.0f64.to_bits()).same(&ArgValue::Float((-0.0f64).to_bits())));
    assert!(!ArgValue::Int(1).same(&ArgValue::UInt(1)));
    assert!(ArgValue::Str("a".to_string()).same(&ArgValue::Str("a".to_string())));
}

#[test]
fn arg_column_mixed_numbers_read_back_as_they_were() {
    let half = 0.5f64.to_bits();
    let mut m = ArgColumn::PerInstance(vec![ArgValue::Int(1), ArgValue::Float(half)]);
    m.compact();
    assert!(matches!(m, ArgColumn::PerInstance(_)));
    assert!(matches!(m.get_owned(0), Some(ArgValue::Int(1))));
    assert!(matches!(m.get_owned(1), Some(ArgValue::Float(b)) if b == half));
}
