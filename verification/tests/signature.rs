use padoc::event::{ArgValue, Event, Phase};

fn ev(ts: i64, args: Vec<(&str, i64)>) -> Event {
    Event {
        name: "layer.12".to_string(),
        ts,
        dur: Some(ts + 1),
        cat: Some("cpu_op".to_string()),
        ph: Phase(b'X'),
        pid: ts,
        tid: "t".to_string(),
        args: Some(args.into_iter().map(|(k, v)| (k.to_string(), ArgValue::Int(v))).collect()),
        id: None,
        bp: None,
        s: None,
    }
}

#[test]
fn equal_inputs_give_equal_signatures() {
    let a = ev(1, vec![("b", 1), ("a", 2)]);
    let b = ev(7, vec![("a", 9), ("b", 3)]);
    let sa = a.template_signature("layer.0".to_string());
    let sb = b.template_signature("layer.0".to_string());
    assert_eq!(sa, sb);
    assert_eq!(sa.arg_keys, vec!["a".to_string(), "b".to_string()]);
}
