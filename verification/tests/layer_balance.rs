use padoc::analysis::layer_operator_balance::{layer_from_full_name, layer_zero_index};

#[test]
fn finds_layer_zero_in_simple_pattern() {
    assert_eq!(layer_zero_index("model.layers.0.attn.proj"), Some(0));
}

#[test]
fn finds_layer_zero_when_other_digits_precede() {
    assert_eq!(layer_zero_index("addr.0x0e0.layers.0.gemm"), Some(3));
}

#[test]
fn returns_none_when_no_layer_slot() {
    assert!(layer_zero_index("aten::linear").is_none());
    assert!(layer_zero_index("layers.0").is_none());
}

#[test]
fn finds_layer_in_full_name() {
    assert_eq!(layer_from_full_name("model.layers.42.attn"), Some(42));
    assert_eq!(layer_from_full_name("/transformer/layers/7/proj"), Some(7));
    assert_eq!(layer_from_full_name("not.a.layer.thing"), None);
}
