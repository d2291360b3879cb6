use probe_telemetry::selector::{
    is_preaggregated, parse_variant, variant_record_size, ProbeVariant,
};

#[test]
fn known_variant_names_parse() {
    assert_eq!(parse_variant("ebql"), Some(ProbeVariant::Ebql));
    assert_eq!(parse_variant("opt"), Some(ProbeVariant::Opt));
    assert_eq!(parse_variant("unopt"), Some(ProbeVariant::Unopt));
}

#[test]
fn unknown_variant_names_are_rejected() {
    assert_eq!(parse_variant(""), None);
    assert_eq!(parse_variant("raw"), None);
    assert_eq!(parse_variant("EBQL"), None);
    assert_eq!(parse_variant("opt "), None);
    assert_eq!(parse_variant("unopted"), None);
}

#[test]
fn preaggregated_variants_use_the_aggregate_shape() {
    assert!(is_preaggregated(ProbeVariant::Ebql));
    assert!(is_preaggregated(ProbeVariant::Opt));
    assert!(!is_preaggregated(ProbeVariant::Unopt));
    assert_eq!(variant_record_size(ProbeVariant::Ebql), 40);
    assert_eq!(variant_record_size(ProbeVariant::Opt), 40);
    assert_eq!(variant_record_size(ProbeVariant::Unopt), 32);
}
