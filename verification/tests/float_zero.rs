use toy_lang::float_zero::float_text_is_zero;

fn is_zero(text: &str) -> bool {
    float_text_is_zero(&text.chars().collect())
}

#[test]
fn written_zeros_are_zero() {
    assert!(is_zero("0.0"));
    assert!(is_zero("0.000"));
    assert!(is_zero("-0.0"));
    assert!(is_zero("0e999999999999999999999999999999"));
}

#[test]
fn nonzero_values_are_not_zero() {
    assert!(!is_zero("1.5"));
    assert!(!is_zero("0.001"));
    assert!(!is_zero("1e400"));
    assert!(!is_zero("3e-324"));
    assert!(!is_zero("1e-323"));
}

#[test]
fn values_that_round_to_zero_are_zero() {
    assert!(is_zero("1e-400"));
    assert!(is_zero("2e-324"));
    assert!(is_zero("1e-99999999999999999999999999"));
    let tiny = format!("0.{}1", "0".repeat(400));
    assert!(is_zero(&tiny));
}

#[test]
fn the_rounding_boundary_is_half_the_smallest_subnormal() {
    assert!(is_zero("2.4703282292062327e-324"));
    assert!(!is_zero("2.4703282292062328e-324"));
    let five = "24703282292062327208828439643411068618252990130716238221279284125033775363510437593264991818081799618989828234772285886546332835517796989819938739800539093906315035659515570226392290858392449105184435931802849936536152500319370457678249219365623669863658480757001585769269903706311928279558551332927834338409351978015531246597263579574622766465272827220056374006485499977096599470454020828166226237857393450736339007967761930577506740176324673600968951340535537458516661134223766678604162159680461914467291840300530057530849048765391711386591646239524912623653881879636239373280423891018672348497668235089863388587925628302755995657524455507255189313690836254779186948667994968324049705821028513185451396213837722826145437693412532098591327667236328125";
    assert!(is_zero(&format!("{}e-1075", five)));
    assert!(!is_zero(&format!("{}1e-1076", five)));
    assert!(is_zero(&format!("0.{}{}", "0".repeat(1075 - five.len()), five)));
}

#[test]
fn malformed_text_is_not_zero() {
    assert!(!is_zero("."));
    assert!(!is_zero("0.0.0"));
    assert!(!is_zero("0e"));
    assert!(!is_zero("0x0"));
    assert!(!is_zero(""));
}
