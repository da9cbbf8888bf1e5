use fcom::template::CombinerTemplate;
use fcom::template::TemplateField;

fn field(name: &str, value: &str) -> TemplateField {
    TemplateField { name: name.as_bytes().to_vec(), value: value.as_bytes().to_vec() }
}

fn render(template: &str, fields: Vec<TemplateField>) -> String {
    let t = CombinerTemplate::from_string(template);
    String::from_utf8(t.generate_output_file_content(&fields)).unwrap()
}

#[test]
fn substitutes_each_field() {
    let out = render("{A}{B}", vec![field("A", "x"), field("B", "y")]);
    assert_eq!(out, "xy");
}

#[test]
fn order_of_disjoint_fields_is_irrelevant() {
    let one = render("{A}{B}", vec![field("A", "x"), field("B", "y")]);
    let two = render("{A}{B}", vec![field("B", "y"), field("A", "x")]);
    assert_eq!(one, "xy");
    assert_eq!(one, two);
}

#[test]
fn unknown_placeholder_stays_literal() {
    let out = render("{A}{C}", vec![field("A", "x"), field("B", "y")]);
    assert_eq!(out, "x{C}");
}

#[test]
fn substituted_value_is_not_re_expanded() {
    let out = render("{A} {B}", vec![field("A", "{B}"), field("B", "y")]);
    assert_eq!(out, "{B} y");
}

#[test]
fn repeated_token_is_replaced_everywhere() {
    let out = render("{N}-{N}-{N}", vec![field("N", "7")]);
    assert_eq!(out, "7-7-7");
}

#[test]
fn plain_text_passes_through() {
    let out = render("no placeholders here", vec![field("A", "x")]);
    assert_eq!(out, "no placeholders here");
}

#[test]
fn from_string_keeps_the_text() {
    let t = CombinerTemplate::from_string("hello {X}");
    assert_eq!(t.template, b"hello {X}".to_vec());
}
