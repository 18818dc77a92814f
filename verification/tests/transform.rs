use zhang::beancount::{BeancountDirective, BeancountOnlyDirective, BeancountTransformer};
use zhang::span::{SpanInfo, Spanned};
use zhang::transform::TextTransformer;

#[test]
fn text_transformer_follows_include_directives() {
    let transformer = TextTransformer::default();
    let directives = transformer.parse("include \"other.zhang\"\noption \"a\" \"b\"\n").unwrap();
    assert_eq!(Some("other.zhang".to_string()), transformer.go_next(&directives[0]));
    assert_eq!(None, transformer.go_next(&directives[1]));
    assert_eq!(2, transformer.transform(directives).len());
}

#[test]
fn beancount_transformer_follows_include_directives() {
    let transformer = BeancountTransformer::default();
    let directives = zhang::beancount_parser::parse("include \"other.bean\"\n", None).unwrap();
    assert_eq!(Some("other.bean".to_string()), transformer.go_next(&directives[0]));
    let tag = Spanned::new(BeancountDirective::Right(BeancountOnlyDirective::PushTag("t".to_string())), SpanInfo::default());
    assert_eq!(None, transformer.go_next(&tag));
}
