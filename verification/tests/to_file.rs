use zhang::parser::parse_zhang;
use zhang::text::ToAvaroFile;

fn parse(from: &str) -> String {
    let directive = parse_zhang(from).unwrap().into_iter().next().unwrap();
    directive.data.to_text()
}

fn parse_and_test(from: &str) {
    assert_eq!(from, parse(from));
}

#[test]
fn open_to_text() {
    parse_and_test("1970-01-01 open Equity:hello CNY");
}

#[test]
fn balance() {
    parse_and_test("1970-01-01 balance Equity:hello 10 CNY");
}

#[test]
fn option() {
    parse_and_test("option \"hello\" \"value\"");
}

#[test]
fn close() {
    parse_and_test("1970-01-01 close Equity:hello");
}

#[test]
fn commodity() {
    parse_and_test("1970-01-01 commodity CNY");
    parse_and_test("1970-01-01 commodity CNY\n  a: \"b\"");
}

#[test]
fn transaction() {
    assert_eq!(
        "1970-01-01 * \"Payee\" \"Narration\"\n  Assets:123 -1 CNY\n  Expenses:TestCategory:One 1 CNY",
        parse(
            r#"1970-01-01 * "Payee" "Narration"
                  Assets:123  -1 CNY
                  Expenses:TestCategory:One 1 CNY"#
        )
    );
    assert_eq!(
        "1970-01-01 * \"Narration\"\n  Assets:123 -1 CNY\n  Expenses:TestCategory:One 1 CNY",
        parse(
            r#"1970-01-01 * "Narration"
                  Assets:123  -1 CNY
                  Expenses:TestCategory:One 1 CNY"#
        )
    );

    assert_eq!(
        "1970-01-01 * \"Narration\"\n  Assets:123 -1 CNY { 0.1 USD, 2111-11-11 }\n  Expenses:TestCategory:One 1 CNY { 0.1 USD }",
        parse(
            r#"1970-01-01 * "Narration"
                  Assets:123  -1 CNY {0.1 USD , 2111-11-11}
                  Expenses:TestCategory:One 1 CNY {0.1 USD}"#
        )
    );
    assert_eq!(
        "1970-01-01 * \"Payee\" \"Narration\"\n  Assets:123 -1 CNY\n  Expenses:TestCategory:One 0.5 CNY\n  Expenses:TestCategory:Two 0.5 CNY",
        parse(
            r#"1970-01-01 * "Payee" "Narration"
                  Assets:123  -1 CNY
                  Expenses:TestCategory:One 0.5 CNY
                  Expenses:TestCategory:Two 0.5 CNY"#
        )
    );
    assert_eq!(
        "1970-01-01 * \"Payee\" \"Narration\"\n  Assets:123 -1 CNY\n  Expenses:TestCategory:One",
        parse(
            r#"1970-01-01 * "Payee" "Narration"
                  Assets:123  -1 CNY
                  Expenses:TestCategory:One"#
        )
    );
    assert_eq!(
        "1970-01-01 * \"Payee\" \"Narration\"\n  Assets:123 -1 CNY\n  Expenses:TestCategory:One 1 CCC @ 1 CNY",
        parse(
            r#"1970-01-01 * "Payee" "Narration"
                  Assets:123  -1 CNY
                  Expenses:TestCategory:One 1 CCC @ 1 CNY"#
        )
    );
    assert_eq!(
        "1970-01-01 * \"Payee\" \"Narration\"\n  Assets:123 -1 CNY\n  Expenses:TestCategory:One 1 CCC @@ 1 CNY",
        parse(
            r#"1970-01-01 * "Payee" "Narration"
                  Assets:123  -1 CNY
                  Expenses:TestCategory:One 1 CCC @@ 1 CNY"#
        )
    );
    assert_eq!(
        "1970-01-01 * \"Narration\" #mytag #tag2\n  Assets:123 -1 CNY\n  Expenses:TestCategory:One 1 CCC @@ 1 CNY",
        parse(
            r#"1970-01-01 *  "Narration" #mytag #tag2
                  Assets:123  -1 CNY
                  Expenses:TestCategory:One 1 CCC @@ 1 CNY"#
        )
    );
    assert_eq!(
        "1970-01-01 * \"Payee\" \"Narration\" #mytag #tag2\n  Assets:123 -1 CNY\n  Expenses:TestCategory:One 1 CCC @@ 1 CNY",
        parse(
            r#"1970-01-01 * "Payee" "Narration" #mytag #tag2
                  Assets:123  -1 CNY
                  Expenses:TestCategory:One 1 CCC @@ 1 CNY"#
        )
    );
    assert_eq!(
        "1970-01-01 * \"Payee\" \"Narration\" ^link1 ^link-2\n  Assets:123 -1 CNY\n  Expenses:TestCategory:One 1 CCC @@ 1 CNY",
        parse(
            r#"1970-01-01 * "Payee" "Narration" ^link1 ^link-2
                  Assets:123  -1 CNY
                  Expenses:TestCategory:One 1 CCC @@ 1 CNY"#
        )
    );
}

#[test]
fn note() {
    parse_and_test(r#"1970-01-01 note Assets:123 "你 好 啊\\""#);
}

#[test]
fn document() {
    parse_and_test("1970-01-01 document Assets:123 \"\"");
    parse_and_test(r#"1970-01-01 document Assets:123 "here I am""#);
}

#[test]
fn price() {
    parse_and_test(r#"1970-01-01 price USD 7 CNY"#);
}

#[test]
fn event() {
    parse_and_test(r#"1970-01-01 event "location" "China""#);
}

#[test]
fn custom() {
    parse_and_test(r#"1970-01-01 custom "budget" Expenses:Eat "monthly" CNY"#);
}

#[test]
fn plugin() {
    parse_and_test(r#"plugin "module name" "config data""#);
    parse_and_test(r#"plugin "module name""#);
}

#[test]
fn include_directive() {
    parse_and_test(r#"include "file path""#);
}

#[test]
fn pad() {
    // The `pad` directive is deprecated: a pad line is not read, and the balance directive
    // carries the pad instead (`balance ... with pad ...`).
    assert!(parse_zhang("1970-01-01 pad Assets:123:234:English:中文:日本語:한국어 Equity:ABC").is_err());
    parse_and_test("1970-01-01 balance Assets:123:234:English:中文:日本語:한국어 10 CNY with pad Equity:ABC");
}

#[test]
fn comment() {
    parse_and_test(";你好啊");
}
