use tabtree::{parse, parse_array, parse_kvp, ParseError, TArray, TItem, TKeyValuePair};

fn text(s: &str) -> TItem<'_> {
    TItem::String(s)
}

fn pair<'a>(key: &'a str, value: TItem<'a>) -> TItem<'a> {
    TItem::KeyValuePair(TKeyValuePair { key, value: Box::from(value) })
}

fn list(items: Vec<TItem<'_>>) -> TItem<'_> {
    TItem::Array(TArray(items))
}

#[test]
fn simple_key_value_pair() {
    let document = "key\tvalue";
    let expected = TKeyValuePair { key: "key", value: Box::from(TItem::String("value")) };
    assert_eq!(Ok(expected), parse_kvp(document));
}

#[test]
fn simple_key_value_pair_with_multiple_tabs() {
    let document = "key\t\t\tvalue";
    let expected = TKeyValuePair { key: "key", value: Box::from(TItem::String("value")) };
    assert_eq!(Ok(expected), parse_kvp(document));
}

#[test]
fn simple_array() {
    let document = "item1\nitem2";
    let expected = TArray(vec![TItem::String("item1"), TItem::String("item2")]);
    assert_eq!(Ok(expected), parse_array(document));
}

#[test]
fn array_of_kvp() {
    let document = "key\tvalue\nkey2\tvalue2";
    let expected = TArray(vec![
        TItem::KeyValuePair(TKeyValuePair { key: "key", value: Box::from(TItem::String("value")) }),
        TItem::KeyValuePair(TKeyValuePair {
            key: "key2",
            value: Box::from(TItem::String("value2")),
        }),
    ]);
    assert_eq!(Ok(expected), parse_array(document));
}

#[test]
fn kvp_with_array_value() {
    let document = "fruits\n\tapple\n\tbanana";
    let expected = TKeyValuePair {
        key: "fruits",
        value: Box::from(TItem::Array(TArray(vec![
            TItem::String("apple"),
            TItem::String("banana"),
        ]))),
    };
    assert_eq!(Ok(expected), parse_kvp(document));
}

#[test]
fn empty_document_has_no_items() {
    assert_eq!(Ok(TArray(vec![])), parse(""));
}

#[test]
fn plain_text_is_one_string_item() {
    assert_eq!(Ok(TArray(vec![text("just some words")])), parse("just some words"));
    assert_eq!(Ok(TArray(vec![text("x")])), parse("x"));
}

#[test]
fn runs_of_tabs_separate_as_one_tab() {
    let one = parse("key\tvalue");
    let three = parse("key\t\t\tvalue");
    assert_eq!(Ok(TArray(vec![pair("key", text("value"))])), one);
    assert_eq!(one, three);
}

#[test]
fn items_keep_document_order() {
    assert_eq!(Ok(TArray(vec![text("item1"), text("item2")])), parse("item1\nitem2"));
    assert_eq!(Ok(TArray(vec![text("item2"), text("item1")])), parse("item2\nitem1"));
}

#[test]
fn document_of_pairs() {
    assert_eq!(
        Ok(TArray(vec![pair("key", text("value")), pair("key2", text("value2"))])),
        parse("key\tvalue\nkey2\tvalue2")
    );
}

#[test]
fn indented_lines_nest_below_a_bare_key() {
    assert_eq!(
        Ok(TArray(vec![pair("fruits", list(vec![text("apple"), text("banana")]))])),
        parse("fruits\n\tapple\n\tbanana")
    );
}

#[test]
fn parsing_twice_gives_equal_trees() {
    let document = "a\tb\nfruits\n\tapple\n\tcolours\n\t\tred\tff0000\nlast";
    assert_eq!(parse(document), parse(document));
    let copy = String::from(document);
    assert_eq!(parse(document), parse(&copy));
}

#[test]
fn nesting_goes_several_levels_deep_and_comes_back() {
    let document = "a\n\tb\n\t\tc\n\t\td\te\n\tf\ng";
    let expected = TArray(vec![
        pair(
            "a",
            list(vec![pair("b", list(vec![text("c"), pair("d", text("e"))])), text("f")]),
        ),
        text("g"),
    ]);
    assert_eq!(Ok(expected), parse(document));
}

#[test]
fn nested_lines_win_over_a_value_on_the_key_line() {
    assert_eq!(
        Ok(TArray(vec![pair("key", list(vec![text("child")]))])),
        parse("key\tvalue\n\tchild")
    );
    assert_eq!(
        Ok(TArray(vec![pair("key", list(vec![text("child")]))])),
        parse("key\t\n\tchild")
    );
}

#[test]
fn only_the_second_field_is_the_value() {
    assert_eq!(Ok(TArray(vec![pair("a", text("b"))])), parse("a\tb\tc"));
    assert_eq!(Ok(TArray(vec![pair("a", text("b"))])), parse("a\tb\t"));
}

#[test]
fn a_final_newline_adds_no_line() {
    assert_eq!(Ok(TArray(vec![text("a")])), parse("a\n"));
    assert_eq!(Ok(TArray(vec![text("a"), text("")])), parse("a\n\n"));
    assert_eq!(Ok(TArray(vec![text("")])), parse("\n"));
    assert_eq!(Ok(TArray(vec![text("a"), text(""), text("b")])), parse("a\n\nb"));
}

#[test]
fn a_carriage_return_belongs_to_its_line() {
    assert_eq!(Ok(TArray(vec![text("a\r"), text("b")])), parse("a\r\nb"));
    assert_eq!(Ok(TArray(vec![pair("k", text("v\r"))])), parse("k\tv\r\n"));
}

#[test]
fn text_beyond_ascii_is_kept() {
    assert_eq!(
        Ok(TArray(vec![pair("clé", text("värde")), pair("日本", list(vec![text("東京")]))])),
        parse("clé\tvärde\n日本\n\t東京")
    );
}

#[test]
fn a_line_of_tabs_has_no_key() {
    assert_eq!(Err(ParseError::MissingKey { line: 0 }), parse("\t"));
    assert_eq!(Err(ParseError::MissingKey { line: 0 }), parse("\t\t\t"));
    assert_eq!(Err(ParseError::MissingKey { line: 1 }), parse("a\n\t"));
    assert_eq!(Err(ParseError::MissingKey { line: 2 }), parse("a\n\tb\n\t\t\t\nc"));
}

#[test]
fn an_empty_line_cannot_be_a_key() {
    assert_eq!(Err(ParseError::MissingKey { line: 1 }), parse("a\n\n\tb"));
    assert_eq!(Err(ParseError::MissingKey { line: 0 }), parse_kvp(""));
    assert_eq!(Err(ParseError::MissingKey { line: 0 }), parse_kvp("\n\tb"));
}

#[test]
fn a_key_with_a_tab_needs_a_value() {
    assert_eq!(Err(ParseError::MissingValue { line: 0 }), parse("key\t"));
    assert_eq!(Err(ParseError::MissingValue { line: 1 }), parse("a\tb\nkey\t\t\nc"));
    assert_eq!(Err(ParseError::MissingValue { line: 2 }), parse("a\n\tb\n\tkey\t"));
}

#[test]
fn a_bare_string_is_no_pair() {
    assert_eq!(Err(ParseError::MissingValue { line: 0 }), parse_kvp("item1"));
    assert_eq!(Err(ParseError::MissingValue { line: 0 }), parse_kvp("item1\nitem2"));
}

#[test]
fn indentation_advances_one_tab_at_a_time() {
    assert_eq!(Err(ParseError::InconsistentIndentation { line: 1 }), parse("a\n\t\tb"));
    assert_eq!(Err(ParseError::InconsistentIndentation { line: 2 }), parse("a\n\tb\n\t\t\tc"));
    assert_eq!(
        Ok(TArray(vec![pair("a", list(vec![pair("b", list(vec![text("c")]))])), text("d")])),
        parse("a\n\tb\n\t\tc\nd")
    );
}

#[test]
fn a_pair_ends_where_its_nested_lines_end() {
    assert_eq!(Err(ParseError::InconsistentIndentation { line: 1 }), parse_kvp("k\tv\nnext"));
    assert_eq!(Err(ParseError::InconsistentIndentation { line: 2 }), parse_kvp("k\n\tv\nnext"));
}

#[test]
fn the_first_refused_line_decides() {
    assert_eq!(Err(ParseError::MissingValue { line: 0 }), parse("k\t\n\n\tb"));
    assert_eq!(Err(ParseError::MissingKey { line: 1 }), parse("a\n\t\n\t\t\tb\nk\t"));
}

fn keys_and_strings_are_clean(item: &TItem<'_>) -> bool {
    match item {
        TItem::String(s) => !s.contains('\t') && !s.contains('\n'),
        TItem::KeyValuePair(p) => {
            !p.key.is_empty()
                && !p.key.contains('\t')
                && !p.key.contains('\n')
                && !matches!(*p.value, TItem::KeyValuePair(_))
                && keys_and_strings_are_clean(&p.value)
        }
        TItem::Array(a) => a.0.iter().all(keys_and_strings_are_clean),
    }
}

#[test]
fn parsed_trees_have_clean_keys_and_strings() {
    let documents = [
        "",
        "a",
        "a\tb",
        "\n\n",
        "k\t\tv\t\tw\nfruits\t\n\tapple\n\tcolours\n\t\tred\tff0000\r\n\tlast\n",
    ];
    for document in documents {
        let parsed = parse(document).unwrap();
        assert!(parsed.0.iter().all(keys_and_strings_are_clean));
    }
}

#[test]
fn a_long_flat_document_keeps_every_line() {
    let mut document = String::new();
    for i in 0..2000 {
        document.push_str(&format!("key{}\tvalue{}\n", i, i));
    }
    let parsed = parse(&document).unwrap();
    assert_eq!(2000, parsed.0.len());
    assert_eq!(pair("key1999", text("value1999")), parsed.0[1999]);
}

#[test]
fn tabs_before_a_key_are_passed_over() {
    let expected = TKeyValuePair { key: "k", value: Box::from(TItem::String("v")) };
    assert_eq!(Ok(expected), parse_kvp("\tk\tv"));
    let expected = TKeyValuePair { key: "k", value: Box::from(TItem::String("v")) };
    assert_eq!(Ok(expected), parse_kvp("\t\tk\t\tv\t"));
    assert_eq!(Ok(TArray(vec![pair("k", text("v"))])), parse("\tk\tv"));
    assert_eq!(Ok(TArray(vec![pair("k", text("v"))])), parse_array("\t\t\tk\tv\t\t"));
}

#[test]
fn a_pair_is_read_at_the_level_of_its_first_line() {
    let expected = TKeyValuePair {
        key: "fruits",
        value: Box::from(list(vec![text("apple"), text("banana")])),
    };
    assert_eq!(Ok(expected), parse_kvp("\tfruits\n\t\tapple\n\t\tbanana"));
    assert_eq!(
        Err(ParseError::InconsistentIndentation { line: 1 }),
        parse_kvp("\tk\n\t\t\tdeep")
    );
    assert_eq!(Err(ParseError::InconsistentIndentation { line: 1 }), parse_kvp("\tk\tv\n\tnext"));
    assert_eq!(Err(ParseError::InconsistentIndentation { line: 1 }), parse_kvp("\tk\tv\nnext"));
    assert_eq!(Err(ParseError::MissingKey { line: 0 }), parse_kvp("\t\t"));
    assert_eq!(Err(ParseError::MissingValue { line: 0 }), parse_kvp("\tk"));
    assert_eq!(Err(ParseError::MissingValue { line: 0 }), parse_kvp("\tk\t"));
}

#[test]
fn a_line_with_no_key_above_it_sets_its_own_level() {
    assert_eq!(Ok(TArray(vec![text("a")])), parse("\ta"));
    assert_eq!(Ok(TArray(vec![text("a"), text("b"), text("c")])), parse("\t\ta\n\tb\nc"));
    assert_eq!(
        Ok(TArray(vec![pair("k", text("v")), pair("k2", text("v2"))])),
        parse("\tk\tv\nk2\tv2")
    );
    assert_eq!(
        Ok(TArray(vec![pair("k", text("v")), text("same")])),
        parse("\tk\tv\n\tsame")
    );
    assert_eq!(
        Ok(TArray(vec![pair("a", list(vec![text("b")])), text("c")])),
        parse("\ta\n\t\tb\nc")
    );
    assert_eq!(Err(ParseError::InconsistentIndentation { line: 1 }), parse("\ta\n\t\t\tb"));
}
