use graphql_parser::line_column;
use graphql_parser::parse_document;
use graphql_parser::parse_executable;
use graphql_parser::parse_type_system;
use graphql_parser::DocumentDefinition;
use graphql_parser::ErrorKind;
use graphql_parser::TypeDefinition;
use graphql_parser::TypeSystemDefinition;

#[test]
fn empty_and_ignorable_inputs() {
    assert_eq!(parse_document("").unwrap().definition_list.len(), 0);
    assert_eq!(parse_type_system("").unwrap().definition_list.len(), 0);
    assert_eq!(parse_executable("").unwrap().definition_list.len(), 0);
    // commas count as ignorable characters
    assert_eq!(parse_document(" ,,\t\r\n ").unwrap().definition_list.len(), 0);
}

#[test]
fn mixed_document() {
    let source = "type Foo { a: Int }\nquery { x }\nschema { query: Foo }";
    let doc = parse_document(source).unwrap();
    assert_eq!(doc.definition_list.len(), 3);
    assert!(matches!(doc.definition_list[0].value, DocumentDefinition::Type(_)));
    assert!(matches!(doc.definition_list[1].value, DocumentDefinition::Operation(_)));
    assert!(matches!(doc.definition_list[2].value, DocumentDefinition::Schema(_)));
    // the restricted grammars refuse the mixture
    assert!(parse_type_system(source).is_err());
    assert!(parse_executable(source).is_err());
}

#[test]
fn trailing_input_is_reported_at_its_offset() {
    let source = "type Foo { a: Int } %";
    let e = parse_document(source).unwrap_err();
    assert_eq!(e.kind, ErrorKind::TrailingInput);
    assert_eq!(e.offset, source.find('%').unwrap());
}

#[test]
fn failure_offset_points_into_the_source() {
    let source = "type Foo { a: Int }\ntype %";
    let e = parse_type_system(source).unwrap_err();
    // the second definition cannot parse, so the first unreconcilable
    // offset is where it begins
    assert_eq!(e.offset, 20);
    let (line, column) = line_column(source, e.offset);
    assert_eq!((line, column), (2, 1));
}

#[test]
fn line_column_derivation() {
    let source = "a\nbc\n";
    assert_eq!(line_column(source, 0), (1, 1));
    assert_eq!(line_column(source, 1), (1, 2));
    assert_eq!(line_column(source, 2), (2, 1));
    assert_eq!(line_column(source, 3), (2, 2));
    assert_eq!(line_column(source, 5), (3, 1));
}

#[test]
fn spans_are_ordered_and_nested() {
    let source = "type Foo { bar: Int }";
    let doc = parse_type_system(source).unwrap();
    let def = &doc.definition_list[0];
    assert_eq!((def.start, def.end), (0, source.len()));
    match &def.value {
        TypeSystemDefinition::Type(t) => {
            assert!(def.start <= t.start && t.end <= def.end);
            match &t.value {
                TypeDefinition::Object(o) => {
                    let name = &o.value.name;
                    assert!(t.start <= name.start && name.end <= t.end);
                    assert_eq!(&source[name.start..name.end], "Foo");
                    let field = &o.value.field_list[0];
                    assert!(t.start <= field.start && field.end <= t.end);
                    assert_eq!(&source[field.start..field.end], "bar: Int");
                    let fty = &field.value.ty;
                    assert!(field.start <= fty.start && fty.end <= field.end);
                    assert_eq!(&source[fty.start..fty.end], "Int");
                },
                other => panic!("expected an object type, got {:?}", other),
            }
        },
        other => panic!("expected a type definition, got {:?}", other),
    }
}

#[test]
fn definitions_come_in_source_order() {
    let source = "scalar A scalar B scalar C";
    let doc = parse_type_system(source).unwrap();
    assert_eq!(doc.definition_list.len(), 3);
    for w in doc.definition_list.windows(2) {
        assert!(w[0].end <= w[1].start);
    }
}

#[test]
fn comments_between_definitions() {
    let source = "scalar A\n# a comment line\nscalar B";
    let doc = parse_type_system(source).unwrap();
    assert_eq!(doc.definition_list.len(), 2);
}

#[test]
fn block_string_may_hold_single_quotes() {
    let source = "\"\"\"a \"quoted\" word\"\"\"\nscalar Q";
    let doc = parse_type_system(source).unwrap();
    match &doc.definition_list[0].value {
        TypeSystemDefinition::Type(t) => match &t.value {
            TypeDefinition::Scalar(s) => {
                assert_eq!(s.value.description.as_ref().unwrap().value, "a \"quoted\" word");
            },
            other => panic!("expected a scalar, got {:?}", other),
        },
        other => panic!("expected a type definition, got {:?}", other),
    }
}

#[test]
fn unterminated_block_string_fails() {
    assert!(parse_type_system("\"\"\"dangling\nscalar Q").is_err());
}

#[test]
fn string_literal_stops_at_line_ending() {
    // a quoted string may not span lines
    assert!(parse_type_system("type T { f(a: S = \"one\ntwo\"): Int }").is_err());
}

#[test]
fn underscored_names() {
    let doc = parse_executable("{ __typename _a1 }").unwrap();
    assert_eq!(doc.definition_list.len(), 1);
}

#[test]
fn empty_block_string_description() {
    let doc = parse_type_system("\"\"\"\"\"\"\nscalar Q").unwrap();
    match &doc.definition_list[0].value {
        TypeSystemDefinition::Type(t) => match &t.value {
            TypeDefinition::Scalar(s) => {
                assert_eq!(s.value.description.as_ref().unwrap().value, "");
            },
            other => panic!("expected a scalar, got {:?}", other),
        },
        other => panic!("expected a type definition, got {:?}", other),
    }
}

#[test]
fn several_comment_lines_before_a_definition() {
    let source = "# first note\n# second note\ntype Foo { a: Int }";
    assert_eq!(parse_type_system(source).unwrap().definition_list.len(), 1);
}

#[test]
fn block_description_between_comments() {
    let source = "# pre\n\"\"\"doc\"\"\" # post\ntype Foo { a: Int }";
    let doc = parse_type_system(source).unwrap();
    match &doc.definition_list[0].value {
        TypeSystemDefinition::Type(t) => match &t.value {
            TypeDefinition::Object(o) => {
                assert_eq!(o.value.description.as_ref().unwrap().value, "doc");
            },
            other => panic!("expected an object type, got {:?}", other),
        },
        other => panic!("expected a type definition, got {:?}", other),
    }
}

#[test]
fn text_outside_the_basic_range_is_kept_raw() {
    let source = "\"\"\"Gr\u{fc}\u{df}e\"\"\"\nscalar X";
    let doc = parse_type_system(source).unwrap();
    match &doc.definition_list[0].value {
        TypeSystemDefinition::Type(t) => match &t.value {
            TypeDefinition::Scalar(s) => {
                assert_eq!(s.value.description.as_ref().unwrap().value, "Gr\u{fc}\u{df}e");
            },
            other => panic!("expected a scalar, got {:?}", other),
        },
        other => panic!("expected a type definition, got {:?}", other),
    }
}

#[test]
fn line_column_at_end_of_input() {
    assert_eq!(line_column("ab", 2), (1, 3));
}

#[test]
fn int_overflow_inside_document_fails() {
    assert!(parse_type_system("type T { f(a: Int = 99999999999999999999): Int }").is_err());
}
