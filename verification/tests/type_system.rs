use graphql_parser::parse_document;
use graphql_parser::parse_executable;
use graphql_parser::parse_type_system;
use graphql_parser::DirectiveLocation;
use graphql_parser::ExecutableDirectiveLocation;
use graphql_parser::OperationType;
use graphql_parser::TypeDefinition;
use graphql_parser::TypeSystemDefinition;
use graphql_parser::TypeSystemDocument;
use graphql_parser::TypeSystemDirectiveLocation;

fn only_definition(doc: &TypeSystemDocument) -> &TypeSystemDefinition {
    assert_eq!(doc.definition_list.len(), 1);
    &doc.definition_list[0].value
}

#[test]
fn extension_must_add_something() {
    // a bare extension adds nothing and must fail
    assert!(parse_type_system("extend type Foo").is_err());
    // a directive is an addition; the field list stays empty
    let doc = parse_type_system("extend type Foo @x").unwrap();
    match only_definition(&doc) {
        TypeSystemDefinition::Type(t) => match &t.value {
            TypeDefinition::Object(o) => {
                assert!(o.value.is_extend);
                assert!(o.value.description.is_none());
                assert_eq!(o.value.field_list.len(), 0);
                assert_eq!(o.value.directive_list.len(), 1);
                assert_eq!(o.value.directive_list[0].value.name.value, "x");
            },
            other => panic!("expected an object type, got {:?}", other),
        },
        other => panic!("expected a type definition, got {:?}", other),
    }
    // a body is an addition
    let doc2 = parse_type_system("extend type Foo { bar: Int }").unwrap();
    match only_definition(&doc2) {
        TypeSystemDefinition::Type(t) => match &t.value {
            TypeDefinition::Object(o) => {
                assert!(o.value.is_extend);
                assert_eq!(o.value.field_list.len(), 1);
                assert_eq!(o.value.field_list[0].value.name.value, "bar");
            },
            other => panic!("expected an object type, got {:?}", other),
        },
        other => panic!("expected a type definition, got {:?}", other),
    }
}

#[test]
fn extension_via_interface_list() {
    // an implements clause also counts as an addition
    let doc = parse_type_system("extend type Foo implements Bar").unwrap();
    match only_definition(&doc) {
        TypeSystemDefinition::Type(t) => match &t.value {
            TypeDefinition::Object(o) => {
                assert!(o.value.is_extend);
                assert_eq!(o.value.interface_list.len(), 1);
                assert_eq!(o.value.interface_list[0].value, "Bar");
            },
            other => panic!("expected an object type, got {:?}", other),
        },
        other => panic!("expected a type definition, got {:?}", other),
    }
}

#[test]
fn extend_keyword_needs_its_own_separator() {
    // `extend` glued to the keyword is just an unknown word
    assert!(parse_type_system("extendtype Foo { a: Int }").is_err());
    // any amount of trivia may separate them
    assert!(parse_type_system("extend\n\t type Foo @x").is_ok());
}

#[test]
fn grammar_restriction_type_side() {
    let source = "type Foo { bar: Int }";
    assert!(parse_type_system(source).is_ok());
    assert!(parse_document(source).is_ok());
    assert!(parse_executable(source).is_err());
}

#[test]
fn directive_location_exclusivity() {
    // QUERY decodes to the executable variant, not the type-system one
    let doc = parse_type_system("directive @q on QUERY").unwrap();
    match only_definition(&doc) {
        TypeSystemDefinition::Directive(d) => {
            assert_eq!(d.value.name.value, "q");
            assert_eq!(d.value.location_list.len(), 1);
            assert_eq!(
                d.value.location_list[0].value,
                DirectiveLocation::Executable(ExecutableDirectiveLocation::Query),
            );
        },
        other => panic!("expected a directive definition, got {:?}", other),
    }
}

#[test]
fn directive_locations_longest_keyword_first() {
    let doc = parse_type_system("directive @x on ENUM_VALUE | ENUM | FIELD_DEFINITION").unwrap();
    match only_definition(&doc) {
        TypeSystemDefinition::Directive(d) => {
            let locs: Vec<&DirectiveLocation> =
                d.value.location_list.iter().map(|l| &l.value).collect();
            assert_eq!(
                locs,
                vec![
                    &DirectiveLocation::TypeSystem(TypeSystemDirectiveLocation::EnumValue),
                    &DirectiveLocation::TypeSystem(TypeSystemDirectiveLocation::Enum),
                    &DirectiveLocation::TypeSystem(TypeSystemDirectiveLocation::FieldDefinition),
                ],
            );
        },
        other => panic!("expected a directive definition, got {:?}", other),
    }
}

#[test]
fn directive_definition_with_arguments_and_leading_pipe() {
    let doc = parse_type_system("directive @skip(if: Boolean!) on | FIELD | FRAGMENT_SPREAD").unwrap();
    match only_definition(&doc) {
        TypeSystemDefinition::Directive(d) => {
            assert_eq!(d.value.argument_list.len(), 1);
            assert_eq!(d.value.argument_list[0].value.name.value, "if");
            assert_eq!(d.value.location_list.len(), 2);
        },
        other => panic!("expected a directive definition, got {:?}", other),
    }
}

#[test]
fn unknown_directive_location_fails() {
    assert!(parse_type_system("directive @x on NOWHERE").is_err());
}

#[test]
fn scalar_declarations() {
    let doc = parse_type_system("scalar Date @db(table: Name = \"dates\")").unwrap();
    match only_definition(&doc) {
        TypeSystemDefinition::Type(t) => match &t.value {
            TypeDefinition::Scalar(s) => {
                assert!(!s.value.is_extend);
                assert_eq!(s.value.name.value, "Date");
                assert_eq!(s.value.directive_list.len(), 1);
            },
            other => panic!("expected a scalar type, got {:?}", other),
        },
        other => panic!("expected a type definition, got {:?}", other),
    }
    assert!(parse_type_system("extend scalar Date @db").is_ok());
    // a scalar has no body, so an extension needs at least one directive
    assert!(parse_type_system("extend scalar Date").is_err());
}

#[test]
fn union_declarations() {
    let doc = parse_type_system("union U = A | B").unwrap();
    match only_definition(&doc) {
        TypeSystemDefinition::Type(t) => match &t.value {
            TypeDefinition::Union(u) => {
                let members: Vec<&str> =
                    u.value.member_list.iter().map(|m| m.value.as_str()).collect();
                assert_eq!(members, vec!["A", "B"]);
            },
            other => panic!("expected a union type, got {:?}", other),
        },
        other => panic!("expected a type definition, got {:?}", other),
    }
    assert!(parse_type_system("union U = | A | B").is_ok());
    assert!(parse_type_system("extend union U = C").is_ok());
    assert!(parse_type_system("extend union U").is_err());
}

#[test]
fn enum_declarations() {
    let doc = parse_type_system("enum Color { RED GREEN @deprecated BLUE }").unwrap();
    match only_definition(&doc) {
        TypeSystemDefinition::Type(t) => match &t.value {
            TypeDefinition::Enum(e) => {
                let members: Vec<&str> =
                    e.value.member_list.iter().map(|m| m.value.name.value.as_str()).collect();
                assert_eq!(members, vec!["RED", "GREEN", "BLUE"]);
                assert_eq!(e.value.member_list[1].value.directive_list.len(), 1);
            },
            other => panic!("expected an enum type, got {:?}", other),
        },
        other => panic!("expected a type definition, got {:?}", other),
    }
    assert!(parse_type_system("extend enum Color { MAUVE }").is_ok());
    assert!(parse_type_system("extend enum Color").is_err());
    // the braced member list needs at least one member
    assert!(parse_type_system("enum Empty { }").is_err());
}

#[test]
fn interface_and_input_declarations() {
    assert!(parse_type_system("interface Node { id: ID! }").is_ok());
    assert!(parse_type_system("extend interface Node").is_err());
    assert!(parse_type_system("input Point { x: Int y: Int }").is_ok());
    assert!(parse_type_system("extend input Point { z: Int }").is_ok());
    assert!(parse_type_system("extend input Point").is_err());
}

#[test]
fn object_with_interfaces_arguments_and_types() {
    let source = "type Query implements Node & Timestamped {\n  items(first: Int = 10, after: ID): [Item!]!\n}";
    let doc = parse_type_system(source).unwrap();
    match only_definition(&doc) {
        TypeSystemDefinition::Type(t) => match &t.value {
            TypeDefinition::Object(o) => {
                assert_eq!(o.value.interface_list.len(), 2);
                let field = &o.value.field_list[0].value;
                assert_eq!(field.name.value, "items");
                assert_eq!(field.argument_list.len(), 2);
                // [Item!]! is a non-null list of non-null named items
                match &field.ty.value {
                    graphql_parser::Type::NonNull(inner) => match inner.as_ref() {
                        graphql_parser::Type::List(item) => match item.as_ref() {
                            graphql_parser::Type::NonNull(named) => match named.as_ref() {
                                graphql_parser::Type::Named(n) => assert_eq!(n, "Item"),
                                other => panic!("expected a named type, got {:?}", other),
                            },
                            other => panic!("expected a non-null item, got {:?}", other),
                        },
                        other => panic!("expected a list, got {:?}", other),
                    },
                    other => panic!("expected a non-null type, got {:?}", other),
                }
            },
            other => panic!("expected an object type, got {:?}", other),
        },
        other => panic!("expected a type definition, got {:?}", other),
    }
}

#[test]
fn schema_declarations() {
    let doc = parse_type_system("schema { query: Query mutation: Mutation }").unwrap();
    match only_definition(&doc) {
        TypeSystemDefinition::Schema(s) => {
            assert!(!s.value.is_extend);
            assert_eq!(s.value.field_list.len(), 2);
            assert_eq!(s.value.field_list[0].ty, OperationType::Query);
            assert_eq!(s.value.field_list[0].name.value, "Query");
            assert_eq!(s.value.field_list[1].ty, OperationType::Mutation);
        },
        other => panic!("expected a schema definition, got {:?}", other),
    }
    assert!(parse_type_system("extend schema @x").is_ok());
    assert!(parse_type_system("extend schema { mutation: M }").is_ok());
    assert!(parse_type_system("extend schema").is_err());
    // the keyword needs a trailing separator
    assert!(parse_type_system("schema{ query: Q }").is_err());
}

#[test]
fn descriptions_are_attached() {
    let source = "\"\"\"A point in time.\"\"\"\nscalar Date";
    let doc = parse_type_system(source).unwrap();
    match only_definition(&doc) {
        TypeSystemDefinition::Type(t) => match &t.value {
            TypeDefinition::Scalar(s) => {
                let d = s.value.description.as_ref().unwrap();
                assert_eq!(d.value, "A point in time.");
                assert_eq!(&source[d.start..d.end], "\"\"\"A point in time.\"\"\"");
            },
            other => panic!("expected a scalar type, got {:?}", other),
        },
        other => panic!("expected a type definition, got {:?}", other),
    }
}

#[test]
fn comment_descriptions_are_consumed_not_retained() {
    let source = "# internal note\ntype Foo { bar: Int }";
    let doc = parse_type_system(source).unwrap();
    match only_definition(&doc) {
        TypeSystemDefinition::Type(t) => match &t.value {
            TypeDefinition::Object(o) => {
                assert!(o.value.description.is_none());
                assert_eq!(o.value.name.value, "Foo");
            },
            other => panic!("expected an object type, got {:?}", other),
        },
        other => panic!("expected a type definition, got {:?}", other),
    }
}

#[test]
fn string_and_value_defaults() {
    let source = "type T { f(a: String = \"hi\", b: Boolean = true, c: E = GREEN, d: Int = null): Int }";
    let doc = parse_type_system(source).unwrap();
    match only_definition(&doc) {
        TypeSystemDefinition::Type(t) => match &t.value {
            TypeDefinition::Object(o) => {
                let args = &o.value.field_list[0].value.argument_list;
                assert_eq!(args.len(), 4);
                let vals: Vec<&graphql_parser::Value> =
                    args.iter().map(|a| &a.value.default_value.as_ref().unwrap().value).collect();
                assert_eq!(vals[0], &graphql_parser::Value::String("hi".to_string()));
                assert_eq!(vals[1], &graphql_parser::Value::Boolean(true));
                assert_eq!(vals[2], &graphql_parser::Value::Enum("GREEN".to_string()));
                assert_eq!(vals[3], &graphql_parser::Value::Null);
            },
            other => panic!("expected an object type, got {:?}", other),
        },
        other => panic!("expected a type definition, got {:?}", other),
    }
}
