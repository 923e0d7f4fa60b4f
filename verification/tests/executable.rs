use graphql_parser::parse_document;
use graphql_parser::parse_executable;
use graphql_parser::parse_type_system;
use graphql_parser::ExecutableDefinition;
use graphql_parser::ExecutableDocument;
use graphql_parser::OperationType;
use graphql_parser::Selection;
use graphql_parser::Value;

fn only_definition(doc: &ExecutableDocument) -> &ExecutableDefinition {
    assert_eq!(doc.definition_list.len(), 1);
    &doc.definition_list[0].value
}

#[test]
fn shorthand_operation_defaults() {
    // `{ field }` is one query operation with no name, no variables, no
    // directives, and one leaf field selection
    let doc = parse_executable("{ field }").unwrap();
    match only_definition(&doc) {
        ExecutableDefinition::Operation(o) => {
            assert_eq!(o.value.ty, OperationType::Query);
            assert!(o.value.name.is_none());
            assert_eq!(o.value.variable_list.len(), 0);
            assert_eq!(o.value.directive_list.len(), 0);
            assert_eq!(o.value.selection_list.len(), 1);
            match &o.value.selection_list[0].value {
                Selection::Field(f) => {
                    assert_eq!(f.name.value, "field");
                    assert!(f.alias.is_none());
                    assert_eq!(f.argument_list.len(), 0);
                    assert_eq!(f.selection_list.len(), 0);
                    assert_eq!(f.directive_list.len(), 0);
                },
                other => panic!("expected a field, got {:?}", other),
            }
        },
        other => panic!("expected an operation, got {:?}", other),
    }
}

#[test]
fn grammar_restriction_executable_side() {
    let source = "query { x }";
    assert!(parse_executable(source).is_ok());
    assert!(parse_document(source).is_ok());
    assert!(parse_type_system(source).is_err());
}

#[test]
fn long_hand_operation() {
    let doc = parse_executable("mutation Rename($id: ID!, $name: String = \"x\") @trace { set { ok } }");
    let doc = doc.unwrap();
    match only_definition(&doc) {
        ExecutableDefinition::Operation(o) => {
            assert_eq!(o.value.ty, OperationType::Mutation);
            assert_eq!(o.value.name.as_ref().unwrap().value, "Rename");
            assert_eq!(o.value.variable_list.len(), 2);
            let v0 = &o.value.variable_list[0].value;
            assert_eq!(v0.name.value, "id");
            assert!(v0.default_value.is_none());
            let v1 = &o.value.variable_list[1].value;
            assert_eq!(v1.name.value, "name");
            assert_eq!(
                v1.default_value.as_ref().unwrap().value,
                Value::String("x".to_string()),
            );
            assert_eq!(o.value.directive_list.len(), 1);
            assert_eq!(o.value.directive_list[0].value.name.value, "trace");
            assert_eq!(o.value.selection_list.len(), 1);
        },
        other => panic!("expected an operation, got {:?}", other),
    }
}

#[test]
fn operation_keyword_needs_separator() {
    // the keyword and the selection set need a separating token
    assert!(parse_executable("query{ x }").is_err());
    assert!(parse_executable("query { x }").is_ok());
}

#[test]
fn field_alias() {
    let doc = parse_executable("{ small: profilePicture }").unwrap();
    match only_definition(&doc) {
        ExecutableDefinition::Operation(o) => match &o.value.selection_list[0].value {
            Selection::Field(f) => {
                assert_eq!(f.alias.as_ref().unwrap().value, "small");
                assert_eq!(f.name.value, "profilePicture");
            },
            other => panic!("expected a field, got {:?}", other),
        },
        other => panic!("expected an operation, got {:?}", other),
    }
}

#[test]
fn field_arguments_and_nesting() {
    // an argument reads as `name : Type [= value]`, the same shape the
    // type-system grammar gives it
    let source = "{ user(id: ID = 4) { name friends(first: Int = 10, kind: Kind = CLOSE) { name } } }";
    let doc = parse_executable(source).unwrap();
    match only_definition(&doc) {
        ExecutableDefinition::Operation(o) => match &o.value.selection_list[0].value {
            Selection::Field(user) => {
                assert_eq!(user.name.value, "user");
                assert_eq!(user.argument_list.len(), 1);
                assert_eq!(
                    user.argument_list[0].value.default_value.as_ref().unwrap().value,
                    Value::Int(4),
                );
                assert_eq!(user.selection_list.len(), 2);
                match &user.selection_list[1].value {
                    Selection::Field(friends) => {
                        assert_eq!(friends.name.value, "friends");
                        assert_eq!(friends.argument_list.len(), 2);
                        assert_eq!(friends.selection_list.len(), 1);
                    },
                    other => panic!("expected a field, got {:?}", other),
                }
            },
            other => panic!("expected a field, got {:?}", other),
        },
        other => panic!("expected an operation, got {:?}", other),
    }
}

#[test]
fn bare_literal_argument_fails() {
    // a bare literal in argument position is no type reference, and the
    // whole selection set fails with it
    assert!(parse_executable("{ user(id: 4) }").is_err());
}

#[test]
fn fragment_definition_and_spread() {
    let source = "fragment friendFields on User { name }\nquery { me { ...friendFields @include } }";
    let doc = parse_executable(source).unwrap();
    assert_eq!(doc.definition_list.len(), 2);
    match &doc.definition_list[0].value {
        ExecutableDefinition::Fragment(f) => {
            assert_eq!(f.value.name.value, "friendFields");
            assert_eq!(f.value.on.value, "User");
            assert_eq!(f.value.selection_list.len(), 1);
        },
        other => panic!("expected a fragment, got {:?}", other),
    }
    match &doc.definition_list[1].value {
        ExecutableDefinition::Operation(o) => match &o.value.selection_list[0].value {
            Selection::Field(me) => match &me.selection_list[0].value {
                Selection::FragmentSpread(sp) => {
                    assert_eq!(sp.name.value, "friendFields");
                    assert_eq!(sp.directive_list.len(), 1);
                },
                other => panic!("expected a spread, got {:?}", other),
            },
            other => panic!("expected a field, got {:?}", other),
        },
        other => panic!("expected an operation, got {:?}", other),
    }
}

#[test]
fn inline_fragment_without_type_condition() {
    let doc = parse_executable("{ ... @skip { x } }").unwrap();
    match only_definition(&doc) {
        ExecutableDefinition::Operation(o) => match &o.value.selection_list[0].value {
            Selection::InlineFragment(inl) => {
                assert!(inl.on.is_none());
                assert_eq!(inl.directive_list.len(), 1);
                assert_eq!(inl.selection_list.len(), 1);
            },
            other => panic!("expected an inline fragment, got {:?}", other),
        },
        other => panic!("expected an operation, got {:?}", other),
    }
}

#[test]
fn spread_wins_over_inline_fragment_on_clause() {
    // the alternatives are tried in declared order, so `... on T { x }`
    // reads as a spread named `on` followed by a field selection
    let doc = parse_executable("{ ... on T { x } }").unwrap();
    match only_definition(&doc) {
        ExecutableDefinition::Operation(o) => {
            assert_eq!(o.value.selection_list.len(), 2);
            match &o.value.selection_list[0].value {
                Selection::FragmentSpread(sp) => assert_eq!(sp.name.value, "on"),
                other => panic!("expected a spread, got {:?}", other),
            }
            match &o.value.selection_list[1].value {
                Selection::Field(f) => assert_eq!(f.name.value, "T"),
                other => panic!("expected a field, got {:?}", other),
            }
        },
        other => panic!("expected an operation, got {:?}", other),
    }
}

#[test]
fn empty_selection_set_fails() {
    assert!(parse_executable("{ }").is_err());
}

#[test]
fn subscription_operations() {
    let doc = parse_executable("subscription S { events }").unwrap();
    match only_definition(&doc) {
        ExecutableDefinition::Operation(o) => {
            assert_eq!(o.value.ty, OperationType::Subscription);
            assert_eq!(o.value.name.as_ref().unwrap().value, "S");
        },
        other => panic!("expected an operation, got {:?}", other),
    }
}
