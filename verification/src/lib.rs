//! A grammar engine for a schema-definition and query language.
//!
//! The engine parses source text into a source-position-annotated abstract
//! syntax tree and reports first-failure diagnostics with an exact source
//! offset.  It serves two related grammars: a type-system grammar (schema,
//! type and directive declarations, each with an extension variant) and an
//! executable grammar (operations, fragments and selection sets), plus a
//! combined grammar accepting both.

use vstd::prelude::*;

mod ast;
mod common;
mod document;
mod error;
mod executable;
mod lex;
mod numeric;
mod typesystem;
mod value;

pub use ast::Directive;
pub use ast::chain;
pub use ast::definition_list_wf;
pub use ast::lemma_chain_snoc;
pub use ast::lemma_sep1_complete;
pub use ast::lemma_sep1_snoc;
pub use ast::lemma_spaced_complete;
pub use ast::lemma_spaced_snoc;
pub use ast::sep1_are;
pub use ast::sep1_can;
pub use ast::sep1_chain;
pub use ast::sep1_list_end;
pub use ast::spaced_are;
pub use ast::spaced_chain;
pub use ast::spaced_list_end;
pub use ast::directive_def_wf;
pub use ast::directive_wf;
pub use ast::directives_wf;
pub use ast::document_definition_wf;
pub use ast::document_wf;
pub use ast::enum_member_wf;
pub use ast::enum_members_wf;
pub use ast::enum_type_wf;
pub use ast::exec_definition_wf;
pub use ast::exec_document_wf;
pub use ast::farg_wf;
pub use ast::fargs_wf;
pub use ast::field_def_wf;
pub use ast::field_defs_wf;
pub use ast::fragment_def_wf;
pub use ast::inline_wf;
pub use ast::input_object_wf;
pub use ast::interface_wf;
pub use ast::object_keys_unique;
pub use ast::object_wf;
pub use ast::operation_wf;
pub use ast::opfields_wf;
pub use ast::opt_pvalue_wf;
pub use ast::opt_span_ok;
pub use ast::ptype_wf;
pub use ast::pvalue_wf;
pub use ast::scalar_wf;
pub use ast::schema_wf;
pub use ast::sel_field_wf;
pub use ast::selection_wf;
pub use ast::selections_wf;
pub use ast::span_ok;
pub use ast::spans_ok;
pub use ast::spread_wf;
pub use ast::ts_definition_wf;
pub use ast::ts_document_wf;
pub use ast::type_def_wf;
pub use ast::type_wf;
pub use ast::union_wf;
pub use ast::value_wf;
pub use ast::vardef_wf;
pub use ast::vardefs_wf;
pub use ast::DirectiveDefinition;
pub use ast::DirectiveLocation;
pub use ast::Document;
pub use ast::DocumentDefinition;
pub use ast::EnumMember;
pub use ast::EnumType;
pub use ast::ExecutableDefinition;
pub use ast::ExecutableDirectiveLocation;
pub use ast::ExecutableDocument;
pub use ast::Field;
pub use ast::FieldArgument;
pub use ast::FieldDefinition;
pub use ast::FragmentDefinition;
pub use ast::FragmentSpread;
pub use ast::InlineFragment;
pub use ast::InputObjectType;
pub use ast::InterfaceType;
pub use ast::ObjectType;
pub use ast::OperationDefinition;
pub use ast::OperationField;
pub use ast::OperationType;
pub use ast::Positioned;
pub use ast::ScalarType;
pub use ast::SchemaDefinition;
pub use ast::Selection;
pub use ast::Type;
pub use ast::TypeDefinition;
pub use ast::TypeSystemDefinition;
pub use ast::TypeSystemDirectiveLocation;
pub use ast::TypeSystemDocument;
pub use ast::UnionType;
pub use ast::Value;
pub use ast::VariableDefinition;
pub use common::args_are;
pub use common::args_can;
pub use common::args_chain;
pub use common::args_end;
pub use common::args_step;
pub use common::directive_can;
pub use common::directive_end;
pub use common::directive_is;
pub use common::directive_list_end;
pub use common::directive_start_at;
pub use common::directive_step;
pub use common::directives_are;
pub use common::directives_chain;
pub use common::extend_at;
pub use common::farg_is;
pub use common::fargs_are;
pub use common::field_argument_end;
pub use common::field_argument_list_end;
pub use common::keyword_name_at;
pub use common::keyword_name_end;
pub use common::lemma_args_complete;
pub use common::lemma_args_snoc;
pub use common::lemma_directives_complete;
pub use common::lemma_directives_snoc;
pub use common::ty_base_end;
pub use common::ty_base_is;
pub use common::ty_end;
pub use common::ty_is;
pub use document::document_definition_end;
pub use document::lemma_combined_covers_executable;
pub use document::lemma_combined_covers_type_system;
pub use document::lemma_document_covers_executable;
pub use document::lemma_document_covers_type_system;
pub use document::lemma_no_definition_at_end;
pub use document::document_definition_is;
pub use document::exec_definition_end;
pub use document::exec_definition_is;
pub use document::ts_definition_end;
pub use document::ts_definition_is;
pub use executable::field_sel_end;
pub use executable::field_sel_is;
pub use executable::field_sel_tail;
pub use executable::fragment_end;
pub use executable::fragment_is;
pub use executable::fragment_spread_end;
pub use executable::fragment_spread_is;
pub use executable::inline_fragment_end;
pub use executable::inline_is;
pub use executable::lemma_sels_complete;
pub use executable::lemma_sels_snoc;
pub use executable::operation_end;
pub use executable::operation_is;
pub use executable::operation_preamble_end;
pub use executable::selection_end;
pub use executable::selection_is;
pub use executable::selection_list_end;
pub use executable::sels_chain;
pub use executable::sels_list_is;
pub use executable::sels_rest_are;
pub use executable::sels_rest_end;
pub use executable::variable_definition_end;
pub use executable::variable_definition_is;
pub use executable::variable_definition_list_end;
pub use executable::vardefs_are;
pub use document::all_ignorable;
pub use document::covers_input;
pub use document::parse_document;
pub use document::parse_executable;
pub use document::parse_type_system;
pub use error::ErrorKind;
pub use error::ParsingError;
pub use error::line_column;
pub use error::line_start;
pub use error::newline_count;
pub use lex::block_end;
pub use lex::desc_is;
pub use lex::description_end;
pub use lex::string_at;
pub use lex::comment_run;
pub use lex::desc_block_at;
pub use lex::is_line_ending;
pub use lex::is_name_char;
pub use lex::is_name_start;
pub use lex::is_string_char;
pub use lex::is_ws;
pub use lex::name_run;
pub use lex::lemma_prefix_char;
pub use lex::prefix_at;
pub use lex::run_len;
pub use lex::string_run;
pub use lex::triple_quote_at;
pub use lex::trivia_run;
pub use lex::ws_run;
pub use numeric::digit_run;
pub use numeric::digit_val;
pub use numeric::digits_value;
pub use numeric::int_value_fits;
pub use numeric::is_digit;
pub use numeric::is_float_literal;
pub use numeric::is_nonzero_digit;
pub use numeric::lemma_numeric_reslice;
pub use numeric::lemma_token_len_bounds;
pub use numeric::num_exp_len;
pub use numeric::num_frac_len;
pub use numeric::num_int_len;
pub use numeric::num_int_value;
pub use numeric::num_is_float;
pub use numeric::num_sign_len;
pub use numeric::num_token_len;
pub use numeric::parse_numeric_literal;
pub use typesystem::dd_locations_are;
pub use typesystem::dd_locations_pos;
pub use typesystem::declaration_keyword_pos;
pub use typesystem::directive_definition_end;
pub use typesystem::directive_definition_is;
pub use typesystem::directive_location_at;
pub use typesystem::enum_body_end;
pub use typesystem::enum_body_is;
pub use typesystem::enum_is;
pub use typesystem::enum_member_end;
pub use typesystem::enum_member_is;
pub use typesystem::enum_type_end;
pub use typesystem::field_body_end;
pub use typesystem::field_body_is;
pub use typesystem::field_def_is;
pub use typesystem::field_definition_end;
pub use typesystem::field_defs_are;
pub use typesystem::implements_end;
pub use typesystem::implements_first;
pub use typesystem::implements_has_names;
pub use typesystem::implements_names_are;
pub use typesystem::implements_present;
pub use typesystem::input_object_is;
pub use typesystem::input_object_type_end;
pub use typesystem::interface_is;
pub use typesystem::interface_type_end;
pub use typesystem::lemma_locations_complete;
pub use typesystem::lemma_locations_snoc;
pub use typesystem::lemma_punct_names_complete;
pub use typesystem::lemma_punct_names_snoc;
pub use typesystem::location_can;
pub use typesystem::location_is;
pub use typesystem::location_item_end;
pub use typesystem::locations_are;
pub use typesystem::locations_chain;
pub use typesystem::locations_end;
pub use typesystem::object_is;
pub use typesystem::object_type_end;
pub use typesystem::op_kw_len;
pub use typesystem::op_kw_ty;
pub use typesystem::operation_field_end;
pub use typesystem::operation_field_is;
pub use typesystem::operation_fields_are;
pub use typesystem::punct_name_can;
pub use typesystem::punct_name_step;
pub use typesystem::punct_names_are;
pub use typesystem::punct_names_chain;
pub use typesystem::punct_names_end;
pub use typesystem::scalar_is;
pub use typesystem::scalar_type_end;
pub use typesystem::schema_body_end;
pub use typesystem::schema_body_is;
pub use typesystem::schema_definition_end;
pub use typesystem::schema_is;
pub use typesystem::type_definition_end;
pub use typesystem::type_definition_is;
pub use typesystem::union_eq_at;
pub use typesystem::union_first;
pub use typesystem::union_has_names;
pub use typesystem::union_is;
pub use typesystem::union_members_are;
pub use typesystem::union_type_end;
pub use value::numeric_value_exact;
pub use value::object_pair_end;
pub use value::value_end;
pub use value::value_is;
