use silverscript_state::error::{CompilerError, StateBuiltin};
use silverscript_state::layout::{
    encoded_state_len, encoded_state_len_for_layout_field_types, encoded_type_chunk_size, fixed_state_payload_len,
    state_start_offset, ContractFieldAst,
};
use silverscript_state::push::{checked_add, checked_sub, data_prefix};
use silverscript_state::types::{
    array_element_size, byte_array_type, fixed_type_size, same_type, scalar_type, ArrayDim, TypeBase, TypeRef,
};

fn field(name: &str, type_ref: TypeRef) -> ContractFieldAst {
    ContractFieldAst { name: name.to_string(), type_ref }
}

fn array_of(base: TypeBase, dims: Vec<ArrayDim>) -> TypeRef {
    TypeRef { base, array_dims: dims }
}

#[test]
fn data_prefix_uses_the_opdata_length_up_to_75_bytes() {
    assert_eq!(data_prefix(0).unwrap(), vec![0x00]);
    assert_eq!(data_prefix(1).unwrap(), vec![0x01]);
    assert_eq!(data_prefix(8).unwrap(), vec![0x08]);
    assert_eq!(data_prefix(75).unwrap(), vec![0x4b]);
}

#[test]
fn data_prefix_switches_to_pushdata_forms_at_their_thresholds() {
    assert_eq!(data_prefix(76).unwrap(), vec![0x4c, 76]);
    assert_eq!(data_prefix(80).unwrap(), vec![0x4c, 0x50]);
    assert_eq!(data_prefix(255).unwrap(), vec![0x4c, 0xff]);
    assert_eq!(data_prefix(256).unwrap(), vec![0x4d, 0x00, 0x01]);
    assert_eq!(data_prefix(0xffff).unwrap(), vec![0x4d, 0xff, 0xff]);
    assert_eq!(data_prefix(0x1_0000).unwrap(), vec![0x4e, 0x00, 0x00, 0x01, 0x00]);
    assert_eq!(data_prefix(0x1234_5678).unwrap(), vec![0x4e, 0x78, 0x56, 0x34, 0x12]);
}

#[test]
fn data_prefix_refuses_a_payload_no_push_can_carry() {
    assert!(matches!(data_prefix(usize::MAX), Err(CompilerError::PayloadTooLarge)));
}

#[test]
fn checked_arithmetic_reports_overflow() {
    assert_eq!(checked_add(2, 3).unwrap(), 5);
    assert!(matches!(checked_add(usize::MAX, 1), Err(CompilerError::ArithmeticOverflow)));
    assert_eq!(checked_sub(5, 3).unwrap(), 2);
    assert!(matches!(checked_sub(3, 5), Err(CompilerError::ArithmeticOverflow)));
}

#[test]
fn fixed_sizes_of_scalars_and_arrays() {
    assert_eq!(fixed_type_size(&scalar_type(TypeBase::Int)).unwrap(), Some(8));
    assert_eq!(fixed_type_size(&scalar_type(TypeBase::Bool)).unwrap(), Some(1));
    assert_eq!(fixed_type_size(&scalar_type(TypeBase::Byte)).unwrap(), Some(1));
    assert_eq!(fixed_type_size(&scalar_type(TypeBase::Pubkey)).unwrap(), Some(32));
    assert_eq!(fixed_type_size(&scalar_type(TypeBase::Sig)).unwrap(), Some(65));
    assert_eq!(fixed_type_size(&scalar_type(TypeBase::String)).unwrap(), None);
    assert_eq!(fixed_type_size(&array_of(TypeBase::Int, vec![ArrayDim::Fixed(3)])).unwrap(), Some(24));
    assert_eq!(
        fixed_type_size(&array_of(TypeBase::Byte, vec![ArrayDim::Fixed(4), ArrayDim::Fixed(5)])).unwrap(),
        Some(20)
    );
    assert_eq!(fixed_type_size(&array_of(TypeBase::Int, vec![ArrayDim::Dynamic])).unwrap(), None);
    assert!(matches!(
        fixed_type_size(&array_of(TypeBase::Int, vec![ArrayDim::Fixed(usize::MAX)])),
        Err(CompilerError::ArithmeticOverflow)
    ));
}

#[test]
fn array_element_size_is_the_size_of_one_element() {
    assert_eq!(array_element_size(&array_of(TypeBase::Int, vec![ArrayDim::Dynamic])).unwrap(), Some(8));
    assert_eq!(
        array_element_size(&array_of(TypeBase::Byte, vec![ArrayDim::Fixed(4), ArrayDim::Dynamic])).unwrap(),
        Some(4)
    );
    assert_eq!(array_element_size(&array_of(TypeBase::String, vec![ArrayDim::Dynamic])).unwrap(), None);
}

#[test]
fn type_predicates_and_equality() {
    let bytes32 = byte_array_type(ArrayDim::Fixed(32));
    assert!(bytes32.is_array());
    assert!(!bytes32.is_dynamic_array());
    assert!(array_of(TypeBase::Int, vec![ArrayDim::Dynamic]).is_dynamic_array());
    assert!(scalar_type(TypeBase::Byte).is_byte());
    assert!(scalar_type(TypeBase::Bool).is_bool());
    assert!(scalar_type(TypeBase::Int).is_int_like());
    assert!(scalar_type(TypeBase::Temporal).is_int_like());
    assert!(!scalar_type(TypeBase::Pubkey).is_int_like());
    assert_eq!(TypeBase::Pubkey.fixed_byte_sequence_len(), Some(32));
    assert_eq!(TypeBase::Int.fixed_byte_sequence_len(), None);
    assert!(same_type(&bytes32, &byte_array_type(ArrayDim::Fixed(32))));
    assert!(!same_type(&bytes32, &byte_array_type(ArrayDim::Fixed(31))));
    assert!(same_type(
        &scalar_type(TypeBase::Custom("Point".to_string())),
        &scalar_type(TypeBase::Custom("Point".to_string()))
    ));
    assert!(!same_type(
        &scalar_type(TypeBase::Custom("Point".to_string())),
        &scalar_type(TypeBase::Custom("Line".to_string()))
    ));
}

#[test]
fn chunk_sizes_add_the_push_header() {
    assert_eq!(fixed_state_payload_len(&scalar_type(TypeBase::Int)).unwrap(), 8);
    assert_eq!(encoded_type_chunk_size(&scalar_type(TypeBase::Int)).unwrap(), 9);
    assert_eq!(encoded_type_chunk_size(&byte_array_type(ArrayDim::Fixed(32))).unwrap(), 33);
    assert_eq!(encoded_type_chunk_size(&byte_array_type(ArrayDim::Fixed(80))).unwrap(), 82);
    assert_eq!(encoded_type_chunk_size(&byte_array_type(ArrayDim::Fixed(300))).unwrap(), 303);
    assert!(matches!(
        fixed_state_payload_len(&scalar_type(TypeBase::String)),
        Err(CompilerError::UnsupportedFieldType(StateBuiltin::ReadInputState))
    ));
}

#[test]
fn encoded_state_length_sums_the_chunks_in_order() {
    let fields = vec![field("flag", scalar_type(TypeBase::Byte)), field("owner", byte_array_type(ArrayDim::Fixed(32)))];
    assert_eq!(encoded_state_len(&fields).unwrap(), 35);
    assert_eq!(
        encoded_state_len_for_layout_field_types(&[scalar_type(TypeBase::Int), scalar_type(TypeBase::Bool)]).unwrap(),
        11
    );
    assert_eq!(encoded_state_len(&[]).unwrap(), 0);
}

#[test]
fn encoded_state_length_refuses_a_field_without_fixed_size() {
    let fields = vec![field("a", scalar_type(TypeBase::Int)), field("name", scalar_type(TypeBase::String))];
    assert!(matches!(
        encoded_state_len(&fields),
        Err(CompilerError::UnsupportedFieldType(StateBuiltin::ReadInputState))
    ));
}

#[test]
fn state_start_offset_is_the_end_minus_the_state_length() {
    let fields = vec![field("flag", scalar_type(TypeBase::Byte)), field("owner", byte_array_type(ArrayDim::Fixed(32)))];
    assert_eq!(state_start_offset(100, &fields).unwrap(), 65);
    assert_eq!(state_start_offset(35, &fields).unwrap(), 0);
    assert!(matches!(state_start_offset(34, &fields), Err(CompilerError::ArithmeticOverflow)));
}
