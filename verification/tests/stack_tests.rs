use kaspa_txscript::script_builder::ScriptBuilder;

use silverscript_state::error::CompilerError;
use silverscript_state::locals::{
    decimal_string, fresh_input_state_base_name, input_state_base_name, INPUT_STATE_BASE_PREFIX,
};
use silverscript_state::opcodes::{OP_DROP, OP_DUP, OP_PICK, OP_ROLL};
use silverscript_state::stack::StackBindings;
use silverscript_state::type_map::TypeMap;
use silverscript_state::types::{scalar_type, same_type, TypeBase};

fn bindings(top_first: &[&str]) -> StackBindings {
    StackBindings::from_depths(top_first.iter().enumerate().map(|(i, name)| (name.to_string(), i as i64)).collect())
}

fn order(stack: &StackBindings) -> Vec<String> {
    stack.binding_order()
}

#[test]
fn depths_follow_the_binding_order() {
    let stack = bindings(&["top", "middle", "bottom"]);
    assert_eq!(stack.depth_of("top"), Some(0));
    assert_eq!(stack.depth_of("middle"), Some(1));
    assert_eq!(stack.depth_of("bottom"), Some(2));
    assert_eq!(stack.depth_of("absent"), None);
    assert!(stack.contains("middle"));
    assert!(!stack.contains("absent"));
}

#[test]
fn from_depths_places_each_name_at_its_depth() {
    let stack = StackBindings::from_depths(vec![("a".to_string(), 2), ("b".to_string(), 0), ("c".to_string(), 1)]);
    assert_eq!(order(&stack), vec!["b", "c", "a"]);
}

#[test]
fn pushing_a_binding_puts_it_on_top() {
    let mut stack = StackBindings::new();
    assert_eq!(stack.len(), 0);
    stack.push_binding("x");
    stack.push_binding("y");
    assert_eq!(order(&stack), vec!["y", "x"]);
    assert_eq!(stack.depth_of("x"), Some(1));
}

#[test]
fn copying_a_binding_picks_it_from_its_depth_above_the_values_on_top() {
    let stack = bindings(&["a", "b", "c"]);
    let mut builder = ScriptBuilder::new();
    let mut depth: i64 = 0;
    assert_eq!(stack.emit_copy_binding_to_top("a", &mut depth, &mut builder).unwrap(), true);
    assert_eq!(depth, 1);
    assert_eq!(stack.emit_copy_binding_to_top("b", &mut depth, &mut builder).unwrap(), true);
    assert_eq!(depth, 2);
    assert_eq!(stack.emit_copy_binding_to_top("missing", &mut depth, &mut builder).unwrap(), false);
    assert_eq!(depth, 2);
    assert_eq!(builder.drain(), vec![OP_DUP, 0x52, OP_PICK]);
}

#[test]
fn dropping_bindings_rolls_each_from_its_current_depth() {
    let mut stack = bindings(&["a", "b", "c", "d"]);
    let mut builder = ScriptBuilder::new();
    stack.emit_drop_bindings(&["a".to_string(), "c".to_string()], &mut builder).unwrap();
    assert_eq!(order(&stack), vec!["b", "d"]);
    assert_eq!(builder.drain(), vec![OP_DROP, 0x51, OP_ROLL, OP_DROP]);
}

#[test]
fn dropping_an_unbound_name_is_a_stack_mismatch() {
    let mut stack = bindings(&["a"]);
    let mut builder = ScriptBuilder::new();
    assert!(matches!(
        stack.emit_drop_bindings(&["z".to_string()], &mut builder),
        Err(CompilerError::StackMismatch)
    ));
}

#[test]
fn rebinding_moves_the_name_to_the_new_value_on_top() {
    let mut stack = bindings(&["a", "b", "c"]);
    let mut builder = ScriptBuilder::new();
    stack.emit_update_stack_for_rebinding("b", &mut builder).unwrap();
    assert_eq!(order(&stack), vec!["b", "a", "c"]);
    assert_eq!(builder.drain(), vec![0x52, OP_ROLL, OP_DROP]);
    assert!(matches!(
        stack.emit_update_stack_for_rebinding("nope", &mut builder),
        Err(CompilerError::UndefinedIdentifier(name)) if name == "nope"
    ));
}

#[test]
fn reordering_brings_each_target_name_to_the_top_from_the_last() {
    let from = bindings(&["a", "b", "c"]);
    let to = bindings(&["c", "a", "b"]);
    let mut builder = ScriptBuilder::new();
    from.emit_stack_reordering(&to, &mut builder).unwrap();
    // b is at depth 1: roll it up; then a is at depth 1: roll it up; then c is at depth 2.
    assert_eq!(builder.drain(), vec![0x51, OP_ROLL, 0x51, OP_ROLL, 0x52, OP_ROLL]);
}

#[test]
fn reordering_into_the_same_order_rolls_each_name_up_and_skips_one_on_top() {
    let from = bindings(&["a", "b", "c"]);
    let mut builder = ScriptBuilder::new();
    // From the last target name on: c, then b, then a each come up from depth 2.
    from.emit_stack_reordering(&from.clone(), &mut builder).unwrap();
    assert_eq!(builder.drain(), vec![0x52, OP_ROLL, 0x52, OP_ROLL, 0x52, OP_ROLL]);
    let single = bindings(&["only"]);
    single.emit_stack_reordering(&single.clone(), &mut builder).unwrap();
    assert_eq!(builder.drain(), Vec::<u8>::new());
}

#[test]
fn reordering_between_different_bindings_is_a_stack_mismatch() {
    let mut builder = ScriptBuilder::new();
    assert!(matches!(
        bindings(&["a", "b"]).emit_stack_reordering(&bindings(&["a"]), &mut builder),
        Err(CompilerError::StackMismatch)
    ));
    assert!(matches!(
        bindings(&["a", "b"]).emit_stack_reordering(&bindings(&["a", "z"]), &mut builder),
        Err(CompilerError::StackMismatch)
    ));
}

#[test]
fn decimal_names_of_sigscript_bases() {
    assert_eq!(decimal_string(0), "0");
    assert_eq!(decimal_string(7), "7");
    assert_eq!(decimal_string(10), "10");
    assert_eq!(decimal_string(90210), "90210");
    assert_eq!(INPUT_STATE_BASE_PREFIX, "__input_state_base_");
    assert_eq!(input_state_base_name(3), "__input_state_base_3");
    assert_eq!(input_state_base_name(12), "__input_state_base_12");
}

#[test]
fn fresh_base_name_starts_at_the_stack_size_and_skips_taken_names() {
    let stack = bindings(&["a", "b"]);
    assert_eq!(fresh_input_state_base_name(&stack).unwrap(), "__input_state_base_2");
    let crowded = bindings(&["__input_state_base_2", "__input_state_base_3", "x"]);
    assert_eq!(fresh_input_state_base_name(&crowded).unwrap(), "__input_state_base_4");
    assert_eq!(fresh_input_state_base_name(&StackBindings::new()).unwrap(), "__input_state_base_0");
}

#[test]
fn type_map_insert_get_remove() {
    let mut types = TypeMap::new();
    assert!(types.get("x").is_none());
    types.insert("x".to_string(), scalar_type(TypeBase::Int));
    types.insert("y".to_string(), scalar_type(TypeBase::Bool));
    assert!(same_type(types.get("x").unwrap(), &scalar_type(TypeBase::Int)));
    types.insert("x".to_string(), scalar_type(TypeBase::Byte));
    assert!(same_type(types.get("x").unwrap(), &scalar_type(TypeBase::Byte)));
    let copy = types.clone();
    types.remove("x");
    assert!(types.get("x").is_none());
    assert!(same_type(types.get("y").unwrap(), &scalar_type(TypeBase::Bool)));
    assert!(same_type(copy.get("x").unwrap(), &scalar_type(TypeBase::Byte)));
}
