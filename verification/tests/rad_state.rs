use vmdef::parser_arg::{ParserArgDirection, ParserArgType, PopulatedArg};
use vmdef::rad::{RadError, RadState};

fn op(t: ParserArgType, d: ParserArgDirection, val: &[u8]) -> PopulatedArg {
    PopulatedArg { t, direction: d, arg_val: val.to_vec(), memory_region: None }
}

use ParserArgDirection::{Destination as Dst, Source as Src, Unset as Both};
use ParserArgType::{Immediate as Imm, Memory as Mem, Register as Reg};

#[test]
fn immediates_stand_for_themselves() {
    let st = RadState::new();
    assert_eq!(st.get(op(Imm, Src, &[7, 8]), true), Ok(vec![7, 8]));
    assert_eq!(st.get(op(Imm, Both, &[1]), true), Ok(vec![1]));
}

#[test]
fn operands_that_cannot_be_read() {
    let st = RadState::new();
    assert_eq!(st.get(op(Mem, Src, &[1]), true), Err(RadError::MemoryArgument));
    assert_eq!(st.get(op(ParserArgType::Unset, Src, &[1]), true), Err(RadError::MemoryArgument));
    assert_eq!(st.get(op(Imm, Dst, &[1]), true), Err(RadError::DestinationNotRegister));
    assert_eq!(st.get(op(Reg, Src, &[1]), true), Err(RadError::EmptySourceRegister));
    assert_eq!(st.get(op(Reg, Dst, &[1]), true), Ok(vec![0]));
    assert_eq!(st.get(op(Reg, Both, &[1]), true), Ok(vec![0]));
}

#[test]
fn write_then_read_register() {
    let mut st = RadState::new();
    assert_eq!(st.set(op(Reg, Dst, &[2, 0]), vec![5, 6], true), Ok(()));
    assert_eq!(st.get(op(Reg, Src, &[2]), true), Ok(vec![5, 6]));
    assert_eq!(st.get_state().get(&2), Some(&vec![5, 6]));
}

#[test]
fn register_numbers_follow_byte_order() {
    let mut st = RadState::new();
    assert_eq!(st.set(op(Reg, Dst, &[0, 2]), vec![9], false), Ok(()));
    assert_eq!(st.get(op(Reg, Src, &[2]), false), Ok(vec![9]));
    assert_eq!(st.get_state().get(&2), Some(&vec![9]));
    assert_eq!(st.set(op(Reg, Dst, &[0, 2]), vec![4], true), Ok(()));
    assert_eq!(st.get_state().get(&0x200), Some(&vec![4]));
    assert_eq!(st.get(op(Reg, Src, &[2, 0]), false), Ok(vec![4]));
}

#[test]
fn refused_writes_change_nothing() {
    let mut st = RadState::new();
    assert_eq!(st.set(op(Reg, Src, &[2]), vec![5], true), Err(RadError::SetSource));
    assert_eq!(st.set(op(Imm, Both, &[2]), vec![5], true), Err(RadError::SetNonRegister));
    assert!(st.get_state().is_empty());
}

#[test]
fn missing_source_stops_statement() {
    let st = RadState::new();
    let args = vec![op(Imm, Src, &[1]), op(Reg, Src, &[3])];
    assert_eq!(st.gather(&args, true), Err(RadError::EmptySourceRegister));
    let args = vec![op(Mem, Src, &[1]), op(Reg, Src, &[3])];
    assert_eq!(st.gather(&args, true), Err(RadError::MemoryArgument));
}

#[test]
fn gather_then_apply() {
    let mut st = RadState::new();
    st.set(op(Reg, Dst, &[1]), vec![10], true).unwrap();
    let args = vec![op(Reg, Dst, &[0]), op(Reg, Src, &[1]), op(Imm, Src, &[4])];
    let vals = st.gather(&args, true).unwrap();
    assert_eq!(vals, vec![vec![0], vec![10], vec![4]]);
    let out = st.apply(&args, &vec![vec![14], vec![99], vec![99]], true).unwrap();
    assert_eq!(out.get(&0), Some(&vec![14]));
    assert_eq!(out.get(&1), Some(&vec![10]));
    assert_eq!(out.len(), 2);
}

#[test]
fn apply_stops_at_first_refused_write() {
    let mut st = RadState::new();
    let args = vec![op(Reg, Dst, &[0]), op(Imm, Both, &[1]), op(Reg, Dst, &[2])];
    let r = st.apply(&args, &vec![vec![1], vec![2], vec![3]], true);
    assert_eq!(r.unwrap_err(), RadError::SetNonRegister);
    let m = st.get_state();
    assert_eq!(m.get(&0), Some(&vec![1]));
    assert!(m.get(&2).is_none());
}

#[test]
fn rad_messages() {
    assert_eq!(
        RadError::EmptySourceRegister.message(),
        "WARNING - RAD statement not executed because source register cannot be empty. Either apply a pre-process or discard your RAD."
    );
    assert_eq!(
        RadError::SetNonRegister.message(),
        "WARNING - RAD statement not executed because can only set registers. Either apply a pre-process or discard your RAD."
    );
}
