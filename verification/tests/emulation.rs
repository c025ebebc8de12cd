use std::collections::HashMap;
use vmdef::config::{
    InstructionConfig, MachineConfig, MemoryConfig, Register, RegisterAttribute,
};
use vmdef::disasm::OpInfo;
use vmdef::emulator::{
    create_emulation, usize_to_le_bytes, EmuDecodeError, EmuError, EmuRegister, EmuWatchpoint,
    Emulator, PcStep, UnpauseError,
};
use vmdef::formatter::FormattingConfig;
use vmdef::parser_arg::ParserArg;

fn s(x: &str) -> String {
    x.to_string()
}

fn config(registers: Vec<(String, Register)>, op_size: Option<usize>) -> MachineConfig {
    MachineConfig {
        registers,
        memory: MemoryConfig::default(),
        instruction: InstructionConfig { op_size },
        little_endian: true,
        implementation: None,
        verbose: false,
        format: FormattingConfig::default(),
    }
}

fn reg(code: usize, attribute: RegisterAttribute, size: u8) -> Register {
    Register { code, attribute, size, write: true }
}

fn machine() -> MachineConfig {
    config(
        vec![
            (s("pc"), reg(0, RegisterAttribute::Pc, 8)),
            (s("r0"), reg(0, RegisterAttribute::Normal, 2)),
            (s("r1"), reg(1, RegisterAttribute::Normal, 1)),
        ],
        Some(1),
    )
}

fn ops() -> HashMap<usize, OpInfo> {
    let mut m = HashMap::new();
    m.insert(
        1,
        OpInfo {
            op_name: s("MOV"),
            parser_args: vec![ParserArg::from_string(s("rd1")).unwrap()],
            rad: None,
        },
    );
    m
}

fn emu(data: Vec<u8>) -> Emulator {
    create_emulation(machine(), ops(), data, None, None).unwrap()
}

#[test]
fn building_an_emulator() {
    let e = create_emulation(machine(), ops(), vec![1, 2], Some(vec![(s("r0"), vec![7, 8])]), None).unwrap();
    assert_eq!(e.op_size, 1);
    assert_eq!(e.state.memory, vec![0u8; 4096]);
    assert_eq!(e.state.registers.len(), 2);
    assert_eq!(e.state.registers[&0].data, vec![7, 8]);
    assert_eq!(e.state.registers[&0].name, "r0");
    assert_eq!(e.state.registers[&1].max_size, 1);
    assert_eq!(e.state.pc.max_size, 8);
    assert!(e.state.sp.is_none() && e.state.flags.is_none());
    assert!(!e.state.halted && !e.state.paused);
    assert!(e.breakpoints.is_empty() && e.breakpoints_id == 0);
}

#[test]
fn given_memory_and_initial_size() {
    let e = create_emulation(machine(), ops(), vec![], None, Some(vec![1, 2, 3])).unwrap();
    assert_eq!(e.state.memory, vec![1, 2, 3]);
    let mut c = machine();
    c.memory.initial_size = Some(16);
    let e = create_emulation(c, ops(), vec![], None, None).unwrap();
    assert_eq!(e.state.memory.len(), 16);
}

#[test]
fn emulator_errors() {
    let no_pc = config(vec![(s("r0"), reg(0, RegisterAttribute::Normal, 1))], Some(1));
    assert_eq!(create_emulation(no_pc, ops(), vec![], None, None).err().unwrap(), EmuError::NoPcRegister);
    let r = create_emulation(machine(), ops(), vec![], Some(vec![(s("zz"), vec![])]), None);
    assert_eq!(r.err().unwrap(), EmuError::UnknownRegister(0));
    let r = create_emulation(
        machine(),
        ops(),
        vec![],
        Some(vec![(s("r1"), vec![1]), (s("r0"), vec![1, 2, 3])]),
        None,
    );
    assert_eq!(r.err().unwrap(), EmuError::InitialDataTooLarge(1, 2));
    let mut c = machine();
    c.instruction.op_size = None;
    assert_eq!(create_emulation(c, ops(), vec![], None, None).err().unwrap(), EmuError::UnknownOpSize);
    let mut c = machine();
    c.instruction.op_size = Some(9);
    assert_eq!(create_emulation(c, ops(), vec![], None, None).err().unwrap(), EmuError::OpSizeTooLarge(9));
}

#[test]
fn later_register_entry_counts() {
    let mut c = machine();
    c.registers.push((s("r0"), reg(5, RegisterAttribute::Normal, 4)));
    let e = create_emulation(c, ops(), vec![], Some(vec![(s("r0"), vec![1, 2, 3])]), None).unwrap();
    assert_eq!(e.state.registers[&5].data, vec![1, 2, 3]);
    assert_eq!(e.state.registers[&5].max_size, 4);
    assert!(e.state.registers[&0].data.is_empty());
}

#[test]
fn point_changes_leave_the_machine_alone() {
    let mut e = create_emulation(machine(), ops(), vec![1, 2], Some(vec![(s("r0"), vec![7])]), None).unwrap();
    e.set_breakpoint(1);
    e.set_watchpoint(1, 2);
    e.remove_all_breakpoints_at(1);
    e.remove_all_watchpoints_at(1);
    e.remove_breakpoint(9);
    e.remove_watchpoint(9);
    assert_eq!(e.state.data, vec![1, 2]);
    assert_eq!(e.state.memory.len(), 4096);
    assert_eq!(e.state.registers[&0].data, vec![7]);
    assert!(!e.state.halted && !e.state.paused);
    assert_eq!(e.ops.len(), 1);
    assert_eq!(e.machine_config.registers.len(), 3);
}

#[test]
fn initial_value_for_program_counter() {
    let e = create_emulation(machine(), ops(), vec![0; 8], Some(vec![(s("pc"), vec![3])]), None).unwrap();
    assert_eq!(e.state.current_pc(), 3);
    assert_eq!(e.state.pc.name, "pc");
}

#[test]
fn breakpoints_by_id() {
    let mut e = emu(vec![]);
    let a = e.set_breakpoint(10);
    let b = e.set_breakpoint(10);
    let c = e.set_breakpoint(20);
    assert_eq!((a, b, c), (1, 2, 3));
    let mut at10 = e.get_breakpoints_at_addr(10);
    at10.sort();
    assert_eq!(at10, vec![1, 2]);
    e.remove_breakpoint(1);
    assert_eq!(e.get_breakpoints_at_addr(10), vec![2]);
    e.remove_all_breakpoints_at(10);
    assert!(e.get_breakpoints_at_addr(10).is_empty());
    assert_eq!(e.get_breakpoints_at_addr(20), vec![3]);
    assert_eq!(e.set_breakpoint(10), 4);
    assert_eq!(e.breakpoints[&4], EmuWatchpoint { address: 10, size: 1, hit: 0, disabled: false });
}

#[test]
fn watchpoints_by_id() {
    let mut e = emu(vec![]);
    assert_eq!(e.set_watchpoint(100, 4), 1);
    assert_eq!(e.set_watchpoint(200, 1), 2);
    e.remove_all_watchpoints_at(100);
    assert_eq!(e.watchpoints.len(), 1);
    e.remove_watchpoint(2);
    assert!(e.watchpoints.is_empty());
    assert_eq!(e.set_watchpoint(5, 5), 3);
}

#[test]
fn range_lookup_searches_breakpoints() {
    let mut e = emu(vec![]);
    e.set_watchpoint(100, 4);
    e.set_breakpoint(50);
    assert!(e.get_watchpoints_at_addr(101).is_empty());
    assert_eq!(e.get_watchpoints_at_addr(50), vec![1]);
    e.handle_watchpoints_breakpoints(50);
    assert_eq!(e.breakpoints.len(), 1);
}

#[test]
fn program_counter_walk() {
    let mut e = emu(vec![0; 10]);
    let pc = e.state.current_pc();
    assert_eq!(pc, 0);
    assert_eq!(e.state.advance(pc, 4), PcStep::Continue);
    assert_eq!(e.state.current_pc(), 4);
    assert_eq!(e.state.pc.data.len(), (usize::BITS / 8) as usize);
    assert_eq!(e.state.advance(4, 6), PcStep::ReachedEnd(10));
    assert!(e.state.halted);
    assert_eq!(e.state.advance(0, 1), PcStep::Stopped);
    assert_eq!(e.state.current_pc(), 4);
}

#[test]
fn paused_machine() {
    let mut e = emu(vec![0; 10]);
    assert_eq!(e.state.check_unpause(), Err(UnpauseError::NotPaused));
    e.state.paused = true;
    assert_eq!(e.state.check_unpause(), Ok(()));
    assert_eq!(e.state.advance(0, 1), PcStep::Stopped);
    e.state.halted = true;
    assert_eq!(e.state.check_unpause(), Err(UnpauseError::Halted));
}

#[test]
fn little_endian_words() {
    let b = usize_to_le_bytes(0x0102);
    assert_eq!(b[0], 2);
    assert_eq!(b[1], 1);
    assert!(b[2..].iter().all(|x| *x == 0));
    let r = EmuRegister::default();
    assert_eq!((r.max_size, r.write), (1, true));
    assert!(r.name.is_empty() && r.data.is_empty());
}

#[test]
fn decoding_at_program_counter() {
    let e = emu(vec![9, 1, 5]);
    assert_eq!(e.fetch_opcode(1), 1);
    assert_eq!(e.decode_at(0).err().unwrap(), EmuDecodeError::OpcodeNotFound(9));
    let (op, args, step) = e.decode_at(1).unwrap();
    assert_eq!(op, 1);
    // operands are read right after the first opcode of the program
    assert_eq!(args[0].arg_val, vec![1]);
    assert_eq!(step, 3);
    let (len, args) = e.get_opcode_args(&ops()[&1].parser_args).unwrap();
    assert_eq!((len, args.len()), (2, 1));
    let short = emu(vec![1]);
    assert_eq!(short.decode_at(0).err().unwrap(), EmuDecodeError::OperandOutOfBounds);
}
