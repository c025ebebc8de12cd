use std::collections::HashMap;
use vmdef::config::{
    default_1, default_true, InstructionConfig, MachineConfig, MemoryConfig, MemoryLayout,
    MemoryLayoutPermissions, MemoryRegion, MissingRegisterCode, Register, RegisterAttribute,
    parse_range_key,
};
use vmdef::disasm::{
    decode_instruction, decode_opcode, find_region, DisasmError, DisasmStep, Disassembly,
    LoopDetected, OpInfo, OpSizeTooLarge,
};
use vmdef::formatter::{DisFormatterLine, FormattingConfig};
use vmdef::parser_arg::ParserArg;

fn s(x: &str) -> String {
    x.to_string()
}

fn args(list: &[&str]) -> Vec<ParserArg> {
    list.iter().map(|a| ParserArg::from_string(s(a)).unwrap()).collect()
}

fn region(start: usize, end: usize, name: &str) -> MemoryRegion {
    MemoryRegion {
        start,
        end,
        layout: MemoryLayout { name: s(name), permissions: MemoryLayoutPermissions::default() },
    }
}

fn ops() -> HashMap<usize, OpInfo> {
    let mut m = HashMap::new();
    m.insert(1, OpInfo { op_name: s("MOV"), parser_args: args(&["rd1", "rs1"]), rad: None });
    m.insert(2, OpInfo { op_name: s("LD"), parser_args: args(&["rd1", "ms1"]), rad: Some(s("x")) });
    m.insert(3, OpInfo { op_name: s("NOP"), parser_args: vec![], rad: None });
    m
}

#[test]
fn register_entries() {
    let r = Register::simple(3);
    assert_eq!(r, Register { code: 3, attribute: RegisterAttribute::Normal, size: 0, write: false });
    assert_eq!(
        Register::complex(Some(5), RegisterAttribute::Pc, 8, true),
        Ok(Register { code: 0, attribute: RegisterAttribute::Pc, size: 8, write: true })
    );
    assert_eq!(
        Register::complex(Some(5), RegisterAttribute::Normal, 2, false),
        Ok(Register { code: 5, attribute: RegisterAttribute::Normal, size: 2, write: false })
    );
    assert_eq!(Register::complex(None, RegisterAttribute::Normal, 1, true), Err(MissingRegisterCode));
    assert_eq!(Register::complex(None, RegisterAttribute::Sp, 1, true).unwrap().code, 0);
    assert_eq!(Register::default().size, 0);
    assert!(default_true());
    assert_eq!(default_1(), 1);
    assert_eq!(RegisterAttribute::default(), RegisterAttribute::Normal);
}

#[test]
fn permission_strings() {
    let all = MemoryLayoutPermissions { read: true, write: true, execute: true };
    assert_eq!(MemoryLayoutPermissions::from_flags(None), Ok(all));
    assert_eq!(MemoryLayoutPermissions::default(), all);
    assert_eq!(
        MemoryLayoutPermissions::from_flags(Some(s("rx"))),
        Ok(MemoryLayoutPermissions { read: true, write: false, execute: true })
    );
    assert_eq!(
        MemoryLayoutPermissions::from_flags(Some(s(""))),
        Ok(MemoryLayoutPermissions { read: false, write: false, execute: false })
    );
    assert_eq!(MemoryLayoutPermissions::from_flags(Some(s("rqw"))), Err('q'));
}

#[test]
fn range_keys() {
    assert_eq!(parse_range_key(&s("10..20")), Some((10, 20)));
    assert_eq!(parse_range_key(&s("10")), Some((10, usize::MAX)));
    assert_eq!(parse_range_key(&s("+5..7")), Some((5, 7)));
    assert_eq!(parse_range_key(&s("1..2..3")), Some((1, 2)));
    assert_eq!(parse_range_key(&s("10..")), None);
    assert_eq!(parse_range_key(&s("..5")), None);
    assert_eq!(parse_range_key(&s("1..2..x")), None);
    assert_eq!(parse_range_key(&s("a..2")), None);
    assert_eq!(parse_range_key(&s("1...2")), None);
}

#[test]
fn layout_entries_keyed_by_range() {
    let lay = |n: &str| MemoryLayout { name: s(n), permissions: MemoryLayoutPermissions::default() };
    let v = MemoryConfig::layout_from_entries(&vec![
        (s("0..16"), lay("ram")),
        (s("16..32"), lay("rom")),
        (s("+0..16"), lay("ram2")),
    ])
    .unwrap();
    assert_eq!(v.len(), 2);
    assert_eq!(v[0].layout.name, "ram2");
    assert_eq!((v[1].start, v[1].end), (16, 32));
    let e = MemoryConfig::layout_from_entries(&vec![(s("0..1"), lay("a")), (s("zz"), lay("b"))]);
    assert_eq!(e.unwrap_err(), 1);
    let d = MemoryConfig::default();
    assert!(d.size.is_none() && d.initial_size.is_none() && d.layout.is_empty());
}

#[test]
fn implementation_file() {
    let mut c = config(vec![], Some(1));
    assert_eq!(c.implementation_path(Some(s("b.py"))), Some(s("b.py")));
    c.implementation = Some(s("a.py"));
    assert_eq!(c.implementation_path(Some(s("b.py"))), Some(s("b.py")));
    assert_eq!(c.implementation_path(None), Some(s("a.py")));
    c.implementation = None;
    assert_eq!(c.implementation_path(None), None);
}

#[test]
fn memory_regions_last_match_wins() {
    let layout = vec![region(0, 16, "ram"), region(8, 12, "io")];
    assert_eq!(find_region(&layout, 3), Some(s("ram")));
    assert_eq!(find_region(&layout, 9), Some(s("io")));
    assert_eq!(find_region(&layout, 16), None);
}

#[test]
fn opcodes_little_and_big_endian() {
    assert_eq!(decode_opcode(&[0x34, 0x12, 0xff], 2, true), 0x1234);
    assert_eq!(decode_opcode(&[0x01], 1, false), 1);
    assert_eq!(decode_opcode(&[0x01, 0x02], 2, false), 0x0102);
    assert_eq!(decode_opcode(&[0x34, 0x12], 2, false), 0x3412);
    assert_eq!(decode_opcode(&[0x34, 0x12, 0xff], 2, false), 0x3412);
    assert_eq!(decode_opcode(&[0x34], 0, true), 0);
}

#[test]
fn decoding_instructions() {
    let ops = ops();
    let layout = vec![region(0, 16, "ram")];
    let d = decode_instruction(&ops, &layout, true, true, &[1, 2, 3, 9], 1).unwrap();
    assert_eq!((d.op, d.len), (1, 3));
    assert_eq!(d.args[0].arg_val, vec![2]);
    assert_eq!(d.args[1].arg_val, vec![3]);
    assert!(d.args[1].memory_region.is_none());
    let d = decode_instruction(&ops, &layout, true, true, &[2, 1, 5], 1).unwrap();
    assert_eq!(d.args[1].memory_region, Some(s("ram")));
    let d = decode_instruction(&ops, &layout, true, true, &[2, 1, 20], 1).unwrap();
    assert!(d.args[1].memory_region.is_none());
    assert!(d.args[0].memory_region.is_none());
}

#[test]
fn decoding_failures() {
    let ops = ops();
    let layout = vec![];
    assert_eq!(
        decode_instruction(&ops, &layout, true, false, &[1, 2, 3], 1).err().unwrap(),
        (DisasmError::NoArgFormatter, 0)
    );
    assert_eq!(
        decode_instruction(&ops, &layout, true, false, &[1], 2).err().unwrap(),
        (DisasmError::NoArgFormatter, 0)
    );
    assert_eq!(
        decode_instruction(&ops, &layout, true, true, &[9], 1).err().unwrap(),
        (DisasmError::OpcodeNotFound(9), 1)
    );
    assert_eq!(
        decode_instruction(&ops, &layout, true, true, &[1, 2], 1).err().unwrap(),
        (DisasmError::OperandOutOfBounds, 2)
    );
    assert_eq!(DisasmError::OpcodeNotFound(9).message(), "opcode 9 not found");
    assert_eq!(DisasmError::OperandOutOfBounds.message(), "Out of bounds population");
    assert!(DisasmError::NoArgFormatter.message().starts_with("Cannot disassemble without an arg_formatter"));
}

fn walk(data: Vec<u8>, op_size: usize) -> Result<Vec<DisFormatterLine>, LoopDetected> {
    let ops = ops();
    let mut run = Disassembly::new(data, op_size).unwrap();
    loop {
        match run.next_step() {
            DisasmStep::Done => break,
            DisasmStep::Decode => {
                let buf = run.data[run.pos..].to_vec();
                match decode_instruction(&ops, &vec![], true, true, &buf, op_size) {
                    Ok(d) => {
                        let line = DisFormatterLine {
                            hex: String::new(),
                            opcode: ops[&d.op].op_name.clone(),
                            operands: vec![],
                        };
                        run.record(d.len, Some(line))?;
                    }
                    Err((_, l)) => run.record(l, None)?,
                }
            }
        }
    }
    Ok(run.lines)
}

#[test]
fn disassembly_covers_the_program() {
    let data = vec![1, 2, 3, 3, 9, 1, 2];
    let lines = walk(data.clone(), 1).unwrap();
    let ops: Vec<&str> = lines.iter().map(|l| l.opcode.as_str()).collect();
    assert_eq!(ops, vec!["MOV", "NOP", "INVALID", "INVALID"]);
    let hexes: Vec<&str> = lines.iter().map(|l| l.hex.as_str()).collect();
    assert_eq!(hexes, vec!["010203", "03", "09", "0102"]);
    assert_eq!(lines.iter().map(|l| l.hex.clone()).collect::<String>(), hex::encode(&data));
}

#[test]
fn short_tail_becomes_its_own_line() {
    let lines = walk(vec![3, 0, 0xab], 2).unwrap();
    assert_eq!(lines.len(), 2);
    assert_eq!(lines[1].hex, "ab");
    assert!(lines[1].opcode.is_empty());
    assert!(walk(vec![], 1).unwrap().is_empty());
}

#[test]
fn empty_instruction_is_a_loop() {
    assert_eq!(walk(vec![5], 0).unwrap_err(), LoopDetected);
    assert_eq!(Disassembly::new(vec![1], 9).err().unwrap(), OpSizeTooLarge);
    let mut run = Disassembly::new(vec![5, 6], 1).unwrap();
    assert_eq!(run.next_step(), DisasmStep::Decode);
    assert_eq!(run.record(0, None), Err(LoopDetected));
    assert_eq!((run.pos, run.lines.len(), run.finished), (0, 0, false));
}

#[test]
fn walk_steps_decode_while_an_opcode_fits() {
    let mut run = Disassembly::new(vec![9, 1, 2], 2).unwrap();
    assert_eq!(run.next_step(), DisasmStep::Decode);
    assert_eq!((run.pos, run.lines.len()), (0, 0));
    assert_eq!(run.record(2, None), Ok(()));
    assert_eq!(run.lines[0].opcode, "INVALID");
    assert_eq!(run.lines[0].hex, "0901");
    assert!(!run.finished);
    assert_eq!(run.next_step(), DisasmStep::Done);
    assert!(run.finished);
    assert_eq!(run.lines[1].hex, "02");
    assert_eq!(run.next_step(), DisasmStep::Done);
    assert_eq!(run.lines.len(), 2);
}

#[test]
fn big_endian_operands() {
    let ops = ops();
    let layout = vec![region(0x0100, 0x0200, "io")];
    let mut m = HashMap::new();
    m.insert(4, OpInfo { op_name: s("ST"), parser_args: args(&["ms2"]), rad: None });
    let d = decode_instruction(&m, &layout, false, true, &[4, 0x01, 0x20], 1).unwrap();
    assert_eq!(d.args[0].memory_region, Some(s("io")));
    let d = decode_instruction(&m, &layout, true, true, &[4, 0x01, 0x20], 1).unwrap();
    assert!(d.args[0].memory_region.is_none());
    assert_eq!(decode_instruction(&ops, &layout, false, true, &[1, 7, 8], 1).unwrap().op, 1);
}

pub fn config(registers: Vec<(String, Register)>, op_size: Option<usize>) -> MachineConfig {
    MachineConfig {
        registers,
        memory: MemoryConfig::default(),
        instruction: InstructionConfig { op_size },
        little_endian: true,
        implementation: None,
        verbose: false,
        format: FormattingConfig::default(),
    }
}
