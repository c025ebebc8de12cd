//! Decoding instructions: the opcode, the operands its definition lists
//! (tagged with the memory area an address falls in), and the walk over a
//! whole program that cuts it into lines.
use vstd::prelude::*;
use std::collections::HashMap;
use crate::config::MemoryRegion;
use crate::formatter::DisFormatterLine;
use crate::hex_text::{hex_encode, hex_lower, lemma_hex_lower_concat};
use crate::le_value::{
    be_value_of_prefix, buf_as_usize_len, buf_as_word, le_value, word_bytes, word_size,
    word_value_in,
};
use crate::parser_arg::{ParserArg, ParserArgType, PopulatedArg, PopulatedArgView};

verus! {

broadcast use vstd::std_specs::hash::group_hash_axioms;

/// The opcode the first `op_size` bytes of `b` read as, by the machine's
/// byte order: least significant byte first on a little-endian machine, most
/// significant first on a big-endian one.
pub open spec fn opcode_value(b: Seq<u8>, op_size: nat, little_endian: bool) -> nat {
    if little_endian {
        le_value(b.take(op_size as int))
    } else {
        le_value(b.take(op_size as int).reverse())
    }
}

/// Reads the opcode at the start of `buf`.
pub fn decode_opcode(buf: &[u8], op_size: usize, little_endian: bool) -> (op: usize)
    requires
        op_size <= word_bytes(),
        op_size <= buf@.len(),
    ensures
        op as nat == opcode_value(buf@, op_size as nat, little_endian),
{
    if little_endian {
        buf_as_usize_len(buf, op_size)
    } else {
        be_value_of_prefix(buf, op_size)
    }
}

/// The name of the last memory area (in layout order) whose range holds
/// `addr`, if any.
pub open spec fn region_of(layout: Seq<MemoryRegion>, addr: nat) -> Option<Seq<char>>
    decreases layout.len(),
{
    if layout.len() == 0 {
        None
    } else if layout.last().start <= addr < layout.last().end {
        Some(layout.last().layout.name@)
    } else {
        region_of(layout.drop_last(), addr)
    }
}

/// An address lying in an area of the layout, `start <= addr < end` (its
/// start included, its end not), and in no later area, is tagged with that
/// area's name; an address in no area is tagged with none.
pub proof fn lemma_region_of_contains(layout: Seq<MemoryRegion>, addr: nat)
    ensures
        forall|i: int|
            0 <= i < layout.len() && layout[i].start <= addr < layout[i].end && (forall|j: int|
                i < j < layout.len() ==> !(#[trigger] layout[j].start <= addr < layout[j].end))
                ==> region_of(layout, addr) == Some(#[trigger] layout[i].layout.name@),
        (forall|i: int| 0 <= i < layout.len() ==> !(#[trigger] layout[i].start <= addr < layout[i].end))
            ==> region_of(layout, addr) is None,
    decreases layout.len(),
{
    if layout.len() > 0 {
        let d = layout.drop_last();
        lemma_region_of_contains(d, addr);
        let l = layout.len() - 1;
        assert(layout.last() == layout[l]);
        assert forall|i: int|
            0 <= i < layout.len() && layout[i].start <= addr < layout[i].end && (forall|j: int|
                i < j < layout.len() ==> !(#[trigger] layout[j].start <= addr < layout[j].end))
                implies region_of(layout, addr) == Some(#[trigger] layout[i].layout.name@) by {
            if i < l {
                assert(!(layout[l].start <= addr < layout[l].end));
                assert(d[i] == layout[i]);
                assert forall|j: int| i < j < d.len() implies !(#[trigger] d[j].start <= addr < d[j].end) by {
                    assert(d[j] == layout[j]);
                }
            }
        }
        if forall|i: int| 0 <= i < layout.len() ==> !(#[trigger] layout[i].start <= addr < layout[i].end) {
            assert forall|i: int| 0 <= i < d.len() implies !(#[trigger] d[i].start <= addr < d[i].end) by {
                assert(d[i] == layout[i]);
            }
        }
    }
}

/// The memory area `addr` falls in.
pub fn find_region(layout: &Vec<MemoryRegion>, addr: usize) -> (r: Option<String>)
    ensures
        crate::parser_arg::opt_string_view(r) == region_of(layout@, addr as nat),
{
    let mut found: Option<String> = None;
    let n = layout.len();
    for i in 0..n
        invariant
            n == layout@.len(),
            crate::parser_arg::opt_string_view(found) == region_of(layout@.take(i as int), addr as nat),
    {
        proof {
            assert(layout@.take(i + 1).drop_last() =~= layout@.take(i as int));
            assert(layout@.take(i + 1).last() == layout@[i as int]);
        }
        if layout[i].start <= addr && addr < layout[i].end {
            found = Some(layout[i].layout.name.clone());
        }
    }
    proof {
        assert(layout@.take(n as int) =~= layout@);
    }
    found
}

/// An operand cut out of an instruction: its bytes, and for a memory
/// operand the area its address (read in the machine's byte order) falls in.
pub open spec fn operand_view(
    a: ParserArg,
    bytes: Seq<u8>,
    layout: Seq<MemoryRegion>,
    little_endian: bool,
) -> PopulatedArgView {
    PopulatedArgView {
        t: a.t,
        direction: a.direction,
        arg_val: bytes,
        memory_region: if a.t == ParserArgType::Memory {
            region_of(layout, word_value_in(bytes, little_endian))
        } else {
            None
        },
    }
}

/// The operands of an instruction whose opcode takes the first `start`
/// bytes: each takes the next `arg_size` bytes. Gives the instruction length
/// and the operands, or the length read before the first operand that does
/// not fit.
pub open spec fn operands_spec(
    buf: Seq<u8>,
    start: nat,
    args: Seq<ParserArg>,
    layout: Seq<MemoryRegion>,
    little_endian: bool,
) -> Result<(nat, Seq<PopulatedArgView>), nat>
    decreases args.len(),
{
    if args.len() == 0 {
        Ok((start, Seq::empty()))
    } else {
        match operands_spec(buf, start, args.drop_last(), layout, little_endian) {
            Err(l) => Err(l),
            Ok((len, vals)) => {
                let a = args.last();
                if len + a.arg_size > buf.len() {
                    Err(len)
                } else {
                    Ok(
                        (
                            (len + a.arg_size) as nat,
                            vals.push(
                                operand_view(
                                    a,
                                    buf.subrange(len as int, len + a.arg_size),
                                    layout,
                                    little_endian,
                                ),
                            ),
                        ),
                    )
                }
            },
        }
    }
}

/// The views of a vector of operands.
pub open spec fn operand_views(v: Seq<PopulatedArg>) -> Seq<PopulatedArgView> {
    v.map_values(|a: PopulatedArg| a@)
}

proof fn lemma_operands_prefix_err(
    buf: Seq<u8>,
    start: nat,
    args: Seq<ParserArg>,
    layout: Seq<MemoryRegion>,
    little_endian: bool,
    k: int,
)
    requires
        0 <= k <= args.len(),
    ensures
        operands_spec(buf, start, args.take(k), layout, little_endian) is Err ==> operands_spec(buf, start, args, layout, little_endian)
            == operands_spec(buf, start, args.take(k), layout, little_endian),
    decreases args.len() - k,
{
    if k < args.len() {
        lemma_operands_prefix_err(buf, start, args, layout, little_endian, k + 1);
        assert(args.take(k + 1).drop_last() =~= args.take(k));
    } else {
        assert(args.take(k) =~= args);
    }
}

proof fn lemma_operands_len(
    buf: Seq<u8>,
    start: nat,
    args: Seq<ParserArg>,
    layout: Seq<MemoryRegion>,
    little_endian: bool,
)
    requires
        start <= buf.len(),
    ensures
        operands_spec(buf, start, args, layout, little_endian) matches Ok((len, _)) ==> start <= len <= buf.len(),
        operands_spec(buf, start, args, layout, little_endian) matches Err(len) ==> start <= len <= buf.len(),
    decreases args.len(),
{
    if args.len() > 0 {
        lemma_operands_prefix_err(buf, start, args, layout, little_endian, args.len() - 1);
        lemma_operands_len(buf, start, args.drop_last(), layout, little_endian);
    }
}

/// Operands end no later than the program, or where the opcode ends.
pub proof fn lemma_operands_bounded(
    buf: Seq<u8>,
    start: nat,
    args: Seq<ParserArg>,
    layout: Seq<MemoryRegion>,
    little_endian: bool,
)
    ensures
        operands_spec(buf, start, args, layout, little_endian) matches Ok((len, _)) ==> len <= start || len <= buf.len(),
    decreases args.len(),
{
    if args.len() > 0 {
        lemma_operands_bounded(buf, start, args.drop_last(), layout, little_endian);
    }
}

/// Cuts the operands of an instruction out of `buf`, after the first
/// `start` bytes.
pub fn populate_operands(
    buf: &[u8],
    start: usize,
    args: &Vec<ParserArg>,
    layout: &Vec<MemoryRegion>,
    little_endian: bool,
) -> (r: Result<(usize, Vec<PopulatedArg>), usize>)
    ensures
        match r {
            Ok((len, vals)) => operands_spec(buf@, start as nat, args@, layout@, little_endian) == Ok::<
                (nat, Seq<PopulatedArgView>),
                nat,
            >((len as nat, operand_views(vals@))),
            Err(len) => operands_spec(buf@, start as nat, args@, layout@, little_endian) == Err::<
                (nat, Seq<PopulatedArgView>),
                nat,
            >(len as nat),
        },
{
    let mut len = start;
    let mut vals: Vec<PopulatedArg> = Vec::new();
    let n = args.len();
    let blen = buf.len();
    proof {
        assert(args@.take(0) =~= Seq::<ParserArg>::empty());
        assert(operand_views(vals@) =~= Seq::<PopulatedArgView>::empty());
    }
    for i in 0..n
        invariant
            n == args@.len(),
            blen == buf@.len(),
            len == start || (start <= len <= buf@.len()),
            operands_spec(buf@, start as nat, args@.take(i as int), layout@, little_endian) == Ok::<
                (nat, Seq<PopulatedArgView>),
                nat,
            >((len as nat, operand_views(vals@))),
    {
        let a = args[i];
        proof {
            assert(args@.take(i + 1).drop_last() =~= args@.take(i as int));
            assert(args@.take(i + 1).last() == a);
            lemma_operands_prefix_err(buf@, start as nat, args@, layout@, little_endian, i + 1);
        }
        let res = a.populate(buf, len);
        match res {
            Err(_) => {
                return Err(len);
            },
            Ok(p) => {
                assert(len + a.arg_size <= buf@.len());
                let mut p = p;
                if p.t == ParserArgType::Memory {
                    let addr = buf_as_word(p.arg_val.as_slice(), little_endian);
                    p.memory_region = find_region(layout, addr);
                }
                let ghost old_vals = vals@;
                vals.push(p);
                proof {
                    assert(operand_views(vals@) =~= operand_views(old_vals).push(p@));
                }
                len = len + a.arg_size as usize;
            },
        }
    }
    proof {
        assert(args@.take(n as int) =~= args@);
    }
    Ok((len, vals))
}

/// What the definition of an opcode says about decoding it.
#[derive(Clone, Debug)]
pub struct OpInfo {
    /// The name disassembly shows.
    pub op_name: String,
    /// Its operands, in order.
    pub parser_args: Vec<ParserArg>,
    /// The RAD statement to run when it is decoded, if any.
    pub rad: Option<String>,
}

/// Why an instruction cannot be decoded.
#[derive(PartialEq, Eq, Structural, Clone, Copy, Debug)]
pub enum DisasmError {
    /// No argument formatter is registered.
    NoArgFormatter,
    /// The opcode has no definition.
    OpcodeNotFound(usize),
    /// An operand reaches past the end of the program.
    OperandOutOfBounds,
}

impl DisasmError {
    /// The text of the error.
    pub fn message(&self) -> (m: String)
        ensures
            m@ == disasm_error_text(*self),
    {
        match self {
            DisasmError::NoArgFormatter => String::from_str(
                "Cannot disassemble without an arg_formatter\n\nTip: Register one with @define.arg_formatter in your .py file!",
            ),
            DisasmError::OpcodeNotFound(op) => {
                let mut m = String::from_str("opcode ");
                let d = crate::text::decimal_string(*op);
                m.append(d.as_str());
                m.append(" not found");
                m
            },
            DisasmError::OperandOutOfBounds => String::from_str("Out of bounds population"),
        }
    }
}

/// The text of each decoding error.
pub open spec fn disasm_error_text(e: DisasmError) -> Seq<char> {
    match e {
        DisasmError::NoArgFormatter =>
            "Cannot disassemble without an arg_formatter\n\nTip: Register one with @define.arg_formatter in your .py file!"@,
        DisasmError::OpcodeNotFound(op) => "opcode "@ + crate::text::decimal(op as nat)
            + " not found"@,
        DisasmError::OperandOutOfBounds => "Out of bounds population"@,
    }
}

/// A decoded instruction: its opcode, its length in bytes and its operands.
pub struct Decoded {
    pub op: usize,
    pub len: usize,
    pub args: Vec<PopulatedArg>,
}

/// Decodes the instruction at the start of `buf`: reads the opcode, finds
/// its definition and cuts out its operands, tagging memory operands with
/// their area. On failure gives the error and the number of bytes read.
pub fn decode_instruction(
    ops: &HashMap<usize, OpInfo>,
    layout: &Vec<MemoryRegion>,
    little_endian: bool,
    has_formatter: bool,
    buf: &[u8],
    op_size: usize,
) -> (r: Result<Decoded, (DisasmError, usize)>)
    requires
        op_size <= word_bytes(),
        has_formatter ==> op_size <= buf@.len(),
    ensures
        !has_formatter ==> r == Err::<Decoded, (DisasmError, usize)>((DisasmError::NoArgFormatter, 0)),
        has_formatter ==> ({
            let op = opcode_value(buf@, op_size as nat, little_endian);
            if !ops@.contains_key(op as usize) {
                r == Err::<Decoded, (DisasmError, usize)>(
                    (DisasmError::OpcodeNotFound(op as usize), op_size),
                )
            } else {
                match operands_spec(
                    buf@,
                    op_size as nat,
                    ops@[op as usize].parser_args@,
                    layout@,
                    little_endian,
                ) {
                    Err(l) => r == Err::<Decoded, (DisasmError, usize)>(
                        (DisasmError::OperandOutOfBounds, l as usize),
                    ),
                    Ok((l, vals)) => r matches Ok(d) && d.op == op && d.len == l
                        && operand_views(d.args@) == vals,
                }
            }
        }),
        r matches Ok(d) ==> op_size <= d.len <= buf@.len(),
        r matches Err((_, l)) ==> l <= buf@.len(),
{
    if !has_formatter {
        return Err((DisasmError::NoArgFormatter, 0));
    }
    let op = decode_opcode(buf, op_size, little_endian);
    match ops.get(&op) {
        None => Err((DisasmError::OpcodeNotFound(op), op_size)),
        Some(info) => {
            proof {
                lemma_operands_len(buf@, op_size as nat, info.parser_args@, layout@, little_endian);
            }
            match populate_operands(buf, op_size, &info.parser_args, layout, little_endian) {
                Err(l) => Err((DisasmError::OperandOutOfBounds, l)),
                Ok((l, vals)) => Ok(Decoded { op, len: l, args: vals }),
            }
        },
    }
}

/// The hex columns of `lines`, one after the other.
pub open spec fn lines_hex(lines: Seq<DisFormatterLine>) -> Seq<char>
    decreases lines.len(),
{
    if lines.len() == 0 {
        Seq::empty()
    } else {
        lines_hex(lines.drop_last()) + lines.last().hex@
    }
}

/// A walk over a program that cuts it into lines, one instruction at a
/// time.
pub struct Disassembly {
    /// The program.
    pub data: Vec<u8>,
    /// Where the next instruction starts.
    pub pos: usize,
    /// The opcode width.
    pub op_size: usize,
    /// The lines so far.
    pub lines: Vec<DisFormatterLine>,
    /// Whether the walk has reached the end.
    pub finished: bool,
}

/// What the walk needs next.
#[derive(PartialEq, Eq, Structural, Clone, Copy, Debug)]
pub enum DisasmStep {
    /// The instruction at `pos` is to be decoded and handed to `record`.
    Decode,
    /// The walk is over.
    Done,
}

/// The opcode width exceeds a machine word.
#[derive(PartialEq, Eq, Structural, Clone, Copy, Debug)]
pub struct OpSizeTooLarge;

/// An instruction took no bytes, so the walk would never end.
#[derive(PartialEq, Eq, Structural, Clone, Copy, Debug)]
pub struct LoopDetected;

impl Disassembly {
    /// The walk so far covers exactly the bytes before `pos`, line by line,
    /// each line at least one byte.
    pub open spec fn wf(&self) -> bool {
        &&& self.pos <= self.data@.len()
        &&& self.op_size <= word_bytes()
        &&& lines_hex(self.lines@) == hex_lower(self.data@.take(self.pos as int))
        &&& forall|i: int| 0 <= i < self.lines@.len() ==> #[trigger] self.lines@[i].hex@.len() > 0
        &&& self.finished ==> self.pos == self.data@.len()
    }

    /// Starts a walk over `data` with opcodes `op_size` bytes wide.
    pub fn new(data: Vec<u8>, op_size: usize) -> (r: Result<Disassembly, OpSizeTooLarge>)
        ensures
            op_size > word_bytes() <==> r is Err,
            r matches Ok(d) ==> {
                &&& d.wf()
                &&& d.data@ == data@
                &&& d.pos == 0
                &&& d.op_size == op_size
                &&& d.lines@.len() == 0
                &&& !d.finished
            },
    {
        if op_size > word_size() {
            return Err(OpSizeTooLarge);
        }
        let d = Disassembly { data, pos: 0, op_size, lines: Vec::new(), finished: false };
        proof {
            assert(d.data@.take(0) =~= Seq::<u8>::empty());
        }
        Ok(d)
    }

    /// Decides what comes next. At the end, the walk is over; when fewer
    /// bytes are left than an opcode takes, they become a last line of their
    /// own (hex only) and the walk is over; otherwise the instruction at
    /// `pos` is to be decoded.
    pub fn next_step(&mut self) -> (r: DisasmStep)
        requires
            old(self).wf(),
        ensures
            final(self).wf(),
            final(self).data@ == old(self).data@,
            final(self).op_size == old(self).op_size,
            old(self).finished || old(self).pos == old(self).data@.len() ==> {
                &&& r == DisasmStep::Done
                &&& final(self).finished
                &&& final(self).lines@ == old(self).lines@
                &&& final(self).pos == old(self).pos
            },
            !old(self).finished && old(self).pos < old(self).data@.len() && old(self).op_size
                > old(self).data@.len() - old(self).pos ==> {
                &&& r == DisasmStep::Done
                &&& final(self).finished
                &&& final(self).pos == old(self).data@.len()
                &&& final(self).lines@.len() == old(self).lines@.len() + 1
                &&& final(self).lines@.drop_last() == old(self).lines@
                &&& final(self).lines@.last().hex@ == hex_lower(
                    old(self).data@.skip(old(self).pos as int),
                )
                &&& final(self).lines@.last().opcode@.len() == 0
                &&& final(self).lines@.last().operands@.len() == 0
            },
            !old(self).finished && old(self).pos < old(self).data@.len() && old(self).op_size
                <= old(self).data@.len() - old(self).pos ==> {
                &&& r == DisasmStep::Decode
                &&& *final(self) == *old(self)
            },
    {
        if self.finished {
            return DisasmStep::Done;
        }
        let n = self.data.len();
        if self.pos == n {
            self.finished = true;
            return DisasmStep::Done;
        }
        if self.op_size > n - self.pos {
            let rest = vstd::slice::slice_subrange(self.data.as_slice(), self.pos, n);
            let hex = hex_encode(rest);
            let ghost old_lines = self.lines@;
            let ghost old_pos = self.pos;
            self.lines.push(DisFormatterLine { hex, opcode: String::new(), operands: Vec::new() });
            proof {
                assert(self.lines@.drop_last() =~= old_lines);
                lemma_hex_lower_concat(rest@, Seq::empty());
                lemma_hex_lower_concat(self.data@.take(old_pos as int), rest@);
                assert(self.data@.take(old_pos as int) + rest@ =~= self.data@.take(n as int));
                assert(self.data@.skip(old_pos as int) =~= rest@);
            }
            self.pos = n;
            self.finished = true;
            return DisasmStep::Done;
        }
        DisasmStep::Decode
    }

    /// Records the instruction at `pos`: `len` bytes, shown as `line`'s
    /// opcode and operands, or as `INVALID` when it could not be decoded.
    /// Its hex column is the hex of those bytes; the walk moves past them.
    /// An instruction of no bytes would never let the walk move on: it is
    /// refused as a loop, and the walk is left as it was.
    pub fn record(&mut self, len: usize, line: Option<DisFormatterLine>) -> (r: Result<(), LoopDetected>)
        requires
            old(self).wf(),
            !old(self).finished,
            old(self).pos < old(self).data@.len(),
            len <= old(self).data@.len() - old(self).pos,
        ensures
            final(self).wf(),
            len == 0 <==> r is Err,
            len == 0 ==> *final(self) == *old(self),
            len > 0 ==> {
                &&& final(self).data@ == old(self).data@
                &&& final(self).op_size == old(self).op_size
                &&& !final(self).finished
                &&& final(self).pos == old(self).pos + len
                &&& final(self).lines@.drop_last() == old(self).lines@
                &&& final(self).lines@.len() == old(self).lines@.len() + 1
                &&& final(self).lines@.last().hex@ == hex_lower(
                    old(self).data@.subrange(old(self).pos as int, old(self).pos + len),
                )
                &&& (line matches Some(l) ==> final(self).lines@.last().opcode == l.opcode
                    && final(self).lines@.last().operands == l.operands)
                &&& (line is None ==> final(self).lines@.last().opcode@ == "INVALID"@
                    && final(self).lines@.last().operands@.len() == 0)
            },
    {
        if len == 0 {
            return Err(LoopDetected);
        }
        let start = self.pos;
        let data_len = self.data.len();
        assert(len <= data_len - start);
        let bytes = vstd::slice::slice_subrange(self.data.as_slice(), start, start + len);
        let hex = hex_encode(bytes);
        let entry = match line {
            Some(l) => DisFormatterLine { hex, opcode: l.opcode, operands: l.operands },
            None => DisFormatterLine {
                hex,
                opcode: String::from_str("INVALID"),
                operands: Vec::new(),
            },
        };
        let ghost old_lines = self.lines@;
        self.lines.push(entry);
        proof {
            assert(self.lines@.drop_last() =~= old_lines);
            lemma_hex_lower_concat(bytes@, Seq::empty());
            lemma_hex_lower_concat(self.data@.take(start as int), bytes@);
            assert(self.data@.take(start as int) + bytes@ =~= self.data@.take(start + len));
        }
        self.pos = start + len;
        Ok(())
    }
}

/// A finished walk covers the whole program exactly once, in order: its
/// lines' hex columns, one after the other, are the hex of the program, and
/// every line stands for at least one byte.
pub proof fn lemma_disassembly_covers_input(d: Disassembly)
    requires
        d.wf(),
        d.finished,
    ensures
        lines_hex(d.lines@) == hex_lower(d.data@),
        forall|i: int| 0 <= i < d.lines@.len() ==> #[trigger] d.lines@[i].hex@.len() > 0,
{
    assert(d.data@.take(d.data@.len() as int) =~= d.data@);
}

} // verus!
