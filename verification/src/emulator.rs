//! Emulator bookkeeping: register file and program state, breakpoints and
//! watchpoints, the program-counter walk, and building an emulator from a
//! machine description.
use vstd::prelude::*;
use vstd::std_specs::iter::IteratorSpec;
use std::collections::HashMap;
use crate::config::{MachineConfig, Register, RegisterAttribute};
use crate::disasm::{opcode_value, decode_opcode, operands_spec, operand_views, populate_operands, OpInfo};
use crate::le_value::{buf_as_usize, le_value, lemma_pow256_word, pow256, word_bytes, word_size, word_value};
use crate::parser_arg::{PopulatedArg, PopulatedArgView};

verus! {

broadcast use vstd::std_specs::hash::group_hash_axioms;

/// A breakpoint or watchpoint: the addresses `address..address + size`.
#[derive(PartialEq, Eq, Structural, Clone, Copy, Debug)]
pub struct EmuWatchpoint {
    pub address: usize,
    pub size: usize,
    /// How often it was hit.
    pub hit: usize,
    pub disabled: bool,
}

impl Default for EmuWatchpoint {
    fn default() -> (r: Self)
        ensures
            r == (EmuWatchpoint { address: 0, size: 0, hit: 0, disabled: false }),
    {
        EmuWatchpoint { address: 0, size: 0, hit: 0, disabled: false }
    }
}

/// Whether point `w` is hit at `addr`: exactly at its address, or, by range,
/// anywhere in `address..address + size`.
pub open spec fn point_hit(w: EmuWatchpoint, addr: usize, by_range: bool) -> bool {
    if by_range {
        w.address <= addr < w.address + w.size
    } else {
        w.address == addr
    }
}

/// The keys of `keys`, in order, whose point is hit at `addr`.
pub open spec fn keys_hit(
    m: Map<usize, EmuWatchpoint>,
    keys: Seq<usize>,
    addr: usize,
    by_range: bool,
) -> Seq<usize>
    decreases keys.len(),
{
    if keys.len() == 0 {
        Seq::empty()
    } else {
        let rest = keys_hit(m, keys.drop_last(), addr, by_range);
        if point_hit(m[keys.last()], addr, by_range) {
            rest.push(keys.last())
        } else {
            rest
        }
    }
}

/// The ids of the points in `m` that are hit at `addr`.
pub open spec fn ids_hit(m: Map<usize, EmuWatchpoint>, addr: usize, by_range: bool) -> Set<usize> {
    Set::new(|k: usize| m.contains_key(k) && point_hit(m[k], addr, by_range))
}

proof fn lemma_keys_hit(m: Map<usize, EmuWatchpoint>, keys: Seq<usize>, addr: usize, by_range: bool)
    requires
        keys.no_duplicates(),
    ensures
        keys_hit(m, keys, addr, by_range).no_duplicates(),
        forall|k: usize|
            keys_hit(m, keys, addr, by_range).contains(k) <==> (keys.contains(k) && point_hit(
                m[k],
                addr,
                by_range,
            )),
    decreases keys.len(),
{
    if keys.len() > 0 {
        let d = keys.drop_last();
        assert(d.no_duplicates());
        lemma_keys_hit(m, d, addr, by_range);
        assert forall|k: usize| keys.contains(k) <==> (d.contains(k) || k == keys.last()) by {
            if keys.contains(k) {
                let j = choose|j: int| 0 <= j < keys.len() && keys[j] == k;
                if j < keys.len() - 1 {
                    assert(d[j] == k);
                }
            }
            if d.contains(k) {
                let j = choose|j: int| 0 <= j < d.len() && d[j] == k;
                assert(keys[j] == k);
            }
        }
        assert(!d.contains(keys.last()));
        let rest = keys_hit(m, d, addr, by_range);
        assert forall|k: usize| rest.push(keys.last()).contains(k) <==> (rest.contains(k) || k
            == keys.last()) by {
            if rest.push(keys.last()).contains(k) {
                let j = choose|j: int| 0 <= j < rest.len() + 1 && rest.push(keys.last())[j] == k;
                if j < rest.len() {
                    assert(rest[j] == k);
                }
            }
            if rest.contains(k) {
                let j = choose|j: int| 0 <= j < rest.len() && rest[j] == k;
                assert(rest.push(keys.last())[j] == k);
            }
            if k == keys.last() {
                assert(rest.push(keys.last())[rest.len() as int] == k);
            }
        }
    }
}

/// The ids of the points of `m` hit at `addr`, each once, in the order the
/// map gives them.
fn points_hit(m: &HashMap<usize, EmuWatchpoint>, addr: usize, by_range: bool) -> (r: Vec<usize>)
    requires
        by_range ==> forall|k: usize| #[trigger] m@.contains_key(k) ==> m@[k].address + m@[k].size
            <= usize::MAX,
    ensures
        r@.no_duplicates(),
        r@.to_set() == ids_hit(m@, addr, by_range),
{
    let mut out: Vec<usize> = Vec::new();
    let ghost keys = m.keys().remaining().unref();
    for k in it: m.keys()
        invariant
            it.seq().unref() == keys,
            keys.to_set() == m@.dom(),
            keys.no_duplicates(),
            by_range ==> forall|k: usize| #[trigger] m@.contains_key(k) ==> m@[k].address
                + m@[k].size <= usize::MAX,
            out@ == keys_hit(m@, keys.take(it.index() as int), addr, by_range),
    {
        let ghost i = it.index();
        proof {
            assert(keys.take(i + 1).drop_last() =~= keys.take(i as int));
            assert(keys.take(i + 1).last() == *k);
            assert(keys.to_set().contains(*k));
        }
        let w = m.get(k).unwrap();
        let hit = if by_range {
            w.address <= addr && addr < w.address + w.size
        } else {
            w.address == addr
        };
        if hit {
            out.push(*k);
        }
    }
    proof {
        assert(keys.take(keys.len() as int) =~= keys);
        lemma_keys_hit(m@, keys, addr, by_range);
        assert(out@.to_set() =~= ids_hit(m@, addr, by_range)) by {
            assert forall|k: usize| out@.to_set().contains(k) <==> ids_hit(m@, addr, by_range).contains(k) by {
                assert(keys.to_set().contains(k) <==> keys.contains(k));
            }
        }
    }
    out
}

/// `m` without the points at `address`.
pub open spec fn without_address(m: Map<usize, EmuWatchpoint>, address: usize) -> Map<
    usize,
    EmuWatchpoint,
> {
    Map::new(|k: usize| m.contains_key(k) && m[k].address != address, |k: usize| m[k])
}

/// Removes every point of `m` at `address`.
fn remove_points_at(m: &mut HashMap<usize, EmuWatchpoint>, address: usize)
    ensures
        final(m)@ == without_address(old(m)@, address),
{
    let ids = points_hit(m, address, false);
    let ghost m0 = m@;
    let n = ids.len();
    for i in 0..n
        invariant
            n == ids@.len(),
            ids@.to_set() == ids_hit(m0, address, false),
            m@ == Map::new(
                |k: usize| m0.contains_key(k) && !ids@.take(i as int).contains(k),
                |k: usize| m0[k],
            ),
    {
        let id = ids[i];
        m.remove(&id);
        proof {
            assert(m@ =~= Map::new(
                |k: usize| m0.contains_key(k) && !ids@.take(i + 1).contains(k),
                |k: usize| m0[k],
            )) by {
                assert forall|k: usize| ids@.take(i + 1).contains(k) <==> (ids@.take(
                    i as int,
                ).contains(k) || k == id) by {
                    if ids@.take(i + 1).contains(k) {
                        let j = choose|j: int| 0 <= j < i + 1 && #[trigger] ids@.take(i + 1)[j] == k;
                        if j < i {
                            assert(ids@.take(i as int)[j] == k);
                        }
                    }
                    if ids@.take(i as int).contains(k) {
                        let j = choose|j: int| 0 <= j < i && #[trigger] ids@.take(i as int)[j] == k;
                        assert(ids@.take(i + 1)[j] == k);
                    }
                    if k == id {
                        assert(ids@.take(i + 1)[i as int] == k);
                    }
                }
            }
        }
    }
    proof {
        assert(ids@.take(n as int) =~= ids@);
        assert(m@ =~= without_address(m0, address)) by {
            assert forall|k: usize| m0.contains_key(k) implies (ids@.contains(k) <==> m0[k].address
                == address) by {
                assert(ids@.to_set().contains(k) <==> ids@.contains(k));
                assert(ids_hit(m0, address, false).contains(k) <==> m0[k].address == address);
            }
        }
    }
}

/// An emulated register: its name, its current bytes, how many bytes it
/// may hold and whether it can be written.
#[derive(Clone, Debug)]
pub struct EmuRegister {
    pub name: String,
    pub data: Vec<u8>,
    pub max_size: usize,
    pub write: bool,
}

/// The value of an emulated register.
pub struct EmuRegisterView {
    pub name: Seq<char>,
    pub data: Seq<u8>,
    pub max_size: usize,
    pub write: bool,
}

impl View for EmuRegister {
    type V = EmuRegisterView;

    open spec fn view(&self) -> EmuRegisterView {
        EmuRegisterView { name: self.name@, data: self.data@, max_size: self.max_size, write: self.write }
    }
}

impl Default for EmuRegister {
    fn default() -> (r: Self)
        ensures
            r@ == (EmuRegisterView { name: Seq::empty(), data: Seq::empty(), max_size: 1, write: true }),
    {
        let r = EmuRegister { name: String::new(), data: Vec::new(), max_size: 1usize, write: true };
        assert(r@ =~= (EmuRegisterView { name: Seq::empty(), data: Seq::empty(), max_size: 1, write: true }));
        r
    }
}

/// The state of an emulated machine.
pub struct EmulatorState {
    /// The program.
    pub data: Vec<u8>,
    pub memory: Vec<u8>,
    /// The ordinary registers by code.
    pub registers: HashMap<usize, EmuRegister>,
    pub pc: EmuRegister,
    pub sp: Option<EmuRegister>,
    pub flags: Option<EmuRegister>,
    pub halted: bool,
    pub paused: bool,
}

/// What the program counter walk does after an instruction.
#[derive(PartialEq, Eq, Structural, Clone, Copy, Debug)]
pub enum PcStep {
    /// The machine paused or halted itself; nothing changed.
    Stopped,
    /// The next instruction would start at or past the end of the program
    /// (at the given address); the machine is now halted.
    ReachedEnd(usize),
    /// The program counter now holds the next instruction's address.
    Continue,
}

/// Why the emulator cannot be unpaused.
#[derive(PartialEq, Eq, Structural, Clone, Copy, Debug)]
pub enum UnpauseError {
    NotPaused,
    Halted,
}

/// `x` as `k` little-endian bytes (the low `k` bytes of `x`).
pub open spec fn le_bytes(x: nat, k: nat) -> Seq<u8>
    decreases k,
{
    if k == 0 {
        Seq::empty()
    } else {
        seq![(x % 256) as u8] + le_bytes(x / 256, (k - 1) as nat)
    }
}

/// Reading back the little-endian bytes of a number that fits gives the
/// number.
pub proof fn lemma_le_bytes_roundtrip(x: nat, k: nat)
    requires
        x < pow256(k),
    ensures
        le_value(le_bytes(x, k)) == x,
        le_bytes(x, k).len() == k,
    decreases k,
{
    if k > 0 {
        assert(x / 256 < pow256((k - 1) as nat));
        lemma_le_bytes_roundtrip(x / 256, (k - 1) as nat);
        let b = le_bytes(x, k);
        assert(b.drop_first() =~= le_bytes(x / 256, (k - 1) as nat));
        assert(x == (x % 256) + 256 * (x / 256));
    }
}

/// The bytes of a machine word, little-endian (as `usize::to_le_bytes`).
pub fn usize_to_le_bytes(x: usize) -> (b: Vec<u8>)
    ensures
        b@ == le_bytes(x as nat, word_bytes()),
{
    let w = word_size();
    let mut b: Vec<u8> = Vec::new();
    let mut v = x;
    for i in 0..w
        invariant
            w == word_bytes(),
            le_bytes(x as nat, w as nat) == b@ + le_bytes(v as nat, (w - i) as nat),
    {
        proof {
            let rest = le_bytes(v as nat, (w - i) as nat);
            assert(rest == seq![(v % 256) as u8] + le_bytes((v / 256) as nat, (w - i - 1) as nat));
            assert(b@ + rest =~= b@.push((v % 256) as u8) + le_bytes((v / 256) as nat, (w - i - 1) as nat));
        }
        b.push((v % 256) as u8);
        v = v / 256;
    }
    proof {
        assert(b@ + le_bytes(v as nat, 0) =~= b@);
    }
    b
}

impl EmulatorState {
    /// The address in the program counter: its bytes read as a machine word.
    pub fn current_pc(&self) -> (pc: usize)
        ensures
            pc as nat == word_value(self.pc.data@),
    {
        buf_as_usize(self.pc.data.as_slice())
    }

    /// Moves the program counter past an instruction of `instr_len` bytes
    /// at `pc_val`. Stops if the machine paused or halted; halts if the next
    /// address is at or past the end of the program; otherwise the program
    /// counter holds the next address as a little-endian machine word.
    pub fn advance(&mut self, pc_val: usize, instr_len: usize) -> (r: PcStep)
        requires
            pc_val + instr_len <= usize::MAX,
        ensures
            final(self).data@ == old(self).data@,
            final(self).memory@ == old(self).memory@,
            final(self).registers@ == old(self).registers@,
            opt_register_view(final(self).sp) == opt_register_view(old(self).sp),
            opt_register_view(final(self).flags) == opt_register_view(old(self).flags),
            final(self).paused == old(self).paused,
            old(self).paused || old(self).halted ==> r == PcStep::Stopped && final(self).halted
                == old(self).halted && final(self).pc@ == old(self).pc@,
            !old(self).paused && !old(self).halted && pc_val + instr_len >= old(self).data@.len()
                ==> r == PcStep::ReachedEnd((pc_val + instr_len) as usize) && final(self).halted
                && final(self).pc@ == old(self).pc@,
            !old(self).paused && !old(self).halted && pc_val + instr_len < old(self).data@.len()
                ==> r == PcStep::Continue && !final(self).halted && final(self).pc.data@
                == le_bytes((pc_val + instr_len) as nat, word_bytes()) && final(self).pc.name
                == old(self).pc.name && final(self).pc.max_size == old(self).pc.max_size
                && final(self).pc.write == old(self).pc.write,
    {
        if self.paused || self.halted {
            return PcStep::Stopped;
        }
        let next = pc_val + instr_len;
        if next >= self.data.len() {
            self.halted = true;
            return PcStep::ReachedEnd(next);
        }
        self.pc.data = usize_to_le_bytes(next);
        PcStep::Continue
    }

    /// Whether the machine can be unpaused: it must be paused and not
    /// halted.
    pub fn check_unpause(&self) -> (r: Result<(), UnpauseError>)
        ensures
            !self.paused ==> r == Err::<(), UnpauseError>(UnpauseError::NotPaused),
            self.paused && self.halted ==> r == Err::<(), UnpauseError>(UnpauseError::Halted),
            self.paused && !self.halted ==> r is Ok,
    {
        if !self.paused {
            Err(UnpauseError::NotPaused)
        } else if self.halted {
            Err(UnpauseError::Halted)
        } else {
            Ok(())
        }
    }
}

/// After the program counter moves on, reading it back gives the next
/// instruction's address.
pub proof fn lemma_advance_then_read(next: usize)
    ensures
        word_value(le_bytes(next as nat, word_bytes())) == next,
{
    lemma_pow256_word();
    lemma_le_bytes_roundtrip(next as nat, word_bytes());
    assert(le_bytes(next as nat, word_bytes()).take(word_bytes() as int) =~= le_bytes(
        next as nat,
        word_bytes(),
    ));
}

/// Every id in `m` was handed out: it lies in `1..=last`.
pub open spec fn ids_handed_out(m: Map<usize, EmuWatchpoint>, last: usize) -> bool {
    forall|k: usize| #[trigger] m.contains_key(k) ==> 1 <= k <= last
}

/// Every point of `m` covers addresses that fit in a machine word.
pub open spec fn ranges_fit(m: Map<usize, EmuWatchpoint>) -> bool {
    forall|k: usize| #[trigger] m.contains_key(k) ==> m[k].address + m[k].size <= usize::MAX
}

/// An emulator: its machine state and description, the opcode table, and
/// its breakpoints and watchpoints by id.
pub struct Emulator {
    pub state: EmulatorState,
    pub machine_config: MachineConfig,
    pub ops: HashMap<usize, OpInfo>,
    pub op_size: usize,
    pub watchpoints: HashMap<usize, EmuWatchpoint>,
    /// The last watchpoint id handed out.
    pub watchpoints_id: usize,
    pub breakpoints: HashMap<usize, EmuWatchpoint>,
    /// The last breakpoint id handed out.
    pub breakpoints_id: usize,
}

/// Why the instruction at an address cannot be decoded.
#[derive(PartialEq, Eq, Structural, Clone, Copy, Debug)]
pub enum EmuDecodeError {
    /// The opcode has no definition.
    OpcodeNotFound(usize),
    /// An operand reaches past the end of the program.
    OperandOutOfBounds,
}

impl Emulator {
    /// Ids are handed out in order and the opcode width fits a machine word.
    pub open spec fn wf(&self) -> bool {
        &&& ids_handed_out(self.breakpoints@, self.breakpoints_id)
        &&& ids_handed_out(self.watchpoints@, self.watchpoints_id)
        &&& self.op_size <= word_bytes()
    }

    /// Adds a breakpoint at `address` under a fresh id, and gives the id.
    pub fn set_breakpoint(&mut self, address: usize) -> (id: usize)
        requires
            old(self).breakpoints_id < usize::MAX,
        ensures
            id == old(self).breakpoints_id + 1,
            final(self).breakpoints_id == id,
            final(self).breakpoints@ == old(self).breakpoints@.insert(
                id,
                EmuWatchpoint { address, size: 1, hit: 0, disabled: false },
            ),
            old(self).wf() ==> !old(self).breakpoints@.contains_key(id) && final(self).wf(),
            final(self).watchpoints@ == old(self).watchpoints@,
            final(self).watchpoints_id == old(self).watchpoints_id,
            final(self).op_size == old(self).op_size,
            final(self).state == old(self).state,
            final(self).machine_config == old(self).machine_config,
            final(self).ops == old(self).ops,
    {
        self.breakpoints_id = self.breakpoints_id + 1;
        let id = self.breakpoints_id;
        self.breakpoints.insert(id, EmuWatchpoint { address, size: 1, hit: 0, disabled: false });
        id
    }

    /// Removes every breakpoint at `address`.
    pub fn remove_all_breakpoints_at(&mut self, address: usize)
        ensures
            final(self).breakpoints@ == without_address(old(self).breakpoints@, address),
            final(self).breakpoints_id == old(self).breakpoints_id,
            final(self).watchpoints@ == old(self).watchpoints@,
            final(self).watchpoints_id == old(self).watchpoints_id,
            final(self).op_size == old(self).op_size,
            final(self).state == old(self).state,
            final(self).machine_config == old(self).machine_config,
            final(self).ops == old(self).ops,
            old(self).wf() ==> final(self).wf(),
    {
        remove_points_at(&mut self.breakpoints, address);
    }

    /// Removes the breakpoint with id `id`, if there is one.
    pub fn remove_breakpoint(&mut self, id: usize)
        ensures
            final(self).breakpoints@ == old(self).breakpoints@.remove(id),
            final(self).breakpoints_id == old(self).breakpoints_id,
            final(self).watchpoints@ == old(self).watchpoints@,
            final(self).watchpoints_id == old(self).watchpoints_id,
            final(self).op_size == old(self).op_size,
            final(self).state == old(self).state,
            final(self).machine_config == old(self).machine_config,
            final(self).ops == old(self).ops,
            old(self).wf() ==> final(self).wf(),
    {
        self.breakpoints.remove(&id);
    }

    /// Adds a watchpoint over `address..address + size` under a fresh id,
    /// and gives the id.
    pub fn set_watchpoint(&mut self, address: usize, size: usize) -> (id: usize)
        requires
            old(self).watchpoints_id < usize::MAX,
        ensures
            id == old(self).watchpoints_id + 1,
            final(self).watchpoints_id == id,
            final(self).watchpoints@ == old(self).watchpoints@.insert(
                id,
                EmuWatchpoint { address, size, hit: 0, disabled: false },
            ),
            old(self).wf() ==> !old(self).watchpoints@.contains_key(id) && final(self).wf(),
            final(self).breakpoints@ == old(self).breakpoints@,
            final(self).breakpoints_id == old(self).breakpoints_id,
            final(self).op_size == old(self).op_size,
            final(self).state == old(self).state,
            final(self).machine_config == old(self).machine_config,
            final(self).ops == old(self).ops,
    {
        self.watchpoints_id = self.watchpoints_id + 1;
        let id = self.watchpoints_id;
        self.watchpoints.insert(id, EmuWatchpoint { address, size, hit: 0, disabled: false });
        id
    }

    /// Removes every watchpoint at `address`.
    pub fn remove_all_watchpoints_at(&mut self, address: usize)
        ensures
            final(self).watchpoints@ == without_address(old(self).watchpoints@, address),
            final(self).watchpoints_id == old(self).watchpoints_id,
            final(self).breakpoints@ == old(self).breakpoints@,
            final(self).breakpoints_id == old(self).breakpoints_id,
            final(self).op_size == old(self).op_size,
            final(self).state == old(self).state,
            final(self).machine_config == old(self).machine_config,
            final(self).ops == old(self).ops,
            old(self).wf() ==> final(self).wf(),
    {
        remove_points_at(&mut self.watchpoints, address);
    }

    /// Removes the watchpoint with id `id`, if there is one.
    pub fn remove_watchpoint(&mut self, id: usize)
        ensures
            final(self).watchpoints@ == old(self).watchpoints@.remove(id),
            final(self).watchpoints_id == old(self).watchpoints_id,
            final(self).breakpoints@ == old(self).breakpoints@,
            final(self).breakpoints_id == old(self).breakpoints_id,
            final(self).op_size == old(self).op_size,
            final(self).state == old(self).state,
            final(self).machine_config == old(self).machine_config,
            final(self).ops == old(self).ops,
            old(self).wf() ==> final(self).wf(),
    {
        self.watchpoints.remove(&id);
    }

    /// The ids of the breakpoints at exactly `addr`, each once.
    pub fn get_breakpoints_at_addr(&self, addr: usize) -> (r: Vec<usize>)
        ensures
            r@.no_duplicates(),
            r@.to_set() == ids_hit(self.breakpoints@, addr, false),
    {
        points_hit(&self.breakpoints, addr, false)
    }

    /// The ids of the points whose range `address..address + size` holds
    /// `addr`, each once. The points searched are the breakpoints.
    pub fn get_watchpoints_at_addr(&self, addr: usize) -> (r: Vec<usize>)
        requires
            ranges_fit(self.breakpoints@),
        ensures
            r@.no_duplicates(),
            r@.to_set() == ids_hit(self.breakpoints@, addr, true),
    {
        points_hit(&self.breakpoints, addr, true)
    }

    /// Looks up the points hit at `addr`; nothing acts on them yet, so the
    /// emulator is left as it was.
    pub fn handle_watchpoints_breakpoints(&mut self, addr: usize)
        requires
            ranges_fit(old(self).breakpoints@),
        ensures
            *final(self) == *old(self),
            final(self).breakpoints@ == old(self).breakpoints@,
            final(self).watchpoints@ == old(self).watchpoints@,
            final(self).breakpoints_id == old(self).breakpoints_id,
            final(self).watchpoints_id == old(self).watchpoints_id,
            final(self).op_size == old(self).op_size,
    {
        let _breakpoints = self.get_breakpoints_at_addr(addr);
        let _watchpoints = self.get_watchpoints_at_addr(addr);
    }

    /// The opcode of the instruction at `pc`.
    pub fn fetch_opcode(&self, pc: usize) -> (op: usize)
        requires
            self.op_size <= word_bytes(),
            pc <= self.state.data@.len(),
            self.op_size <= self.state.data@.len() - pc,
        ensures
            op as nat == opcode_value(
                self.state.data@.skip(pc as int),
                self.op_size as nat,
                self.machine_config.little_endian,
            ),
    {
        let n = self.state.data.len();
        let rest = vstd::slice::slice_subrange(self.state.data.as_slice(), pc, n);
        assert(rest@ =~= self.state.data@.skip(pc as int));
        decode_opcode(rest, self.op_size, self.machine_config.little_endian)
    }

    /// The operands of an instruction with the given operand list. They are
    /// read from the program after the first `op_size` bytes, and memory
    /// operands are tagged with the area their address (read in the
    /// machine's byte order) falls in.
    pub fn get_opcode_args(&self, args: &Vec<crate::parser_arg::ParserArg>) -> (r: Result<
        (usize, Vec<PopulatedArg>),
        usize,
    >)
        ensures
            match r {
                Ok((len, vals)) => operands_spec(
                    self.state.data@,
                    self.op_size as nat,
                    args@,
                    self.machine_config.memory.layout@,
                    self.machine_config.little_endian,
                ) == Ok::<(nat, Seq<PopulatedArgView>), nat>((len as nat, operand_views(vals@))),
                Err(len) => operands_spec(
                    self.state.data@,
                    self.op_size as nat,
                    args@,
                    self.machine_config.memory.layout@,
                    self.machine_config.little_endian,
                ) == Err::<(nat, Seq<PopulatedArgView>), nat>(len as nat),
            },
    {
        populate_operands(
            self.state.data.as_slice(),
            self.op_size,
            args,
            &self.machine_config.memory.layout,
            self.machine_config.little_endian,
        )
    }

    /// Decodes the instruction at `pc`: its opcode, its definition, and its
    /// operands (read as `get_opcode_args` does). Gives the opcode, the
    /// operands, and the step to the next instruction: the operand end plus
    /// another `op_size`.
    pub fn decode_at(&self, pc: usize) -> (r: Result<(usize, Vec<PopulatedArg>, usize), EmuDecodeError>)
        requires
            self.op_size <= word_bytes(),
            pc <= self.state.data@.len(),
            self.op_size <= self.state.data@.len() - pc,
            self.state.data@.len() + word_bytes() <= usize::MAX,
        ensures
            ({
                let op = opcode_value(
                    self.state.data@.skip(pc as int),
                    self.op_size as nat,
                    self.machine_config.little_endian,
                );
                if !self.ops@.contains_key(op as usize) {
                    r == Err::<(usize, Vec<PopulatedArg>, usize), EmuDecodeError>(
                        EmuDecodeError::OpcodeNotFound(op as usize),
                    )
                } else {
                    match operands_spec(
                        self.state.data@,
                        self.op_size as nat,
                        self.ops@[op as usize].parser_args@,
                        self.machine_config.memory.layout@,
                        self.machine_config.little_endian,
                    ) {
                        Err(_) => r == Err::<(usize, Vec<PopulatedArg>, usize), EmuDecodeError>(
                            EmuDecodeError::OperandOutOfBounds,
                        ),
                        Ok((len, vals)) => r matches Ok((o, args, step)) && o == op && operand_views(
                            args@,
                        ) == vals && step == len + self.op_size,
                    }
                }
            }),
    {
        let op = self.fetch_opcode(pc);
        match self.ops.get(&op) {
            None => Err(EmuDecodeError::OpcodeNotFound(op)),
            Some(info) => {
                proof {
                    crate::disasm::lemma_operands_bounded(
                        self.state.data@,
                        self.op_size as nat,
                        info.parser_args@,
                        self.machine_config.memory.layout@,
                        self.machine_config.little_endian,
                    );
                }
                match self.get_opcode_args(&info.parser_args) {
                    Err(_) => Err(EmuDecodeError::OperandOutOfBounds),
                    Ok((len, vals)) => Ok((op, vals, len + self.op_size)),
                }
            },
        }
    }
}

/// Setting a breakpoint at an address makes its fresh id one of the ids
/// found there; removing that id takes it away again.
pub proof fn lemma_breakpoint_set_then_found(
    m: Map<usize, EmuWatchpoint>,
    id: usize,
    address: usize,
)
    ensures
        ids_hit(
            m.insert(id, EmuWatchpoint { address, size: 1, hit: 0, disabled: false }),
            address,
            false,
        ).contains(id),
        !ids_hit(
            m.insert(id, EmuWatchpoint { address, size: 1, hit: 0, disabled: false }).remove(id),
            address,
            false,
        ).contains(id),
{
}

/// After removing every point at an address, none is found there and every
/// other point stays as it was.
pub proof fn lemma_remove_all_at(m: Map<usize, EmuWatchpoint>, address: usize)
    ensures
        ids_hit(without_address(m, address), address, false) == Set::<usize>::empty(),
        forall|k: usize|
            m.contains_key(k) && m[k].address != address ==> #[trigger] without_address(
                m,
                address,
            ).contains_key(k) && without_address(m, address)[k] == m[k],
{
    assert(ids_hit(without_address(m, address), address, false) =~= Set::<usize>::empty());
}

/// The registers an emulator starts with: the ordinary ones by code, and
/// the program counter, stack pointer and flags register.
pub struct RegisterFile {
    pub regs: Map<usize, EmuRegisterView>,
    pub pc: Option<EmuRegisterView>,
    pub sp: Option<EmuRegisterView>,
    pub flags: Option<EmuRegisterView>,
}

/// `f` with `r` put where a register with attribute `attr` and code `code`
/// goes.
pub open spec fn place(f: RegisterFile, attr: RegisterAttribute, code: usize, r: EmuRegisterView) -> RegisterFile {
    match attr {
        RegisterAttribute::Pc => RegisterFile { pc: Some(r), ..f },
        RegisterAttribute::Sp => RegisterFile { sp: Some(r), ..f },
        RegisterAttribute::Flags => RegisterFile { flags: Some(r), ..f },
        RegisterAttribute::Normal => RegisterFile { regs: f.regs.insert(code, r), ..f },
    }
}

/// The emulated register a described register starts as: unnamed and
/// empty.
pub open spec fn blank_register(r: Register) -> EmuRegisterView {
    EmuRegisterView { name: Seq::empty(), data: Seq::empty(), max_size: r.size as usize, write: r.write }
}

/// The registers of a machine description, each placed in turn.
pub open spec fn configured_registers(regs: Seq<(String, Register)>) -> RegisterFile
    decreases regs.len(),
{
    if regs.len() == 0 {
        RegisterFile { regs: Map::empty(), pc: None, sp: None, flags: None }
    } else {
        let r = regs.last().1;
        place(configured_registers(regs.drop_last()), r.attribute, r.code, blank_register(r))
    }
}

/// Each special register (program counter, stack pointer, flags) goes to
/// its own slot and not into the table: the last described register with
/// that attribute fills the slot, and with none the slot stays empty.
pub proof fn lemma_configured_special_slots(regs: Seq<(String, Register)>, attr: RegisterAttribute)
    requires
        attr != RegisterAttribute::Normal,
    ensures
        forall|i: int|
            0 <= i < regs.len() && #[trigger] regs[i].1.attribute == attr && (forall|j: int|
                i < j < regs.len() ==> (#[trigger] regs[j].1.attribute) != attr) ==> {
                let f = configured_registers(regs);
                &&& attr == RegisterAttribute::Pc ==> f.pc == Some(blank_register(regs[i].1))
                &&& attr == RegisterAttribute::Sp ==> f.sp == Some(blank_register(regs[i].1))
                &&& attr == RegisterAttribute::Flags ==> f.flags == Some(blank_register(regs[i].1))
            },
        (forall|i: int| 0 <= i < regs.len() ==> (#[trigger] regs[i].1.attribute) != attr) ==> {
            let f = configured_registers(regs);
            &&& attr == RegisterAttribute::Pc ==> f.pc is None
            &&& attr == RegisterAttribute::Sp ==> f.sp is None
            &&& attr == RegisterAttribute::Flags ==> f.flags is None
        },
    decreases regs.len(),
{
    if regs.len() > 0 {
        let d = regs.drop_last();
        let l = regs.len() - 1;
        lemma_configured_special_slots(d, attr);
        assert(regs.last() == regs[l]);
        assert forall|i: int|
            0 <= i < regs.len() && #[trigger] regs[i].1.attribute == attr && (forall|j: int|
                i < j < regs.len() ==> (#[trigger] regs[j].1.attribute) != attr) implies {
                let f = configured_registers(regs);
                &&& attr == RegisterAttribute::Pc ==> f.pc == Some(blank_register(regs[i].1))
                &&& attr == RegisterAttribute::Sp ==> f.sp == Some(blank_register(regs[i].1))
                &&& attr == RegisterAttribute::Flags ==> f.flags == Some(blank_register(regs[i].1))
            } by {
            if i < l {
                assert(regs[l].1.attribute != attr);
                assert(d[i] == regs[i]);
                assert forall|j: int| i < j < d.len() implies (#[trigger] d[j].1.attribute) != attr by {
                    assert(d[j] == regs[j]);
                }
            }
        }
        if forall|i: int| 0 <= i < regs.len() ==> (#[trigger] regs[i].1.attribute) != attr {
            assert(regs[l].1.attribute != attr);
            assert forall|i: int| 0 <= i < d.len() implies (#[trigger] d[i].1.attribute) != attr by {
                assert(d[i] == regs[i]);
            }
        }
    }
}

/// The table of the registers after the last one is placed: the table
/// before, with the last register added under its code when it is an
/// ordinary one.
proof fn lemma_configured_regs_step(regs: Seq<(String, Register)>)
    requires
        regs.len() > 0,
    ensures
        configured_registers(regs).regs == (if regs.last().1.attribute == RegisterAttribute::Normal {
            configured_registers(regs.drop_last()).regs.insert(regs.last().1.code, blank_register(regs.last().1))
        } else {
            configured_registers(regs.drop_last()).regs
        }),
{
}

/// The register table holds only ordinary registers, by code: every code in
/// it belongs to an ordinary described register.
pub proof fn lemma_configured_table_only_ordinary(regs: Seq<(String, Register)>, k: usize)
    requires
        configured_registers(regs).regs.contains_key(k),
    ensures
        exists|i: int|
            0 <= i < regs.len() && #[trigger] regs[i].1.attribute == RegisterAttribute::Normal
                && regs[i].1.code == k,
    decreases regs.len(),
{
    let d = regs.drop_last();
    let l = regs.len() - 1;
    lemma_configured_regs_step(regs);
    assert(regs.last() == regs[l]);
    if regs[l].1.attribute == RegisterAttribute::Normal && regs[l].1.code == k {
    } else {
        lemma_configured_table_only_ordinary(d, k);
        let i = choose|i: int|
            0 <= i < d.len() && #[trigger] d[i].1.attribute == RegisterAttribute::Normal && d[i].1.code == k;
        assert(regs[i] == d[i]);
    }
}

/// The last ordinary register with a code is the one the table holds under
/// that code.
pub proof fn lemma_configured_table_holds_ordinary(regs: Seq<(String, Register)>, i: int)
    requires
        0 <= i < regs.len(),
        regs[i].1.attribute == RegisterAttribute::Normal,
        forall|j: int|
            i < j < regs.len() && (#[trigger] regs[j].1.attribute) == RegisterAttribute::Normal
                ==> regs[j].1.code != regs[i].1.code,
    ensures
        configured_registers(regs).regs.contains_key(regs[i].1.code),
        configured_registers(regs).regs[regs[i].1.code] == blank_register(regs[i].1),
    decreases regs.len(),
{
    let d = regs.drop_last();
    let l = regs.len() - 1;
    lemma_configured_regs_step(regs);
    assert(regs.last() == regs[l]);
    if i < l {
        assert(d[i] == regs[i]);
        assert forall|j: int|
            i < j < d.len() && (#[trigger] d[j].1.attribute) == RegisterAttribute::Normal implies d[j].1.code
            != d[i].1.code by {
            assert(d[j] == regs[j]);
        }
        lemma_configured_table_holds_ordinary(d, i);
    }
}

/// The described register named `name`. Should two entries share a name,
/// the later one counts, as it does where the registers are placed (see
/// `configured_registers`).
pub open spec fn find_register(regs: Seq<(String, Register)>, name: Seq<char>) -> Option<Register>
    decreases regs.len(),
{
    if regs.len() == 0 {
        None
    } else if regs.last().0@ == name {
        Some(regs.last().1)
    } else {
        find_register(regs.drop_last(), name)
    }
}

/// No two described registers have the same name (as in a description,
/// where registers are keyed by name).
pub open spec fn names_distinct(regs: Seq<(String, Register)>) -> bool {
    forall|i: int, j: int| 0 <= i < j < regs.len() ==> #[trigger] regs[i].0@ != #[trigger] regs[j].0@
}

/// Where no two registers share a name, looking up a described register's
/// name gives that register.
pub proof fn lemma_find_register_distinct(regs: Seq<(String, Register)>, i: int)
    requires
        names_distinct(regs),
        0 <= i < regs.len(),
    ensures
        find_register(regs, regs[i].0@) == Some(regs[i].1),
    decreases regs.len(),
{
    if i < regs.len() - 1 {
        assert(regs[i].0@ != regs[regs.len() - 1].0@);
        let d = regs.drop_last();
        assert(d[i] == regs[i]);
        assert(names_distinct(d)) by {
            assert forall|a: int, b: int| 0 <= a < b < d.len() implies #[trigger] d[a].0@ != #[trigger] d[b].0@ by {
                assert(d[a] == regs[a] && d[b] == regs[b]);
            }
        }
        lemma_find_register_distinct(d, i);
    }
}

/// Why an emulator cannot be built.
#[derive(PartialEq, Eq, Structural, Clone, Copy, Debug)]
pub enum EmuError {
    /// No register has the program-counter attribute.
    NoPcRegister,
    /// The initial value at this position names no described register.
    UnknownRegister(usize),
    /// The initial value at this position is longer than its register
    /// (whose size is given).
    InitialDataTooLarge(usize, u8),
    /// The description gives no opcode width.
    UnknownOpSize,
    /// The opcode width exceeds a machine word.
    OpSizeTooLarge(usize),
}

/// The register file after the initial values `init`, placed in turn, or
/// the error of the first one that does not fit its description.
pub open spec fn with_initial(
    regs: Seq<(String, Register)>,
    f: RegisterFile,
    init: Seq<(String, Vec<u8>)>,
) -> Result<RegisterFile, EmuError>
    decreases init.len(),
{
    if init.len() == 0 {
        Ok(f)
    } else {
        match with_initial(regs, f, init.drop_last()) {
            Err(e) => Err(e),
            Ok(g) => {
                let (name, bytes) = init.last();
                match find_register(regs, name@) {
                    None => Err(EmuError::UnknownRegister((init.len() - 1) as usize)),
                    Some(r) => if bytes@.len() > r.size {
                        Err(EmuError::InitialDataTooLarge((init.len() - 1) as usize, r.size))
                    } else {
                        Ok(
                            place(
                                g,
                                r.attribute,
                                r.code,
                                EmuRegisterView {
                                    name: name@,
                                    data: bytes@,
                                    max_size: r.size as usize,
                                    write: r.write,
                                },
                            ),
                        )
                    },
                }
            },
        }
    }
}

/// The views of the registers of a register table.
pub open spec fn register_views(m: Map<usize, EmuRegister>) -> Map<usize, EmuRegisterView> {
    m.map_values(|r: EmuRegister| r@)
}

/// The view of an optional register.
pub open spec fn opt_register_view(o: Option<EmuRegister>) -> Option<EmuRegisterView> {
    match o {
        Some(r) => Some(r@),
        None => None,
    }
}

/// Mutable register file under construction.
struct RegisterBuilder {
    regs: HashMap<usize, EmuRegister>,
    pc: Option<EmuRegister>,
    sp: Option<EmuRegister>,
    flags: Option<EmuRegister>,
}

impl RegisterBuilder {
    spec fn file(&self) -> RegisterFile {
        RegisterFile {
            regs: register_views(self.regs@),
            pc: opt_register_view(self.pc),
            sp: opt_register_view(self.sp),
            flags: opt_register_view(self.flags),
        }
    }

    fn put(&mut self, attr: RegisterAttribute, code: usize, r: EmuRegister)
        ensures
            final(self).file() == place(old(self).file(), attr, code, r@),
    {
        match attr {
            RegisterAttribute::Pc => {
                self.pc = Some(r);
            },
            RegisterAttribute::Sp => {
                self.sp = Some(r);
            },
            RegisterAttribute::Flags => {
                self.flags = Some(r);
            },
            RegisterAttribute::Normal => {
                let ghost v = r@;
                self.regs.insert(code, r);
                proof {
                    assert(register_views(self.regs@) =~= register_views(old(self).regs@).insert(code, v));
                }
            },
        }
    }
}

/// The described register named `name` (the later one, should two share
/// it).
fn lookup_register(regs: &Vec<(String, Register)>, name: &String) -> (r: Option<Register>)
    ensures
        r == find_register(regs@, name@),
{
    let n = regs.len();
    let mut found: Option<Register> = None;
    assert(regs@.take(0).len() == 0);
    for i in 0..n
        invariant
            n == regs@.len(),
            found == find_register(regs@.take(i as int), name@),
    {
        proof {
            assert(regs@.take(i + 1).drop_last() =~= regs@.take(i as int));
            assert(regs@.take(i + 1).last() == regs@[i as int]);
        }
        if regs[i].0 == *name {
            found = Some(regs[i].1);
        }
    }
    proof {
        assert(regs@.take(n as int) =~= regs@);
    }
    found
}

/// Where a described register lives in a register file: the program
/// counter, stack pointer and flags in their own slots, an ordinary
/// register in the table under its code.
pub open spec fn register_slot(f: RegisterFile, r: Register) -> Option<EmuRegisterView> {
    match r.attribute {
        RegisterAttribute::Pc => f.pc,
        RegisterAttribute::Sp => f.sp,
        RegisterAttribute::Flags => f.flags,
        RegisterAttribute::Normal => if f.regs.contains_key(r.code) {
            Some(f.regs[r.code])
        } else {
            None
        },
    }
}

/// Two described registers live in the same place.
pub open spec fn same_slot(a: Register, b: Register) -> bool {
    a.attribute == b.attribute && (a.attribute == RegisterAttribute::Normal ==> a.code == b.code)
}

/// Once the initial values are in, each one sits where the register it
/// names lives, holding its name and bytes, the register's size and its
/// write flag, unless a later initial value goes to the same place.
pub proof fn lemma_initial_values_in_place(
    regs: Seq<(String, Register)>,
    f: RegisterFile,
    init: Seq<(String, Vec<u8>)>,
    i: int,
    r: Register,
)
    requires
        with_initial(regs, f, init) is Ok,
        0 <= i < init.len(),
        find_register(regs, init[i].0@) == Some(r),
        forall|j: int|
            i < j < init.len() ==> (#[trigger] find_register(regs, init[j].0@) matches Some(r2) ==> !same_slot(
                r,
                r2,
            )),
    ensures
        register_slot(with_initial(regs, f, init)->Ok_0, r) == Some(
            EmuRegisterView {
                name: init[i].0@,
                data: init[i].1@,
                max_size: r.size as usize,
                write: r.write,
            },
        ),
    decreases init.len(),
{
    let d = init.drop_last();
    let l = init.len() - 1;
    assert(init.last() == init[l]);
    if i < l {
        assert(d[i] == init[i]);
        assert forall|j: int| i < j < d.len() implies (#[trigger] find_register(regs, d[j].0@) matches Some(
            r2,
        ) ==> !same_slot(r, r2)) by {
            assert(d[j] == init[j]);
        }
        lemma_initial_values_in_place(regs, f, d, i, r);
        assert(find_register(regs, init[l].0@) matches Some(r2) ==> !same_slot(r, r2));
    }
}

proof fn lemma_with_initial_prefix_err(
    regs: Seq<(String, Register)>,
    f: RegisterFile,
    init: Seq<(String, Vec<u8>)>,
    k: int,
)
    requires
        0 <= k <= init.len(),
    ensures
        with_initial(regs, f, init.take(k)) is Err ==> with_initial(regs, f, init) == with_initial(
            regs,
            f,
            init.take(k),
        ),
    decreases init.len() - k,
{
    if k < init.len() {
        lemma_with_initial_prefix_err(regs, f, init, k + 1);
        assert(init.take(k + 1).drop_last() =~= init.take(k));
    } else {
        assert(init.take(k) =~= init);
    }
}

/// Builds an emulator for `data` from a machine description: memory is the
/// given bytes or `initial_size` zero bytes (4096 when not given); every
/// described register starts empty in its place; a program counter must be
/// described; then each initial value fills the register it names (which
/// must be described, and at least as large as the value); the opcode width
/// must be given and fit a machine word. No breakpoints or watchpoints yet.
pub fn create_emulation(
    config: MachineConfig,
    ops: HashMap<usize, OpInfo>,
    data: Vec<u8>,
    registers: Option<Vec<(String, Vec<u8>)>>,
    memory: Option<Vec<u8>>,
) -> (r: Result<Emulator, EmuError>)
    ensures
        ({
            let f0 = configured_registers(config.registers@);
            let init = match registers {
                Some(v) => v@,
                None => Seq::<(String, Vec<u8>)>::empty(),
            };
            if f0.pc is None {
                r == Err::<Emulator, EmuError>(EmuError::NoPcRegister)
            } else {
                match with_initial(config.registers@, f0, init) {
                    Err(e) => r == Err::<Emulator, EmuError>(e),
                    Ok(f) => match config.instruction.op_size {
                        None => r == Err::<Emulator, EmuError>(EmuError::UnknownOpSize),
                        Some(n) => if n > word_bytes() {
                            r == Err::<Emulator, EmuError>(EmuError::OpSizeTooLarge(n))
                        } else {
                            r matches Ok(emu) && {
                                &&& emu.wf()
                                &&& emu.op_size == n
                                &&& emu.state.data@ == data@
                                &&& emu.state.memory@ == (match memory {
                                    Some(m) => m@,
                                    None => Seq::new(
                                        (match config.memory.initial_size {
                                            Some(s) => s,
                                            None => 4096,
                                        }) as nat,
                                        |i: int| 0u8,
                                    ),
                                })
                                &&& register_views(emu.state.registers@) == f.regs
                                &&& Some(emu.state.pc@) == f.pc
                                &&& opt_register_view(emu.state.sp) == f.sp
                                &&& opt_register_view(emu.state.flags) == f.flags
                                &&& !emu.state.halted
                                &&& !emu.state.paused
                                &&& emu.machine_config == config
                                &&& emu.ops == ops
                                &&& emu.breakpoints@ == Map::<usize, EmuWatchpoint>::empty()
                                &&& emu.watchpoints@ == Map::<usize, EmuWatchpoint>::empty()
                                &&& emu.breakpoints_id == 0
                                &&& emu.watchpoints_id == 0
                            }
                        },
                    },
                }
            }
        }),
{
    let m_size: usize = match config.memory.initial_size {
        Some(s) => s,
        None => 4096,
    };
    let memory = match memory {
        Some(m) => m,
        None => {
            let z: Vec<u8> = vec![0u8; m_size];
            assert(z@ =~= Seq::new(m_size as nat, |i: int| 0u8));
            z
        },
    };
    let mut b = RegisterBuilder { regs: HashMap::new(), pc: None, sp: None, flags: None };
    proof {
        assert(register_views(b.regs@) =~= Map::<usize, EmuRegisterView>::empty());
    }
    let n = config.registers.len();
    for i in 0..n
        invariant
            n == config.registers@.len(),
            b.file() == configured_registers(config.registers@.take(i as int)),
    {
        let reg = config.registers[i].1;
        proof {
            assert(config.registers@.take(i + 1).drop_last() =~= config.registers@.take(i as int));
        }
        let r = EmuRegister { name: String::new(), data: Vec::new(), max_size: reg.size as usize, write: reg.write };
        proof {
            assert(r@ =~= blank_register(reg));
        }
        b.put(reg.attribute, reg.code, r);
    }
    proof {
        assert(config.registers@.take(n as int) =~= config.registers@);
    }
    if b.pc.is_none() {
        return Err(EmuError::NoPcRegister);
    }
    let ghost f0 = b.file();
    match &registers {
        None => {},
        Some(init) => {
            let k = init.len();
            proof {
                assert(init@.take(0) =~= Seq::<(String, Vec<u8>)>::empty());
            }
            for j in 0..k
                invariant
                    k == init@.len(),
                    registers == Some(*init),
                    f0 == configured_registers(config.registers@),
                    f0.pc is Some,
                    b.pc is Some,
                    with_initial(config.registers@, f0, init@.take(j as int)) == Ok::<
                        RegisterFile,
                        EmuError,
                    >(b.file()),
            {
                proof {
                    assert(init@.take(j + 1).drop_last() =~= init@.take(j as int));
                    assert(init@.take(j + 1).last() == init@[j as int]);
                    lemma_with_initial_prefix_err(config.registers@, f0, init@, j + 1);
                }
                let info = lookup_register(&config.registers, &init[j].0);
                match info {
                    None => {
                        return Err(EmuError::UnknownRegister(j));
                    },
                    Some(reg) => {
                        if init[j].1.len() > reg.size as usize {
                            return Err(EmuError::InitialDataTooLarge(j, reg.size));
                        }
                        let r = EmuRegister {
                            name: init[j].0.clone(),
                            data: init[j].1.clone(),
                            max_size: reg.size as usize,
                            write: reg.write,
                        };
                        b.put(reg.attribute, reg.code, r);
                    },
                }
            }
            proof {
                assert(init@.take(k as int) =~= init@);
            }
        },
    }
    let op_size = match config.instruction.op_size {
        None => {
            return Err(EmuError::UnknownOpSize);
        },
        Some(n) => n,
    };
    if op_size > word_size() {
        return Err(EmuError::OpSizeTooLarge(op_size));
    }
    let pc = match b.pc {
        Some(p) => p,
        None => {
            return Err(EmuError::NoPcRegister);
        },
    };
    let state = EmulatorState {
        data,
        memory,
        registers: b.regs,
        pc,
        sp: b.sp,
        flags: b.flags,
        halted: false,
        paused: false,
    };
    let emu = Emulator {
        state,
        machine_config: config,
        ops,
        op_size,
        watchpoints: HashMap::new(),
        watchpoints_id: 0,
        breakpoints: HashMap::new(),
        breakpoints_id: 0,
    };
    proof {
        assert(emu.breakpoints@ =~= Map::<usize, EmuWatchpoint>::empty());
    }
    Ok(emu)
}

} // verus!
