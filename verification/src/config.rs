//! The machine description: registers, memory layout, instruction width and
//! formatting, with the rules that turn its raw entries into values.
use vstd::prelude::*;
use crate::formatter::FormattingConfig;
use crate::text::{chars_of, parse_unsigned, parse_unsigned_at, IntErrorKind};

verus! {

broadcast use vstd::string::group_string_axioms;

/// A special role a register plays.
#[derive(PartialEq, Eq, Structural, Clone, Copy, Debug)]
pub enum RegisterAttribute {
    /// An ordinary register, addressed by its code.
    Normal,
    /// The stack pointer.
    Sp,
    /// The program counter.
    Pc,
    /// The flags register.
    Flags,
}

impl Default for RegisterAttribute {
    fn default() -> (r: Self)
        ensures
            r == RegisterAttribute::Normal,
    {
        RegisterAttribute::Normal
    }
}

/// A register of the machine.
#[derive(PartialEq, Eq, Structural, Clone, Copy, Debug)]
pub struct Register {
    /// The number instructions use for it.
    pub code: usize,
    pub attribute: RegisterAttribute,
    /// Its size in bytes.
    pub size: u8,
    /// Whether it can be written.
    pub write: bool,
}

impl Default for Register {
    fn default() -> (r: Self)
        ensures
            r == (Register { code: 0, attribute: RegisterAttribute::Normal, size: 0, write: false }),
    {
        Register { code: 0, attribute: RegisterAttribute::Normal, size: 0, write: false }
    }
}

/// The default for flags that are on unless given.
pub fn default_true() -> (b: bool)
    ensures
        b,
{
    true
}

/// The default register size, one byte.
pub fn default_1() -> (n: u8)
    ensures
        n == 1,
{
    1u8
}

/// A register entry gave no code and no special attribute.
#[derive(PartialEq, Eq, Structural, Clone, Copy, Debug)]
pub struct MissingRegisterCode;

impl Register {
    /// A register given by its code alone; everything else takes its
    /// default.
    pub fn simple(code: usize) -> (r: Register)
        ensures
            r == (Register { code, attribute: RegisterAttribute::Normal, size: 0, write: false }),
    {
        Register { code, ..Default::default() }
    }

    /// A register given in full. A register with a special attribute has
    /// code 0 whatever was given; an ordinary one needs a code.
    pub fn complex(code: Option<usize>, attribute: RegisterAttribute, size: u8, write: bool) -> (r:
        Result<Register, MissingRegisterCode>)
        ensures
            attribute != RegisterAttribute::Normal ==> r == Ok::<Register, MissingRegisterCode>(
                Register { code: 0, attribute, size, write },
            ),
            attribute == RegisterAttribute::Normal ==> r == (match code {
                Some(c) => Ok(Register { code: c, attribute, size, write }),
                None => Err(MissingRegisterCode),
            }),
    {
        if attribute != RegisterAttribute::Normal {
            return Ok(Register { code: 0, attribute, size, write });
        }
        match code {
            Some(c) => Ok(Register { code: c, attribute, size, write }),
            None => Err(MissingRegisterCode),
        }
    }
}

/// What a memory area allows.
#[derive(PartialEq, Eq, Structural, Clone, Copy, Debug)]
pub struct MemoryLayoutPermissions {
    pub read: bool,
    pub write: bool,
    pub execute: bool,
}

impl Default for MemoryLayoutPermissions {
    fn default() -> (r: Self)
        ensures
            r == (MemoryLayoutPermissions { read: true, write: true, execute: true }),
    {
        MemoryLayoutPermissions { read: true, write: true, execute: true }
    }
}

/// The permissions a flag string grants, or its first character that is
/// none of `r`, `w`, `x`.
pub open spec fn permissions_spec(s: Seq<char>) -> Result<MemoryLayoutPermissions, char>
    decreases s.len(),
{
    if s.len() == 0 {
        Ok(MemoryLayoutPermissions { read: false, write: false, execute: false })
    } else {
        match permissions_spec(s.drop_last()) {
            Err(c) => Err(c),
            Ok(p) => if s.last() == 'r' {
                Ok(MemoryLayoutPermissions { read: true, ..p })
            } else if s.last() == 'w' {
                Ok(MemoryLayoutPermissions { write: true, ..p })
            } else if s.last() == 'x' {
                Ok(MemoryLayoutPermissions { execute: true, ..p })
            } else {
                Err(s.last())
            },
        }
    }
}

/// A permission string over `r`, `w` and `x` grants reading exactly when
/// it holds an `r`, writing exactly when it holds a `w` and executing
/// exactly when it holds an `x`, whatever the order and repetitions; any
/// other character is refused, and the one reported is the first such.
pub proof fn lemma_permissions_grant_named(s: Seq<char>)
    ensures
        (forall|i: int| 0 <= i < s.len() ==> (#[trigger] s[i] == 'r' || s[i] == 'w' || s[i] == 'x'))
            ==> permissions_spec(s) == Ok::<MemoryLayoutPermissions, char>(
            MemoryLayoutPermissions {
                read: s.contains('r'),
                write: s.contains('w'),
                execute: s.contains('x'),
            },
        ),
        permissions_spec(s) matches Err(c) ==> exists|i: int|
            0 <= i < s.len() && #[trigger] s[i] == c && c != 'r' && c != 'w' && c != 'x' && forall|j: int|
                0 <= j < i ==> (#[trigger] s[j] == 'r' || s[j] == 'w' || s[j] == 'x'),
    decreases s.len(),
{
    if s.len() > 0 {
        let d = s.drop_last();
        lemma_permissions_grant_named(d);
        assert forall|i: int| 0 <= i < d.len() implies d[i] == s[i] by {}
        if forall|i: int| 0 <= i < s.len() ==> (#[trigger] s[i] == 'r' || s[i] == 'w' || s[i] == 'x') {
            assert forall|i: int| 0 <= i < d.len() implies (#[trigger] d[i] == 'r' || d[i] == 'w' || d[i]
                == 'x') by {
                assert(d[i] == s[i]);
            }
            let l = s.len() - 1;
            assert(s.last() == s[l]);
            assert forall|c: char| #[trigger] s.contains(c) == (d.contains(c) || s.last() == c) by {
                if s.contains(c) {
                    let k = choose|k: int| 0 <= k < s.len() && s[k] == c;
                    if k < l {
                        assert(d[k] == c);
                    }
                }
                if d.contains(c) {
                    let k = choose|k: int| 0 <= k < d.len() && d[k] == c;
                    assert(s[k] == c);
                }
                if s.last() == c {
                    assert(s[l] == c);
                }
            }
        }
        match permissions_spec(s) {
            Err(c) => {
                match permissions_spec(d) {
                    Err(c2) => {
                        let i = choose|i: int|
                            0 <= i < d.len() && #[trigger] d[i] == c2 && c2 != 'r' && c2 != 'w' && c2
                                != 'x' && forall|j: int|
                                0 <= j < i ==> (#[trigger] d[j] == 'r' || d[j] == 'w' || d[j] == 'x');
                        assert(s[i] == c);
                        assert forall|j: int| 0 <= j < i implies (#[trigger] s[j] == 'r' || s[j] == 'w'
                            || s[j] == 'x') by {
                            assert(d[j] == s[j]);
                        }
                    },
                    Ok(_) => {
                        let l = s.len() - 1;
                        assert(s[l] == c);
                        assert forall|j: int| 0 <= j < l implies (#[trigger] s[j] == 'r' || s[j] == 'w'
                            || s[j] == 'x') by {
                            assert(d[j] == s[j]);
                            if !(d[j] == 'r' || d[j] == 'w' || d[j] == 'x') {
                                lemma_permissions_first_bad(d, j);
                            }
                        }
                    },
                }
            },
            Ok(_) => {},
        }
    }
}

/// A string holding a character other than `r`, `w`, `x` is refused.
proof fn lemma_permissions_first_bad(s: Seq<char>, j: int)
    requires
        0 <= j < s.len(),
        !(s[j] == 'r' || s[j] == 'w' || s[j] == 'x'),
    ensures
        permissions_spec(s) is Err,
    decreases s.len(),
{
    if j < s.len() - 1 {
        assert(s.drop_last()[j] == s[j]);
        lemma_permissions_first_bad(s.drop_last(), j);
    }
}

impl MemoryLayoutPermissions {
    /// Reads a permission string: `r`, `w` and `x` each grant what they name;
    /// anything else is refused. No string at all grants everything.
    pub fn from_flags(s: Option<String>) -> (r: Result<MemoryLayoutPermissions, char>)
        ensures
            s is None ==> r == Ok::<MemoryLayoutPermissions, char>(
                MemoryLayoutPermissions { read: true, write: true, execute: true },
            ),
            s matches Some(t) ==> r == permissions_spec(t@),
    {
        match s {
            None => Ok(MemoryLayoutPermissions::default()),
            Some(t) => permissions_of(&t),
        }
    }
}

/// The permissions the flag string `t` grants.
fn permissions_of(t: &String) -> (r: Result<MemoryLayoutPermissions, char>)
    ensures
        r == permissions_spec(t@),
{
    let cs = chars_of(t.as_str());
    let n = cs.len();
    let mut p = MemoryLayoutPermissions { read: false, write: false, execute: false };
    for i in 0..n
        invariant
            n == cs@.len(),
            cs@ == t@,
            permissions_spec(cs@.take(i as int)) == Ok::<MemoryLayoutPermissions, char>(p),
    {
        proof {
            assert(cs@.take(i + 1).drop_last() =~= cs@.take(i as int));
            lemma_permissions_prefix_err(cs@, i + 1);
        }
        let c = cs[i];
        assert(cs@.take(i + 1).last() == c);
        if c == 'r' {
            p.read = true;
        } else if c == 'x' {
            p.execute = true;
        } else if c == 'w' {
            p.write = true;
        } else {
            return Err(c);
        }
    }
    proof {
        assert(cs@.take(n as int) =~= cs@);
    }
    Ok(p)
}

proof fn lemma_permissions_prefix_err(s: Seq<char>, k: int)
    requires
        0 <= k <= s.len(),
    ensures
        permissions_spec(s.take(k)) is Err ==> permissions_spec(s) == permissions_spec(s.take(k)),
    decreases s.len() - k,
{
    if k < s.len() {
        lemma_permissions_prefix_err(s, k + 1);
        assert(s.take(k + 1).drop_last() =~= s.take(k));
    } else {
        assert(s.take(k) =~= s);
    }
}

/// A named memory area.
#[derive(Clone, Debug)]
pub struct MemoryLayout {
    pub name: String,
    pub permissions: MemoryLayoutPermissions,
}

/// A memory area over the addresses `start..end`.
#[derive(Clone, Debug)]
pub struct MemoryRegion {
    pub start: usize,
    pub end: usize,
    pub layout: MemoryLayout,
}

/// The memory of the machine.
#[derive(Clone, Debug)]
pub struct MemoryConfig {
    /// Upper limit of the memory size; none lets it grow.
    pub size: Option<usize>,
    /// The size memory starts with.
    pub initial_size: Option<usize>,
    /// The named areas. Built by `layout_from_entries`, no two of them have
    /// the same address range (`ranges_distinct`).
    pub layout: Vec<MemoryRegion>,
}

impl Default for MemoryConfig {
    fn default() -> (r: Self)
        ensures
            r.size is None,
            r.initial_size is None,
            r.layout@.len() == 0,
    {
        MemoryConfig { size: None, initial_size: None, layout: Vec::new() }
    }
}

/// The instruction encoding.
#[derive(Clone, Copy, Debug)]
pub struct InstructionConfig {
    /// The opcode width in bytes; none asks for a custom decoder.
    pub op_size: Option<usize>,
}

/// A machine description.
#[derive(Clone, Debug)]
pub struct MachineConfig {
    /// The registers by name. A description keys them by name, so no two
    /// share one (`crate::emulator::names_distinct`); where two did, the
    /// later would count.
    pub registers: Vec<(String, Register)>,
    pub memory: MemoryConfig,
    pub instruction: InstructionConfig,
    pub little_endian: bool,
    pub implementation: Option<String>,
    pub verbose: bool,
    pub format: FormattingConfig,
}

/// The pieces of `s` between the occurrences of `..`, found left to right
/// (as `str::split("..")` gives them).
pub open spec fn split_dotdot(s: Seq<char>) -> Seq<Seq<char>>
    decreases s.len(),
{
    if s.len() < 2 {
        seq![s]
    } else if s[0] == '.' && s[1] == '.' {
        seq![Seq::<char>::empty()] + split_dotdot(s.skip(2))
    } else {
        let r = split_dotdot(s.drop_first());
        r.update(0, seq![s[0]] + r[0])
    }
}

/// `parts` with `c` put in front of its first piece.
pub open spec fn prepend_first(c: Seq<char>, parts: Seq<Seq<char>>) -> Seq<Seq<char>> {
    parts.update(0, c + parts[0])
}

proof fn lemma_split_nonempty(s: Seq<char>)
    ensures
        split_dotdot(s).len() >= 1,
    decreases s.len(),
{
    if s.len() >= 2 {
        if s[0] == '.' && s[1] == '.' {
            lemma_split_nonempty(s.skip(2));
        } else {
            lemma_split_nonempty(s.drop_first());
        }
    }
}

/// The address range a memory-layout key names: `start..end`, or a bare
/// `start` for a range up to the top of memory. Every piece between `..`
/// must be an unsigned number, so `start..` (whose second piece is empty) is
/// refused.
pub open spec fn range_key_spec(s: Seq<char>) -> Option<(usize, usize)> {
    let parts = split_dotdot(s);
    if forall|j: int| 0 <= j < parts.len() ==> #[trigger] parse_unsigned(parts[j], usize::MAX as nat) is Ok {
        Some(
            (
                parse_unsigned(parts[0], usize::MAX as nat)->Ok_0 as usize,
                if parts.len() >= 2 {
                    parse_unsigned(parts[1], usize::MAX as nat)->Ok_0 as usize
                } else {
                    usize::MAX
                },
            ),
        )
    } else {
        None
    }
}

/// The pieces of `cs` between the occurrences of `..`.
fn split_pieces(cs: &Vec<char>) -> (r: Vec<Vec<char>>)
    ensures
        r@.len() == split_dotdot(cs@).len(),
        forall|j: int| 0 <= j < r@.len() ==> #[trigger] r@[j]@ == split_dotdot(cs@)[j],
{
    let n = cs.len();
    let mut done: Vec<Vec<char>> = Vec::new();
    let mut cur: Vec<char> = Vec::new();
    let mut i: usize = 0;
    let ghost done_v: Seq<Seq<char>> = Seq::empty();
    assert(cs@.skip(0) =~= cs@);
    assert(prepend_first(Seq::<char>::empty(), split_dotdot(cs@)) =~= split_dotdot(cs@)) by {
        lemma_split_nonempty(cs@);
    }
    while i < n
        invariant
            n == cs@.len(),
            i <= n,
            done@.len() == done_v.len(),
            forall|j: int| 0 <= j < done@.len() ==> #[trigger] done@[j]@ == done_v[j],
            split_dotdot(cs@) == done_v + prepend_first(cur@, split_dotdot(cs@.skip(i as int))),
        decreases n - i,
    {
        let ghost rest = cs@.skip(i as int);
        proof {
            lemma_split_nonempty(rest);
        }
        if i + 1 < n && cs[i] == '.' && cs[i + 1] == '.' {
            proof {
                assert(rest[0] == '.' && rest[1] == '.');
                assert(rest.skip(2) =~= cs@.skip(i + 2));
                lemma_split_nonempty(cs@.skip(i + 2));
                let tail = split_dotdot(cs@.skip(i + 2));
                assert(prepend_first(cur@, seq![Seq::<char>::empty()] + tail) =~= seq![cur@] + prepend_first(Seq::<char>::empty(), tail));
                assert(prepend_first(Seq::<char>::empty(), tail) =~= tail);
                assert(done_v + (seq![cur@] + tail) =~= done_v.push(cur@) + tail);
            }
            let ghost cv = cur@;
            done.push(cur);
            proof {
                done_v = done_v.push(cv);
            }
            cur = Vec::new();
            i = i + 2;
        } else {
            let c = cs[i];
            proof {
                assert(rest[0] == c);
                assert(rest.drop_first() =~= cs@.skip(i + 1));
                let r = split_dotdot(cs@.skip(i + 1));
                lemma_split_nonempty(cs@.skip(i + 1));
                if rest.len() < 2 {
                    assert(cs@.skip(i + 1) =~= Seq::<char>::empty());
                    assert(r =~= seq![Seq::<char>::empty()]);
                    assert(rest =~= seq![c]);
                    assert(seq![c] + r[0] =~= seq![c]);
                    assert(split_dotdot(rest) == seq![rest]);
                    assert(split_dotdot(rest) =~= r.update(0, seq![c] + r[0]));
                } else {
                    assert(rest[1] == cs@[i + 1]);
                    assert(split_dotdot(rest) == r.update(0, seq![c] + r[0]));
                }
                assert(cur@ + (seq![c] + r[0]) =~= cur@.push(c) + r[0]);
                assert(prepend_first(cur@, r.update(0, seq![c] + r[0])) =~= prepend_first(cur@.push(c), r));
            }
            cur.push(c);
            i = i + 1;
        }
    }
    proof {
        assert(cs@.skip(n as int) =~= Seq::<char>::empty());
        assert(prepend_first(cur@, seq![Seq::<char>::empty()]) =~= seq![cur@]);
    }
    let ghost cv = cur@;
    done.push(cur);
    proof {
        done_v = done_v.push(cv);
    }
    done
}

/// Reads a memory-layout key: `start..end`, or a bare `start` for a range up
/// to the top of memory. Nothing when a piece between `..` is not an
/// unsigned number (an empty one, as in `start..`, included).
pub fn parse_range_key(key: &String) -> (r: Option<(usize, usize)>)
    ensures
        r == range_key_spec(key@),
{
    let cs = chars_of(key.as_str());
    let parts = split_pieces(&cs);
    proof {
        lemma_split_nonempty(cs@);
    }
    let ghost sp = split_dotdot(cs@);
    let k = parts.len();
    let mut vals: Vec<usize> = Vec::new();
    for j in 0..k
        invariant
            k == parts@.len(),
            k == sp.len(),
            cs@ == key@,
            sp == split_dotdot(cs@),
            forall|i: int| 0 <= i < parts@.len() ==> #[trigger] parts@[i]@ == sp[i],
            vals@.len() == j,
            forall|i: int| 0 <= i < j ==> parse_unsigned(#[trigger] sp[i], usize::MAX as nat)
                == Ok::<nat, IntErrorKind>(vals@[i] as nat),
    {
        assert(parts@[j as int]@.skip(0) =~= parts@[j as int]@);
        match parse_unsigned_at(&parts[j], 0, usize::MAX) {
            Err(_) => {
                assert(parse_unsigned(sp[j as int], usize::MAX as nat) is Err);
                assert(range_key_spec(key@) is None);
                return None;
            },
            Ok(v) => {
                vals.push(v);
            },
        }
    }
    let end = if k >= 2 { vals[1] } else { usize::MAX };
    Some((vals[0], end))
}

impl MachineConfig {
    /// Where the implementation file is: the one given, which overrides the
    /// description's, or else the one the description names.
    pub fn implementation_path(&self, given: Option<String>) -> (r: Option<String>)
        ensures
            r == (if given is Some {
                given
            } else {
                self.implementation
            }),
    {
        match given {
            Some(p) => Some(p),
            None => match &self.implementation {
                Some(p) => Some(p.clone()),
                None => None,
            },
        }
    }
}

impl MemoryLayout {
    /// A copy with the same name and permissions.
    pub fn duplicate(&self) -> (r: MemoryLayout)
        ensures
            r == *self,
    {
        MemoryLayout { name: self.name.clone(), permissions: self.permissions }
    }
}

/// The first position in `regions` whose range is `start..end`.
pub open spec fn range_position(regions: Seq<MemoryRegion>, start: usize, end: usize) -> Option<nat>
    decreases regions.len(),
{
    if regions.len() == 0 {
        None
    } else if regions[0].start == start && regions[0].end == end {
        Some(0)
    } else {
        match range_position(regions.drop_first(), start, end) {
            Some(i) => Some(i + 1),
            None => None,
        }
    }
}

/// No two areas of `regions` have the same address range.
pub open spec fn ranges_distinct(regions: Seq<MemoryRegion>) -> bool {
    forall|i: int, j: int|
        0 <= i < j < regions.len() ==> !(#[trigger] regions[i].start == #[trigger] regions[j].start
            && regions[i].end == regions[j].end)
}

/// `regions` with `r` in the place of the area with the same range, or
/// added at the end if there is none (as a map keyed by range does).
pub open spec fn layout_insert(regions: Seq<MemoryRegion>, r: MemoryRegion) -> Seq<MemoryRegion> {
    match range_position(regions, r.start, r.end) {
        Some(i) => regions.update(i as int, r),
        None => regions.push(r),
    }
}

/// The memory areas named by the keyed entries, in order, or the position
/// of the first key that is not a range.
pub open spec fn layout_spec(entries: Seq<(String, MemoryLayout)>) -> Result<Seq<MemoryRegion>, usize>
    decreases entries.len(),
{
    if entries.len() == 0 {
        Ok(Seq::empty())
    } else {
        match layout_spec(entries.drop_last()) {
            Err(i) => Err(i),
            Ok(regions) => match range_key_spec(entries.last().0@) {
                None => Err((entries.len() - 1) as usize),
                Some((start, end)) => Ok(
                    layout_insert(regions, MemoryRegion { start, end, layout: entries.last().1 }),
                ),
            },
        }
    }
}

proof fn lemma_layout_prefix_err(entries: Seq<(String, MemoryLayout)>, k: int)
    requires
        0 <= k <= entries.len(),
    ensures
        layout_spec(entries.take(k)) is Err ==> layout_spec(entries) == layout_spec(entries.take(k)),
    decreases entries.len() - k,
{
    if k < entries.len() {
        lemma_layout_prefix_err(entries, k + 1);
        assert(entries.take(k + 1).drop_last() =~= entries.take(k));
    } else {
        assert(entries.take(k) =~= entries);
    }
}

proof fn lemma_range_position(regions: Seq<MemoryRegion>, start: usize, end: usize)
    ensures
        range_position(regions, start, end) matches Some(i) ==> i < regions.len() && regions[i as int].start
            == start && regions[i as int].end == end && forall|j: int|
            0 <= j < i ==> !(#[trigger] regions[j].start == start && regions[j].end == end),
        range_position(regions, start, end) is None ==> forall|j: int|
            0 <= j < regions.len() ==> !(#[trigger] regions[j].start == start && regions[j].end == end),
    decreases regions.len(),
{
    if regions.len() > 0 {
        lemma_range_position(regions.drop_first(), start, end);
        assert forall|j: int| 1 <= j < regions.len() implies regions[j] == regions.drop_first()[j - 1] by {}
    }
}

impl MemoryConfig {
    /// The memory areas of a layout given as `range key -> area` entries:
    /// each key is read as a range (see `parse_range_key`) and an area with
    /// the same range as an earlier one takes its place. Gives the position
    /// of the first key that is not a range instead.
    pub fn layout_from_entries(entries: &Vec<(String, MemoryLayout)>) -> (r: Result<Vec<MemoryRegion>, usize>)
        ensures
            match r {
                Ok(v) => layout_spec(entries@) == Ok::<Seq<MemoryRegion>, usize>(v@),
                Err(i) => layout_spec(entries@) == Err::<Seq<MemoryRegion>, usize>(i),
            },
            r matches Ok(v) ==> ranges_distinct(v@),
    {
        let mut regions: Vec<MemoryRegion> = Vec::new();
        let n = entries.len();
        for i in 0..n
            invariant
                n == entries@.len(),
                layout_spec(entries@.take(i as int)) == Ok::<Seq<MemoryRegion>, usize>(regions@),
                ranges_distinct(regions@),
        {
            proof {
                assert(entries@.take(i + 1).drop_last() =~= entries@.take(i as int));
                assert(entries@.take(i + 1).last() == entries@[i as int]);
                lemma_layout_prefix_err(entries@, i + 1);
            }
            match parse_range_key(&entries[i].0) {
                None => {
                    return Err(i);
                },
                Some((start, end)) => {
                    let region = MemoryRegion { start, end, layout: entries[i].1.duplicate() };
                    let ghost old_regions = regions@;
                    proof {
                        lemma_range_position(old_regions, start, end);
                    }
                    let m = regions.len();
                    let mut pos: usize = 0;
                    while pos < m
                        invariant
                            m == regions@.len(),
                            regions@ == old_regions,
                            pos <= m,
                            forall|j: int| 0 <= j < pos ==> !(#[trigger] regions@[j].start == start
                                && regions@[j].end == end),
                        ensures
                            pos <= m,
                            regions@ == old_regions,
                            forall|j: int| 0 <= j < pos ==> !(#[trigger] regions@[j].start == start
                                && regions@[j].end == end),
                            pos < m ==> regions@[pos as int].start == start && regions@[pos as int].end == end,
                        decreases m - pos,
                    {
                        if regions[pos].start == start && regions[pos].end == end {
                            break;
                        }
                        pos = pos + 1;
                    }
                    if pos < m {
                        proof {
                            assert(old_regions[pos as int].start == start && old_regions[pos as int].end == end);
                            match range_position(old_regions, start, end) {
                                Some(k) => {
                                    if k < pos {
                                        assert(!(old_regions[k as int].start == start && old_regions[k as int].end == end));
                                    }
                                    if k > pos {
                                        assert(!(old_regions[pos as int].start == start && old_regions[pos as int].end == end));
                                    }
                                },
                                None => {
                                    assert(!(old_regions[pos as int].start == start && old_regions[pos as int].end == end));
                                },
                            }
                        }
                        assert(range_position(old_regions, start, end) == Some(pos as nat));
                        regions.set(pos, region);
                        assert(ranges_distinct(regions@)) by {
                            assert forall|a: int, b: int| 0 <= a < b < regions@.len() implies !(
                            #[trigger] regions@[a].start == #[trigger] regions@[b].start
                                && regions@[a].end == regions@[b].end) by {
                                if a != pos && b != pos {
                                    assert(regions@[a] == old_regions[a] && regions@[b] == old_regions[b]);
                                } else if a == pos {
                                    assert(regions@[b] == old_regions[b]);
                                    assert(!(old_regions[pos as int].start == old_regions[b].start
                                        && old_regions[pos as int].end == old_regions[b].end));
                                } else {
                                    assert(regions@[a] == old_regions[a]);
                                    assert(!(old_regions[a].start == old_regions[pos as int].start
                                        && old_regions[a].end == old_regions[pos as int].end));
                                }
                            }
                        }
                    } else {
                        assert(range_position(old_regions, start, end) is None);
                        regions.push(region);
                        assert(ranges_distinct(regions@)) by {
                            assert forall|a: int, b: int| 0 <= a < b < regions@.len() implies !(
                            #[trigger] regions@[a].start == #[trigger] regions@[b].start
                                && regions@[a].end == regions@[b].end) by {
                                assert(regions@[a] == old_regions[a]);
                                if b < m {
                                    assert(regions@[b] == old_regions[b]);
                                }
                            }
                        }
                    }
                },
            }
        }
        proof {
            assert(entries@.take(n as int) =~= entries@);
        }
        Ok(regions)
    }
}

} // verus!
