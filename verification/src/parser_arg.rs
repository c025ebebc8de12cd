//! Operand descriptors: the `args` strings of an opcode definition
//! (`rd2`, `is1`, ...) and the operands they cut out of an instruction.
use vstd::prelude::*;
use crate::text::{
    chars_of, decimal, decimal_string, int_error_text, parse_unsigned, parse_unsigned_at,
    push_char, IntErrorKind,
};

verus! {

broadcast use vstd::string::group_string_axioms;

/// What an operand refers to.
#[derive(PartialEq, Eq, Structural, Clone, Copy, Debug)]
pub enum ParserArgType {
    /// No type flag given.
    Unset,
    Register,
    Memory,
    Immediate,
}

/// Whether an operand is read, written, or both.
#[derive(PartialEq, Eq, Structural, Clone, Copy, Debug)]
pub enum ParserArgDirection {
    /// No direction flag given: the operand is both read and written.
    Unset,
    Source,
    Destination,
}

/// One operand of an opcode: its type, its direction and its size in bytes.
#[derive(PartialEq, Eq, Structural, Clone, Copy, Debug)]
pub struct ParserArg {
    pub t: ParserArgType,
    pub direction: ParserArgDirection,
    pub arg_size: u16,
}

/// An operand filled with the bytes it takes from an instruction.
#[derive(Clone, Debug)]
pub struct PopulatedArg {
    pub t: ParserArgType,
    pub direction: ParserArgDirection,
    pub arg_val: Vec<u8>,
    pub memory_region: Option<String>,
}

/// The mathematical value of a populated operand.
pub struct PopulatedArgView {
    pub t: ParserArgType,
    pub direction: ParserArgDirection,
    pub arg_val: Seq<u8>,
    pub memory_region: Option<Seq<char>>,
}

/// The view of an optional string.
pub open spec fn opt_string_view(o: Option<String>) -> Option<Seq<char>> {
    match o {
        Some(s) => Some(s@),
        None => None,
    }
}

impl View for PopulatedArg {
    type V = PopulatedArgView;

    open spec fn view(&self) -> PopulatedArgView {
        PopulatedArgView {
            t: self.t,
            direction: self.direction,
            arg_val: self.arg_val@,
            memory_region: opt_string_view(self.memory_region),
        }
    }
}

impl PopulatedArg {
    /// A copy with the same value.
    pub fn duplicate(&self) -> (r: PopulatedArg)
        ensures
            r@ == self@,
    {
        PopulatedArg {
            t: self.t,
            direction: self.direction,
            arg_val: self.arg_val.clone(),
            memory_region: match &self.memory_region {
                Some(s) => Some(s.clone()),
                None => None,
            },
        }
    }
}

/// Why an operand string is refused.
#[derive(PartialEq, Eq, Structural, Clone, Copy, Debug)]
pub enum ArgStringError {
    /// A character before the size that is none of `r`, `m`, `i`, `s`, `d`.
    UnrecognizedChar(char),
    /// The string starts with its size, or has no size at all.
    SizeAtStart,
    /// The flags name no type or no direction.
    MissingTypeOrDirection,
    /// The size is not a number from 0 to 65535.
    InvalidSize(IntErrorKind),
}

/// The operand was to be read past the end of the instruction bytes.
#[derive(PartialEq, Eq, Structural, Clone, Copy, Debug)]
pub struct OutOfBounds;

/// `c.is_numeric()` for a character outside ASCII: the Unicode numeric
/// categories, which std reads from its tables.
pub uninterp spec fn unicode_numeric(c: char) -> bool;

/// Whether `char::is_numeric` holds: for ASCII exactly the digits.
pub open spec fn numeric_char(c: char) -> bool {
    if (c as u32) < 128 {
        '0' <= c && c <= '9'
    } else {
        unicode_numeric(c)
    }
}

/// `char::is_numeric` (std). Claims that on ASCII it holds exactly for the
/// digits `0`..`9` (std documents it as the Unicode numeric categories, of
/// which ASCII has only the digits); beyond ASCII its result is named.
#[verifier::external_body]
fn char_is_numeric(c: char) -> (b: bool)
    ensures
        b == (if (c as u32) < 128 {
            '0' <= c && c <= '9'
        } else {
            unicode_numeric(c)
        }),
{
    c.is_numeric()
}

/// The flag letters of an operand string.
pub open spec fn is_flag(c: char) -> bool {
    c == 'r' || c == 'm' || c == 'i' || c == 's' || c == 'd'
}

/// The number of characters before the first numeric one (all of them if
/// none is numeric).
pub open spec fn flag_len(s: Seq<char>) -> nat
    decreases s.len(),
{
    if s.len() == 0 || numeric_char(s[0]) {
        0
    } else {
        1 + flag_len(s.drop_first())
    }
}

/// The first character of `p` that is not a flag letter, if any.
pub open spec fn first_non_flag(p: Seq<char>) -> Option<char>
    decreases p.len(),
{
    if p.len() == 0 {
        None
    } else if !is_flag(p[0]) {
        Some(p[0])
    } else {
        first_non_flag(p.drop_first())
    }
}

/// Type and direction after one more flag letter: the last `r`/`m`/`i`
/// names the type, the last `s`/`d` the direction.
pub open spec fn apply_flag(
    td: (ParserArgType, ParserArgDirection),
    c: char,
) -> (ParserArgType, ParserArgDirection) {
    if c == 'r' {
        (ParserArgType::Register, td.1)
    } else if c == 'm' {
        (ParserArgType::Memory, td.1)
    } else if c == 'i' {
        (ParserArgType::Immediate, td.1)
    } else if c == 's' {
        (td.0, ParserArgDirection::Source)
    } else if c == 'd' {
        (td.0, ParserArgDirection::Destination)
    } else {
        td
    }
}

/// Type and direction named by the flag letters `p`.
pub open spec fn scan_flags(p: Seq<char>) -> (ParserArgType, ParserArgDirection)
    decreases p.len(),
{
    if p.len() == 0 {
        (ParserArgType::Unset, ParserArgDirection::Unset)
    } else {
        apply_flag(scan_flags(p.drop_last()), p.last())
    }
}

/// What an operand string means: flag letters, then the size in bytes.
pub open spec fn arg_from_chars(s: Seq<char>) -> Result<ParserArg, ArgStringError> {
    let k = flag_len(s);
    match first_non_flag(s.take(k as int)) {
        Some(c) => Err(ArgStringError::UnrecognizedChar(c)),
        None => if k == 0 || k == s.len() {
            Err(ArgStringError::SizeAtStart)
        } else {
            let td = scan_flags(s.take(k as int));
            if td.0 == ParserArgType::Unset || td.1 == ParserArgDirection::Unset {
                Err(ArgStringError::MissingTypeOrDirection)
            } else {
                match parse_unsigned(s.skip(k as int), 0xffff) {
                    Err(e) => Err(ArgStringError::InvalidSize(e)),
                    Ok(n) => Ok(ParserArg { t: td.0, direction: td.1, arg_size: n as u16 }),
                }
            }
        },
    }
}

/// The letter that writes an operand type (`m` for anything but registers
/// and immediates).
pub open spec fn type_letter(t: ParserArgType) -> char {
    match t {
        ParserArgType::Register => 'r',
        ParserArgType::Immediate => 'i',
        _ => 'm',
    }
}

/// The letter that writes a direction (`s` for anything but destinations).
pub open spec fn direction_letter(d: ParserArgDirection) -> char {
    match d {
        ParserArgDirection::Destination => 'd',
        _ => 's',
    }
}

/// The operand string of `a`.
pub open spec fn arg_to_chars(a: ParserArg) -> Seq<char> {
    seq![type_letter(a.t), direction_letter(a.direction)] + decimal(a.arg_size as nat)
}

proof fn lemma_flag_len(s: Seq<char>, i: int)
    requires
        0 <= i <= s.len(),
        forall|j: int| 0 <= j < i ==> !numeric_char(#[trigger] s[j]),
        i == s.len() || numeric_char(s[i]),
    ensures
        flag_len(s) == i,
    decreases i,
{
    if i > 0 {
        assert forall|j: int| 0 <= j < i - 1 implies !numeric_char(#[trigger] s.drop_first()[j]) by {
            assert(s.drop_first()[j] == s[j + 1]);
        }
        if i < s.len() {
            assert(s.drop_first()[i - 1] == s[i]);
        }
        lemma_flag_len(s.drop_first(), i - 1);
    }
}

proof fn lemma_first_non_flag(p: Seq<char>, i: int)
    requires
        0 <= i <= p.len(),
        forall|j: int| 0 <= j < i ==> is_flag(#[trigger] p[j]),
    ensures
        i == p.len() ==> first_non_flag(p) is None,
        i < p.len() && !is_flag(p[i]) ==> first_non_flag(p) == Some(p[i]),
    decreases i,
{
    if i > 0 {
        assert forall|j: int| 0 <= j < i - 1 implies is_flag(#[trigger] p.drop_first()[j]) by {
            assert(p.drop_first()[j] == p[j + 1]);
        }
        if i < p.len() {
            assert(p.drop_first()[i - 1] == p[i]);
        }
        lemma_first_non_flag(p.drop_first(), i - 1);
    }
}

impl ParserArg {
    /// Reads an operand string: flag letters (`r` register, `m` memory, `i`
    /// immediate, `s` source, `d` destination), then the size in bytes.
    pub fn from_string(s: String) -> (r: Result<ParserArg, ArgStringError>)
        ensures
            r == arg_from_chars(s@),
    {
        let cs = chars_of(s.as_str());
        let n = cs.len();
        let mut t = ParserArgType::Unset;
        let mut d = ParserArgDirection::Unset;
        let mut i: usize = 0;
        loop
            invariant
                cs@ == s@,
                n == cs@.len(),
                i <= n,
                forall|j: int| 0 <= j < i ==> !numeric_char(#[trigger] cs@[j]),
                forall|j: int| 0 <= j < i ==> is_flag(#[trigger] cs@[j]),
                (t, d) == scan_flags(cs@.take(i as int)),
            ensures
                i <= n,
                forall|j: int| 0 <= j < i ==> !numeric_char(#[trigger] cs@[j]),
                forall|j: int| 0 <= j < i ==> is_flag(#[trigger] cs@[j]),
                (t, d) == scan_flags(cs@.take(i as int)),
                i == n || numeric_char(cs@[i as int]),
            decreases n - i,
        {
            if i == n {
                break;
            }
            let c = cs[i];
            if char_is_numeric(c) {
                break;
            }
            proof {
                assert(cs@.take(i + 1).drop_last() =~= cs@.take(i as int));
                assert(cs@.take(i + 1).last() == c);
            }
            if c == 'r' {
                t = ParserArgType::Register;
            } else if c == 'm' {
                t = ParserArgType::Memory;
            } else if c == 'i' {
                t = ParserArgType::Immediate;
            } else if c == 's' {
                d = ParserArgDirection::Source;
            } else if c == 'd' {
                d = ParserArgDirection::Destination;
            } else {
                proof {
                    lemma_first_non_flag(cs@, i as int);
                    lemma_flag_len_gt(cs@, i as int);
                    let k = flag_len(cs@);
                    lemma_first_non_flag(cs@.take(k as int), i as int);
                    assert(cs@.take(k as int)[i as int] == c);
                }
                return Err(ArgStringError::UnrecognizedChar(c));
            }
            i = i + 1;
        }
        proof {
            lemma_flag_len(cs@, i as int);
            assert(cs@.take(i as int).len() == i);
            lemma_first_non_flag(cs@.take(i as int), i as int);
        }
        if i == 0 || i == n {
            return Err(ArgStringError::SizeAtStart);
        }
        if t == ParserArgType::Unset || d == ParserArgDirection::Unset {
            return Err(ArgStringError::MissingTypeOrDirection);
        }
        match parse_unsigned_at(&cs, i, 0xffff) {
            Err(e) => Err(ArgStringError::InvalidSize(e)),
            Ok(size) => Ok(ParserArg { t, direction: d, arg_size: size as u16 }),
        }
    }

    /// Writes the operand string of `self`: type letter, direction letter,
    /// size.
    pub fn as_string(&self) -> (r: String)
        ensures
            r@ == arg_to_chars(*self),
    {
        let mut res = String::new();
        let tc = match self.t {
            ParserArgType::Register => 'r',
            ParserArgType::Immediate => 'i',
            _ => 'm',
        };
        let dc = match self.direction {
            ParserArgDirection::Destination => 'd',
            _ => 's',
        };
        push_char(&mut res, tc);
        push_char(&mut res, dc);
        let size = decimal_string(self.arg_size as usize);
        res.append(size.as_str());
        assert(res@ =~= arg_to_chars(*self));
        res
    }

    /// Cuts this operand out of `buf` at `offset`: its bytes, with no memory
    /// region yet.
    pub fn populate(&self, buf: &[u8], offset: usize) -> (r: Result<PopulatedArg, OutOfBounds>)
        ensures
            offset + self.arg_size > buf@.len() <==> r is Err,
            r matches Ok(a) ==> {
                &&& a.t == self.t
                &&& a.direction == self.direction
                &&& a.arg_val@ == buf@.subrange(offset as int, offset + self.arg_size)
                &&& a.memory_region is None
            },
    {
        let size = self.arg_size as usize;
        if size > buf.len() || offset > buf.len() - size {
            return Err(OutOfBounds);
        }
        let mut b: Vec<u8> = Vec::with_capacity(size);
        let end = offset + size;
        let mut j = offset;
        while j < end
            invariant
                offset <= j <= end <= buf@.len(),
                b@ == buf@.subrange(offset as int, j as int),
            decreases end - j,
        {
            b.push(buf[j]);
            j = j + 1;
            assert(b@ =~= buf@.subrange(offset as int, j as int));
        }
        Ok(PopulatedArg { t: self.t, direction: self.direction, arg_val: b, memory_region: None })
    }
}

proof fn lemma_flag_len_gt(s: Seq<char>, i: int)
    requires
        0 <= i < s.len(),
        forall|j: int| 0 <= j <= i ==> !numeric_char(#[trigger] s[j]),
    ensures
        flag_len(s) > i,
        flag_len(s) <= s.len(),
    decreases i,
{
    if i > 0 {
        assert forall|j: int| 0 <= j <= i - 1 implies !numeric_char(#[trigger] s.drop_first()[j]) by {
            assert(s.drop_first()[j] == s[j + 1]);
        }
        lemma_flag_len_gt(s.drop_first(), i - 1);
    } else {
        assert(!numeric_char(s[0]));
        lemma_flag_len_le(s.drop_first());
    }
}

proof fn lemma_flag_len_le(s: Seq<char>)
    ensures
        flag_len(s) <= s.len(),
    decreases s.len(),
{
    if s.len() > 0 {
        lemma_flag_len_le(s.drop_first());
    }
}

impl ArgStringError {
    /// The text of the error for the operand string `s`.
    pub fn message(&self, s: &str) -> (m: String)
        ensures
            m@ == arg_error_text(*self, s@),
    {
        match self {
            ArgStringError::UnrecognizedChar(c) => {
                let mut m = String::from_str("Unrecognized char (");
                push_char(&mut m, *c);
                m.append(") when deserializing argstring (");
                m.append(s);
                m.append(")");
                m
            },
            ArgStringError::SizeAtStart => {
                let mut m = String::from_str("Address size cannot be at position 0: ");
                m.append(s);
                m
            },
            ArgStringError::MissingTypeOrDirection => {
                let mut m = String::from_str("Argtype and direction must be specified: ");
                m.append(s);
                m
            },
            ArgStringError::InvalidSize(k) => k.message(),
        }
    }
}

/// The text of each operand-string error.
pub open spec fn arg_error_text(e: ArgStringError, s: Seq<char>) -> Seq<char> {
    match e {
        ArgStringError::UnrecognizedChar(c) => "Unrecognized char ("@ + seq![c]
            + ") when deserializing argstring ("@ + s + ")"@,
        ArgStringError::SizeAtStart => "Address size cannot be at position 0: "@ + s,
        ArgStringError::MissingTypeOrDirection => "Argtype and direction must be specified: "@ + s,
        ArgStringError::InvalidSize(k) => int_error_text(k),
    }
}

/// Reads every operand string of an opcode definition, in order; the first
/// one refused gives its position and error.
pub open spec fn arg_list_spec(args: Seq<String>) -> Result<Seq<ParserArg>, (usize, ArgStringError)>
    decreases args.len(),
{
    if args.len() == 0 {
        Ok(Seq::empty())
    } else {
        match arg_list_spec(args.drop_last()) {
            Err(e) => Err(e),
            Ok(v) => match arg_from_chars(args.last()@) {
                Err(e) => Err(((args.len() - 1) as usize, e)),
                Ok(a) => Ok(v.push(a)),
            },
        }
    }
}

proof fn lemma_arg_list_prefix_err(args: Seq<String>, k: int)
    requires
        0 <= k <= args.len(),
    ensures
        arg_list_spec(args.take(k)) is Err ==> arg_list_spec(args) == arg_list_spec(args.take(k)),
    decreases args.len() - k,
{
    if k < args.len() {
        lemma_arg_list_prefix_err(args, k + 1);
        assert(args.take(k + 1).drop_last() =~= args.take(k));
    } else {
        assert(args.take(k) =~= args);
    }
}

/// Reads the operand strings of an opcode definition.
pub fn parse_arg_list(args: &Vec<String>) -> (r: Result<Vec<ParserArg>, (usize, ArgStringError)>)
    ensures
        match r {
            Ok(v) => arg_list_spec(args@) == Ok::<Seq<ParserArg>, (usize, ArgStringError)>(v@),
            Err(e) => arg_list_spec(args@) == Err::<Seq<ParserArg>, (usize, ArgStringError)>(e),
        },
{
    let mut out: Vec<ParserArg> = Vec::new();
    let n = args.len();
    for i in 0..n
        invariant
            n == args@.len(),
            arg_list_spec(args@.take(i as int)) == Ok::<Seq<ParserArg>, (usize, ArgStringError)>(out@),
    {
        proof {
            assert(args@.take(i + 1).drop_last() =~= args@.take(i as int));
            assert(args@.take(i + 1).last() == args@[i as int]);
            lemma_arg_list_prefix_err(args@, i + 1);
        }
        match ParserArg::from_string(args[i].clone()) {
            Err(e) => {
                return Err((i, e));
            },
            Ok(a) => {
                out.push(a);
            },
        }
    }
    proof {
        assert(args@.take(n as int) =~= args@);
    }
    Ok(out)
}

/// Writing an operand that names a type and a direction and reading the
/// string back gives the same operand; and every operand that reading gives
/// names a type and a direction.
pub proof fn lemma_arg_string_roundtrip(a: ParserArg, s: Seq<char>)
    ensures
        a.t != ParserArgType::Unset && a.direction != ParserArgDirection::Unset
            ==> arg_from_chars(arg_to_chars(a)) == Ok::<ParserArg, ArgStringError>(a),
        arg_from_chars(s) matches Ok(b) ==> b.t != ParserArgType::Unset && b.direction
            != ParserArgDirection::Unset,
{
    if a.t != ParserArgType::Unset && a.direction != ParserArgDirection::Unset {
        let w = arg_to_chars(a);
        let n = a.arg_size as nat;
        crate::text::lemma_decimal_digits(n);
        crate::text::lemma_parse_decimal(n, 0xffff);
        assert(crate::text::is_digit(decimal(n)[0]));
        assert(w[2] == decimal(n)[0]);
        assert(!numeric_char(w[0]));
        assert(!numeric_char(w[1]));
        assert(numeric_char(w[2]));
        lemma_flag_len(w, 2);
        let p = w.take(2);
        assert(p.drop_last() =~= seq![w[0]]);
        assert(seq![w[0]].drop_last() =~= Seq::<char>::empty());
        assert(p.last() == w[1]);
        assert(seq![w[0]].last() == w[0]);
        assert(scan_flags(seq![w[0]]) == apply_flag(scan_flags(Seq::<char>::empty()), w[0]));
        assert(scan_flags(p) == apply_flag(scan_flags(seq![w[0]]), w[1]));
        assert(scan_flags(p) == (a.t, a.direction));
        assert(seq![w[0]].drop_first() =~= Seq::<char>::empty());
        assert(p.drop_first() =~= seq![w[1]]);
        assert(seq![w[1]].drop_first() =~= Seq::<char>::empty());
        assert(p[0] == w[0] && p[1] == w[1]);
        assert(first_non_flag(seq![w[1]]) == first_non_flag(Seq::<char>::empty()));
        assert(first_non_flag(p) == first_non_flag(seq![w[1]]));
        assert(first_non_flag(p) is None);
        assert(w.skip(2) =~= decimal(n));
    }
}

} // verus!
