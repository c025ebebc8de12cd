//! The register table that RAD statements read and write during
//! disassembly: operands are dereferenced to values before a statement runs
//! and the values it leaves are written back to the destination registers.
//! A statement does not run when a source register has no value.
use vstd::prelude::*;
use std::collections::HashMap;
use crate::le_value::{buf_as_word, word_value_in};
use crate::parser_arg::{ParserArgDirection, ParserArgType, PopulatedArg, PopulatedArgView};

verus! {

broadcast use vstd::std_specs::hash::group_hash_axioms;

/// Register number to register value.
pub struct RadState(pub HashMap<usize, Vec<u8>>);

impl View for RadState {
    type V = Map<usize, Seq<u8>>;

    open spec fn view(&self) -> Map<usize, Seq<u8>> {
        self.0@.map_values(|v: Vec<u8>| v@)
    }
}

/// Why a RAD statement cannot run.
#[derive(PartialEq, Eq, Structural, Clone, Copy, Debug)]
pub enum RadError {
    /// An operand that is neither a register nor an immediate.
    MemoryArgument,
    /// A destination that is not a register.
    DestinationNotRegister,
    /// A source register that holds no value yet.
    EmptySourceRegister,
    /// A write to a source operand.
    SetSource,
    /// A write to an operand that is not a register.
    SetNonRegister,
}

/// The register number an operand names: its bytes read as a machine word
/// in the machine's byte order.
pub open spec fn register_key(a: PopulatedArgView, little_endian: bool) -> usize {
    word_value_in(a.arg_val, little_endian) as usize
}

/// The value an operand stands for in a RAD statement.
pub open spec fn rad_get(state: Map<usize, Seq<u8>>, a: PopulatedArgView, little_endian: bool) -> Result<
    Seq<u8>,
    RadError,
> {
    if a.t == ParserArgType::Unset || a.t == ParserArgType::Memory {
        Err(RadError::MemoryArgument)
    } else if a.direction == ParserArgDirection::Destination && a.t != ParserArgType::Register {
        Err(RadError::DestinationNotRegister)
    } else if a.t == ParserArgType::Immediate {
        Ok(a.arg_val)
    } else if state.contains_key(register_key(a, little_endian)) {
        Ok(state[register_key(a, little_endian)])
    } else if a.direction == ParserArgDirection::Source {
        Err(RadError::EmptySourceRegister)
    } else {
        Ok(seq![0u8])
    }
}

/// The table after writing `v` through operand `a`, or why it cannot be
/// written.
pub open spec fn rad_set(
    state: Map<usize, Seq<u8>>,
    a: PopulatedArgView,
    v: Seq<u8>,
    little_endian: bool,
) -> Result<
    Map<usize, Seq<u8>>,
    RadError,
> {
    if a.direction == ParserArgDirection::Source {
        Err(RadError::SetSource)
    } else if a.t != ParserArgType::Register {
        Err(RadError::SetNonRegister)
    } else {
        Ok(state.insert(register_key(a, little_endian), v))
    }
}

/// The values of all operands, or the error of the first that has none.
pub open spec fn rad_gather(
    state: Map<usize, Seq<u8>>,
    args: Seq<PopulatedArgView>,
    little_endian: bool,
) -> Result<
    Seq<Seq<u8>>,
    RadError,
>
    decreases args.len(),
{
    if args.len() == 0 {
        Ok(Seq::empty())
    } else {
        match rad_gather(state, args.drop_last(), little_endian) {
            Err(e) => Err(e),
            Ok(vals) => match rad_get(state, args.last(), little_endian) {
                Err(e) => Err(e),
                Ok(v) => Ok(vals.push(v)),
            },
        }
    }
}

/// Writes `results[i]` through `args[i]` in order, skipping sources; stops
/// at the first write that fails. Gives the table as left and the error, if
/// any.
pub open spec fn rad_apply(
    state: Map<usize, Seq<u8>>,
    args: Seq<PopulatedArgView>,
    results: Seq<Seq<u8>>,
    little_endian: bool,
) -> (Map<usize, Seq<u8>>, Option<RadError>)
    decreases args.len(),
{
    if args.len() == 0 || results.len() == 0 {
        (state, None)
    } else {
        let (m, e) = rad_apply(state, args.drop_last(), results.drop_last(), little_endian);
        if e is Some {
            (m, e)
        } else if args.last().direction == ParserArgDirection::Source {
            (m, None)
        } else {
            match rad_set(m, args.last(), results.last(), little_endian) {
                Err(e2) => (m, Some(e2)),
                Ok(m2) => (m2, None),
            }
        }
    }
}

/// The views of a vector of operands.
pub open spec fn arg_views(v: Seq<PopulatedArg>) -> Seq<PopulatedArgView> {
    v.map_values(|a: PopulatedArg| a@)
}

/// The views of a vector of byte vectors.
pub open spec fn byte_views(v: Seq<Vec<u8>>) -> Seq<Seq<u8>> {
    v.map_values(|b: Vec<u8>| b@)
}

impl RadError {
    /// The text of the error.
    pub fn message(&self) -> (m: String)
        ensures
            m@ == rad_error_text(*self),
    {
        let reason = match self {
            RadError::MemoryArgument => "RAD cannot process Memory-type arguments",
            RadError::DestinationNotRegister => "only registers can be destinations",
            RadError::EmptySourceRegister => "source register cannot be empty",
            RadError::SetSource =>
                "cannot set source (if the value is bidirectional remove your direction flag)",
            RadError::SetNonRegister => "can only set registers",
        };
        let mut m = String::from_str("WARNING - RAD statement not executed because ");
        m.append(reason);
        m.append(". Either apply a pre-process or discard your RAD.");
        m
    }
}

/// The reason each RAD error gives.
pub open spec fn rad_error_reason(e: RadError) -> Seq<char> {
    match e {
        RadError::MemoryArgument => "RAD cannot process Memory-type arguments"@,
        RadError::DestinationNotRegister => "only registers can be destinations"@,
        RadError::EmptySourceRegister => "source register cannot be empty"@,
        RadError::SetSource =>
            "cannot set source (if the value is bidirectional remove your direction flag)"@,
        RadError::SetNonRegister => "can only set registers"@,
    }
}

/// The full text of a RAD error.
pub open spec fn rad_error_text(e: RadError) -> Seq<char> {
    "WARNING - RAD statement not executed because "@ + rad_error_reason(e)
        + ". Either apply a pre-process or discard your RAD."@
}

impl RadState {
    /// An empty table.
    pub fn new() -> (r: RadState)
        ensures
            r@ == Map::<usize, Seq<u8>>::empty(),
    {
        let r = RadState(HashMap::new());
        assert(r@ =~= Map::<usize, Seq<u8>>::empty());
        r
    }

    /// The value an operand stands for: an immediate's own bytes, or the
    /// value of the register it names. A register with no value yet is an
    /// error for a source and `[0]` otherwise. Register numbers are read in
    /// the machine's byte order.
    pub fn get(&self, arg: PopulatedArg, little_endian: bool) -> (r: Result<Vec<u8>, RadError>)
        ensures
            match r {
                Ok(v) => rad_get(self@, arg@, little_endian) == Ok::<Seq<u8>, RadError>(v@),
                Err(e) => rad_get(self@, arg@, little_endian) == Err::<Seq<u8>, RadError>(e),
            },
    {
        if arg.t == ParserArgType::Unset || arg.t == ParserArgType::Memory {
            return Err(RadError::MemoryArgument);
        }
        if arg.direction == ParserArgDirection::Destination && arg.t != ParserArgType::Register {
            return Err(RadError::DestinationNotRegister);
        }
        if arg.t == ParserArgType::Immediate {
            return Ok(arg.arg_val);
        }
        let key = buf_as_word(arg.arg_val.as_slice(), little_endian);
        match self.0.get(&key) {
            Some(x) => {
                proof {
                    assert(self@[key] == x@);
                }
                Ok(x.clone())
            },
            None => {
                if arg.direction == ParserArgDirection::Source {
                    Err(RadError::EmptySourceRegister)
                } else {
                    let v = vec![0u8];
                    assert(v@ =~= seq![0u8]);
                    Ok(v)
                }
            },
        }
    }

    /// Writes `value` to the register `arg` names; sources and non-registers
    /// are refused and leave the table as it was.
    pub fn set(&mut self, arg: PopulatedArg, value: Vec<u8>, little_endian: bool) -> (r: Result<
        (),
        RadError,
    >)
        ensures
            match rad_set(old(self)@, arg@, value@, little_endian) {
                Ok(m) => r is Ok && final(self)@ == m,
                Err(e) => r == Err::<(), RadError>(e) && final(self)@ == old(self)@,
            },
    {
        if arg.direction == ParserArgDirection::Source {
            return Err(RadError::SetSource);
        }
        if arg.t != ParserArgType::Register {
            return Err(RadError::SetNonRegister);
        }
        let key = buf_as_word(arg.arg_val.as_slice(), little_endian);
        let ghost v = value@;
        self.0.insert(key, value);
        proof {
            assert(self@ =~= old(self)@.insert(key, v));
        }
        Ok(())
    }

    /// The values of all operands before a statement runs, or the error of
    /// the first operand without one.
    pub fn gather(&self, args: &Vec<PopulatedArg>, little_endian: bool) -> (r: Result<
        Vec<Vec<u8>>,
        RadError,
    >)
        ensures
            match r {
                Ok(vals) => rad_gather(self@, arg_views(args@), little_endian) == Ok::<
                    Seq<Seq<u8>>,
                    RadError,
                >(byte_views(vals@)),
                Err(e) => rad_gather(self@, arg_views(args@), little_endian) == Err::<
                    Seq<Seq<u8>>,
                    RadError,
                >(e),
            },
    {
        let mut vals: Vec<Vec<u8>> = Vec::new();
        let n = args.len();
        proof {
            assert(arg_views(args@.take(0)) =~= Seq::<PopulatedArgView>::empty());
            assert(byte_views(vals@) =~= Seq::<Seq<u8>>::empty());
        }
        for i in 0..n
            invariant
                n == args@.len(),
                rad_gather(self@, arg_views(args@.take(i as int)), little_endian) == Ok::<
                    Seq<Seq<u8>>,
                    RadError,
                >(byte_views(vals@)),
        {
            proof {
                assert(arg_views(args@.take(i + 1)).drop_last() =~= arg_views(args@.take(i as int)));
                assert(arg_views(args@.take(i + 1)).last() == args@[i as int]@);
                lemma_rad_gather_prefix_err(self@, arg_views(args@), little_endian, i + 1);
                assert(arg_views(args@).take(i + 1) =~= arg_views(args@.take(i + 1)));
            }
            let a = args[i].duplicate();
            match self.get(a, little_endian) {
                Err(e) => {
                    return Err(e);
                },
                Ok(v) => {
                    let ghost old_vals = vals@;
                    vals.push(v);
                    proof {
                        assert(byte_views(vals@) =~= byte_views(old_vals).push(v@));
                    }
                },
            }
        }
        proof {
            assert(args@.take(n as int) =~= args@);
        }
        Ok(vals)
    }

    /// Writes back what a statement left: `results[i]` through `args[i]`, in
    /// order, skipping sources. Stops at the first operand that cannot be
    /// written, keeping the writes before it. On success, gives a copy of the
    /// whole table.
    pub fn apply(
        &mut self,
        args: &Vec<PopulatedArg>,
        results: &Vec<Vec<u8>>,
        little_endian: bool,
    ) -> (r: Result<
        HashMap<usize, Vec<u8>>,
        RadError,
    >)
        requires
            args@.len() == results@.len(),
        ensures
            final(self)@ == rad_apply(
                old(self)@,
                arg_views(args@),
                byte_views(results@),
                little_endian,
            ).0,
            match rad_apply(old(self)@, arg_views(args@), byte_views(results@), little_endian).1 {
                Some(e) => r == Err::<HashMap<usize, Vec<u8>>, RadError>(e),
                None => r matches Ok(m) && m@.map_values(|v: Vec<u8>| v@) == final(self)@,
            },
    {
        let n = args.len();
        for i in 0..n
            invariant
                n == args@.len(),
                n == results@.len(),
                rad_apply(
                    old(self)@,
                    arg_views(args@.take(i as int)),
                    byte_views(results@.take(i as int)),
                    little_endian,
                ) == (self@, None::<RadError>),
        {
            proof {
                assert(arg_views(args@.take(i + 1)).drop_last() =~= arg_views(args@.take(i as int)));
                assert(arg_views(args@.take(i + 1)).last() == args@[i as int]@);
                assert(byte_views(results@.take(i + 1)).drop_last() =~= byte_views(results@.take(i as int)));
                assert(byte_views(results@.take(i + 1)).last() == results@[i as int]@);
                lemma_rad_apply_prefix_err(
                    old(self)@,
                    arg_views(args@),
                    byte_views(results@),
                    little_endian,
                    i + 1,
                );
                assert(arg_views(args@).take(i + 1) =~= arg_views(args@.take(i + 1)));
                assert(byte_views(results@).take(i + 1) =~= byte_views(results@.take(i + 1)));
            }
            if args[i].direction != ParserArgDirection::Source {
                let a = args[i].duplicate();
                match self.set(a, results[i].clone(), little_endian) {
                    Err(e) => {
                        return Err(e);
                    },
                    Ok(()) => {},
                }
            }
        }
        proof {
            assert(args@.take(n as int) =~= args@);
            assert(results@.take(n as int) =~= results@);
        }
        let m = self.0.clone();
        Ok(m)
    }

    /// A copy of the whole table.
    pub fn get_state(&self) -> (r: HashMap<usize, Vec<u8>>)
        ensures
            r@ == self.0@,
    {
        self.0.clone()
    }
}

proof fn lemma_rad_gather_prefix_err(
    state: Map<usize, Seq<u8>>,
    args: Seq<PopulatedArgView>,
    little_endian: bool,
    k: int,
)
    requires
        0 <= k <= args.len(),
    ensures
        rad_gather(state, args.take(k), little_endian) is Err ==> rad_gather(state, args, little_endian)
            == rad_gather(state, args.take(k), little_endian),
    decreases args.len() - k,
{
    if k < args.len() {
        lemma_rad_gather_prefix_err(state, args, little_endian, k + 1);
        assert(args.take(k + 1).drop_last() =~= args.take(k));
    } else {
        assert(args.take(k) =~= args);
    }
}

proof fn lemma_rad_apply_prefix_err(
    state: Map<usize, Seq<u8>>,
    args: Seq<PopulatedArgView>,
    results: Seq<Seq<u8>>,
    little_endian: bool,
    k: int,
)
    requires
        0 <= k <= args.len(),
        args.len() == results.len(),
    ensures
        rad_apply(state, args.take(k), results.take(k), little_endian).1 is Some ==> rad_apply(
            state,
            args,
            results,
            little_endian,
        ) == rad_apply(state, args.take(k), results.take(k), little_endian),
    decreases args.len() - k,
{
    if k < args.len() {
        lemma_rad_apply_prefix_err(state, args, results, little_endian, k + 1);
        assert(args.take(k + 1).drop_last() =~= args.take(k));
        assert(results.take(k + 1).drop_last() =~= results.take(k));
    } else {
        assert(args.take(k) =~= args);
        assert(results.take(k) =~= results);
    }
}

/// A value written through a register operand is what any register operand
/// naming the same register reads back.
pub proof fn lemma_rad_set_then_get(
    state: Map<usize, Seq<u8>>,
    a: PopulatedArgView,
    v: Seq<u8>,
    b: PopulatedArgView,
    little_endian: bool,
)
    requires
        rad_set(state, a, v, little_endian) is Ok,
        b.t == ParserArgType::Register,
        register_key(b, little_endian) == register_key(a, little_endian),
    ensures
        rad_get(rad_set(state, a, v, little_endian)->Ok_0, b, little_endian) == Ok::<Seq<u8>, RadError>(v),
{
}

/// A RAD statement whose operands include a source register with no value
/// does not run: gathering its operands fails.
pub proof fn lemma_rad_missing_source_blocks(
    state: Map<usize, Seq<u8>>,
    args: Seq<PopulatedArgView>,
    little_endian: bool,
    i: int,
)
    requires
        0 <= i < args.len(),
        args[i].t == ParserArgType::Register,
        args[i].direction == ParserArgDirection::Source,
        !state.contains_key(register_key(args[i], little_endian)),
    ensures
        rad_gather(state, args, little_endian) is Err,
    decreases args.len(),
{
    if i < args.len() - 1 {
        assert(args.drop_last()[i] == args[i]);
        lemma_rad_missing_source_blocks(state, args.drop_last(), little_endian, i);
    }
}

/// Writing back never touches a register that no non-source operand
/// names.
pub proof fn lemma_rad_apply_frame(
    state: Map<usize, Seq<u8>>,
    args: Seq<PopulatedArgView>,
    results: Seq<Seq<u8>>,
    little_endian: bool,
    k: usize,
)
    requires
        forall|j: int|
            0 <= j < args.len() && args[j].direction != ParserArgDirection::Source
                ==> register_key(#[trigger] args[j], little_endian) != k,
    ensures
        rad_apply(state, args, results, little_endian).0.contains_key(k) == state.contains_key(k),
        state.contains_key(k) ==> rad_apply(state, args, results, little_endian).0[k] == state[k],
    decreases args.len(),
{
    if args.len() > 0 && results.len() > 0 {
        assert forall|j: int|
            0 <= j < args.drop_last().len() && args.drop_last()[j].direction
                != ParserArgDirection::Source implies register_key(
            #[trigger] args.drop_last()[j],
            little_endian,
        ) != k by {
            assert(args.drop_last()[j] == args[j]);
        }
        lemma_rad_apply_frame(state, args.drop_last(), results.drop_last(), little_endian, k);
        assert(args.last() == args[args.len() - 1]);
    }
}


/// When writing back succeeds, every operand that is not a source holds
/// its own result afterwards in the register it names, unless a later
/// operand that is not a source names the same register; source operands
/// anywhere in the list are passed over and stop nothing.
pub proof fn lemma_rad_apply_writes_destinations(
    state: Map<usize, Seq<u8>>,
    args: Seq<PopulatedArgView>,
    results: Seq<Seq<u8>>,
    little_endian: bool,
    i: int,
)
    requires
        args.len() == results.len(),
        0 <= i < args.len(),
        args[i].direction != ParserArgDirection::Source,
        forall|j: int|
            i < j < args.len() && args[j].direction != ParserArgDirection::Source ==> register_key(
                #[trigger] args[j],
                little_endian,
            ) != register_key(args[i], little_endian),
        rad_apply(state, args, results, little_endian).1 is None,
    ensures
        args[i].t == ParserArgType::Register,
        rad_apply(state, args, results, little_endian).0.contains_key(register_key(args[i], little_endian)),
        rad_apply(state, args, results, little_endian).0[register_key(args[i], little_endian)] == results[i],
    decreases args.len(),
{
    let n = args.len();
    let (m, e) = rad_apply(state, args.drop_last(), results.drop_last(), little_endian);
    assert(args.last() == args[n - 1]);
    assert(results.last() == results[n - 1]);
    if i < n - 1 {
        assert(args.drop_last()[i] == args[i]);
        assert(results.drop_last()[i] == results[i]);
        assert forall|j: int|
            i < j < args.drop_last().len() && args.drop_last()[j].direction != ParserArgDirection::Source
                implies register_key(#[trigger] args.drop_last()[j], little_endian) != register_key(
            args.drop_last()[i],
            little_endian,
        ) by {
            assert(args.drop_last()[j] == args[j]);
        }
        lemma_rad_apply_writes_destinations(state, args.drop_last(), results.drop_last(), little_endian, i);
    }
}


/// Writing back fails exactly when some operand that is not a source is not
/// a register, and then with `SetNonRegister`; source operands never stop
/// it.
pub proof fn lemma_rad_apply_fails_on_non_register(
    state: Map<usize, Seq<u8>>,
    args: Seq<PopulatedArgView>,
    results: Seq<Seq<u8>>,
    little_endian: bool,
)
    requires
        args.len() == results.len(),
    ensures
        rad_apply(state, args, results, little_endian).1 is Some <==> exists|i: int|
            0 <= i < args.len() && (#[trigger] args[i]).direction != ParserArgDirection::Source
                && args[i].t != ParserArgType::Register,
        rad_apply(state, args, results, little_endian).1 is Some ==> rad_apply(
            state,
            args,
            results,
            little_endian,
        ).1 == Some(RadError::SetNonRegister),
    decreases args.len(),
{
    if args.len() > 0 {
        let d = args.drop_last();
        let l = args.len() - 1;
        assert(args.last() == args[l]);
        lemma_rad_apply_fails_on_non_register(state, d, results.drop_last(), little_endian);
        if exists|i: int|
            0 <= i < args.len() && (#[trigger] args[i]).direction != ParserArgDirection::Source
                && args[i].t != ParserArgType::Register {
            let i = choose|i: int|
                0 <= i < args.len() && (#[trigger] args[i]).direction != ParserArgDirection::Source
                    && args[i].t != ParserArgType::Register;
            if i < l {
                assert(d[i] == args[i]);
            }
        }
        if exists|i: int|
            0 <= i < d.len() && (#[trigger] d[i]).direction != ParserArgDirection::Source
                && d[i].t != ParserArgType::Register {
            let i = choose|i: int|
                0 <= i < d.len() && (#[trigger] d[i]).direction != ParserArgDirection::Source
                    && d[i].t != ParserArgType::Register;
            assert(args[i] == d[i]);
        }
    }
}

} // verus!
