//! Turning disassembled lines into text: the hex column padded to a common
//! width, then each instruction written through a format string whose `{}`
//! placeholders take the opcode name and the joined operands.
use vstd::prelude::*;
use crate::text::{chars_of, push_char};

verus! {

broadcast use vstd::string::group_string_axioms;

/// One disassembled line: the instruction bytes in hex, the opcode name and
/// the formatted operands.
#[derive(Clone, Debug)]
pub struct DisFormatterLine {
    pub hex: String,
    pub opcode: String,
    pub operands: Vec<String>,
}

impl Default for DisFormatterLine {
    fn default() -> (r: Self)
        ensures
            r.hex@ == Seq::<char>::empty(),
            r.opcode@ == Seq::<char>::empty(),
            r.operands@.len() == 0,
    {
        DisFormatterLine { hex: String::new(), opcode: String::new(), operands: Vec::new() }
    }
}

/// How disassembly is laid out.
#[derive(Clone, Debug)]
pub struct FormattingConfig {
    /// The instruction's format; its first two `{}` take the opcode name and
    /// the operands.
    pub instruction_format: String,
    /// What stands between two operands.
    pub operand_separator: String,
    /// Whether each line starts with the instruction bytes in hex.
    pub include_hex: bool,
}

/// The default instruction format, `{} {}`.
pub fn default_instruction_format() -> (s: String)
    ensures
        s@ == "{} {}"@,
{
    String::from_str("{} {}")
}

/// The default operand separator, `,`.
pub fn default_operand_separator() -> (s: String)
    ensures
        s@ == ","@,
{
    String::from_str(",")
}

impl Default for FormattingConfig {
    fn default() -> (r: Self)
        ensures
            r.instruction_format@ == "{} {}"@,
            r.operand_separator@ == ","@,
            r.include_hex,
    {
        FormattingConfig {
            instruction_format: default_instruction_format(),
            operand_separator: default_operand_separator(),
            include_hex: true,
        }
    }
}

/// Lines to lay out, with their configuration.
pub struct DisFormatter {
    pub lines: Vec<DisFormatterLine>,
    pub config: FormattingConfig,
}

/// Formatting was asked for no lines at all.
#[derive(PartialEq, Eq, Structural, Clone, Copy, Debug)]
pub struct NoContent;

/// `f` with its `{}` placeholders filled left to right, in one pass, by
/// `args` in order: text put in for one placeholder is not searched again;
/// surplus arguments are ignored and surplus placeholders stay as they are.
pub open spec fn format_dynamic_spec(f: Seq<char>, args: Seq<Seq<char>>) -> Seq<char>
    decreases f.len(),
{
    if args.len() == 0 || f.len() < 2 {
        f
    } else if f[0] == '{' && f[1] == '}' {
        args[0] + format_dynamic_spec(f.skip(2), args.drop_first())
    } else {
        seq![f[0]] + format_dynamic_spec(f.drop_first(), args)
    }
}

/// `s` holds no `{}` placeholder.
pub open spec fn no_placeholder(s: Seq<char>) -> bool {
    forall|k: int| 0 <= k < s.len() - 1 ==> !(#[trigger] s[k] == '{' && s[k + 1] == '}')
}

/// Text without a placeholder comes out as it is, whatever the arguments.
pub proof fn lemma_format_no_placeholder(p: Seq<char>, args: Seq<Seq<char>>)
    requires
        no_placeholder(p),
    ensures
        format_dynamic_spec(p, args) == p,
    decreases p.len(),
{
    if args.len() > 0 && p.len() >= 2 {
        assert(!(p[0] == '{' && p[1] == '}'));
        let t = p.drop_first();
        assert forall|k: int| 0 <= k < t.len() - 1 implies !(#[trigger] t[k] == '{' && t[k + 1] == '}') by {
            assert(t[k] == p[k + 1] && t[k + 1] == p[k + 2]);
        }
        lemma_format_no_placeholder(t, args);
        assert(seq![p[0]] + t =~= p);
    }
}

/// The first placeholder takes the first argument, the text before it is
/// kept, and the rest of the format is filled with the remaining arguments:
/// the argument's own text is never searched for placeholders.
pub proof fn lemma_format_first_placeholder(p: Seq<char>, q: Seq<char>, args: Seq<Seq<char>>)
    requires
        no_placeholder(p),
        args.len() > 0,
    ensures
        format_dynamic_spec(p + "{}"@ + q, args) == p + args[0] + format_dynamic_spec(q, args.drop_first()),
    decreases p.len(),
{
    reveal_strlit("{}");
    let f = p + "{}"@ + q;
    if p.len() == 0 {
        assert(f[0] == '{' && f[1] == '}');
        assert(f.skip(2) =~= q);
        assert(p + args[0] =~= args[0]);
    } else {
        assert(f[0] == p[0]);
        if p.len() == 1 {
            assert(f[1] == '{');
        } else {
            assert(f[1] == p[1]);
            assert(!(p[0] == '{' && p[1] == '}'));
        }
        let t = p.drop_first();
        assert forall|k: int| 0 <= k < t.len() - 1 implies !(#[trigger] t[k] == '{' && t[k + 1] == '}') by {
            assert(t[k] == p[k + 1] && t[k + 1] == p[k + 2]);
        }
        assert(f.drop_first() =~= t + "{}"@ + q);
        lemma_format_first_placeholder(t, q, args);
        assert(seq![p[0]] + (t + args[0] + format_dynamic_spec(q, args.drop_first())) =~= p + args[0]
            + format_dynamic_spec(q, args.drop_first()));
    }
}

/// The items of `list` with `sep` between each two.
pub open spec fn join_spec(list: Seq<Seq<char>>, sep: Seq<char>) -> Seq<char>
    decreases list.len(),
{
    if list.len() == 0 {
        Seq::empty()
    } else if list.len() == 1 {
        list[0]
    } else {
        join_spec(list.drop_last(), sep) + sep + list.last()
    }
}

/// The views of a vector of strings.
pub open spec fn string_views(v: Seq<String>) -> Seq<Seq<char>> {
    v.map_values(|s: String| s@)
}

/// The length in bytes of the UTF-8 encoding of `s`, as `str::len`
/// reports it.
pub open spec fn byte_len(s: Seq<char>) -> nat {
    (vstd::utf8::encode_utf8(s).len() as usize) as nat
}

/// The longest hex column, in bytes.
pub open spec fn longest_hex(lines: Seq<DisFormatterLine>) -> nat
    decreases lines.len(),
{
    if lines.len() == 0 {
        0
    } else {
        let m = longest_hex(lines.drop_last());
        let l = byte_len(lines.last().hex@);
        if l > m {
            l
        } else {
            m
        }
    }
}

/// `n` spaces.
pub open spec fn spaces(n: nat) -> Seq<char> {
    Seq::new(n, |i: int| ' ')
}

/// The hex column of a line padded with spaces to `width` bytes plus two.
pub open spec fn padded_hex(hex: Seq<char>, width: nat) -> Seq<char> {
    hex + spaces((width - byte_len(hex) + 2) as nat)
}

/// The instruction part of a line.
pub open spec fn instruction_text(line: DisFormatterLine, config: FormattingConfig) -> Seq<char> {
    format_dynamic_spec(
        config.instruction_format@,
        seq![line.opcode@, join_spec(string_views(line.operands@), config.operand_separator@)],
    )
}

/// One line of output.
pub open spec fn line_text(line: DisFormatterLine, config: FormattingConfig, width: nat) -> Seq<
    char,
> {
    (if config.include_hex {
        padded_hex(line.hex@, width)
    } else {
        Seq::empty()
    }) + instruction_text(line, config)
}

/// The whole output: one line of text per disassembled line, joined by
/// newlines.
pub open spec fn format_spec(lines: Seq<DisFormatterLine>, config: FormattingConfig) -> Seq<char> {
    join_spec(
        Seq::new(lines.len(), |i: int| line_text(lines[i], config, longest_hex(lines))),
        "\n"@,
    )
}

/// Fills the `{}` placeholders of `f` with `args`, left to right in one
/// pass (a basic `format!`): text put in for one placeholder is not searched
/// again.
pub fn format_dynamic(f: String, args: Vec<String>) -> (r: String)
    ensures
        r@ == format_dynamic_spec(f@, string_views(args@)),
{
    let cs = chars_of(f.as_str());
    let ghost fv = cs@;
    let ghost av = string_views(args@);
    let n = cs.len();
    let k = args.len();
    let mut out = String::new();
    let mut i: usize = 0;
    let mut j: usize = 0;
    proof {
        assert(fv.skip(0) =~= fv);
        assert(av.skip(0) =~= av);
    }
    while i < n
        invariant
            n == fv.len(),
            k == args@.len(),
            cs@ == fv,
            fv == f@,
            av == string_views(args@),
            i <= n,
            j <= k,
            format_dynamic_spec(fv, av) == out@ + format_dynamic_spec(fv.skip(i as int), av.skip(j as int)),
        decreases n - i,
    {
        let ghost rest = fv.skip(i as int);
        let ghost ra = av.skip(j as int);
        if j < k && i + 1 < n && cs[i] == '{' && cs[i + 1] == '}' {
            proof {
                assert(rest[0] == '{' && rest[1] == '}');
                assert(rest.skip(2) =~= fv.skip(i + 2));
                assert(ra.drop_first() =~= av.skip(j + 1));
                assert(ra[0] == args@[j as int]@);
                assert(out@ + (ra[0] + format_dynamic_spec(rest.skip(2), ra.drop_first()))
                    =~= (out@ + args@[j as int]@) + format_dynamic_spec(fv.skip(i + 2), av.skip(j + 1)));
            }
            out.append(args[j].as_str());
            i = i + 2;
            j = j + 1;
        } else {
            let c = cs[i];
            proof {
                assert(rest[0] == c);
                assert(rest.drop_first() =~= fv.skip(i + 1));
                if ra.len() == 0 || rest.len() < 2 {
                    if rest.len() < 2 {
                        assert(fv.skip(i + 1) =~= Seq::<char>::empty());
                        assert(rest =~= seq![c]);
                    } else {
                        assert(rest =~= seq![c] + fv.skip(i + 1));
                    }
                    assert(format_dynamic_spec(rest, ra) == seq![c] + format_dynamic_spec(fv.skip(i + 1), ra));
                } else {
                    assert(rest[1] == cs@[i + 1]);
                }
                assert(out@ + (seq![c] + format_dynamic_spec(fv.skip(i + 1), ra)) =~= out@.push(c)
                    + format_dynamic_spec(fv.skip(i + 1), ra));
            }
            push_char(&mut out, c);
            i = i + 1;
        }
    }
    proof {
        assert(fv.skip(n as int) =~= Seq::<char>::empty());
        assert(out@ + Seq::<char>::empty() =~= out@);
    }
    out
}

/// The items of `list` with `sep` between each two.
pub fn join_strings(list: &Vec<String>, sep: &String) -> (r: String)
    ensures
        r@ == join_spec(string_views(list@), sep@),
{
    let mut out = String::new();
    let n = list.len();
    for i in 0..n
        invariant
            n == list@.len(),
            out@ == join_spec(string_views(list@.take(i as int)), sep@),
    {
        let ghost a = string_views(list@.take(i + 1));
        proof {
            assert(a.drop_last() =~= string_views(list@.take(i as int)));
            assert(a.last() == list@[i as int]@);
        }
        if i > 0 {
            out.append(sep.as_str());
        } else {
            assert(string_views(list@.take(0)) =~= Seq::<Seq<char>>::empty());
            assert(a.len() == 1);
        }
        out.append(list[i].as_str());
    }
    proof {
        assert(list@.take(n as int) =~= list@);
    }
    out
}

proof fn lemma_longest_hex(lines: Seq<DisFormatterLine>, i: int)
    requires
        0 <= i < lines.len(),
    ensures
        byte_len(lines[i].hex@) <= longest_hex(lines),
    decreases lines.len(),
{
    if i < lines.len() - 1 {
        assert(lines.drop_last()[i] == lines[i]);
        lemma_longest_hex(lines.drop_last(), i);
    }
}

/// Some line's hex column is as long as the longest one.
proof fn lemma_longest_hex_attained(lines: Seq<DisFormatterLine>)
    requires
        lines.len() > 0,
    ensures
        exists|i: int| 0 <= i < lines.len() && byte_len(#[trigger] lines[i].hex@) == longest_hex(lines),
    decreases lines.len(),
{
    let l = lines.len() - 1;
    let d = lines.drop_last();
    assert(lines.last() == lines[l]);
    if l > 0 {
        lemma_longest_hex_attained(d);
        let i = choose|i: int| 0 <= i < d.len() && byte_len(#[trigger] d[i].hex@) == longest_hex(d);
        assert(lines[i] == d[i]);
        if byte_len(lines[l].hex@) > longest_hex(d) {
            assert(byte_len(lines[l].hex@) == longest_hex(lines));
        } else {
            assert(byte_len(lines[i].hex@) == longest_hex(lines));
        }
    } else {
        assert(longest_hex(d) == 0);
        assert(byte_len(lines[l].hex@) == longest_hex(lines));
    }
}

/// The columns line up: where `width` is the length in bytes of the longest
/// hex column of all the lines, line `i` of the output is line `i`'s hex
/// padded with spaces to `width + 2` bytes (when the hex column is on), then
/// its instruction text, whatever the position of the line and of the
/// longest one; the lines are joined by newlines.
pub proof fn lemma_format_columns_line_up(lines: Seq<DisFormatterLine>, config: FormattingConfig, width: nat)
    requires
        forall|i: int| 0 <= i < lines.len() ==> byte_len(#[trigger] lines[i].hex@) <= width,
        exists|i: int| 0 <= i < lines.len() && byte_len(#[trigger] lines[i].hex@) == width,
    ensures
        format_spec(lines, config) == join_spec(
            Seq::new(
                lines.len(),
                |i: int|
                    (if config.include_hex {
                        lines[i].hex@ + spaces((width + 2 - byte_len(lines[i].hex@)) as nat)
                    } else {
                        Seq::empty()
                    }) + instruction_text(lines[i], config),
            ),
            "\n"@,
        ),
{
    lemma_longest_hex_attained(lines);
    let k = choose|i: int| 0 <= i < lines.len() && byte_len(#[trigger] lines[i].hex@) == width;
    lemma_longest_hex(lines, k);
    let j = choose|i: int| 0 <= i < lines.len() && byte_len(#[trigger] lines[i].hex@) == longest_hex(lines);
    assert(longest_hex(lines) == width);
    let a = Seq::new(lines.len(), |i: int| line_text(lines[i], config, longest_hex(lines)));
    let b = Seq::new(
        lines.len(),
        |i: int|
            (if config.include_hex {
                lines[i].hex@ + spaces((width + 2 - byte_len(lines[i].hex@)) as nat)
            } else {
                Seq::empty()
            }) + instruction_text(lines[i], config),
    );
    assert forall|i: int| 0 <= i < lines.len() implies a[i] == b[i] by {
        assert(byte_len(lines[i].hex@) <= width);
        assert((width - byte_len(lines[i].hex@) + 2) as nat == (width + 2 - byte_len(lines[i].hex@)) as nat);
    }
    assert(a =~= b);
}

impl DisFormatter {
    /// One line of output for `line`, its hex column padded to `width`.
    fn line_text_exec(&self, line: &DisFormatterLine, width: usize) -> (r: String)
        requires
            byte_len(line.hex@) <= width,
        ensures
            r@ == line_text(*line, self.config, width as nat),
    {
        let mut out = String::new();
        if self.config.include_hex {
            out = line.hex.clone();
            let pad = width - line.hex.as_str().len();
            let mut k: usize = 0;
            while k < pad
                invariant
                    k <= pad,
                    out@ == line.hex@ + spaces(k as nat),
                decreases pad - k,
            {
                push_char(&mut out, ' ');
                assert(spaces((k + 1) as nat) =~= spaces(k as nat).push(' '));
                k = k + 1;
            }
            push_char(&mut out, ' ');
            push_char(&mut out, ' ');
            assert(out@ =~= padded_hex(line.hex@, width as nat));
        }
        let operands = join_strings(&line.operands, &self.config.operand_separator);
        let args = vec![line.opcode.clone(), operands];
        let ins = format_dynamic(self.config.instruction_format.clone(), args);
        proof {
            assert(string_views(args@) =~= seq![
                line.opcode@,
                join_spec(string_views(line.operands@), self.config.operand_separator@),
            ]);
        }
        out.append(ins.as_str());
        assert(out@ =~= line_text(*line, self.config, width as nat));
        out
    }

    /// Lays the lines out as text: when the hex column is on, each line starts
    /// with its hex padded to the longest hex plus two spaces; then the
    /// instruction format filled with the opcode name and the operands joined
    /// by the separator; lines are joined by newlines. Fails when there are
    /// no lines.
    pub fn format(&self) -> (r: Result<String, NoContent>)
        ensures
            self.lines@.len() == 0 <==> r is Err,
            r matches Ok(s) ==> s@ == format_spec(self.lines@, self.config),
    {
        let n = self.lines.len();
        if n == 0 {
            return Err(NoContent);
        }
        let ghost lines = self.lines@;
        let mut longest: usize = 0;
        for i in 0..n
            invariant
                n == lines.len(),
                lines == self.lines@,
                longest as nat == longest_hex(lines.take(i as int)),
        {
            proof {
                assert(lines.take(i + 1).drop_last() =~= lines.take(i as int));
            }
            let l = self.lines[i].hex.as_str().len();
            if l > longest {
                longest = l;
            }
        }
        proof {
            assert(lines.take(n as int) =~= lines);
        }
        let ghost texts = Seq::new(n as nat, |j: int| line_text(lines[j], self.config, longest as nat));
        let mut out = String::new();
        for i in 0..n
            invariant
                n == lines.len(),
                lines == self.lines@,
                longest as nat == longest_hex(lines),
                texts == Seq::new(n as nat, |j: int| line_text(lines[j], self.config, longest as nat)),
                out@ == join_spec(texts.take(i as int), "\n"@),
        {
            proof {
                lemma_longest_hex(lines, i as int);
                assert(texts.take(i + 1).drop_last() =~= texts.take(i as int));
            }
            if i > 0 {
                out.append("\n");
            } else {
                assert(texts.take(0) =~= Seq::<Seq<char>>::empty());
            }
            let t = self.line_text_exec(&self.lines[i], longest);
            out.append(t.as_str());
        }
        proof {
            assert(texts.take(n as int) =~= texts);
        }
        Ok(out)
    }
}

} // verus!
