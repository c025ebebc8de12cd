use vmdef::formatter::{
    default_instruction_format, default_operand_separator, format_dynamic, join_strings,
    DisFormatter, DisFormatterLine, FormattingConfig, NoContent,
};

fn s(x: &str) -> String {
    x.to_string()
}

fn line(hex: &str, op: &str, operands: &[&str]) -> DisFormatterLine {
    DisFormatterLine { hex: s(hex), opcode: s(op), operands: operands.iter().map(|o| s(o)).collect() }
}

#[test]
fn placeholders_filled_in_order() {
    assert_eq!(format_dynamic(s("{} {}"), vec![s("mov"), s("r1,r2")]), "mov r1,r2");
    assert_eq!(format_dynamic(s("{}: {}!"), vec![s("a"), s("b")]), "a: b!");
}

#[test]
fn placeholders_filled_in_one_pass() {
    assert_eq!(format_dynamic(s("{}-{}"), vec![s("a{}"), s("b")]), "a{}-b");
    assert_eq!(format_dynamic(s("{} {}"), vec![s("{}"), s("x")]), "{} x");
    assert_eq!(format_dynamic(s("{{}}"), vec![s(""), s("x")]), "{}");
    assert_eq!(format_dynamic(s("{}"), vec![s("x"), s("y")]), "x");
    assert_eq!(format_dynamic(s("{} {} {}"), vec![s("x")]), "x {} {}");
    assert_eq!(format_dynamic(s("none"), vec![s("x")]), "none");
    assert_eq!(format_dynamic(s("{{}}"), vec![s("x")]), "{x}");
    assert_eq!(format_dynamic(s("{ }"), vec![]), "{ }");
}

#[test]
fn joining_strings() {
    assert_eq!(join_strings(&vec![s("a"), s("b"), s("c")], &s(", ")), "a, b, c");
    assert_eq!(join_strings(&vec![s("a")], &s(",")), "a");
    assert_eq!(join_strings(&vec![], &s(",")), "");
}

#[test]
fn default_layout() {
    assert_eq!(default_instruction_format(), "{} {}");
    assert_eq!(default_operand_separator(), ",");
    let c = FormattingConfig::default();
    assert!(c.include_hex);
    assert_eq!(c.instruction_format, "{} {}");
    assert_eq!(c.operand_separator, ",");
    let l = DisFormatterLine::default();
    assert!(l.hex.is_empty() && l.opcode.is_empty() && l.operands.is_empty());
}

#[test]
fn hex_column_padded_to_longest_plus_two() {
    let f = DisFormatter {
        lines: vec![line("0102", "MOV", &["r1", "r2"]), line("03", "NOP", &[])],
        config: FormattingConfig::default(),
    };
    assert_eq!(f.format().unwrap(), "0102  MOV r1,r2\n03    NOP ");
}

#[test]
fn without_hex_column() {
    let f = DisFormatter {
        lines: vec![line("0102", "MOV", &["r1", "r2"]), line("03", "NOP", &[])],
        config: FormattingConfig {
            instruction_format: s("{}\t{}"),
            operand_separator: s(", "),
            include_hex: false,
        },
    };
    assert_eq!(f.format().unwrap(), "MOV\tr1, r2\nNOP\t");
}

#[test]
fn padding_counts_bytes() {
    let f = DisFormatter {
        lines: vec![line("é", "A", &[]), line("ab", "B", &[])],
        config: FormattingConfig::default(),
    };
    assert_eq!(f.format().unwrap(), "é  A \nab  B ");
}

#[test]
fn nothing_to_format() {
    let f = DisFormatter { lines: vec![], config: FormattingConfig::default() };
    assert_eq!(f.format().unwrap_err(), NoContent);
}
