use comment_mask::scanner::process;

fn sp(n: usize) -> String {
    " ".repeat(n)
}

#[test]
fn line_comment_after_code() {
    let out = process("int x = 1; // set x", false);
    assert_eq!(out, format!("{}{} set x", sp(11), sp(2)));
}

#[test]
fn block_comment_on_one_line() {
    // The continuation check after `/*` swallows the blank before `hi`.
    assert_eq!(process("/* hi */", false), "  hi   ");
}

#[test]
fn string_masked() {
    assert_eq!(process("String s = \"secret\";", false), sp(20));
}

#[test]
fn string_preserved() {
    let expected = format!("{} secret  ", sp(11));
    assert_eq!(process("String s = \"secret\";", true), expected);
}

#[test]
fn empty_string_returns_to_code() {
    assert_eq!(process("\"\"", false), "  ");
    assert_eq!(process("\"\"x// c", false), format!("{} c", sp(5)));
}

#[test]
fn text_block_masked() {
    assert_eq!(process("\"\"\"\nblock\n\"\"\"", false), "   \n     \n   ");
}

#[test]
fn text_block_preserved() {
    assert_eq!(process("\"\"\"\nblock\n\"\"\"", true), "   \nblock\n   ");
}

#[test]
fn text_block_two_quotes_are_content() {
    assert_eq!(process("\"\"\"a\"\"b\"\"\"", true), "   a\"\"b   ");
    assert_eq!(process("\"\"\"a\"\"b\"\"\"", false), sp(10));
}

#[test]
fn unterminated_char_literal() {
    assert_eq!(process("'x", false), "  ");
}

#[test]
fn char_literal_escape_keeps_width() {
    assert_eq!(process("'\\n'", true), sp(4));
}

#[test]
fn string_escape_collapses() {
    assert_eq!(process("\"a\\\"b\"", false), sp(5));
    assert_eq!(process("\"a\\tb\"", true), " atb ");
}

#[test]
fn string_escape_at_end_of_text() {
    assert_eq!(process("\"\\", false), " ");
}

#[test]
fn unterminated_string_ends_at_line_break() {
    assert_eq!(process("\"ab\n// c", true), " ab\n   c");
}

#[test]
fn javadoc_continuation_lines() {
    assert_eq!(process("/**\n * doc\n */x", false), "   \ndoc\n ");
}

#[test]
fn block_comment_closed_then_code() {
    assert_eq!(process("/*a*/b", false), "  a   ");
}

#[test]
fn states_return_to_normal() {
    assert_eq!(process("// c\nx", false), "   c\n ");
    assert_eq!(process("\"s\"// c", false), "      c");
    assert_eq!(process("'c'// c", false), "      c");
    assert_eq!(process("\"\"\"t\"\"\"// c", false), format!("{} c", sp(9)));
}

#[test]
fn blank_text_is_fixed() {
    let text = "  \n \n\n   ";
    assert_eq!(process(text, false), text);
    assert_eq!(process(text, true), text);
}

#[test]
fn line_breaks_kept() {
    let text = "a /* x\n y */ \"s\n' \n// z\nq";
    let out = process(text, false);
    assert_eq!(out.matches('\n').count(), text.matches('\n').count());
}

#[test]
fn width_kept_without_escapes() {
    let text = "int a = 'b'; String s = \"x y\"; // note\nfoo(\"\"\"\nz\n\"\"\");";
    assert_eq!(process(text, false).chars().count(), text.chars().count());
    assert_eq!(process(text, true).chars().count(), text.chars().count());
}

#[test]
fn lone_slash_is_code() {
    assert_eq!(process("a / b", false), sp(5));
}

#[test]
fn multibyte_comment_copied() {
    assert_eq!(process("x // héllo ✓", false), format!("{} héllo ✓", sp(4)));
}

#[test]
fn empty_input() {
    assert_eq!(process("", false), "");
}

#[test]
fn escaped_line_break_in_masked_string() {
    // The escape target, a line break, is written as one space.
    assert_eq!(process("\"a\\\nb\"", false), sp(5));
    assert_eq!(process("\"a\\\nb\"", true), " a\nb ");
    assert_eq!(process("'\\\n'", true), sp(4));
}

#[test]
fn line_break_places_kept() {
    let text = "x = 'a'; // one\n/*two\nthree */ y(\"s\");\n\"\"\"\nt\"\"\"";
    let a: Vec<char> = text.chars().collect();
    for keep in [false, true] {
        let b: Vec<char> = process(text, keep).chars().collect();
        assert_eq!(a.len(), b.len());
        for i in 0..a.len() {
            assert_eq!(a[i] == '\n', b[i] == '\n');
        }
    }
}

#[test]
fn construct_then_code_scans_apart() {
    let constructs = [
        "// c\n",
        "/* hi */",
        "/*\n  one\n   */",
        "/* a\n b */",
        "\"s t\"",
        "'c'",
        "''",
        "\"\"\"\nt\n\"\"\"",
    ];
    let rest = "x /* y */ \"z\"";
    for w in constructs {
        for keep in [false, true] {
            let joined = format!("{}{}", w, rest);
            let apart = format!("{}{}", process(w, keep), process(rest, keep));
            assert_eq!(process(&joined, keep), apart);
            assert_eq!(process(&format!("{}x", w), keep), format!("{} ", process(w, keep)));
        }
    }
}
