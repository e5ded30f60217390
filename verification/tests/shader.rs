use game_engine::shader::{
    find_arg, insert_shader_args, is_whitespace, next_non_ws, next_of_char, next_ws, push_bytes,
    push_line, same_bytes, try_insert_shader_args, ShaderArg,
};

fn arg(name: &str, value: &str) -> ShaderArg {
    ShaderArg(name.as_bytes().to_vec(), value.as_bytes().to_vec())
}

fn put(shader: &str, args: &[ShaderArg]) -> Option<String> {
    try_insert_shader_args(shader.as_bytes(), args).map(|b| String::from_utf8(b).unwrap())
}

#[test]
fn without_arguments_the_source_is_kept() {
    let src = "#version 330\n#define N $n\nvoid main() {}";
    assert_eq!(put(src, &[]), Some(src.to_owned()));
    assert_eq!(insert_shader_args(src.as_bytes(), &[]), src.as_bytes().to_vec());
    assert_eq!(put("", &[]), Some("".to_owned()));
}

#[test]
fn argument_in_a_directive_is_replaced() {
    let args = [arg("$sheet_size", "3"), arg("$instance_count", "500")];
    let src = "#version 330 core\n#define SHEET $sheet_size\n  #define COUNT $instance_count // slots\nuniform vec4 sprites[COUNT];";
    let want = "#version 330 core\n#define SHEET 3\n  #define COUNT 500 // slots\nuniform vec4 sprites[COUNT];\n";
    assert_eq!(put(src, &args), Some(want.to_owned()));
    assert_eq!(insert_shader_args(src.as_bytes(), &args), want.as_bytes().to_vec());
}

#[test]
fn every_line_gets_a_line_feed() {
    let args = [arg("$a", "x")];
    assert_eq!(put("", &args), Some("\n".to_owned()));
    assert_eq!(put("a", &args), Some("a\n".to_owned()));
    assert_eq!(put("a\n", &args), Some("a\n\n".to_owned()));
    assert_eq!(put("a\nb", &args), Some("a\nb\n".to_owned()));
    assert_eq!(put("\n\n", &args), Some("\n\n\n".to_owned()));
}

#[test]
fn only_directives_are_touched() {
    let args = [arg("$a", "x")];
    assert_eq!(put("float $a = 1; // #", &args), Some("float $a = 1; // #\n".to_owned()));
    assert_eq!(put("x #define $a", &args), Some("x #define $a\n".to_owned()));
    assert_eq!(put(" \t#define $a", &args), Some(" \tx\n".replace("x", "#define x")));
}

#[test]
fn only_the_first_argument_of_a_line_is_replaced() {
    let args = [arg("$a", "1"), arg("$b", "2")];
    assert_eq!(put("#if $a < $b", &args), Some("#if 1 < $b\n".to_owned()));
}

#[test]
fn argument_name_runs_to_the_next_whitespace() {
    let args = [arg("$a", "1"), arg("$a;", "2"), arg("$", "3")];
    assert_eq!(put("#x $a;", &args), Some("#x 2\n".to_owned()));
    assert_eq!(put("#x $a\t;", &args), Some("#x 1\t;\n".to_owned()));
    assert_eq!(put("#x $ a", &args), Some("#x 3 a\n".to_owned()));
    assert_eq!(put("#x$a\r", &args), Some("#x1\r\n".to_owned()));
    assert_eq!(put("#$a", &args), Some("#1\n".to_owned()));
}

#[test]
fn the_last_of_several_values_counts() {
    let args = [arg("$a", "first"), arg("$b", "other"), arg("$a", "last")];
    assert_eq!(put("#define A $a", &args), Some("#define A last\n".to_owned()));
}

#[test]
fn missing_argument_is_reported() {
    let args = [arg("$a", "1")];
    assert_eq!(put("#define B $b", &args), None);
    assert_eq!(put("#define A $a\n#define B $b\n", &args), None);
    assert_eq!(put("#define A $a\nfloat $b;", &args), Some("#define A 1\nfloat $b;\n".to_owned()));
    // Without any argument nothing is looked up.
    assert_eq!(put("#define B $b", &[]), Some("#define B $b".to_owned()));
}

#[test]
fn directive_without_argument_is_kept() {
    let args = [arg("$a", "1")];
    assert_eq!(put("#version 330", &args), Some("#version 330\n".to_owned()));
    assert_eq!(put("#", &args), Some("#\n".to_owned()));
    assert_eq!(put("   ", &args), Some("   \n".to_owned()));
}

#[test]
fn value_may_be_empty_or_long() {
    let args = [arg("$e", ""), arg("$l", "a b\tc")];
    assert_eq!(put("#a $e b", &args), Some("#a  b\n".to_owned()));
    assert_eq!(put("#a $l b", &args), Some("#a a b\tc b\n".to_owned()));
}

#[test]
fn bytes_outside_ascii_are_ordinary() {
    let args = [arg("$a", "1")];
    let src = "#d\u{e9}f $a \u{2603}";
    assert_eq!(put(src, &args), Some("#d\u{e9}f 1 \u{2603}\n".to_owned()));
}

#[test]
fn cursor_helpers_stop_where_they_should() {
    let s = b"  \t#define  $x y";
    let mut i = 0;
    next_non_ws(&mut i, s);
    assert_eq!(i, 3);
    next_non_ws(&mut i, s);
    assert_eq!(i, 3);
    next_of_char(&mut i, b'$', s);
    assert_eq!(i, 12);
    next_ws(&mut i, s);
    assert_eq!(i, 14);
    next_of_char(&mut i, b'#', s);
    assert_eq!(i, s.len());
    next_ws(&mut i, s);
    assert_eq!(i, s.len());
    let mut j = 0;
    next_ws(&mut j, b"abc");
    assert_eq!(j, 3);
    for b in [b' ', b'\t', b'\n', 0x0b, 0x0c, b'\r'] {
        assert!(is_whitespace(b));
    }
    for b in [b'a', 0u8, 0x08, 0x0e, 0x1f, 0x21, 0x85, 0xa0, 0xff] {
        assert!(!is_whitespace(b));
    }
}

#[test]
fn byte_helpers() {
    assert!(same_bytes(b"abc", b"abc"));
    assert!(same_bytes(b"", b""));
    assert!(!same_bytes(b"abc", b"abd"));
    assert!(!same_bytes(b"abc", b"ab"));
    let mut out = b"ab".to_vec();
    push_bytes(&mut out, b"cd");
    push_bytes(&mut out, b"");
    assert_eq!(out, b"abcd".to_vec());
    let args = [arg("$a", "1"), arg("$b", "2"), arg("$a", "3")];
    assert_eq!(find_arg(&args, b"$a"), Some(&b"3".to_vec()));
    assert_eq!(find_arg(&args, b"$b"), Some(&b"2".to_vec()));
    assert_eq!(find_arg(&args, b"$c"), None);
    let mut line = b">".to_vec();
    assert!(push_line(&mut line, b"#x $b!", &[arg("$b!", "ok")]));
    assert_eq!(line, b">#x ok".to_vec());
    assert!(!push_line(&mut line, b"#x $c", &args));
    assert_eq!(line, b">#x ok".to_vec());
}
