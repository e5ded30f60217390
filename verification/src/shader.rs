//! Substitution of arguments in shader source text.
//!
//! A line whose first visible character is `#` is a directive. In a directive
//! the first word that starts with `$` names an argument, and is replaced by
//! the value that the caller supplies for that name. All other text is kept.
//! The text is handled as bytes; a word ends at ASCII whitespace.

use vstd::prelude::*;
use vstd::slice::slice_subrange;

verus! {

/// One argument: the name as it stands in the source, `$` included, and the
/// text to put in its place.
#[derive(Clone, Debug)]
pub struct ShaderArg(pub Vec<u8>, pub Vec<u8>);

/// An argument as plain values: name and value.
pub type ArgView = (Seq<u8>, Seq<u8>);

/// The arguments as plain values.
pub open spec fn args_view(args: Seq<ShaderArg>) -> Seq<ArgView> {
    Seq::new(args.len(), |i: int| (args[i].0@, args[i].1@))
}

/// The byte is ASCII whitespace: a blank, a tab, a line feed, a vertical
/// tab, a form feed or a carriage return.
pub open spec fn is_space(b: u8) -> bool {
    b == 0x20 || (0x09 <= b && b <= 0x0d)
}

/// The first position at or behind `i` that holds no whitespace, or the
/// length of the line if there is none.
pub open spec fn skip_spaces(line: Seq<u8>, i: int) -> int
    decreases line.len() - i,
{
    if 0 <= i < line.len() && is_space(line[i]) {
        skip_spaces(line, i + 1)
    } else {
        i
    }
}

/// The first position at or behind `i` that holds whitespace, or the length
/// of the line if there is none.
pub open spec fn skip_word(line: Seq<u8>, i: int) -> int
    decreases line.len() - i,
{
    if 0 <= i < line.len() && !is_space(line[i]) {
        skip_word(line, i + 1)
    } else {
        i
    }
}

/// The first position at or behind `i` that holds the byte `c`, or the
/// length of the line if there is none.
pub open spec fn skip_to(line: Seq<u8>, i: int, c: u8) -> int
    decreases line.len() - i,
{
    if 0 <= i < line.len() && line[i] != c {
        skip_to(line, i + 1, c)
    } else {
        i
    }
}

/// Where the argument name of a line starts and ends, if the line is a
/// directive that holds one.
pub open spec fn token_of(line: Seq<u8>) -> Option<(int, int)> {
    let first = skip_spaces(line, 0);
    if first < line.len() && line[first] == 0x23 {
        let start = skip_to(line, first, 0x24);
        if start < line.len() {
            Some((start, skip_word(line, start)))
        } else {
            None
        }
    } else {
        None
    }
}

/// The value that the first `k` arguments give for `name`; the last of
/// several arguments of one name counts.
pub open spec fn value_of(args: Seq<ArgView>, name: Seq<u8>, k: nat) -> Option<Seq<u8>>
    decreases k,
{
    if k == 0 {
        None
    } else if args[k - 1].0 == name {
        Some(args[k - 1].1)
    } else {
        value_of(args, name, (k - 1) as nat)
    }
}

/// A line with its argument replaced; `None` if the line names an argument
/// that has no value.
pub open spec fn line_result(line: Seq<u8>, args: Seq<ArgView>) -> Option<Seq<u8>> {
    match token_of(line) {
        None => Some(line),
        Some((start, end)) => match value_of(args, line.subrange(start, end), args.len()) {
            Some(value) => Some(
                line.subrange(0, start) + value + line.subrange(end, line.len() as int),
            ),
            None => None,
        },
    }
}

/// The text from position `from` on with the argument of every line
/// replaced, each line ended by a line feed; `None` if some line names an
/// argument that has no value. What stands behind the last line feed counts
/// as a line, even if it is empty.
pub open spec fn lines_result(text: Seq<u8>, args: Seq<ArgView>, from: int) -> Option<Seq<u8>>
    decreases text.len() - from,
{
    let end = skip_to(text, from, 0x0a);
    if 0 <= from <= end {
        match line_result(text.subrange(from, end), args) {
            None => None,
            Some(line) => if end >= text.len() {
                Some(line.push(0x0a))
            } else {
                match lines_result(text, args, end + 1) {
                    Some(rest) => Some(line.push(0x0a) + rest),
                    None => None,
                }
            },
        }
    } else {
        None
    }
}

/// Shader source with its arguments put in. Without arguments the source is
/// kept as it is, byte for byte.
pub open spec fn shader_result(text: Seq<u8>, args: Seq<ArgView>) -> Option<Seq<u8>> {
    if args.len() == 0 {
        Some(text)
    } else {
        lines_result(text, args, 0)
    }
}

/// Whether the byte is ASCII whitespace.
pub fn is_whitespace(b: u8) -> (space: bool)
    ensures
        space == is_space(b),
{
    b == 0x20 || (0x09 <= b && b <= 0x0d)
}

/// Moves `i` to the next byte of `s` that is no whitespace.
pub fn next_non_ws(i: &mut usize, s: &[u8])
    requires
        *old(i) <= s@.len(),
    ensures
        *final(i) == skip_spaces(s@, *old(i) as int),
        *old(i) <= *final(i) <= s@.len(),
{
    let ghost start = *i;
    while *i < s.len() && is_whitespace(s[*i])
        invariant
            start <= *i <= s@.len(),
            skip_spaces(s@, *i as int) == skip_spaces(s@, start as int),
        decreases s@.len() - *i,
    {
        *i += 1;
    }
}

/// Moves `i` to the next byte of `s` that is whitespace.
pub fn next_ws(i: &mut usize, s: &[u8])
    requires
        *old(i) <= s@.len(),
    ensures
        *final(i) == skip_word(s@, *old(i) as int),
        *old(i) <= *final(i) <= s@.len(),
{
    let ghost start = *i;
    while *i < s.len() && !is_whitespace(s[*i])
        invariant
            start <= *i <= s@.len(),
            skip_word(s@, *i as int) == skip_word(s@, start as int),
        decreases s@.len() - *i,
    {
        *i += 1;
    }
}

/// Moves `i` to the next byte of `s` that is `c`.
pub fn next_of_char(i: &mut usize, c: u8, s: &[u8])
    requires
        *old(i) <= s@.len(),
    ensures
        *final(i) == skip_to(s@, *old(i) as int, c),
        *old(i) <= *final(i) <= s@.len(),
{
    let ghost start = *i;
    while *i < s.len() && s[*i] != c
        invariant
            start <= *i <= s@.len(),
            skip_to(s@, *i as int, c) == skip_to(s@, start as int, c),
        decreases s@.len() - *i,
    {
        *i += 1;
    }
}

/// Whether two texts are the same, byte for byte.
pub fn same_bytes(a: &[u8], b: &[u8]) -> (same: bool)
    ensures
        same == (a@ == b@),
{
    if a.len() != b.len() {
        return false;
    }
    let mut i: usize = 0;
    while i < a.len()
        invariant
            i <= a@.len(),
            a@.len() == b@.len(),
            forall|j: int| 0 <= j < i ==> a@[j] == b@[j],
        decreases a@.len() - i,
    {
        if a[i] != b[i] {
            return false;
        }
        i += 1;
    }
    assert(a@ =~= b@);
    true
}

/// Appends the bytes of `s` to `out`.
pub fn push_bytes(out: &mut Vec<u8>, s: &[u8])
    ensures
        final(out)@ == old(out)@ + s@,
{
    let ghost before = out@;
    let mut i: usize = 0;
    while i < s.len()
        invariant
            i <= s@.len(),
            out@ == before + s@.subrange(0, i as int),
        decreases s@.len() - i,
    {
        out.push(s[i]);
        assert(out@ =~= before + s@.subrange(0, i + 1));
        i += 1;
    }
    assert(s@.subrange(0, s@.len() as int) =~= s@);
}

/// The value that the arguments give for `name`, if they give one.
pub fn find_arg<'a>(args: &'a [ShaderArg], name: &[u8]) -> (found: Option<&'a Vec<u8>>)
    ensures
        match found {
            Some(value) => value_of(args_view(args@), name@, args@.len()) == Some(value@),
            None => value_of(args_view(args@), name@, args@.len()) is None,
        },
{
    let mut k: usize = args.len();
    while k > 0
        invariant
            k <= args@.len(),
            value_of(args_view(args@), name@, args@.len()) == value_of(
                args_view(args@),
                name@,
                k as nat,
            ),
        decreases k,
    {
        if same_bytes(args[k - 1].0.as_slice(), name) {
            return Some(&args[k - 1].1);
        }
        k -= 1;
    }
    None
}

/// Appends `line` to `out` with its argument replaced, and reports whether
/// the arguments had a value for it. Nothing is appended if they had none.
pub fn push_line(out: &mut Vec<u8>, line: &[u8], args: &[ShaderArg]) -> (done: bool)
    ensures
        match line_result(line@, args_view(args@)) {
            Some(result) => done && final(out)@ == old(out)@ + result,
            None => !done && final(out)@ == old(out)@,
        },
{
    let ghost before = out@;
    let mut i: usize = 0;
    next_non_ws(&mut i, line);
    if i < line.len() && line[i] == 0x23 {
        next_of_char(&mut i, 0x24, line);
        if i < line.len() {
            let start = i;
            next_ws(&mut i, line);
            let end = i;
            match find_arg(args, slice_subrange(line, start, end)) {
                Some(value) => {
                    push_bytes(out, slice_subrange(line, 0, start));
                    push_bytes(out, value.as_slice());
                    push_bytes(out, slice_subrange(line, end, line.len()));
                    proof {
                        assert(out@ =~= before + (line@.subrange(0, start as int) + value@
                            + line@.subrange(end as int, line@.len() as int)));
                    }
                    true
                },
                None => false,
            }
        } else {
            push_bytes(out, line);
            true
        }
    } else {
        push_bytes(out, line);
        true
    }
}

/// Puts the arguments into shader source, or returns `None` if the source
/// names an argument for which `args` has no value.
pub fn try_insert_shader_args(shader: &[u8], args: &[ShaderArg]) -> (out: Option<Vec<u8>>)
    ensures
        match out {
            Some(text) => shader_result(shader@, args_view(args@)) == Some(text@),
            None => shader_result(shader@, args_view(args@)) is None,
        },
{
    let mut out: Vec<u8> = Vec::new();
    if args.len() == 0 {
        push_bytes(&mut out, shader);
        assert(out@ =~= shader@);
        return Some(out);
    }
    let ghost all = args_view(args@);
    let mut from: usize = 0;
    loop
        invariant
            from <= shader@.len(),
            args@.len() > 0,
            all == args_view(args@),
            lines_result(shader@, all, 0) == match lines_result(shader@, all, from as int) {
                Some(rest) => Some(out@ + rest),
                None => None,
            },
        decreases shader@.len() - from,
    {
        let ghost done = out@;
        let mut end = from;
        next_of_char(&mut end, 0x0a, shader);
        if !push_line(&mut out, slice_subrange(shader, from, end), args) {
            return None;
        }
        out.push(0x0a);
        proof {
            let line = line_result(shader@.subrange(from as int, end as int), all)->0;
            assert(out@ =~= done + line.push(0x0a));
            if end < shader@.len() {
                match lines_result(shader@, all, end + 1) {
                    Some(rest) => {
                        assert(done + (line.push(0x0a) + rest) =~= out@ + rest);
                    },
                    None => {},
                }
            }
        }
        if end >= shader.len() {
            return Some(out);
        }
        from = end + 1;
    }
}

/// Puts the arguments into shader source. Every argument that the source
/// names must have a value.
pub fn insert_shader_args(shader: &[u8], args: &[ShaderArg]) -> (out: Vec<u8>)
    requires
        shader_result(shader@, args_view(args@)) is Some,
    ensures
        Some(out@) == shader_result(shader@, args_view(args@)),
{
    match try_insert_shader_args(shader, args) {
        Some(out) => out,
        None => vstd::pervasive::unreached(),
    }
}

} // verus!
