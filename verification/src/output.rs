use vstd::prelude::*;
use vstd::string::StringSliceAdditionalSpecFns;

use crate::reader::{lemma_lines_rejoin, spec_split_lines, terminate_all, CR, LF};

verus! {

/// The bytes that separate a filename prefix from the line.
pub open spec fn separator() -> Seq<u8> {
    seq![0x3au8, 0x20u8]
}

/// One output line: optionally the path and `": "`, then the line, then a
/// line feed.
pub open spec fn framed_line(path: Seq<u8>, line: Seq<u8>, prefix: bool) -> Seq<u8> {
    (if prefix {
        path + separator()
    } else {
        Seq::<u8>::empty()
    }) + line + seq![LF]
}

/// The output for a sequence of lines, one framed line after another.
pub open spec fn framed_lines(path: Seq<u8>, lines: Seq<Seq<u8>>, prefix: bool) -> Seq<u8>
    decreases lines.len(),
{
    if lines.len() == 0 {
        Seq::<u8>::empty()
    } else {
        framed_lines(path, lines.drop_last(), prefix) + framed_line(path, lines.last(), prefix)
    }
}

/// A line read from a followed file, on its way to the output.
#[derive(Debug, Clone)]
pub struct OutputLine {
    /// The path shown in the filename prefix.
    pub display_path: String,
    /// The line's bytes, without its line feed.
    pub line: Vec<u8>,
}

fn push_bytes(out: &mut Vec<u8>, bytes: &[u8])
    ensures
        final(out)@ == old(out)@ + bytes@,
{
    let mut i: usize = 0;
    while i < bytes.len()
        invariant
            i <= bytes@.len(),
            out@ == old(out)@ + bytes@.take(i as int),
        decreases bytes@.len() - i,
    {
        out.push(bytes[i]);
        assert(bytes@.take(i + 1) =~= bytes@.take(i as int).push(bytes@[i as int]));
        i = i + 1;
    }
    assert(bytes@.take(bytes@.len() as int) =~= bytes@);
}

/// The filename prefix of an output line: the path and `": "`.
pub fn prefix_bytes(display_path: &str) -> (r: Vec<u8>)
    ensures
        r@ == display_path.spec_bytes() + separator(),
{
    let mut r: Vec<u8> = Vec::new();
    push_bytes(&mut r, display_path.as_bytes());
    r.push(0x3a);
    r.push(0x20);
    assert(r@ =~= display_path.spec_bytes() + separator());
    r
}

/// Print lines to the output, optionally prefixing each line with the filename.
///
/// Each line is written as raw bytes followed by a newline.
pub fn print_lines(out: &mut Vec<u8>, display_path: &str, lines: &[Vec<u8>], prefix: bool)
    ensures
        final(out)@ == old(out)@ + framed_lines(display_path.spec_bytes(), lines.deep_view(), prefix),
{
    let path = display_path.as_bytes();
    let mut i: usize = 0;
    while i < lines.len()
        invariant
            i <= lines@.len(),
            path@ == display_path.spec_bytes(),
            out@ == old(out)@ + framed_lines(path@, lines.deep_view().take(i as int), prefix),
        decreases lines@.len() - i,
    {
        let ghost before = out@;
        if prefix {
            push_bytes(out, path);
            out.push(0x3a);
            out.push(0x20);
        }
        push_bytes(out, lines[i].as_slice());
        out.push(LF);
        proof {
            let done = lines.deep_view().take(i as int);
            let next = lines.deep_view().take(i + 1);
            assert(next.drop_last() =~= done);
            assert(next.last() == lines@[i as int]@);
            assert(out@ =~= before + framed_line(path@, lines@[i as int]@, prefix));
        }
        i = i + 1;
    }
    assert(lines.deep_view().take(lines@.len() as int) =~= lines.deep_view());
}

/// How output lines look: whether they carry the filename prefix, and
/// whether that prefix is colored.
#[derive(Debug, Clone, Copy, PartialEq, Eq, Structural)]
pub struct OutputStyle {
    pub prefix: bool,
    pub color: bool,
}

/// The style of a run: `--no-filename` suppresses the prefix, `--filename`
/// forces it, and otherwise `auto` decides; the prefix is colored only on a
/// terminal.
pub open spec fn spec_style(no_filename: bool, show_filename: bool, auto: bool, is_tty: bool) -> OutputStyle {
    let prefix = if no_filename {
        false
    } else if show_filename {
        true
    } else {
        auto
    };
    OutputStyle { prefix, color: is_tty && prefix }
}

/// Output style of a one-shot run over `file_count` files: without a flag,
/// the prefix shows only on a terminal and when more than one file matched.
pub fn one_shot_style(no_filename: bool, show_filename: bool, is_tty: bool, file_count: usize) -> (r: OutputStyle)
    ensures
        r == spec_style(no_filename, show_filename, is_tty && file_count > 1, is_tty),
{
    let prefix = if no_filename {
        false
    } else if show_filename {
        true
    } else {
        is_tty && file_count > 1
    };
    OutputStyle { prefix, color: is_tty && prefix }
}

/// Output style of a follow run: without a flag, the prefix shows on a
/// terminal.
pub fn follow_style(no_filename: bool, show_filename: bool, is_tty: bool) -> (r: OutputStyle)
    ensures
        r == spec_style(no_filename, show_filename, is_tty, is_tty),
{
    let prefix = if no_filename {
        false
    } else if show_filename {
        true
    } else {
        is_tty
    };
    OutputStyle { prefix, color: is_tty && prefix }
}

proof fn lemma_unprefixed_is_terminated(path: Seq<u8>, lines: Seq<Seq<u8>>)
    ensures
        framed_lines(path, lines, false) == terminate_all(lines),
    decreases lines.len(),
{
    if lines.len() > 0 {
        lemma_unprefixed_is_terminated(path, lines.drop_last());
        assert(framed_line(path, lines.last(), false) =~= lines.last() + seq![LF]);
        assert(framed_lines(path, lines, false) =~= terminate_all(lines));
    }
}

/// Printing the lines of a text without filename prefixes gives the text
/// back, with a final line feed added when it lacks one (for text without
/// carriage returns, which the split removes at line ends).
pub proof fn lemma_print_reproduces_text(path: Seq<u8>, data: Seq<u8>)
    requires
        !data.contains(CR),
    ensures
        framed_lines(path, spec_split_lines(data), false) == (if data.len() == 0 || data.last() == LF {
            data
        } else {
            data.push(LF)
        }),
{
    lemma_unprefixed_is_terminated(path, spec_split_lines(data));
    lemma_lines_rejoin(data);
}

/// Colors appear only on a terminal and only with the prefix;
/// `--no-filename` always removes the prefix, and `--filename` without it
/// always shows it.
pub proof fn lemma_style_rules(no_filename: bool, show_filename: bool, auto: bool, is_tty: bool)
    ensures
        spec_style(no_filename, show_filename, auto, is_tty).color ==> spec_style(
            no_filename,
            show_filename,
            auto,
            is_tty,
        ).prefix && is_tty,
        no_filename ==> !spec_style(no_filename, show_filename, auto, is_tty).prefix,
        show_filename && !no_filename ==> spec_style(no_filename, show_filename, auto, is_tty).prefix,
{
}

} // verus!
