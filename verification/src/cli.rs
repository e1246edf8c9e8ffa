//! The interactive command shell: a fixed-capacity line editor whose logical
//! insertion index stays synchronized with the wrapping screen position, and
//! a command dispatcher over the filesystem tree and the display surface.

use vstd::prelude::*;

use crate::bytes_eq;
use crate::ramfs;
use crate::ramfs::{fs_lookup, fs_insert, fs_delete, resolve_spec, split_spec, FsNode, Node};
use crate::ramfs::names_of;
use crate::vga_buffer::{
    blank_char, row_of, spec_cleared, spec_write_byte, spec_write_string, BUFFER_HEIGHT,
    BUFFER_WIDTH, Color, ScreenState, Writer, NEWLINE,
};
use vstd::string::StringSliceAdditionalSpecFns;

verus! {

/// Size of the input buffer; one slot is a reserved boundary, so 127 bytes
/// are usable.
pub const BUFFER_SIZE: usize = 128;

/// The backspace byte.
pub const BACKSPACE: u8 = 8;

/// A delivered keystroke: a printable/control character, or a named special
/// key.  Unrecognized key codes are dropped before they reach the shell.
pub enum Key {
    Character(u8),
    ArrowLeft,
    ArrowRight,
}

/// What the surrounding system is asked to do after a command: nothing,
/// power the machine off, or reset it.
#[derive(Clone, Copy, PartialEq, Eq, Structural, Debug)]
pub enum SysRequest {
    Proceed,
    PowerOff,
    Reboot,
}

/// The mathematical model of the shell session state.
#[verifier::ext_equal]
pub struct CliState {
    pub buffer: Seq<u8>,
    pub buffer_index: int,
    pub cursor_index: int,
    pub active: bool,
    pub prompt_row: int,
    pub current_dir: Seq<u8>,
}

impl CliState {
    /// The buffer has its fixed capacity and the indices sit inside it:
    /// `0 <= cursor_index <= buffer_index <= capacity - 1`.
    pub open spec fn wf(self) -> bool {
        &&& self.buffer.len() == BUFFER_SIZE
        &&& 0 <= self.cursor_index <= self.buffer_index
        &&& self.buffer_index < BUFFER_SIZE
        &&& 0 <= self.prompt_row < BUFFER_HEIGHT
    }

    /// The filled prefix of the buffer: the pending input line.
    pub open spec fn content(self) -> Seq<u8> {
        self.buffer.take(self.buffer_index)
    }
}

// ---------------------------------------------------------------------------
// Line parsing: specification and lemmas.
// ---------------------------------------------------------------------------

/// Whitespace as the line trim sees it.
pub open spec fn is_space(b: u8) -> bool {
    b == 32 || b == 9 || b == 13 || b == 10
}

/// The line with surrounding whitespace removed.
pub open spec fn trim_spec(s: Seq<u8>) -> Seq<u8>
    decreases s.len(),
{
    if s.len() == 0 {
        s
    } else if is_space(s[0]) {
        trim_spec(s.drop_first())
    } else if is_space(s.last()) {
        trim_spec(s.drop_last())
    } else {
        s
    }
}

/// Index of the first space, or the length if none.
pub open spec fn first_space(s: Seq<u8>) -> int
    decreases s.len(),
{
    if s.len() == 0 {
        0
    } else if s[0] == 32 {
        0
    } else {
        1 + first_space(s.drop_first())
    }
}

/// The command part of a trimmed line: everything before the first space.
pub open spec fn cmd_of(line: Seq<u8>) -> Seq<u8> {
    line.take(first_space(line))
}

/// The argument part of a trimmed line: everything after the first space,
/// empty if there is none.
pub open spec fn args_of(line: Seq<u8>) -> Seq<u8> {
    if first_space(line) < line.len() {
        line.skip(first_space(line) + 1)
    } else {
        Seq::empty()
    }
}

proof fn lemma_first_space(s: Seq<u8>)
    ensures
        0 <= first_space(s) <= s.len(),
        first_space(s) < s.len() ==> s[first_space(s)] == 32,
        forall|j: int| 0 <= j < first_space(s) ==> s[j] != 32,
    decreases s.len(),
{
    if s.len() > 0 && s[0] != 32 {
        let d = s.drop_first();
        lemma_first_space(d);
        assert(forall|j: int| 0 <= j < d.len() ==> d[j] == s[j + 1]);
        assert forall|j: int| 0 <= j < first_space(s) implies s[j] != 32 by {
            if j > 0 {
                assert(d[j - 1] != 32);
            }
        }
    }
}

proof fn lemma_first_space_is(s: Seq<u8>, k: int)
    requires
        0 <= k <= s.len(),
        forall|j: int| 0 <= j < k ==> s[j] != 32,
        k == s.len() || s[k] == 32,
    ensures
        first_space(s) == k,
    decreases k,
{
    if k > 0 {
        let d = s.drop_first();
        assert(forall|j: int| 0 <= j < d.len() ==> d[j] == s[j + 1]);
        lemma_first_space_is(d, k - 1);
    }
}

proof fn lemma_trim_is(s: Seq<u8>, lo: int, hi: int)
    requires
        0 <= lo <= hi <= s.len(),
        forall|j: int| 0 <= j < lo ==> is_space(s[j]),
        forall|j: int| hi <= j < s.len() ==> is_space(s[j]),
        lo < hi ==> !is_space(s[lo]) && !is_space(s[hi - 1]),
    ensures
        trim_spec(s) == s.subrange(lo, hi),
    decreases s.len(),
{
    if s.len() == 0 {
        assert(trim_spec(s) =~= s.subrange(lo, hi));
    } else if is_space(s[0]) {
        let d = s.drop_first();
        assert(forall|j: int| 0 <= j < d.len() ==> d[j] == s[j + 1]);
        if lo == hi {
            lemma_trim_is(d, 0, 0);
            assert(trim_spec(s) =~= s.subrange(lo, hi));
        } else {
            assert(lo >= 1);
            lemma_trim_is(d, lo - 1, hi - 1);
            assert(d.subrange(lo - 1, hi - 1) =~= s.subrange(lo, hi));
        }
    } else if is_space(s.last()) {
        let d = s.drop_last();
        assert(forall|j: int| 0 <= j < d.len() ==> d[j] == s[j]);
        assert(lo == 0);
        assert(hi < s.len());
        if lo == hi {
            assert(is_space(s[0]));
            assert(false);
        }
        lemma_trim_is(d, lo, hi);
        assert(d.subrange(lo, hi) =~= s.subrange(lo, hi));
    } else {
        assert(lo == 0);
        assert(hi == s.len());
        assert(trim_spec(s) =~= s.subrange(lo, hi));
    }
}

// ---------------------------------------------------------------------------
// Line parsing: executable side.
// ---------------------------------------------------------------------------

/// Whether a line decodes in the fixed single-byte character set.
fn is_text(line: &[u8]) -> (r: bool)
    ensures
        r == text_ok(line@),
{
    let mut i: usize = 0;
    while i < line.len()
        invariant
            i <= line@.len(),
            forall|j: int| 0 <= j < i ==> line@[j] < 128,
        decreases line@.len() - i,
    {
        if line[i] >= 128 {
            return false;
        }
        i += 1;
    }
    true
}

/// Whether a byte is whitespace to the line trim.
fn is_space_byte(b: u8) -> (r: bool)
    ensures
        r == is_space(b),
{
    b == 32 || b == 9 || b == 13 || b == 10
}

/// Trim surrounding whitespace and split at the first space into the command
/// name and the argument string (which may be empty).
fn parse_line(line: &[u8]) -> (r: (Vec<u8>, Vec<u8>))
    ensures
        r.0@ == cmd_of(trim_spec(line@)),
        r.1@ == args_of(trim_spec(line@)),
{
    let mut lo: usize = 0;
    while lo < line.len() && is_space_byte(line[lo])
        invariant
            lo <= line@.len(),
            forall|j: int| 0 <= j < lo ==> is_space(line@[j]),
        decreases line@.len() - lo,
    {
        lo += 1;
    }
    let mut hi: usize = line.len();
    while hi > lo && is_space_byte(line[hi - 1])
        invariant
            lo <= hi <= line@.len(),
            forall|j: int| 0 <= j < lo ==> is_space(line@[j]),
            forall|j: int| hi <= j < line@.len() ==> is_space(line@[j]),
        decreases hi,
    {
        hi -= 1;
    }
    proof {
        lemma_trim_is(line@, lo as int, hi as int);
    }
    let ghost trimmed = trim_spec(line@);
    let mut sp: usize = lo;
    while sp < hi && line[sp] != 32
        invariant
            lo <= sp <= hi <= line@.len(),
            forall|j: int| lo <= j < sp ==> line@[j] != 32,
            trimmed == line@.subrange(lo as int, hi as int),
        decreases hi - sp,
    {
        sp += 1;
    }
    proof {
        assert(forall|j: int| 0 <= j < sp - lo ==> trimmed[j] == line@[j + lo]);
        lemma_first_space_is(trimmed, sp - lo);
    }
    let mut cmd: Vec<u8> = Vec::new();
    let mut i: usize = lo;
    while i < sp
        invariant
            lo <= i <= sp <= line@.len(),
            cmd@ == line@.subrange(lo as int, i as int),
        decreases sp - i,
    {
        cmd.push(line[i]);
        assert(line@.subrange(lo as int, i + 1 as int)
            =~= line@.subrange(lo as int, i as int).push(line@[i as int]));
        i += 1;
    }
    let mut args: Vec<u8> = Vec::new();
    let astart = if sp < hi {
        sp + 1
    } else {
        hi
    };
    let mut j: usize = astart;
    while j < hi
        invariant
            astart <= j <= hi <= line@.len(),
            args@ == line@.subrange(astart as int, j as int),
        decreases hi - j,
    {
        args.push(line[j]);
        assert(line@.subrange(astart as int, j + 1 as int)
            =~= line@.subrange(astart as int, j as int).push(line@[j as int]));
        j += 1;
    }
    proof {
        assert(cmd@ =~= cmd_of(trimmed));
        if sp < hi {
            assert(args@ =~= args_of(trimmed));
        } else {
            assert(args@ =~= args_of(trimmed));
        }
    }
    (cmd, args)
}

// ---------------------------------------------------------------------------
// Color names.
// ---------------------------------------------------------------------------

/// The name of a color, as `setfg`, `setbg` and `listcolors` spell it.
pub open spec fn color_name_spec(c: Color) -> Seq<u8> {
    match c {
        Color::Black => "black".spec_bytes(),
        Color::Blue => "blue".spec_bytes(),
        Color::Green => "green".spec_bytes(),
        Color::Cyan => "cyan".spec_bytes(),
        Color::Red => "red".spec_bytes(),
        Color::Magenta => "magenta".spec_bytes(),
        Color::Brown => "brown".spec_bytes(),
        Color::LightGray => "lightgray".spec_bytes(),
        Color::DarkGray => "darkgray".spec_bytes(),
        Color::LightBlue => "lightblue".spec_bytes(),
        Color::LightGreen => "lightgreen".spec_bytes(),
        Color::LightCyan => "lightcyan".spec_bytes(),
        Color::LightRed => "lightred".spec_bytes(),
        Color::Pink => "pink".spec_bytes(),
        Color::Yellow => "yellow".spec_bytes(),
        Color::White => "white".spec_bytes(),
    }
}

/// Resolve a color name against the fixed enumeration.
fn color_by_name(name: &[u8]) -> (r: Option<Color>)
    ensures
        ({
            match r {
                Some(c) => name@ == color_name_spec(c),
                None => !(exists|c: Color| name@ == color_name_spec(c)),
            }
        }),
{
    if bytes_eq(name, "black".as_bytes()) {
        Some(Color::Black)
    } else if bytes_eq(name, "blue".as_bytes()) {
        Some(Color::Blue)
    } else if bytes_eq(name, "green".as_bytes()) {
        Some(Color::Green)
    } else if bytes_eq(name, "cyan".as_bytes()) {
        Some(Color::Cyan)
    } else if bytes_eq(name, "red".as_bytes()) {
        Some(Color::Red)
    } else if bytes_eq(name, "magenta".as_bytes()) {
        Some(Color::Magenta)
    } else if bytes_eq(name, "brown".as_bytes()) {
        Some(Color::Brown)
    } else if bytes_eq(name, "lightgray".as_bytes()) {
        Some(Color::LightGray)
    } else if bytes_eq(name, "darkgray".as_bytes()) {
        Some(Color::DarkGray)
    } else if bytes_eq(name, "lightblue".as_bytes()) {
        Some(Color::LightBlue)
    } else if bytes_eq(name, "lightgreen".as_bytes()) {
        Some(Color::LightGreen)
    } else if bytes_eq(name, "lightcyan".as_bytes()) {
        Some(Color::LightCyan)
    } else if bytes_eq(name, "lightred".as_bytes()) {
        Some(Color::LightRed)
    } else if bytes_eq(name, "pink".as_bytes()) {
        Some(Color::Pink)
    } else if bytes_eq(name, "yellow".as_bytes()) {
        Some(Color::Yellow)
    } else if bytes_eq(name, "white".as_bytes()) {
        Some(Color::White)
    } else {
        proof {
            assert forall|c: Color| name@ != color_name_spec(c) by {
                match c {
                    Color::Black => {},
                    Color::Blue => {},
                    Color::Green => {},
                    Color::Cyan => {},
                    Color::Red => {},
                    Color::Magenta => {},
                    Color::Brown => {},
                    Color::LightGray => {},
                    Color::DarkGray => {},
                    Color::LightBlue => {},
                    Color::LightGreen => {},
                    Color::LightCyan => {},
                    Color::LightRed => {},
                    Color::Pink => {},
                    Color::Yellow => {},
                    Color::White => {},
                }
            }
        }
        None
    }
}

// ---------------------------------------------------------------------------
// The shell.
// ---------------------------------------------------------------------------

/// An all-zero input buffer.
pub open spec fn zero_buffer() -> Seq<u8> {
    Seq::new(BUFFER_SIZE as nat, |i: int| 0u8)
}

/// The state of a freshly constructed shell: inactive, empty buffer, root as
/// working directory.
pub open spec fn initial_cli() -> CliState {
    CliState {
        buffer: zero_buffer(),
        buffer_index: 0,
        cursor_index: 0,
        active: false,
        prompt_row: 0,
        current_dir: seq![ramfs::SEP],
    }
}

/// Insertion at the cursor: everything from the cursor on shifts one right,
/// both indices advance; a full buffer drops the keystroke silently.
pub open spec fn inserted(pre: CliState, post: CliState, b: u8) -> bool {
    if pre.buffer_index + 1 < BUFFER_SIZE {
        &&& post.buffer_index == pre.buffer_index + 1
        &&& post.cursor_index == pre.cursor_index + 1
        &&& post.content() == pre.content().insert(pre.cursor_index, b)
        &&& post.active == pre.active
        &&& post.prompt_row == pre.prompt_row
        &&& post.current_dir == pre.current_dir
    } else {
        post == pre
    }
}

/// Backspace: everything from the cursor on shifts one left, both indices
/// step back; a no-op at the line start.
pub open spec fn backspaced(pre: CliState, post: CliState) -> bool {
    if pre.cursor_index > 0 {
        &&& post.buffer_index == pre.buffer_index - 1
        &&& post.cursor_index == pre.cursor_index - 1
        &&& post.content() == pre.content().remove(pre.cursor_index - 1)
        &&& post.buffer[post.buffer_index] == 0
        &&& post.active == pre.active
        &&& post.prompt_row == pre.prompt_row
        &&& post.current_dir == pre.current_dir
    } else {
        post == pre
    }
}

/// A cursor step by `delta`, clamped to `[0, buffer_index]`; the buffer is
/// untouched.
pub open spec fn cursor_moved(pre: CliState, post: CliState, delta: int) -> bool {
    let c = pre.cursor_index + delta;
    let clamped: int = if c < 0 {
        0
    } else if c > pre.buffer_index {
        pre.buffer_index
    } else {
        c
    };
    post == (CliState { cursor_index: clamped, ..pre })
}

/// Decodable input: the fixed single-byte character set covers one byte per
/// character, so a line decodes exactly when every byte is in the seven-bit
/// range.
pub open spec fn text_ok(s: Seq<u8>) -> bool {
    forall|i: int| 0 <= i < s.len() ==> s[i] < 128
}

/// Shell state outside the buffer is untouched.
pub open spec fn keeps_shell(pre: CliState, post: CliState) -> bool {
    &&& post.active == pre.active
    &&& post.current_dir == pre.current_dir
}

/// A command that touches neither the tree nor the shell's dispatch state
/// and asks the system for nothing.
pub open spec fn shell_only(
    pre: CliState,
    post: CliState,
    t0: FsNode,
    t1: FsNode,
    r: SysRequest,
) -> bool {
    &&& keeps_shell(pre, post)
    &&& t1 == t0
    &&& r == SysRequest::Proceed
}

/// How every command ends: the prompt is re-emitted over the command's own
/// output, and the screen row it begins on is recorded as the prompt row.
pub open spec fn finishes(post: CliState, wb: ScreenState, w1: ScreenState) -> bool {
    &&& w1 == spec_prompt_shown(post.current_dir, wb)
    &&& post.prompt_row == wb.row
}

/// A name per line, in order.
pub open spec fn spec_write_names(w: ScreenState, names: Seq<Seq<u8>>) -> ScreenState
    decreases names.len(),
{
    if names.len() == 0 {
        w
    } else {
        spec_write_names(
            spec_write_byte(spec_write_string(w, names[0]), NEWLINE),
            names.drop_first(),
        )
    }
}

/// What `ls` prints: the child names of the target directory (the working
/// directory itself when no argument is given), or a diagnostic.
pub open spec fn ls_output(w: ScreenState, t0: FsNode, cwd: Seq<u8>, args: Seq<u8>) -> ScreenState {
    let target: Seq<u8> = if args.len() == 0 {
        ".".spec_bytes()
    } else {
        args
    };
    match fs_lookup(t0, split_spec(resolve_spec(cwd, target))) {
        Some(FsNode::Dir { children, .. }) => spec_write_names(w, names_of(children)),
        _ => spec_write_string(w, "Not found.\n".spec_bytes()),
    }
}

/// What `cd` prints: nothing on success, a diagnostic otherwise.
pub open spec fn cd_output(w: ScreenState, t0: FsNode, cwd: Seq<u8>, args: Seq<u8>) -> ScreenState {
    match fs_lookup(t0, split_spec(resolve_spec(cwd, args))) {
        Some(t) => if t is Dir {
            w
        } else {
            spec_write_string(w, "Directory not found.\n".spec_bytes())
        },
        None => spec_write_string(w, "Directory not found.\n".spec_bytes()),
    }
}

/// What `readfile` prints: the file's bytes and a newline, or a diagnostic.
pub open spec fn readfile_output(
    w: ScreenState,
    t0: FsNode,
    cwd: Seq<u8>,
    args: Seq<u8>,
) -> ScreenState {
    match fs_lookup(t0, split_spec(resolve_spec(cwd, args))) {
        Some(FsNode::File { data, .. }) => spec_write_byte(spec_write_string(w, data), NEWLINE),
        _ => spec_write_string(w, "File not found.\n".spec_bytes()),
    }
}

/// Whether `mkdir <args>` succeeds.
pub open spec fn mkdir_ok(t0: FsNode, cwd: Seq<u8>, args: Seq<u8>) -> bool {
    let parts = split_spec(resolve_spec(cwd, args));
    parts.len() > 0 && fs_insert(
        t0,
        parts.drop_last(),
        FsNode::Dir { name: parts.last(), children: Seq::empty() },
    ) is Some
}

/// Whether `mkfile <args>` succeeds.
pub open spec fn mkfile_ok(t0: FsNode, cwd: Seq<u8>, args: Seq<u8>) -> bool {
    let parts = split_spec(resolve_spec(cwd, args));
    parts.len() > 0 && fs_insert(
        t0,
        parts.drop_last(),
        FsNode::File { name: parts.last(), data: Seq::empty() },
    ) is Some
}

/// Whether `rem <args>` removes anything.
pub open spec fn rem_ok(t0: FsNode, cwd: Seq<u8>, args: Seq<u8>) -> bool {
    let parts = split_spec(resolve_spec(cwd, args));
    parts.len() > 0 && fs_delete(t0, parts.drop_last(), parts.last()) is Some
}

/// What `info <topic>` prints: one help line per command name, a general
/// hint for an empty or unrecognized topic, branch by branch in dispatch
/// order.
pub open spec fn info_output(w: ScreenState, topic: Seq<u8>) -> ScreenState {
    if topic == "ls".spec_bytes() {
        spec_write_string(w, "ls [path]: list a directory.\n".spec_bytes())
    } else if topic == "cd".spec_bytes() {
        spec_write_string(w, "cd <path>: change the working directory.\n".spec_bytes())
    } else if topic == "mkdir".spec_bytes() {
        spec_write_string(w, "mkdir <path>: create a directory.\n".spec_bytes())
    } else if topic == "mkfile".spec_bytes() {
        spec_write_string(w, "mkfile <path>: create an empty file.\n".spec_bytes())
    } else if topic == "rem".spec_bytes() {
        spec_write_string(w, "rem <path>: remove a file or directory.\n".spec_bytes())
    } else if topic == "readfile".spec_bytes() {
        spec_write_string(w, "readfile <path>: print a file.\n".spec_bytes())
    } else if topic == "setfg".spec_bytes() {
        spec_write_string(w, "setfg <color>: set the text color.\n".spec_bytes())
    } else if topic == "setbg".spec_bytes() {
        spec_write_string(w, "setbg <color>: set the background color.\n".spec_bytes())
    } else if topic == "listcolors".spec_bytes() {
        spec_write_string(w, "listcolors: name every color.\n".spec_bytes())
    } else if topic == "scream".spec_bytes() {
        spec_write_string(w, "scream <text>: echo the text.\n".spec_bytes())
    } else if topic == "yeet".spec_bytes() {
        spec_write_string(w, "yeet: clear the screen.\n".spec_bytes())
    } else if topic == "banner".spec_bytes() {
        spec_write_string(w, "banner: show the boot banner.\n".spec_bytes())
    } else if topic == "whyver".spec_bytes() {
        spec_write_string(w, "whyver: show the version.\n".spec_bytes())
    } else if topic == "hello".spec_bytes() {
        spec_write_string(w, "hello: a friendly greeting.\n".spec_bytes())
    } else if topic == "bye".spec_bytes() {
        spec_write_string(w, "bye: power the machine off.\n".spec_bytes())
    } else if topic == "oops".spec_bytes() {
        spec_write_string(w, "oops: reboot the machine.\n".spec_bytes())
    } else {
        spec_write_string(w, "Try: info <command>.\n".spec_bytes())
    }
}

/// Where `cd` leaves the working directory: the resolved path when it names
/// an existing directory, the old one otherwise.
pub open spec fn cd_target(cwd: Seq<u8>, args: Seq<u8>, t0: FsNode) -> Seq<u8> {
    let path = resolve_spec(cwd, args);
    match fs_lookup(t0, split_spec(path)) {
        Some(t) => if t is Dir {
            path
        } else {
            cwd
        },
        None => cwd,
    }
}

/// The tree after `mkdir <args>`: unchanged whenever the insert fails.
pub open spec fn mkdir_result(t0: FsNode, cwd: Seq<u8>, args: Seq<u8>) -> FsNode {
    let parts = split_spec(resolve_spec(cwd, args));
    if parts.len() == 0 {
        t0
    } else {
        match fs_insert(
            t0,
            parts.drop_last(),
            FsNode::Dir { name: parts.last(), children: Seq::empty() },
        ) {
            Some(t) => t,
            None => t0,
        }
    }
}

/// The tree after `mkfile <args>`: a fresh empty file, unchanged whenever
/// the insert fails.
pub open spec fn mkfile_result(t0: FsNode, cwd: Seq<u8>, args: Seq<u8>) -> FsNode {
    let parts = split_spec(resolve_spec(cwd, args));
    if parts.len() == 0 {
        t0
    } else {
        match fs_insert(
            t0,
            parts.drop_last(),
            FsNode::File { name: parts.last(), data: Seq::empty() },
        ) {
            Some(t) => t,
            None => t0,
        }
    }
}

/// The tree after `rem <args>`: unchanged whenever the removal fails.
pub open spec fn rem_result(t0: FsNode, cwd: Seq<u8>, args: Seq<u8>) -> FsNode {
    let parts = split_spec(resolve_spec(cwd, args));
    if parts.len() == 0 {
        t0
    } else {
        match fs_delete(t0, parts.drop_last(), parts.last()) {
            Some(t) => t,
            None => t0,
        }
    }
}

/// What executing the pending line does, branch by branch in dispatch
/// order.  The buffer is cleared, a newline is written, the command's own
/// output follows it, and the prompt is re-emitted at the new screen row
/// (`finishes`).  Only `mkdir`, `mkfile` and `rem` change the tree; only
/// `cd` moves the working directory; only `setfg`/`setbg` change the color
/// pair (wiping the screen in the new pair); `bye` asks for power-off and
/// goes inactive, `oops` asks for a reset.  A line that does not decode is
/// treated as an empty command line: no dispatch and no diagnostic.
pub open spec fn command_effects(
    pre: CliState,
    post: CliState,
    t0: FsNode,
    t1: FsNode,
    w0: ScreenState,
    w1: ScreenState,
    r: SysRequest,
) -> bool {
    let raw = pre.content();
    let line: Seq<u8> = if text_ok(raw) {
        trim_spec(raw)
    } else {
        Seq::empty()
    };
    let cmd = cmd_of(line);
    let args = args_of(line);
    let wa = spec_write_byte(w0, NEWLINE);
    &&& post.buffer == zero_buffer()
    &&& post.buffer_index == 0
    &&& post.cursor_index == 0
    &&& if cmd == "hello".spec_bytes() {
        &&& shell_only(pre, post, t0, t1, r)
        &&& finishes(post, spec_write_string(wa, "Hello World!\n".spec_bytes()), w1)
    } else if cmd == "yeet".spec_bytes() {
        &&& shell_only(pre, post, t0, t1, r)
        &&& finishes(post, spec_cleared(wa.fg, wa.bg), w1)
    } else if cmd == "scream".spec_bytes() {
        &&& shell_only(pre, post, t0, t1, r)
        &&& finishes(post, spec_write_byte(spec_write_string(wa, args), NEWLINE), w1)
    } else if cmd == "ls".spec_bytes() {
        &&& shell_only(pre, post, t0, t1, r)
        &&& finishes(post, ls_output(wa, t0, pre.current_dir, args), w1)
    } else if cmd == "cd".spec_bytes() {
        &&& t1 == t0
        &&& post.active == pre.active
        &&& r == SysRequest::Proceed
        &&& post.current_dir == cd_target(pre.current_dir, args, t0)
        &&& finishes(post, cd_output(wa, t0, pre.current_dir, args), w1)
    } else if cmd == "mkdir".spec_bytes() {
        &&& keeps_shell(pre, post)
        &&& r == SysRequest::Proceed
        &&& t1 == mkdir_result(t0, pre.current_dir, args)
        &&& finishes(
            post,
            if mkdir_ok(t0, pre.current_dir, args) {
                wa
            } else {
                spec_write_string(wa, "Invalid path.\n".spec_bytes())
            },
            w1,
        )
    } else if cmd == "mkfile".spec_bytes() {
        &&& keeps_shell(pre, post)
        &&& r == SysRequest::Proceed
        &&& t1 == mkfile_result(t0, pre.current_dir, args)
        &&& finishes(
            post,
            if mkfile_ok(t0, pre.current_dir, args) {
                wa
            } else {
                spec_write_string(wa, "Invalid path.\n".spec_bytes())
            },
            w1,
        )
    } else if cmd == "rem".spec_bytes() {
        &&& keeps_shell(pre, post)
        &&& r == SysRequest::Proceed
        &&& t1 == rem_result(t0, pre.current_dir, args)
        &&& finishes(
            post,
            if rem_ok(t0, pre.current_dir, args) {
                wa
            } else {
                spec_write_string(wa, "Nothing removed.\n".spec_bytes())
            },
            w1,
        )
    } else if cmd == "readfile".spec_bytes() {
        &&& shell_only(pre, post, t0, t1, r)
        &&& finishes(post, readfile_output(wa, t0, pre.current_dir, args), w1)
    } else if cmd == "setfg".spec_bytes() {
        &&& shell_only(pre, post, t0, t1, r)
        &&& if (exists|c: Color| args == color_name_spec(c)) {
            exists|c: Color|
                args == color_name_spec(c) && w1.fg == c && finishes(
                    post,
                    spec_cleared(c, wa.bg),
                    w1,
                )
        } else {
            finishes(post, spec_write_string(wa, "Unknown color.\n".spec_bytes()), w1)
        }
    } else if cmd == "setbg".spec_bytes() {
        &&& shell_only(pre, post, t0, t1, r)
        &&& if (exists|c: Color| args == color_name_spec(c)) {
            exists|c: Color|
                args == color_name_spec(c) && w1.bg == c && finishes(
                    post,
                    spec_cleared(wa.fg, c),
                    w1,
                )
        } else {
            finishes(post, spec_write_string(wa, "Unknown color.\n".spec_bytes()), w1)
        }
    } else if cmd == "listcolors".spec_bytes() {
        &&& shell_only(pre, post, t0, t1, r)
        &&& finishes(
            post,
            spec_write_string(
                spec_write_string(
                    wa,
                    "black\nblue\ngreen\ncyan\nred\nmagenta\nbrown\nlightgray\n".spec_bytes(),
                ),
                "darkgray\nlightblue\nlightgreen\nlightcyan\nlightred\npink\nyellow\nwhite\n".spec_bytes(),
            ),
            w1,
        )
    } else if cmd == "banner".spec_bytes() {
        &&& shell_only(pre, post, t0, t1, r)
        &&& finishes(
            post,
            spec_write_string(
                spec_write_string(
                    spec_write_string(
                        spec_write_string(
                            spec_write_string(wa, "#########################\n".spec_bytes()),
                            "<         WhyOS         >\n".spec_bytes(),
                        ),
                        "#                       #\n".spec_bytes(),
                    ),
                    "#     v0.0.1  alpha     #\n".spec_bytes(),
                ),
                "#########################\n".spec_bytes(),
            ),
            w1,
        )
    } else if cmd == "whyver".spec_bytes() {
        &&& shell_only(pre, post, t0, t1, r)
        &&& finishes(post, spec_write_string(wa, "WhyOS v0.0.1 alpha\n".spec_bytes()), w1)
    } else if cmd == "info".spec_bytes() {
        &&& shell_only(pre, post, t0, t1, r)
        &&& finishes(post, info_output(wa, args), w1)
    } else if cmd == "bye".spec_bytes() {
        &&& post.current_dir == pre.current_dir
        &&& t1 == t0
        &&& post.active == false
        &&& r == SysRequest::PowerOff
        &&& finishes(post, spec_write_string(wa, "See ya, nerd.\n".spec_bytes()), w1)
    } else if cmd == "oops".spec_bytes() {
        &&& keeps_shell(pre, post)
        &&& t1 == t0
        &&& r == SysRequest::Reboot
        &&& finishes(post, spec_write_string(wa, "Oopsie daisy. Rebooting...\n".spec_bytes()), w1)
    } else if cmd.len() == 0 {
        &&& shell_only(pre, post, t0, t1, r)
        &&& finishes(post, wa, w1)
    } else {
        &&& shell_only(pre, post, t0, t1, r)
        &&& finishes(
            post,
            spec_write_byte(
                spec_write_string(
                    spec_write_string(wa, "Unknown command: ".spec_bytes()),
                    cmd,
                ),
                NEWLINE,
            ),
            w1,
        )
    }
}

/// Where a redraw leaves the display cursor: the logical insertion point's
/// wrapped screen position.  `promptLength + cursor_index` cells past the
/// start of the prompt row, wrapped at the width; a position past the last
/// row is clamped to it.
pub open spec fn cursor_on_screen(c: CliState, w: ScreenState) -> bool {
    let vi = c.current_dir.len() + 3 + c.cursor_index;
    vi <= usize::MAX ==> {
        let target = c.prompt_row + vi / (BUFFER_WIDTH as int);
        &&& w.row == (if target < BUFFER_HEIGHT {
            target
        } else {
            BUFFER_HEIGHT - 1
        })
        &&& w.col == vi % (BUFFER_WIDTH as int)
    }
}

/// Addition saturating at the machine limit, as the redraw arithmetic
/// computes it.
pub open spec fn sat_add(a: int, b: int) -> int {
    if a + b <= usize::MAX {
        a + b
    } else {
        usize::MAX as int
    }
}

/// `n` rows blanked one after another from `start` down: each step homes the
/// cursor on the next row and clears it in the current color.
pub open spec fn spec_clear_span(w: ScreenState, start: int, n: int) -> ScreenState
    decreases n,
{
    if n <= 0 {
        w
    } else {
        let w1 = spec_clear_span(w, start, n - 1);
        ScreenState {
            grid: w1.grid.update(
                start + n - 1,
                row_of(blank_char(w1.color), BUFFER_WIDTH as int),
            ),
            row: start + n - 1,
            col: 0,
            ..w1
        }
    }
}

/// The prompt as the shell emits it: the working directory, then `" > "`.
pub open spec fn spec_prompt_shown(cd: Seq<u8>, w: ScreenState) -> ScreenState {
    spec_write_string(spec_write_string(w, cd), " > ".spec_bytes())
}

/// The whole redraw as a display transition: clear every row the line
/// occupies starting at the recorded prompt row, re-emit the prompt and the
/// full buffer, and place the cursor at the insertion point's wrapped
/// position (clamped to the last row).
pub open spec fn spec_redraw(c: CliState, w: ScreenState) -> ScreenState {
    let pl = sat_add(c.current_dir.len() as int, 3);
    let total = sat_add(pl, c.buffer_index);
    let rows = total / (BUFFER_WIDTH as int) + 1;
    let n: int = if rows <= BUFFER_HEIGHT - c.prompt_row {
        rows
    } else {
        BUFFER_HEIGHT - c.prompt_row
    };
    let cleared = ScreenState { row: c.prompt_row, col: 0, ..spec_clear_span(w, c.prompt_row, n) };
    let written = spec_write_string(spec_prompt_shown(c.current_dir, cleared), c.content());
    let vi = sat_add(pl, c.cursor_index);
    let target = c.prompt_row + vi / (BUFFER_WIDTH as int);
    let trow: int = if target < BUFFER_HEIGHT {
        target
    } else {
        BUFFER_HEIGHT - 1
    };
    ScreenState { row: trow, col: vi % (BUFFER_WIDTH as int), ..written }
}

/// The command shell: the pending-input line editor and its dispatch state.
pub struct Cli {
    input_buffer: Vec<u8>,
    buffer_index: usize,
    cursor_index: usize,
    active: bool,
    prompt_row: usize,
    current_dir: Vec<u8>,
}

impl View for Cli {
    type V = CliState;

    closed spec fn view(&self) -> CliState {
        CliState {
            buffer: self.input_buffer@,
            buffer_index: self.buffer_index as int,
            cursor_index: self.cursor_index as int,
            active: self.active,
            prompt_row: self.prompt_row as int,
            current_dir: self.current_dir@,
        }
    }
}

impl Cli {
    /// A fresh, inactive shell at the root directory.
    pub fn new() -> (c: Cli)
        ensures
            c@.wf(),
            c@ == initial_cli(),
    {
        let mut buf: Vec<u8> = Vec::new();
        let mut i: usize = 0;
        while i < BUFFER_SIZE
            invariant
                i <= BUFFER_SIZE,
                buf@ == zero_buffer().take(i as int),
            decreases BUFFER_SIZE - i,
        {
            buf.push(0);
            assert(zero_buffer().take(i + 1 as int)
                =~= zero_buffer().take(i as int).push(0u8));
            i += 1;
        }
        let mut cd: Vec<u8> = Vec::new();
        cd.push(ramfs::SEP);
        let c = Cli {
            input_buffer: buf,
            buffer_index: 0,
            cursor_index: 0,
            active: false,
            prompt_row: 0,
            current_dir: cd,
        };
        proof {
            assert(zero_buffer().take(BUFFER_SIZE as int) =~= zero_buffer());
            assert(cd@ =~= seq![ramfs::SEP]);
            assert(c@ =~~= initial_cli());
        }
        c
    }

    /// The content length of the pending line.
    pub fn buffer_index(&self) -> (r: usize)
        ensures
            r == self@.buffer_index,
    {
        self.buffer_index
    }

    /// The insertion point within the pending line.
    pub fn cursor_index(&self) -> (r: usize)
        ensures
            r == self@.cursor_index,
    {
        self.cursor_index
    }

    /// Whether the shell accepts input.
    pub fn is_active(&self) -> (r: bool)
        ensures
            r == self@.active,
    {
        self.active
    }

    /// The pending input line: the filled prefix of the buffer.
    pub fn content_bytes(&self) -> (r: Vec<u8>)
        requires
            self@.wf(),
        ensures
            r@ == self@.content(),
    {
        let mut r: Vec<u8> = Vec::new();
        let mut i: usize = 0;
        while i < self.buffer_index
            invariant
                self@.wf(),
                i <= self@.buffer_index,
                r@ == self@.buffer.subrange(0, i as int),
            decreases self@.buffer_index - i,
        {
            r.push(self.input_buffer[i]);
            assert(self@.buffer.subrange(0, i + 1 as int)
                =~= self@.buffer.subrange(0, i as int).push(self@.buffer[i as int]));
            i += 1;
        }
        r
    }

    /// The working directory path.
    pub fn current_dir(&self) -> (r: Vec<u8>)
        ensures
            r@ == self@.current_dir,
    {
        crate::ramfs::bytes_to_vec(self.current_dir.as_slice())
    }

    /// Zero the buffer and home both indices.
    fn clear_input(&mut self)
        ensures
            final(self)@ == (CliState {
                buffer: zero_buffer(),
                buffer_index: 0,
                cursor_index: 0,
                ..old(self)@
            }),
    {
        let mut buf: Vec<u8> = Vec::new();
        let mut i: usize = 0;
        while i < BUFFER_SIZE
            invariant
                i <= BUFFER_SIZE,
                buf@ == zero_buffer().take(i as int),
            decreases BUFFER_SIZE - i,
        {
            buf.push(0);
            assert(zero_buffer().take(i + 1 as int)
                =~= zero_buffer().take(i as int).push(0u8));
            i += 1;
        }
        proof {
            assert(zero_buffer().take(BUFFER_SIZE as int) =~= zero_buffer());
        }
        self.input_buffer = buf;
        self.buffer_index = 0;
        self.cursor_index = 0;
        proof {
            assert(final(self)@ =~~= (CliState {
                buffer: zero_buffer(),
                buffer_index: 0,
                cursor_index: 0,
                ..old(self)@
            }));
        }
    }

    /// Record where the prompt begins and emit it: the working directory
    /// followed by `" > "`.
    fn display_prompt(&mut self, writer: &mut Writer)
        requires
            old(self)@.wf(),
            old(writer)@.wf(),
        ensures
            final(self)@.wf(),
            final(writer)@.wf(),
            final(self)@ == (CliState { prompt_row: old(writer)@.row, ..old(self)@ }),
            final(writer)@ == spec_prompt_shown(old(self)@.current_dir, old(writer)@),
            final(writer)@.fg == old(writer)@.fg,
            final(writer)@.bg == old(writer)@.bg,
    {
        let r = writer.cursor_row();
        self.prompt_row = r;
        writer.write_string(self.current_dir.as_slice());
        writer.write_string(" > ".as_bytes());
        proof {
            assert(final(self)@ =~~= (CliState { prompt_row: old(writer)@.row, ..old(self)@ }));
        }
    }

    /// Redraw the prompt line(s) from scratch: clear every row the line
    /// occupies, re-emit the prompt and the whole buffer, and place the
    /// cursor at its wrapped screen position.
    fn redraw(&self, writer: &mut Writer)
        requires
            self@.wf(),
            old(writer)@.wf(),
        ensures
            final(writer)@.wf(),
            final(writer)@.fg == old(writer)@.fg,
            final(writer)@.bg == old(writer)@.bg,
            final(writer)@ == spec_redraw(self@, old(writer)@),
            cursor_on_screen(self@, final(writer)@),
    {
        let ghost w0 = old(writer)@;
        let ghost pr = self@.prompt_row;
        let prompt_len = self.current_dir.len().saturating_add(3);
        let total = prompt_len.saturating_add(self.buffer_index);
        let rows = total / BUFFER_WIDTH + 1;
        let ghost span: int = if rows as int <= BUFFER_HEIGHT - pr {
            rows as int
        } else {
            BUFFER_HEIGHT - pr
        };
        let mut k: usize = 0;
        while k < rows && k < BUFFER_HEIGHT && self.prompt_row + k < BUFFER_HEIGHT
            invariant
                self@.wf(),
                writer@.wf(),
                pr == self@.prompt_row,
                k <= span <= BUFFER_HEIGHT,
                span == (if rows as int <= BUFFER_HEIGHT - pr {
                    rows as int
                } else {
                    BUFFER_HEIGHT - pr
                }),
                writer@ == spec_clear_span(w0, pr, k as int),
                writer@.fg == w0.fg,
                writer@.bg == w0.bg,
            decreases BUFFER_HEIGHT - k,
        {
            let ghost before = writer@;
            writer.set_cursor(self.prompt_row + k, 0);
            writer.clear_current_line();
            proof {
                assert(writer@ =~~= spec_clear_span(w0, pr, k + 1));
            }
            k += 1;
        }
        proof {
            assert(k as int == span);
        }
        writer.set_cursor(self.prompt_row, 0);
        writer.write_string(self.current_dir.as_slice());
        writer.write_string(" > ".as_bytes());
        let line = self.content_bytes();
        writer.write_string(line.as_slice());
        let visual = prompt_len.saturating_add(self.cursor_index);
        let row_off = visual / BUFFER_WIDTH;
        let col = visual % BUFFER_WIDTH;
        match self.prompt_row.checked_add(row_off) {
            Some(t) if t < BUFFER_HEIGHT => {
                writer.set_cursor(t, col);
            },
            _ => {
                writer.set_cursor(BUFFER_HEIGHT - 1, col);
            },
        }
        proof {
            assert(final(writer)@ =~~= spec_redraw(self@, w0));
        }
    }

    /// Insert a character at the cursor: bytes from the cursor to the end of
    /// the content shift one right; a full buffer drops the keystroke.
    fn handle_char(&mut self, c: u8, writer: &mut Writer)
        requires
            old(self)@.wf(),
            old(writer)@.wf(),
        ensures
            final(self)@.wf(),
            final(writer)@.wf(),
            inserted(old(self)@, final(self)@, c),
            final(writer)@.fg == old(writer)@.fg,
            final(writer)@.bg == old(writer)@.bg,
            final(writer)@ == spec_redraw(final(self)@, old(writer)@),
            cursor_on_screen(final(self)@, final(writer)@),
    {
        if self.buffer_index + 1 < BUFFER_SIZE {
            let ghost b0 = self.input_buffer@;
            let ghost bi = self.buffer_index as int;
            let ghost ci = self.cursor_index as int;
            let mut k: usize = self.buffer_index;
            while k > self.cursor_index
                invariant
                    old(self)@.wf(),
                    self@.buffer_index == old(self)@.buffer_index,
                    self@.cursor_index == old(self)@.cursor_index,
                    self@.active == old(self)@.active,
                    self@.prompt_row == old(self)@.prompt_row,
                    self@.current_dir == old(self)@.current_dir,
                    self@.buffer.len() == BUFFER_SIZE,
                    bi == old(self)@.buffer_index,
                    ci == old(self)@.cursor_index,
                    b0 == old(self)@.buffer,
                    ci <= k <= bi,
                    bi + 1 < BUFFER_SIZE,
                    forall|j: int| 0 <= j <= k ==> self@.buffer[j] == b0[j],
                    forall|j: int| k < j <= bi ==> self@.buffer[j] == b0[j - 1],
                    forall|j: int| bi < j < BUFFER_SIZE ==> self@.buffer[j] == b0[j],
                decreases k,
            {
                let prev = self.input_buffer[k - 1];
                self.input_buffer[k] = prev;
                k -= 1;
            }
            self.input_buffer[self.cursor_index] = c;
            self.buffer_index += 1;
            self.cursor_index += 1;
            proof {
                assert(final(self)@.content()
                    =~= old(self)@.content().insert(old(self)@.cursor_index, c));
            }
        }
        self.redraw(writer);
    }

    /// Remove the character before the cursor: bytes from the cursor to the
    /// end of the content shift one left and the vacated tail byte is
    /// zeroed; a no-op at the line start.
    fn handle_backspace(&mut self, writer: &mut Writer)
        requires
            old(self)@.wf(),
            old(writer)@.wf(),
        ensures
            final(self)@.wf(),
            final(writer)@.wf(),
            backspaced(old(self)@, final(self)@),
            final(writer)@.fg == old(writer)@.fg,
            final(writer)@.bg == old(writer)@.bg,
            final(writer)@ == spec_redraw(final(self)@, old(writer)@),
            cursor_on_screen(final(self)@, final(writer)@),
    {
        if self.cursor_index > 0 {
            let ghost b0 = self.input_buffer@;
            let ghost bi = self.buffer_index as int;
            let ghost ci = self.cursor_index as int;
            let mut k: usize = self.cursor_index;
            while k < self.buffer_index
                invariant
                    old(self)@.wf(),
                    self@.buffer_index == old(self)@.buffer_index,
                    self@.cursor_index == old(self)@.cursor_index,
                    self@.active == old(self)@.active,
                    self@.prompt_row == old(self)@.prompt_row,
                    self@.current_dir == old(self)@.current_dir,
                    self@.buffer.len() == BUFFER_SIZE,
                    bi == old(self)@.buffer_index,
                    ci == old(self)@.cursor_index,
                    b0 == old(self)@.buffer,
                    0 < ci <= k <= bi,
                    forall|j: int| 0 <= j < ci - 1 ==> self@.buffer[j] == b0[j],
                    forall|j: int| ci - 1 <= j < k - 1 ==> self@.buffer[j] == b0[j + 1],
                    forall|j: int| k - 1 <= j < BUFFER_SIZE ==> self@.buffer[j] == b0[j],
                decreases bi - k,
            {
                let next = self.input_buffer[k];
                self.input_buffer[k - 1] = next;
                k += 1;
            }
            self.buffer_index -= 1;
            self.cursor_index -= 1;
            self.input_buffer[self.buffer_index] = 0;
            proof {
                assert(final(self)@.content()
                    =~= old(self)@.content().remove(old(self)@.cursor_index - 1));
            }
        }
        self.redraw(writer);
    }

    /// Enter the active state: clear the pending line and show a prompt.
    pub fn activate(&mut self, writer: &mut Writer)
        requires
            old(self)@.wf(),
            old(writer)@.wf(),
        ensures
            final(self)@.wf(),
            final(writer)@.wf(),
            final(self)@ == (CliState {
                buffer: zero_buffer(),
                buffer_index: 0,
                cursor_index: 0,
                active: true,
                prompt_row: old(writer)@.row,
                current_dir: old(self)@.current_dir,
            }),
            final(writer)@ == spec_prompt_shown(old(self)@.current_dir, old(writer)@),
    {
        self.active = true;
        self.clear_input();
        self.display_prompt(writer);
    }

    /// Leave the active state: every keystroke is discarded until the shell
    /// is activated again.
    pub fn deactivate(&mut self)
        ensures
            final(self)@ == (CliState { active: false, ..old(self)@ }),
    {
        self.active = false;
        proof {
            assert(final(self)@ =~~= (CliState { active: false, ..old(self)@ }));
        }
    }

    /// Clear the whole screen.
    fn clear(&mut self, writer: &mut Writer)
        requires
            old(writer)@.wf(),
        ensures
            final(writer)@.wf(),
            final(writer)@ == spec_cleared(old(writer)@.fg, old(writer)@.bg),
            final(self)@ == old(self)@,
    {
        writer.clear_screen();
    }

    /// Decode the pending line, dispatch it, clear the buffer, and show a
    /// fresh prompt.
    #[verifier::rlimit(100)]
    fn execute_command(&mut self, writer: &mut Writer, root: &mut Node) -> (r: SysRequest)
        requires
            old(self)@.wf(),
            old(writer)@.wf(),
        ensures
            final(self)@.wf(),
            final(writer)@.wf(),
            crate::ramfs::fs_wf(old(root)@) ==> crate::ramfs::fs_wf(final(root)@),
            command_effects(
                old(self)@,
                final(self)@,
                old(root)@,
                final(root)@,
                old(writer)@,
                final(writer)@,
                r,
            ),
    {
        let line = self.content_bytes();
        let decodable = is_text(line.as_slice());
        let (cmd, args) = if decodable {
            parse_line(line.as_slice())
        } else {
            // Malformed text is treated as an empty command line.
            (Vec::new(), Vec::new())
        };
        proof {
            if !decodable {
                assert(cmd@ =~= cmd_of(Seq::<u8>::empty()));
                assert(args@ =~= args_of(Seq::<u8>::empty()));
            }
        }
        writer.write_byte(NEWLINE);
        let ghost wa = writer@;
        let mut req = SysRequest::Proceed;
        if bytes_eq(cmd.as_slice(), "hello".as_bytes()) {
            writer.write_string("Hello World!\n".as_bytes());
        } else if bytes_eq(cmd.as_slice(), "yeet".as_bytes()) {
            self.clear(writer);
        } else if bytes_eq(cmd.as_slice(), "scream".as_bytes()) {
            writer.write_string(args.as_slice());
            writer.write_byte(NEWLINE);
        } else if bytes_eq(cmd.as_slice(), "ls".as_bytes()) {
            let listed = if args.len() == 0 {
                ramfs::list_dir(root, self.current_dir.as_slice(), ".".as_bytes())
            } else {
                ramfs::list_dir(root, self.current_dir.as_slice(), args.as_slice())
            };
            match listed {
                Some(names) => {
                    let ghost wstart = writer@;
                    proof {
                        assert(crate::ramfs::views_of(names@).skip(0)
                            =~= crate::ramfs::views_of(names@));
                    }
                    let mut i: usize = 0;
                    while i < names.len()
                        invariant
                            writer@.wf(),
                            i <= names@.len(),
                            spec_write_names(writer@, crate::ramfs::views_of(names@).skip(i as int))
                                == spec_write_names(wstart, crate::ramfs::views_of(names@)),
                        decreases names@.len() - i,
                    {
                        writer.write_string(names[i].as_slice());
                        writer.write_byte(NEWLINE);
                        proof {
                            let rest = crate::ramfs::views_of(names@).skip(i as int);
                            assert(rest[0] == names@[i as int]@);
                            assert(rest.drop_first()
                                =~= crate::ramfs::views_of(names@).skip(i + 1));
                        }
                        i += 1;
                    }
                    proof {
                        assert(crate::ramfs::views_of(names@).skip(names@.len() as int).len()
                            == 0);
                    }
                },
                None => {
                    writer.write_string("Not found.\n".as_bytes());
                },
            }
        } else if bytes_eq(cmd.as_slice(), "cd".as_bytes()) {
            match ramfs::change_directory(root, self.current_dir.as_slice(), args.as_slice()) {
                Some(path) => {
                    self.current_dir = path;
                },
                None => {
                    writer.write_string("Directory not found.\n".as_bytes());
                },
            }
        } else if bytes_eq(cmd.as_slice(), "mkdir".as_bytes()) {
            if !ramfs::mkdir(root, self.current_dir.as_slice(), args.as_slice()) {
                writer.write_string("Invalid path.\n".as_bytes());
            }
        } else if bytes_eq(cmd.as_slice(), "mkfile".as_bytes()) {
            let empty: Vec<u8> = Vec::new();
            if !ramfs::create_file(
                root,
                self.current_dir.as_slice(),
                args.as_slice(),
                empty.as_slice(),
            ) {
                writer.write_string("Invalid path.\n".as_bytes());
            }
        } else if bytes_eq(cmd.as_slice(), "rem".as_bytes()) {
            if !ramfs::delete(root, self.current_dir.as_slice(), args.as_slice()) {
                writer.write_string("Nothing removed.\n".as_bytes());
            }
        } else if bytes_eq(cmd.as_slice(), "readfile".as_bytes()) {
            match ramfs::read_file(root, self.current_dir.as_slice(), args.as_slice()) {
                Some(data) => {
                    writer.write_string(data.as_slice());
                    writer.write_byte(NEWLINE);
                },
                None => {
                    writer.write_string("File not found.\n".as_bytes());
                },
            }
        } else if bytes_eq(cmd.as_slice(), "setfg".as_bytes()) {
            match color_by_name(args.as_slice()) {
                Some(color) => {
                    writer.set_foreground(color);
                },
                None => {
                    writer.write_string("Unknown color.\n".as_bytes());
                },
            }
        } else if bytes_eq(cmd.as_slice(), "setbg".as_bytes()) {
            match color_by_name(args.as_slice()) {
                Some(color) => {
                    writer.set_background(color);
                },
                None => {
                    writer.write_string("Unknown color.\n".as_bytes());
                },
            }
        } else if bytes_eq(cmd.as_slice(), "listcolors".as_bytes()) {
            writer.write_string(
                "black\nblue\ngreen\ncyan\nred\nmagenta\nbrown\nlightgray\n".as_bytes(),
            );
            writer.write_string(
                "darkgray\nlightblue\nlightgreen\nlightcyan\nlightred\npink\nyellow\nwhite\n"
                    .as_bytes(),
            );
        } else if bytes_eq(cmd.as_slice(), "banner".as_bytes()) {
            writer.write_string("#########################\n".as_bytes());
            writer.write_string("<         WhyOS         >\n".as_bytes());
            writer.write_string("#                       #\n".as_bytes());
            writer.write_string("#     v0.0.1  alpha     #\n".as_bytes());
            writer.write_string("#########################\n".as_bytes());
        } else if bytes_eq(cmd.as_slice(), "whyver".as_bytes()) {
            writer.write_string("WhyOS v0.0.1 alpha\n".as_bytes());
        } else if bytes_eq(cmd.as_slice(), "info".as_bytes()) {
            self.print_info(writer, args.as_slice());
        } else if bytes_eq(cmd.as_slice(), "bye".as_bytes()) {
            writer.write_string("See ya, nerd.\n".as_bytes());
            self.active = false;
            req = SysRequest::PowerOff;
        } else if bytes_eq(cmd.as_slice(), "oops".as_bytes()) {
            writer.write_string("Oopsie daisy. Rebooting...\n".as_bytes());
            req = SysRequest::Reboot;
        } else if cmd.len() == 0 {
        } else {
            writer.write_string("Unknown command: ".as_bytes());
            writer.write_string(cmd.as_slice());
            writer.write_byte(NEWLINE);
        }
        self.clear_input();
        self.display_prompt(writer);
        req
    }

    /// Print the per-command help line, or a general hint for an empty or
    /// unrecognized name.
    fn print_info(&self, writer: &mut Writer, topic: &[u8])
        requires
            old(writer)@.wf(),
        ensures
            final(writer)@.wf(),
            final(writer)@ == info_output(old(writer)@, topic@),
            final(writer)@.fg == old(writer)@.fg,
            final(writer)@.bg == old(writer)@.bg,
    {
        if bytes_eq(topic, "ls".as_bytes()) {
            writer.write_string("ls [path]: list a directory.\n".as_bytes());
        } else if bytes_eq(topic, "cd".as_bytes()) {
            writer.write_string("cd <path>: change the working directory.\n".as_bytes());
        } else if bytes_eq(topic, "mkdir".as_bytes()) {
            writer.write_string("mkdir <path>: create a directory.\n".as_bytes());
        } else if bytes_eq(topic, "mkfile".as_bytes()) {
            writer.write_string("mkfile <path>: create an empty file.\n".as_bytes());
        } else if bytes_eq(topic, "rem".as_bytes()) {
            writer.write_string("rem <path>: remove a file or directory.\n".as_bytes());
        } else if bytes_eq(topic, "readfile".as_bytes()) {
            writer.write_string("readfile <path>: print a file.\n".as_bytes());
        } else if bytes_eq(topic, "setfg".as_bytes()) {
            writer.write_string("setfg <color>: set the text color.\n".as_bytes());
        } else if bytes_eq(topic, "setbg".as_bytes()) {
            writer.write_string("setbg <color>: set the background color.\n".as_bytes());
        } else if bytes_eq(topic, "listcolors".as_bytes()) {
            writer.write_string("listcolors: name every color.\n".as_bytes());
        } else if bytes_eq(topic, "scream".as_bytes()) {
            writer.write_string("scream <text>: echo the text.\n".as_bytes());
        } else if bytes_eq(topic, "yeet".as_bytes()) {
            writer.write_string("yeet: clear the screen.\n".as_bytes());
        } else if bytes_eq(topic, "banner".as_bytes()) {
            writer.write_string("banner: show the boot banner.\n".as_bytes());
        } else if bytes_eq(topic, "whyver".as_bytes()) {
            writer.write_string("whyver: show the version.\n".as_bytes());
        } else if bytes_eq(topic, "hello".as_bytes()) {
            writer.write_string("hello: a friendly greeting.\n".as_bytes());
        } else if bytes_eq(topic, "bye".as_bytes()) {
            writer.write_string("bye: power the machine off.\n".as_bytes());
        } else if bytes_eq(topic, "oops".as_bytes()) {
            writer.write_string("oops: reboot the machine.\n".as_bytes());
        } else {
            writer.write_string("Try: info <command>.\n".as_bytes());
        }
    }

    /// Handle one delivered keystroke.  While inactive, everything is
    /// discarded.  Newline executes the pending line; backspace and the
    /// arrow keys edit it; any other character is inserted at the cursor.
    pub fn handle_input(&mut self, key: Key, writer: &mut Writer, root: &mut Node) -> (r:
        SysRequest)
        requires
            old(self)@.wf(),
            old(writer)@.wf(),
        ensures
            final(self)@.wf(),
            final(writer)@.wf(),
            crate::ramfs::fs_wf(old(root)@) ==> crate::ramfs::fs_wf(final(root)@),
            !old(self)@.active ==> final(self)@ == old(self)@ && final(writer)@ == old(writer)@
                && final(root)@ == old(root)@ && r == SysRequest::Proceed,
            old(self)@.active ==> match key {
                Key::Character(b) => {
                    if b == NEWLINE {
                        command_effects(
                            old(self)@,
                            final(self)@,
                            old(root)@,
                            final(root)@,
                            old(writer)@,
                            final(writer)@,
                            r,
                        )
                    } else if b == BACKSPACE {
                        backspaced(old(self)@, final(self)@) && final(root)@ == old(root)@ && r
                            == SysRequest::Proceed && final(writer)@ == spec_redraw(
                            final(self)@,
                            old(writer)@,
                        ) && cursor_on_screen(final(self)@, final(writer)@)
                    } else {
                        inserted(old(self)@, final(self)@, b) && final(root)@ == old(root)@ && r
                            == SysRequest::Proceed && final(writer)@ == spec_redraw(
                            final(self)@,
                            old(writer)@,
                        ) && cursor_on_screen(final(self)@, final(writer)@)
                    }
                },
                Key::ArrowLeft => cursor_moved(old(self)@, final(self)@, -1) && final(root)@
                    == old(root)@ && r == SysRequest::Proceed && final(writer)@ == spec_redraw(
                    final(self)@,
                    old(writer)@,
                ) && cursor_on_screen(final(self)@, final(writer)@),
                Key::ArrowRight => cursor_moved(old(self)@, final(self)@, 1) && final(root)@
                    == old(root)@ && r == SysRequest::Proceed && final(writer)@ == spec_redraw(
                    final(self)@,
                    old(writer)@,
                ) && cursor_on_screen(final(self)@, final(writer)@),
            },
    {
        if !self.active {
            return SysRequest::Proceed;
        }
        match key {
            Key::Character(b) => {
                if b == NEWLINE {
                    self.execute_command(writer, root)
                } else if b == BACKSPACE {
                    self.handle_backspace(writer);
                    SysRequest::Proceed
                } else {
                    self.handle_char(b, writer);
                    SysRequest::Proceed
                }
            },
            Key::ArrowLeft => {
                if self.cursor_index > 0 {
                    self.cursor_index -= 1;
                }
                self.redraw(writer);
                proof {
                    assert(final(self)@ =~~= (CliState {
                        cursor_index: if old(self)@.cursor_index > 0 {
                            old(self)@.cursor_index - 1
                        } else {
                            0
                        },
                        ..old(self)@
                    }));
                }
                SysRequest::Proceed
            },
            Key::ArrowRight => {
                if self.cursor_index < self.buffer_index {
                    self.cursor_index += 1;
                }
                self.redraw(writer);
                proof {
                    assert(final(self)@ =~~= (CliState {
                        cursor_index: if old(self)@.cursor_index < old(self)@.buffer_index {
                            old(self)@.cursor_index + 1
                        } else {
                            old(self)@.cursor_index
                        },
                        ..old(self)@
                    }));
                }
                SysRequest::Proceed
            },
        }
    }
}

} // verus!
