use whyos_core::cli::{Cli, Key, SysRequest};
use whyos_core::ramfs::{create_file, list_dir, mkdir, read_file, Node};
use whyos_core::vga_buffer::Writer;

fn seeded_root() -> Node {
    let mut root = Node::new_dir(b"");
    assert!(mkdir(&mut root, b"/", b"home"));
    assert!(create_file(&mut root, b"/", b"/home/test.txt", b"Hello from RAMFS!"));
    root
}

fn type_line(cli: &mut Cli, w: &mut Writer, root: &mut Node, line: &[u8]) -> SysRequest {
    for &b in line {
        let r = cli.handle_input(Key::Character(b), w, root);
        assert_eq!(r, SysRequest::Proceed);
    }
    cli.handle_input(Key::Character(b'\n'), w, root)
}

#[test]
fn inactive_shell_discards_input() {
    let mut cli = Cli::new();
    let mut w = Writer::new();
    let mut root = Node::new_dir(b"");
    assert!(!cli.is_active());
    cli.handle_input(Key::Character(b'x'), &mut w, &mut root);
    assert_eq!(cli.buffer_index(), 0);
    cli.activate(&mut w);
    assert!(cli.is_active());
    cli.handle_input(Key::Character(b'x'), &mut w, &mut root);
    assert_eq!(cli.buffer_index(), 1);
    cli.deactivate();
    cli.handle_input(Key::Character(b'y'), &mut w, &mut root);
    assert_eq!(cli.buffer_index(), 1);
}

#[test]
fn line_editor_inserts_at_the_cursor() {
    let mut cli = Cli::new();
    let mut w = Writer::new();
    let mut root = Node::new_dir(b"");
    cli.activate(&mut w);
    for &b in b"hello" {
        cli.handle_input(Key::Character(b), &mut w, &mut root);
    }
    assert_eq!(cli.buffer_index(), 5);
    assert_eq!(cli.cursor_index(), 5);
    for _ in 0..5 {
        cli.handle_input(Key::ArrowLeft, &mut w, &mut root);
    }
    assert_eq!(cli.cursor_index(), 0);
    cli.handle_input(Key::Character(b'x'), &mut w, &mut root);
    assert_eq!(cli.content_bytes(), b"xhello".to_vec());
    assert_eq!(cli.cursor_index(), 1);
    assert_eq!(cli.buffer_index(), 6);
}

#[test]
fn arrows_clamp_to_the_content() {
    let mut cli = Cli::new();
    let mut w = Writer::new();
    let mut root = Node::new_dir(b"");
    cli.activate(&mut w);
    cli.handle_input(Key::ArrowLeft, &mut w, &mut root);
    assert_eq!(cli.cursor_index(), 0);
    cli.handle_input(Key::ArrowRight, &mut w, &mut root);
    assert_eq!(cli.cursor_index(), 0);
    cli.handle_input(Key::Character(b'a'), &mut w, &mut root);
    cli.handle_input(Key::ArrowRight, &mut w, &mut root);
    assert_eq!(cli.cursor_index(), 1);
}

#[test]
fn backspace_removes_before_the_cursor() {
    let mut cli = Cli::new();
    let mut w = Writer::new();
    let mut root = Node::new_dir(b"");
    cli.activate(&mut w);
    for &b in b"abc" {
        cli.handle_input(Key::Character(b), &mut w, &mut root);
    }
    cli.handle_input(Key::ArrowLeft, &mut w, &mut root);
    cli.handle_input(Key::Character(8), &mut w, &mut root);
    assert_eq!(cli.content_bytes(), b"ac".to_vec());
    assert_eq!(cli.cursor_index(), 1);
    // At the line start it is a no-op.
    cli.handle_input(Key::ArrowLeft, &mut w, &mut root);
    cli.handle_input(Key::Character(8), &mut w, &mut root);
    assert_eq!(cli.content_bytes(), b"ac".to_vec());
}

#[test]
fn typing_beyond_capacity_drops_keystrokes() {
    let mut cli = Cli::new();
    let mut w = Writer::new();
    let mut root = Node::new_dir(b"");
    cli.activate(&mut w);
    for _ in 0..200 {
        cli.handle_input(Key::Character(b'z'), &mut w, &mut root);
    }
    // 127 bytes are usable; the reserved boundary slot stays free.
    assert_eq!(cli.buffer_index(), 127);
}

#[test]
fn boot_scenario_cd_ls_readfile() {
    let mut cli = Cli::new();
    let mut w = Writer::new();
    let mut root = seeded_root();
    cli.activate(&mut w);
    assert_eq!(cli.current_dir(), b"/".to_vec());
    type_line(&mut cli, &mut w, &mut root, b"cd /home");
    assert_eq!(cli.current_dir(), b"/home".to_vec());
    assert_eq!(list_dir(&root, b"/home", b"."), Some(vec![b"test.txt".to_vec()]));
    assert_eq!(read_file(&root, b"/home", b"test.txt"), Some(b"Hello from RAMFS!".to_vec()));
}

#[test]
fn cd_to_a_missing_directory_keeps_the_old_one() {
    let mut cli = Cli::new();
    let mut w = Writer::new();
    let mut root = seeded_root();
    cli.activate(&mut w);
    type_line(&mut cli, &mut w, &mut root, b"cd /nowhere");
    assert_eq!(cli.current_dir(), b"/".to_vec());
}

#[test]
fn shell_commands_drive_the_tree() {
    let mut cli = Cli::new();
    let mut w = Writer::new();
    let mut root = Node::new_dir(b"");
    cli.activate(&mut w);
    type_line(&mut cli, &mut w, &mut root, b"mkdir docs");
    type_line(&mut cli, &mut w, &mut root, b"mkfile docs/empty.txt");
    assert_eq!(read_file(&root, b"/", b"docs/empty.txt"), Some(Vec::new()));
    type_line(&mut cli, &mut w, &mut root, b"rem docs/empty.txt");
    assert_eq!(read_file(&root, b"/", b"docs/empty.txt"), None);
}

#[test]
fn command_line_is_trimmed_and_split_once() {
    let mut cli = Cli::new();
    let mut w = Writer::new();
    let mut root = Node::new_dir(b"");
    cli.activate(&mut w);
    // Leading/trailing whitespace is trimmed; only the first space splits.
    type_line(&mut cli, &mut w, &mut root, b"   mkdir a dir with spaces  ");
    // The whole remainder "a dir with spaces" is one argument, so one
    // directory of that name appears.
    assert_eq!(list_dir(&root, b"/", b"/"), Some(vec![b"a dir with spaces".to_vec()]));
    type_line(&mut cli, &mut w, &mut root, b"  mkdir solo  ");
    assert_eq!(
        list_dir(&root, b"/", b"/"),
        Some(vec![b"a dir with spaces".to_vec(), b"solo".to_vec()])
    );
}

#[test]
fn buffer_clears_after_every_command() {
    let mut cli = Cli::new();
    let mut w = Writer::new();
    let mut root = Node::new_dir(b"");
    cli.activate(&mut w);
    type_line(&mut cli, &mut w, &mut root, b"no-such-command");
    assert_eq!(cli.buffer_index(), 0);
    assert_eq!(cli.cursor_index(), 0);
    assert!(cli.is_active());
    type_line(&mut cli, &mut w, &mut root, b"");
    assert_eq!(cli.buffer_index(), 0);
}

#[test]
fn bye_powers_off_and_goes_inactive() {
    let mut cli = Cli::new();
    let mut w = Writer::new();
    let mut root = Node::new_dir(b"");
    cli.activate(&mut w);
    let r = type_line(&mut cli, &mut w, &mut root, b"bye");
    assert_eq!(r, SysRequest::PowerOff);
    assert!(!cli.is_active());
    // The terminal state processes no further input.
    cli.handle_input(Key::Character(b'x'), &mut w, &mut root);
    assert_eq!(cli.buffer_index(), 0);
}

#[test]
fn oops_requests_a_reboot_and_stays_active() {
    let mut cli = Cli::new();
    let mut w = Writer::new();
    let mut root = Node::new_dir(b"");
    cli.activate(&mut w);
    let r = type_line(&mut cli, &mut w, &mut root, b"oops");
    assert_eq!(r, SysRequest::Reboot);
    assert!(cli.is_active());
}

#[test]
fn setfg_changes_the_color_pair() {
    let mut cli = Cli::new();
    let mut w = Writer::new();
    let mut root = Node::new_dir(b"");
    cli.activate(&mut w);
    type_line(&mut cli, &mut w, &mut root, b"setfg red");
    // Red on black packs to 4; the prompt was re-emitted in the new pair.
    assert_eq!(w.color_at(0, 0), 4);
    type_line(&mut cli, &mut w, &mut root, b"setbg blue");
    assert_eq!(w.color_at(0, 0), 20);
    // Unknown names change nothing.
    type_line(&mut cli, &mut w, &mut root, b"setfg chartreuse");
    assert_eq!(w.color_at(0, 0), 20);
}

#[test]
fn prompt_shows_the_working_directory() {
    let mut cli = Cli::new();
    let mut w = Writer::new();
    let mut root = seeded_root();
    cli.activate(&mut w);
    // Fresh screen: prompt "/ > " sits on row 0.
    assert_eq!(w.char_at(0, 0), b'/');
    assert_eq!(w.char_at(0, 1), b' ');
    assert_eq!(w.char_at(0, 2), b'>');
    assert_eq!(w.char_at(0, 3), b' ');
    type_line(&mut cli, &mut w, &mut root, b"yeet");
    // After a clear the prompt starts again at the top.
    assert_eq!(w.char_at(0, 0), b'/');
}

#[test]
fn redraw_wraps_the_cursor_position() {
    let mut cli = Cli::new();
    let mut w = Writer::new();
    let mut root = Node::new_dir(b"");
    cli.activate(&mut w);
    // Prompt "/ > " is 4 cells; 82 typed bytes put the line on 2 rows and
    // the cursor at visual index 86: row offset 1, column 6.
    for _ in 0..82 {
        cli.handle_input(Key::Character(b'q'), &mut w, &mut root);
    }
    assert_eq!(cli.buffer_index(), 82);
    assert_eq!(cli.cursor_index(), 82);
    assert_eq!(w.cursor_row(), 1);
    assert_eq!(w.cursor_col(), 6);
    // The echoed line spans both rows.
    assert_eq!(w.char_at(0, 4), b'q');
    assert_eq!(w.char_at(0, 79), b'q');
    assert_eq!(w.char_at(1, 5), b'q');
}

#[test]
fn hello_prints_its_greeting() {
    let mut cli = Cli::new();
    let mut w = Writer::new();
    let mut root = Node::new_dir(b"");
    cli.activate(&mut w);
    type_line(&mut cli, &mut w, &mut root, b"hello");
    assert_eq!(w.char_at(1, 0), b'H');
    assert_eq!(w.char_at(1, 11), b'!');
    // The prompt reappears on the row after the output.
    assert_eq!(w.char_at(2, 0), b'/');
    assert_eq!(w.char_at(2, 2), b'>');
}

#[test]
fn unknown_command_prints_a_diagnostic() {
    let mut cli = Cli::new();
    let mut w = Writer::new();
    let mut root = Node::new_dir(b"");
    cli.activate(&mut w);
    type_line(&mut cli, &mut w, &mut root, b"zzz");
    assert_eq!(w.char_at(1, 0), b'U');
    assert_eq!(w.char_at(1, 17), b'z');
    assert_eq!(w.char_at(2, 0), b'/');
}

#[test]
fn undecodable_line_acts_as_empty() {
    let mut cli = Cli::new();
    let mut w = Writer::new();
    let mut root = Node::new_dir(b"");
    cli.activate(&mut w);
    // A byte outside the single-byte text range cannot be decoded: the line
    // is treated as empty - no dispatch, no diagnostic, just a new prompt.
    cli.handle_input(Key::Character(200), &mut w, &mut root);
    let r = cli.handle_input(Key::Character(b'\n'), &mut w, &mut root);
    assert_eq!(r, SysRequest::Proceed);
    assert_eq!(cli.buffer_index(), 0);
    assert_eq!(w.char_at(1, 0), b'/');
    assert_eq!(w.char_at(1, 2), b'>');
    assert_eq!(w.char_at(2, 0), b' ');
}

#[test]
fn yeet_clears_and_rehomes_the_prompt() {
    let mut cli = Cli::new();
    let mut w = Writer::new();
    let mut root = Node::new_dir(b"");
    cli.activate(&mut w);
    type_line(&mut cli, &mut w, &mut root, b"scream noise");
    type_line(&mut cli, &mut w, &mut root, b"yeet");
    // Nothing but the fresh prompt remains.
    assert_eq!(w.char_at(0, 0), b'/');
    assert_eq!(w.char_at(1, 0), b' ');
    assert_eq!(w.char_at(2, 0), b' ');
}

#[test]
fn scream_echoes_its_argument() {
    let mut cli = Cli::new();
    let mut w = Writer::new();
    let mut root = Node::new_dir(b"");
    cli.activate(&mut w);
    type_line(&mut cli, &mut w, &mut root, b"scream AAAH");
    // The echo lands on the row after the first prompt.
    assert_eq!(w.char_at(1, 0), b'A');
    assert_eq!(w.char_at(1, 3), b'H');
}
