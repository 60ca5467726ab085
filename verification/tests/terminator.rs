use ion_shell::quotes::Terminator;
use ion_shell::version;

fn terminate(input: &str) -> Result<Vec<u8>, ()> {
    Terminator::new(input.as_bytes().to_vec()).terminate()
}

#[test]
fn version_string() {
    assert_eq!("1.0.0", version());
}

#[test]
fn plain_line_terminates_at_newline() {
    // A stream with no quotes, heredocs or brackets, ending in a bare
    // newline, completes exactly there.
    assert_eq!(Ok(b"echo".to_vec()), terminate("echo\n"));
    assert_eq!(Ok(b"echo hello".to_vec()), terminate("echo hello\nignored"));
}

#[test]
fn open_quote_is_incomplete() {
    assert_eq!(Err(()), terminate("echo 'hello\n"));
    assert_eq!(Err(()), terminate("echo \"hello\n"));
    assert_eq!(Ok(b"echo 'hi there'".to_vec()), terminate("echo 'hi there'\n"));
    // A double quote inside single quotes does not close anything.
    assert_eq!(Err(()), terminate("echo '\"\n"));
}

#[test]
fn whitespace_runs_collapse() {
    assert_eq!(Ok(b"a b".to_vec()), terminate("a  \t  b\n"));
    // Re-applying the terminator to its own output changes nothing.
    let once = terminate("x      y  z\n").unwrap();
    let twice = Terminator::new({
        let mut v = once.clone();
        v.push(b'\n');
        v
    })
    .terminate()
    .unwrap();
    assert_eq!(once, twice);
}

#[test]
fn comments_are_stripped() {
    // A word-start `#` discards through end of line but the newline still
    // terminates the statement.
    assert_eq!(Ok(b"a ".to_vec()), terminate("a #comment\nrest"));
    assert_eq!(Ok(b"".to_vec()), terminate("#only a comment\n"));
    // A mid-word `#` is an ordinary character.
    assert_eq!(Ok(b"a#b".to_vec()), terminate("a#b\n"));
}

#[test]
fn brackets_and_operators_continue() {
    assert_eq!(Err(()), terminate("echo [1 2\n"));
    assert_eq!(Ok(b"echo [1 2]".to_vec()), terminate("echo [1 2]\n"));
    // Inside brackets a newline is mere whitespace.
    assert_eq!(Ok(b"a [1 2]".to_vec()), terminate("a [1\n2]\n"));
    assert_eq!(Err(()), terminate("a &&\n"));
    assert_eq!(Err(()), terminate("a ||\n"));
    assert_eq!(Ok(b"a && b".to_vec()), terminate("a && b\n"));
}

#[test]
fn heredocs_pass_through() {
    assert_eq!(
        Ok(b"cat << EOF\nhello\nEOF".to_vec()),
        terminate("cat << EOF\nhello\nEOF\n")
    );
    assert_eq!(Err(()), terminate("cat << EOF\nhello\n"));
}

#[test]
fn escapes_and_continuations() {
    // A backslash-newline joins lines, discarding following whitespace.
    assert_eq!(Ok(b"a b".to_vec()), terminate("a \\\n   b\n"));
    // A backslash before anything else protects the next byte.
    assert_eq!(Ok(b"a\\#b".to_vec()), terminate("a\\#b\n"));
    assert_eq!(Ok(b"\\'".to_vec()), terminate("\\'\n"));
}

#[test]
fn implicit_termination_at_end_of_input() {
    // With nothing left open, end of input completes the statement even
    // without a trailing newline.
    assert_eq!(Ok(b"echo hi".to_vec()), terminate("echo hi"));
}

#[test]
fn continued_input_reaches_completion() {
    let mut t = Terminator::new(b"echo 'open\n".to_vec());
    assert_eq!(Err(()), t.terminate());
    t.push_bytes(b"closed'\n".to_vec());
    assert_eq!(Ok(b"closed'".to_vec()), t.terminate());
}

#[test]
fn empty_input_is_complete() {
    assert_eq!(Ok(b"".to_vec()), terminate(""));
}

#[test]
fn triple_angle_is_not_a_heredoc() {
    // A third `<` suppresses heredoc detection; the bytes pass through.
    assert_eq!(Ok(b"a <<< b".to_vec()), terminate("a <<< b\n"));
}
