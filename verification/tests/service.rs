use rustfs2::service::{classify_line, handle_lines, FsOps, FS_SHUTDOWN};

#[test]
fn shutdown_message_is_recognised() {
    assert_eq!(classify_line(FS_SHUTDOWN), FsOps::Shutdown);
    assert_eq!(classify_line("shutdown"), FsOps::Shutdown);
}

#[test]
fn other_lines_are_unsupported() {
    assert_eq!(classify_line(""), FsOps::Unsupported);
    assert_eq!(classify_line("hello world"), FsOps::Unsupported);
    assert_eq!(classify_line("shutdowm"), FsOps::Unsupported);
    assert_eq!(classify_line("Shutdown"), FsOps::Unsupported);
    assert_eq!(classify_line("shutdown "), FsOps::Unsupported);
    assert_eq!(classify_line("shutdow"), FsOps::Unsupported);
    assert_eq!(classify_line("shütdown"), FsOps::Unsupported);
}

#[test]
fn a_connection_asks_for_shutdown_if_any_line_does() {
    let none: Vec<String> = Vec::new();
    assert_eq!(handle_lines(&none), FsOps::NoOp);
    let chatter = vec!["hello world".to_string(), "open".to_string()];
    assert_eq!(handle_lines(&chatter), FsOps::NoOp);
    let stop = vec!["hello".to_string(), "shutdown".to_string(), "more".to_string()];
    assert_eq!(handle_lines(&stop), FsOps::Shutdown);
}
