use rcple::protocol::{
    agent_command, agent_dir_ok, classify_exit, manifest_line, parse_checksum, parse_line,
    parse_output, split_lines, AgentExit, InvocationError, ProtocolError,
};

fn chars(s: &str) -> Vec<char> {
    s.chars().collect()
}

#[test]
fn exit_status_is_told_apart_by_sign() {
    assert_eq!(classify_exit(0), AgentExit::Success);
    assert_eq!(classify_exit(2), AgentExit::AgentError(2));
    assert_eq!(classify_exit(13), AgentExit::AgentError(13));
    assert_eq!(classify_exit(-1), AgentExit::TransportFailure(-1));
    assert_eq!(classify_exit(i32::MIN), AgentExit::TransportFailure(i32::MIN));
}

#[test]
fn agent_takes_an_absolute_directory_with_one_trailing_slash() {
    assert!(agent_dir_ok("/var/www/"));
    assert!(agent_dir_ok("/"));
    assert!(!agent_dir_ok("/var/www"));
    assert!(!agent_dir_ok("/var/www//"));
    assert!(!agent_dir_ok("var/www/"));
    assert!(!agent_dir_ok(""));
    assert!(!agent_dir_ok("//"));
}

#[test]
fn agent_command_is_helper_space_directory() {
    assert_eq!(
        agent_command("/tmp/rcple-h", "/var/www/"),
        Ok("/tmp/rcple-h /var/www/".to_string())
    );
    assert_eq!(agent_command("/tmp/rcple-h", "/var/www"), Err(InvocationError::BadDirectory));
    assert_eq!(agent_command("/tmp/rcple-h", "www/"), Err(InvocationError::BadDirectory));
}

#[test]
fn lines_end_at_line_feeds() {
    assert_eq!(split_lines("a:1\nb:2\n"), vec![chars("a:1"), chars("b:2")]);
    assert_eq!(split_lines("a:1\nb:2"), vec![chars("a:1"), chars("b:2")]);
    assert_eq!(split_lines("a:1\r\nb:2\r"), vec![chars("a:1"), chars("b:2\r")]);
    assert_eq!(split_lines("\n\n"), vec![chars(""), chars("")]);
    assert!(split_lines("").is_empty());
}

#[test]
fn checksum_is_a_decimal_number_of_32_bits() {
    assert_eq!(parse_checksum(&chars("a:123"), 2), Some(123));
    assert_eq!(parse_checksum(&chars("0"), 0), Some(0));
    assert_eq!(parse_checksum(&chars("007"), 0), Some(7));
    assert_eq!(parse_checksum(&chars("+5"), 0), Some(5));
    assert_eq!(parse_checksum(&chars("4294967295"), 0), Some(u32::MAX));
    assert_eq!(parse_checksum(&chars("4294967296"), 0), None);
    assert_eq!(parse_checksum(&chars("99999999999"), 0), None);
    assert_eq!(parse_checksum(&chars(""), 0), None);
    assert_eq!(parse_checksum(&chars("+"), 0), None);
    assert_eq!(parse_checksum(&chars("-5"), 0), None);
    assert_eq!(parse_checksum(&chars("12a"), 0), None);
    assert_eq!(parse_checksum(&chars(" 12"), 0), None);
    assert_eq!(parse_checksum(&chars("++5"), 0), None);
    assert_eq!(parse_checksum(&chars("12"), 2), None);
    assert_eq!(parse_checksum(&chars("12"), 3), None);
}

#[test]
fn line_is_cut_at_the_first_separator() {
    assert_eq!(parse_line(&chars("dir/b.txt:7")), ("dir/b.txt".to_string(), Some(7), true));
    assert_eq!(parse_line(&chars("a:b:7")), ("a".to_string(), None, true));
    assert_eq!(parse_line(&chars(":7")), (String::new(), Some(7), true));
    assert_eq!(parse_line(&chars("no separator")), (String::new(), Some(0), false));
}

#[test]
fn output_lists_the_remote_manifest() {
    let m = parse_output("a.txt:5\nold.txt:9\ndir/b.txt:4294967295\n", false).unwrap();
    assert_eq!(m.len(), 3);
    assert_eq!(m.get("a.txt").unwrap().checksum, 5);
    assert_eq!(m.get("a.txt").unwrap().size, None);
    assert_eq!(m.get("old.txt").unwrap().checksum, 9);
    assert_eq!(m.get("dir/b.txt").unwrap().checksum, u32::MAX);
    assert!(m.get("b.txt").is_none());
}

#[test]
fn output_without_lines_lists_no_file() {
    let m = parse_output("", false).unwrap();
    assert!(m.is_empty());
}

#[test]
fn first_line_without_separator_is_a_protocol_failure() {
    assert_eq!(
        parse_output("Path must end in a single /\n", false).err(),
        Some(ProtocolError::NoSeparator)
    );
    assert_eq!(parse_output("\na:1\n", false).err(), Some(ProtocolError::NoSeparator));
    assert_eq!(parse_output("\n", false).err(), Some(ProtocolError::NoSeparator));
}

#[test]
fn line_without_checksum_is_a_protocol_failure() {
    assert_eq!(parse_output("a:1\nb:x\nc:y\n", false).err(), Some(ProtocolError::BadChecksum(1)));
    assert_eq!(parse_output("a:\n", false).err(), Some(ProtocolError::BadChecksum(0)));
    assert_eq!(
        parse_output("sh: /tmp/rcple-h: not found\n", false).err(),
        Some(ProtocolError::BadChecksum(0))
    );
    assert_eq!(
        parse_output("denied:next.txt:7\n", false).err(),
        Some(ProtocolError::BadChecksum(0))
    );
}

#[test]
fn later_line_without_separator_lists_the_empty_path() {
    let m = parse_output("a:1\nstray\n", false).unwrap();
    assert_eq!(m.len(), 2);
    assert_eq!(m.get("").unwrap().checksum, 0);
}

#[test]
fn hidden_files_are_left_out_unless_asked_for() {
    let text = ".git/config:1\ndir/.secret:2\na.txt:3\n";
    let m = parse_output(text, false).unwrap();
    assert_eq!(m.len(), 1);
    assert!(m.contains_key("a.txt"));
    let all = parse_output(text, true).unwrap();
    assert_eq!(all.len(), 3);
    assert_eq!(all.get("dir/.secret").unwrap().checksum, 2);
}

#[test]
fn path_listed_twice_keeps_the_last_checksum() {
    let m = parse_output("a:1\nb:2\na:3\n", false).unwrap();
    assert_eq!(m.len(), 2);
    assert_eq!(m.get("a").unwrap().checksum, 3);
}

#[test]
fn listing_is_read_back_as_written() {
    let mut text = String::new();
    text.push_str(&manifest_line("a.txt", 5));
    text.push_str(&manifest_line("dir/b.txt", 4294967295));
    text.push_str(&manifest_line("empty", 0));
    assert_eq!(text, "a.txt:5\ndir/b.txt:4294967295\nempty:0\n");
    let m = parse_output(&text, false).unwrap();
    assert_eq!(m.len(), 3);
    assert_eq!(m.get("a.txt").unwrap().checksum, 5);
    assert_eq!(m.get("dir/b.txt").unwrap().checksum, 4294967295);
    assert_eq!(m.get("empty").unwrap().checksum, 0);
}
