use rcple::agent::{
    crc_print_name, decimal_len, enter, error, error_message, is_ignore_dir, itoa, open,
    process_chunk, strlen_local, visit, Entry, Found, Opened, Visit, DT_DIR, DT_REG, ERRS,
};

#[test]
fn test_itoa() {
    let mut buf = vec![0u8; 8];
    itoa(0, &mut buf);
    assert_eq!("0\0".as_bytes(), &buf[0..2]);

    buf = vec![0u8; 8];
    itoa(1, &mut buf);
    assert_eq!("1\0".as_bytes(), &buf[0..2]);

    buf = vec![0u8; 8];
    itoa(123, &mut buf);
    assert_eq!("123\0".as_bytes(), &buf[0..4]);
}

#[test]
fn test_is_ignore_dir() {
    assert!(is_ignore_dir(".\0".as_bytes()));
    assert!(is_ignore_dir("..\0".as_bytes()));
    assert!(!is_ignore_dir("bin\0".as_bytes()));
}

#[test]
fn only_the_two_dot_entries_are_ignored() {
    assert!(is_ignore_dir(b"."));
    assert!(is_ignore_dir(b".."));
    assert!(!is_ignore_dir(b"..."));
    assert!(!is_ignore_dir(b"..data\0"));
    assert!(!is_ignore_dir(b".git\0"));
    assert!(!is_ignore_dir(b"\0"));
    assert!(!is_ignore_dir(b""));
}

#[test]
fn itoa_writes_the_largest_number_and_leaves_the_rest() {
    let mut buf = vec![7u8; 12];
    itoa(u32::MAX, &mut buf);
    assert_eq!(b"4294967295\0", &buf[0..11]);
    assert_eq!(buf[11], 7);
    assert_eq!(decimal_len(u32::MAX), 10);
    assert_eq!(decimal_len(0), 1);
    assert_eq!(decimal_len(10), 2);
}

#[test]
fn strlen_stops_at_the_first_zero() {
    assert_eq!(strlen_local(b"abc\0def\0"), 3);
    assert_eq!(strlen_local(b"\0"), 0);
    assert_eq!(strlen_local(b"abc"), 3);
    assert_eq!(strlen_local(b""), 0);
}

#[test]
fn entries_are_listed_walked_or_passed_over() {
    assert_eq!(visit(DT_REG, b"a.txt\0"), Visit::List);
    assert_eq!(visit(DT_REG, b".hidden\0"), Visit::List);
    assert_eq!(visit(DT_DIR, b"src\0"), Visit::Descend);
    assert_eq!(visit(DT_DIR, b".git\0"), Visit::Descend);
    assert_eq!(visit(DT_DIR, b".\0"), Visit::Skip);
    assert_eq!(visit(DT_DIR, b"..\0"), Visit::Skip);
    assert_eq!(visit(10, b"link\0"), Visit::Skip);
}

#[test]
fn denied_permission_is_no_failure() {
    assert_eq!(open(-13), Opened::Denied);
    assert_eq!(open(-2), Opened::Failed(-2));
    assert_eq!(open(0), Opened::Descriptor(0));
    assert_eq!(open(5), Opened::Descriptor(5));
}

#[test]
fn failed_system_call_gives_positive_exit_status() {
    assert_eq!(error(0), None);
    assert_eq!(error(17), None);
    assert_eq!(error(-2), Some(2));
    assert_eq!(error(-13), Some(13));
    assert_eq!(error(i32::MIN), Some(i32::MAX));
}

/// A record as the system call writes it: inode and offset, the length of
/// the record, the type, the name with its zero byte, filled up to a
/// multiple of eight bytes.
fn record(d_type: u8, name: &[u8]) -> Vec<u8> {
    let len = (19 + name.len() + 1 + 7) / 8 * 8;
    let mut r = vec![0xAAu8; 16];
    r.push((len % 256) as u8);
    r.push((len / 256) as u8);
    r.push(d_type);
    r.extend_from_slice(name);
    r.resize(len, 0);
    r
}

#[test]
fn records_give_the_entries_to_list_and_to_walk() {
    let mut buf = Vec::new();
    buf.extend(record(DT_DIR, b"."));
    buf.extend(record(DT_REG, b"a.txt"));
    buf.extend(record(DT_DIR, b".."));
    buf.extend(record(DT_DIR, b"sub"));
    buf.extend(record(10, b"link"));
    buf.extend(record(DT_REG, b".hidden"));
    let used = buf.len();
    buf.resize(used + 100, 0x55);
    let found = process_chunk(b"./dir\0junk", &buf, used).unwrap();
    assert_eq!(
        found,
        vec![
            Found { visit: Visit::List, path: b"./dir/a.txt".to_vec() },
            Found { visit: Visit::Descend, path: b"./dir/sub".to_vec() },
            Found { visit: Visit::List, path: b"./dir/.hidden".to_vec() },
        ]
    );
    assert_eq!(process_chunk(b".", &buf, 0), Some(Vec::new()));
}

#[test]
fn long_name_fills_a_long_record() {
    let name = vec![b'n'; 255];
    let buf = record(DT_REG, &name);
    assert_eq!(buf.len(), 280);
    let found = process_chunk(b".\0", &buf, buf.len()).unwrap();
    assert_eq!(found.len(), 1);
    assert_eq!(found[0].path.len(), 2 + 255);
}

#[test]
fn broken_records_are_refused() {
    let buf = record(DT_REG, b"a.txt");
    // the buffer ends within the record
    assert_eq!(process_chunk(b".", &buf, buf.len() - 1), None);
    assert_eq!(process_chunk(b".", &buf, 10), None);
    // the record is too short to hold a name
    let mut short = buf.clone();
    short[16] = 19;
    assert_eq!(process_chunk(b".", &short, short.len()), None);
    let mut empty = buf.clone();
    empty[16] = 0;
    assert_eq!(process_chunk(b".", &empty, empty.len()), None);
    // the record says it is longer than the buffer
    let mut long = buf.clone();
    long[17] = 1;
    assert_eq!(process_chunk(b".", &long, long.len()), None);
    // more bytes are said to be read than the buffer holds
    assert_eq!(process_chunk(b".", &buf, buf.len() + 1), None);
}

#[test]
fn agent_walks_only_a_proper_directory() {
    assert_eq!(enter(2, "/var/www/"), Entry::Walk);
    assert_eq!(enter(2, "/"), Entry::Walk);
    assert_eq!(enter(1, "/var/www/"), Entry::Usage);
    assert_eq!(enter(3, "/var/www/"), Entry::Usage);
    assert_eq!(enter(2, "/var/www"), Entry::BadPath);
    assert_eq!(enter(2, "/var/www//"), Entry::BadPath);
    assert_eq!(enter(2, "www/"), Entry::BadPath);
    assert_eq!(enter(2, ""), Entry::BadPath);
    assert_eq!(Entry::Walk.exit_code(), None);
    assert_eq!(Entry::Usage.exit_code(), Some(0));
    assert_eq!(Entry::BadPath.exit_code(), Some(1));
}

#[test]
fn listed_name_leaves_out_the_leading_dot_slash() {
    assert_eq!(crc_print_name("./a.txt"), "a.txt");
    assert_eq!(crc_print_name("./dir/b.txt"), "dir/b.txt");
    assert_eq!(crc_print_name("././x"), "./x");
    assert_eq!(crc_print_name("plain"), "plain");
    assert_eq!(crc_print_name(".hidden"), ".hidden");
    assert_eq!(crc_print_name("./"), "");
}

#[test]
fn failed_system_call_is_worded_with_the_name_of_its_error() {
    assert_eq!(error_message(0, "chdir err: "), None);
    assert_eq!(error_message(3, "chdir err: "), None);
    assert_eq!(error_message(-2, "chdir err: "), Some("chdir err: ENOENT \n".to_string()));
    assert_eq!(error_message(-13, "mmap err: "), Some("mmap err: EACCES \n".to_string()));
    assert_eq!(error_message(-8, ""), Some("ENOEXEC\n".to_string()));
    assert_eq!(error_message(-35, "x: "), Some("x:        \n".to_string()));
    assert_eq!(error_message(-36, "x: "), Some("x: 36\n".to_string()));
    assert_eq!(error_message(-110, "close err: "), Some("close err: 110\n".to_string()));
    assert_eq!(error_message(i32::MIN, ""), Some("2147483648\n".to_string()));
    assert_eq!(ERRS.len(), 36);
}
