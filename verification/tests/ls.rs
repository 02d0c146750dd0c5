use mac_shell::ls::{ls_succeeded, partition_operands, OperandKind};
use mac_shell::ls::{prepare_long_entry, EntryFacts};
use mac_shell::ls::date_format;
use mac_shell::listing_order::{sort_dir_names, sort_long_names};
use mac_shell::ls::{
    add_symbols, align_and_format, append_indicator, device_size, dir_content, drop_hidden,
    format_permissions, is_flag, long_listing_names, long_name, long_size, parse_ls_args,
    render_list, DirListing, FileKind, Flag, LongEntry, Output,
};

fn s(v: &[&str]) -> Vec<String> {
    v.iter().map(|x| x.to_string()).collect()
}

const NONE: Flag = Flag { a: false, l: false, f: false };

#[test]
fn ls_args_flags_and_operands() {
    assert_eq!(
        parse_ls_args(&s(&["-la", "x"])),
        Ok((Flag { a: true, l: true, f: false }, s(&["x"])))
    );
    assert_eq!(parse_ls_args(&s(&[])), Ok((NONE, s(&["."]))));
    assert_eq!(parse_ls_args(&s(&["-F", "-a"])), Ok((Flag { a: true, l: false, f: true }, s(&["."]))));
    assert_eq!(parse_ls_args(&s(&["--", "-a"])), Ok((NONE, s(&["-a"]))));
    assert_eq!(parse_ls_args(&s(&["a", "--", "-l"])), Ok((NONE, s(&["a", "-l"]))));
    assert_eq!(parse_ls_args(&s(&["a", "--", "b", "--"])), Ok((NONE, s(&["a", "b"]))));
}

#[test]
fn ls_args_bad_option() {
    assert_eq!(parse_ls_args(&s(&["-x"])), Err("-x".to_string()));
    assert_eq!(parse_ls_args(&s(&["-"])), Err("-".to_string()));
    assert_eq!(parse_ls_args(&s(&["-l", "-aZ", "-q"])), Err("-aZ".to_string()));
    assert_eq!(parse_ls_args(&s(&["--all"])), Err("--all".to_string()));
}

#[test]
fn flag_letters() {
    let mut f = NONE;
    assert!(is_flag("-F", &mut f));
    assert_eq!(f, Flag { a: false, l: false, f: true });
    assert!(!is_flag("-Fx", &mut f));
    assert_eq!(f, Flag { a: false, l: false, f: true });
    assert!(!is_flag("-", &mut f));
    assert!(is_flag("-lll", &mut f));
    assert_eq!(f, Flag { a: false, l: true, f: true });
}

#[test]
fn indicators() {
    assert_eq!(append_indicator("d".into(), FileKind::Directory, 0o755), "d/");
    assert_eq!(append_indicator("x".into(), FileKind::Regular, 0o744), "x*");
    assert_eq!(append_indicator("y".into(), FileKind::Regular, 0o644), "y");
    assert_eq!(append_indicator("l".into(), FileKind::Symlink, 0o777), "l@");
    assert_eq!(append_indicator("p".into(), FileKind::Fifo, 0o644), "p|");
    assert_eq!(append_indicator("s".into(), FileKind::Socket, 0o755), "s=");
    assert_eq!(append_indicator("c".into(), FileKind::CharDevice, 0o001), "c*");
    assert_eq!(append_indicator("b".into(), FileKind::BlockDevice, 0o660), "b");
}

#[test]
fn symbols_line() {
    let e = vec![
        ("a".to_string(), Some((FileKind::Directory, 0o755))),
        ("b".to_string(), None),
        ("c".to_string(), Some((FileKind::Regular, 0o755))),
    ];
    assert_eq!(add_symbols(&e), "a/  b  c*");
    assert_eq!(add_symbols(&Vec::new()), "");
}

#[test]
fn permissions() {
    assert_eq!(format_permissions(FileKind::Regular, 0o755, false), "-rwxr-xr-x ");
    assert_eq!(format_permissions(FileKind::Directory, 0o1777, false), "drwxrwxrwt ");
    assert_eq!(format_permissions(FileKind::Regular, 0o4644, true), "-rwSr--r--+");
    assert_eq!(format_permissions(FileKind::Regular, 0o2755, false), "-rwxr-sr-x ");
    assert_eq!(format_permissions(FileKind::Regular, 0o1644, false), "-rw-r--r-T ");
    assert_eq!(format_permissions(FileKind::Symlink, 0o777, false), "lrwxrwxrwx ");
    assert_eq!(format_permissions(FileKind::CharDevice, 0o620, false), "crw--w---- ");
    assert_eq!(format_permissions(FileKind::BlockDevice, 0o4100, false), "b--s------ ");
    assert_eq!(format_permissions(FileKind::Fifo, 0, false), "p--------- ");
    assert_eq!(format_permissions(FileKind::Socket, 0o6000, false), "s--S--S--- ");
}

fn entry(perms: &str, links: &str, user: &str, group: &str, size: &str, date: &str, name: &str, blocks: u64) -> LongEntry {
    LongEntry {
        perms: perms.into(),
        links: links.into(),
        user: user.into(),
        group: group.into(),
        size: size.into(),
        date: date.into(),
        name: name.into(),
        blocks,
    }
}

fn reference_layout(es: &[LongEntry], show_total: bool) -> String {
    if es.is_empty() {
        return String::new();
    }
    let lw = es.iter().map(|e| e.links.len()).max().unwrap();
    let uw = es.iter().map(|e| e.user.len()).max().unwrap();
    let gw = es.iter().map(|e| e.group.len()).max().unwrap();
    let sw = es.iter().map(|e| e.size.len()).max().unwrap();
    let dw = es.iter().map(|e| e.date.len()).max().unwrap();
    let total: u64 = es.iter().map(|e| e.blocks).sum();
    let mut out = String::new();
    if show_total {
        out.push_str(&format!("total {}\n", total / 2));
    }
    for e in es {
        out.push_str(&format!(
            "{} {:>lw$} {:<uw$} {:<gw$} {:>sw$} {:>dw$} {}\n",
            e.perms, e.links, e.user, e.group, e.size, e.date, e.name,
            lw = lw, uw = uw, gw = gw, sw = sw, dw = dw,
        ));
    }
    out
}

#[test]
fn long_layout_exact() {
    let es = vec![
        entry("-rw-r--r-- ", "1", "root", "root", "5", "Jan 01 10:00", "a", 8),
        entry("drwxr-xr-x ", "12", "bob", "staff", "4096", "Feb 02  2020", "dir", 8),
    ];
    let expected = "total 8\n\
-rw-r--r--   1 root root     5 Jan 01 10:00 a\n\
drwxr-xr-x  12 bob  staff 4096 Feb 02  2020 dir\n";
    assert_eq!(align_and_format(&es, true), expected);
    assert_eq!(align_and_format(&es, true), reference_layout(&es, true));
    assert_eq!(align_and_format(&Vec::new(), true), "");
}

#[test]
fn long_layout_counts_bytes() {
    let es = vec![
        entry("-rw-r--r-- ", "1", "józef", "grüppe", "0", "Mar 03 01:02", "ä", 3),
        entry("-rw-r--r-- ", "2", "ann", "g", "100", "Mar 03 01:02", "b", 0),
    ];
    assert_eq!(align_and_format(&es, false), reference_layout(&es, false));
    assert_eq!(align_and_format(&es, true), reference_layout(&es, true));
}

#[test]
fn device_numbers() {
    assert_eq!(device_size(libc::makedev(8, 1)), "  8,   1");
    assert_eq!(device_size(libc::makedev(259, 65536)), "259, 65536");
    for (ma, mi) in [(0u32, 0u32), (1, 3), (4095, 255), (4096, 256), (0xffff_ffff, 0xffff_ffff), (253, 1048576)] {
        let d = libc::makedev(ma, mi);
        assert_eq!(device_size(d), format!("{:>3}, {:>3}", libc::major(d), libc::minor(d)));
    }
}

#[test]
fn long_columns() {
    let t = Some(("target".to_string(), Some((FileKind::Directory, 0o755))));
    assert_eq!(long_name("link".into(), FileKind::Symlink, 0o777, true, t.clone()), "link -> target/");
    assert_eq!(long_name("link".into(), FileKind::Symlink, 0o777, false, t.clone()), "link -> target");
    assert_eq!(
        long_name("link".into(), FileKind::Symlink, 0o777, true, Some(("gone".into(), None))),
        "link -> gone"
    );
    assert_eq!(long_name("link".into(), FileKind::Symlink, 0o777, true, None), "link");
    assert_eq!(long_name("file".into(), FileKind::Regular, 0o755, true, None), "file*");
    assert_eq!(long_name("dir".into(), FileKind::Directory, 0o755, false, t), "dir");
    assert_eq!(long_size(FileKind::Regular, 0, 1234), "1234");
    assert_eq!(long_size(FileKind::Directory, libc::makedev(8, 1), 0), "0");
    assert_eq!(long_size(FileKind::BlockDevice, libc::makedev(8, 0), 0), "  8,   0");
    assert_eq!(long_size(FileKind::CharDevice, libc::makedev(1, 3), 0), "  1,   3");
}

#[test]
fn hidden_names() {
    assert_eq!(drop_hidden(&s(&[".a", "b", ".", ""])), s(&["b", ""]));
}

#[test]
fn short_listing_order() {
    assert_eq!(sort_dir_names(&s(&["b", ".hidden", "A", "..", "."])), s(&[".", "..", "A", "b", ".hidden"]));
    assert_eq!(sort_dir_names(&s(&["a", "B", "..b", "Ä", "z"])), s(&["a", "B", "..b", "z", "Ä"]));
    assert_eq!(dir_content(&s(&["b", ".hidden", "A"]), true, true, true), s(&[".", "..", "A", "b", ".hidden"]));
    assert_eq!(dir_content(&s(&["b", ".hidden", "A"]), true, false, true), s(&["..", "A", "b", ".hidden"]));
    assert_eq!(dir_content(&s(&["b", ".hidden", "A"]), false, true, true), s(&["A", "b"]));
    // Equal keys keep the order the directory gave.
    assert_eq!(dir_content(&s(&["B", "b", ".b"]), true, false, false), s(&["B", "b", ".b"]));
    assert_eq!(dir_content(&s(&["b", "B"]), false, false, false), s(&["b", "B"]));
}

#[test]
fn long_listing_order() {
    assert_eq!(sort_long_names(&s(&["b-2", "B1", "a"])), s(&["a", "B1", "b-2"]));
    assert_eq!(sort_long_names(&s(&["ab", "a_b"])), s(&["a_b", "ab"]));
    assert_eq!(long_listing_names(&s(&[".x", "b", "A"]), false), s(&["A", "b"]));
    assert_eq!(long_listing_names(&s(&[".x", "b", "A"]), true), s(&["A", "b", ".x"]));
}

#[test]
fn render_missing_and_one_dir() {
    let dirs = vec![(".".to_string(), DirListing::Short(vec![("a".into(), None), ("b".into(), None)]))];
    let (out, ok) = render_list(&s(&["nope"]), 0, &Vec::new(), &Vec::new(), &dirs, NONE);
    assert!(ok);
    assert_eq!(
        out,
        vec![
            Output::Stderr("ls: cannot access 'nope': No such file or directory\n".into()),
            Output::Stdout(".:\n".into()),
            Output::Stdout("a  b\n".into()),
        ]
    );
}

#[test]
fn render_files_then_dir() {
    let f = Flag { a: false, l: false, f: true };
    let short = vec![("f".to_string(), Some((FileKind::Regular, 0o755)))];
    let dirs = vec![("d".to_string(), DirListing::Short(vec![]))];
    let (out, ok) = render_list(&Vec::new(), 1, &short, &Vec::new(), &dirs, f);
    assert!(ok);
    assert_eq!(
        out,
        vec![
            Output::Stdout("f*\n".into()),
            Output::Stdout("\n".into()),
            Output::Stdout("d:\n".into()),
            Output::Stdout("\n".into()),
        ]
    );
}

#[test]
fn render_stops_at_unreadable() {
    let dirs = vec![
        ("a".to_string(), DirListing::Unreadable("Permission denied (os error 13)".into())),
        ("b".to_string(), DirListing::Short(vec![("x".into(), None)])),
    ];
    let (out, ok) = render_list(&Vec::new(), 0, &Vec::new(), &Vec::new(), &dirs, NONE);
    assert!(!ok);
    assert_eq!(
        out,
        vec![
            Output::Stdout("a:\n".into()),
            Output::Stderr("ls: cannot access 'a': Permission denied (os error 13)\n".into()),
        ]
    );
}

#[test]
fn render_single_dir_without_header() {
    let dirs = vec![(".".to_string(), DirListing::Short(vec![]))];
    let (out, ok) = render_list(&Vec::new(), 0, &Vec::new(), &Vec::new(), &dirs, NONE);
    assert!(ok);
    assert_eq!(out, Vec::<Output>::new());
    let l = Flag { a: false, l: true, f: false };
    let dirs = vec![(".".to_string(), DirListing::Long(vec![]))];
    let (out, ok) = render_list(&Vec::new(), 0, &Vec::new(), &Vec::new(), &dirs, l);
    assert!(ok);
    assert_eq!(out, vec![Output::Stdout(String::new())]);
}

#[test]
fn render_long_files_and_dirs() {
    let l = Flag { a: false, l: true, f: false };
    let file = vec![entry("-rw-r--r-- ", "1", "u", "g", "7", "Jan 01 10:00", "f", 2)];
    let inner = vec![entry("-rw-r--r-- ", "1", "u", "g", "9", "Jan 01 10:00", "x", 4)];
    let dirs = vec![("d".to_string(), DirListing::Long(inner))];
    let (out, ok) = render_list(&Vec::new(), 1, &Vec::new(), &file, &dirs, l);
    assert!(ok);
    assert_eq!(
        out,
        vec![
            Output::Stdout("-rw-r--r--  1 u g 7 Jan 01 10:00 f\n".into()),
            Output::Stdout("\n".into()),
            Output::Stdout("d:\n".into()),
            Output::Stdout("total 2\n-rw-r--r--  1 u g 9 Jan 01 10:00 x\n".into()),
        ]
    );
}

#[test]
fn operands_by_kind() {
    let ops = vec![
        ("a".to_string(), OperandKind::File),
        ("d".to_string(), OperandKind::Directory),
        ("x".to_string(), OperandKind::Missing),
        ("b".to_string(), OperandKind::File),
        ("e".to_string(), OperandKind::Directory),
    ];
    let (files, dirs, missing) = partition_operands(&ops);
    assert_eq!(files, s(&["a", "b"]));
    assert_eq!(dirs, s(&["d", "e"]));
    assert_eq!(missing, s(&["x"]));
    assert!(ls_succeeded(true, &Vec::new()));
    assert!(!ls_succeeded(true, &missing));
    assert!(!ls_succeeded(false, &Vec::new()));
}

#[test]
fn long_entry_columns() {
    let facts = EntryFacts {
        kind: FileKind::Symlink,
        mode: 0o777,
        has_xattr: false,
        nlink: 1,
        uid: 1000,
        gid: 50,
        user: Some("ann".into()),
        group: None,
        rdev: 0,
        len: 11,
        date: "Jan 01 10:00".into(),
        blocks: 0,
        target: Some(("/bin".into(), Some((FileKind::Directory, 0o755)))),
    };
    let e = prepare_long_entry("b".into(), facts, Flag { a: false, l: true, f: true });
    assert_eq!(e.perms, "lrwxrwxrwx ");
    assert_eq!(e.links, "1");
    assert_eq!(e.user, "ann");
    assert_eq!(e.group, "50");
    assert_eq!(e.size, "11");
    assert_eq!(e.date, "Jan 01 10:00");
    assert_eq!(e.name, "b -> /bin/");
    assert_eq!(e.blocks, 0);
    let dev = EntryFacts {
        kind: FileKind::CharDevice,
        mode: 0o666,
        has_xattr: true,
        nlink: 1,
        uid: 0,
        gid: 0,
        user: None,
        group: Some("root".into()),
        rdev: libc::makedev(1, 3),
        len: 0,
        date: "d".into(),
        blocks: 0,
        target: None,
    };
    let e = prepare_long_entry("null".into(), dev, NONE);
    assert_eq!((e.perms.as_str(), e.user.as_str(), e.group.as_str(), e.size.as_str(), e.name.as_str()),
        ("crw-rw-rw-+", "0", "root", "  1,   3", "null"));
}

#[test]
fn date_patterns() {
    assert_eq!(date_format(None), "%b %d  %Y");
    assert_eq!(date_format(Some((0, 0))), "%b %d %H:%M");
    assert_eq!(date_format(Some((15552000, 0))), "%b %d %H:%M");
    assert_eq!(date_format(Some((15552000, 1))), "%b %d  %Y");
    assert_eq!(date_format(Some((15552001, 0))), "%b %d  %Y");
    let six = std::time::Duration::from_secs(180 * 24 * 60 * 60);
    for d in [six, six + std::time::Duration::from_nanos(1), six - std::time::Duration::from_nanos(1)] {
        let expected = if d > six { "%b %d  %Y" } else { "%b %d %H:%M" };
        assert_eq!(date_format(Some((d.as_secs(), d.subsec_nanos()))), expected);
    }
}

#[test]
fn short_listing_shows_each_name_once() {
    let entries = s(&["b", ".h", "A", "b2", ".x"]);
    let mut all = dir_content(&entries, true, true, true);
    let mut expected = s(&[".", "..", "b", ".h", "A", "b2", ".x"]);
    all.sort();
    expected.sort();
    assert_eq!(all, expected);
    let shown = dir_content(&entries, false, true, true);
    assert!(shown.iter().all(|n| !n.starts_with('.')));
    let mut shown_sorted = shown.clone();
    shown_sorted.sort();
    assert_eq!(shown_sorted, s(&["A", "b", "b2"]));
}
