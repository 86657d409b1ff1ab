use oval::os::parse_os_release;

#[test]
fn parse_os_release_reads_the_known_fields() {
    let content = "\
NAME=\"Arch Linux\"
PRETTY_NAME=\"Arch Linux\"
ID=arch
BUILD_ID=rolling
ANSI_COLOR=\"38;2;23;147;209\"
HOME_URL=\"https://archlinux.org/\"
";
    let info = parse_os_release(content).expect("parsing never fails");

    assert_eq!(info.name(), "Arch Linux");
    assert_eq!(info.pretty_name(), "Arch Linux");
    assert_eq!(info.id(), "arch");
    assert_eq!(info.build_id(), "rolling");
}

#[test]
fn parse_os_release_skips_comments_blank_lines_and_lines_without_assignment() {
    let content = "# NAME=commented\n\n   \nnot an assignment\nID=debian\n  # ID=ubuntu\n";
    let info = parse_os_release(content).expect("parsing never fails");

    assert_eq!(info.name(), "");
    assert_eq!(info.pretty_name(), "");
    assert_eq!(info.id(), "debian");
    assert_eq!(info.build_id(), "");
}

#[test]
fn parse_os_release_trims_white_space_then_quotes() {
    let content = "  PRETTY_NAME =x\n\tNAME=  \"\"Fedora Linux\" \r\nID=' fedora '\r\nBUILD_ID=\u{a0}\"\u{3000}\"x\"\u{2003}\n";
    let info = parse_os_release(content).expect("parsing never fails");

    assert_eq!(info.pretty_name(), "", "the key keeps the space before `=`");
    assert_eq!(info.name(), "Fedora Linux");
    assert_eq!(info.id(), "' fedora '");
    assert_eq!(info.build_id(), "\u{3000}\"x");
}

#[test]
fn parse_os_release_later_assignment_wins() {
    let content = "NAME=first\nID=one\nNAME=second\nID=\nNAME=third=with=equals";
    let info = parse_os_release(content).expect("parsing never fails");

    assert_eq!(info.name(), "third=with=equals");
    assert_eq!(info.id(), "");
}

#[test]
fn parse_os_release_of_empty_text_is_empty() {
    let info = parse_os_release("").expect("parsing never fails");

    assert_eq!(info.name(), "");
    assert_eq!(info.pretty_name(), "");
    assert_eq!(info.id(), "");
    assert_eq!(info.build_id(), "");
}

#[test]
fn parse_os_release_keys_are_case_sensitive() {
    let info = parse_os_release("name=lower\nName=Mixed\nNAME=upper\n").expect("parsing never fails");

    assert_eq!(info.name(), "upper");
}

#[test]
fn os_release_line_by_line_appended_line_wins() {
    let before = "NAME=old\nID=keep\n";
    let line = "NAME=\"new\"";
    let whole = format!("{}{}", before, line);
    let earlier = parse_os_release(before).expect("parsing never fails");
    let info = parse_os_release(&whole).expect("parsing never fails");

    assert_eq!(earlier.name(), "old");
    assert_eq!(info.name(), "new");
    assert_eq!(info.id(), earlier.id());
}

#[test]
fn written_assignment_reads_back_for_each_key() {
    let before = "NAME=a\nPRETTY_NAME=b\nID=c\nBUILD_ID=d\n";
    for key in ["NAME", "PRETTY_NAME", "ID", "BUILD_ID"] {
        let info = parse_os_release(&format!("{}{}=new value", before, key))
            .expect("parsing never fails");
        let expect = |k: &str, old: &str| if k == key { "new value".to_string() } else { old.to_string() };
        assert_eq!(info.name(), expect("NAME", "a"));
        assert_eq!(info.pretty_name(), expect("PRETTY_NAME", "b"));
        assert_eq!(info.id(), expect("ID", "c"));
        assert_eq!(info.build_id(), expect("BUILD_ID", "d"));
    }
}
