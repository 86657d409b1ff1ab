use oval::alpm::AlpmDescription;
use oval::pacman::PacmanCollector;

fn package_from(content: &str) -> oval::package::Package {
    let runner = ();
    let collector = PacmanCollector::new(&runner);
    collector.parse_alpm_to_package(&collector.parse_alpm_content(content))
}

#[test]
fn package_takes_the_first_value_of_each_field() {
    let package = package_from(
        "%NAME%\nfirst\nsecond\n%VERSION%\n1.0-1\n%DESC%\nA tool\n%ARCH%\nx86_64\n%LICENSE%\nGPL\nMIT\n",
    );

    assert_eq!(package.name, "first");
    assert_eq!(package.version, "1.0-1");
    assert_eq!(package.desc, "A tool");
    assert_eq!(package.arch, "x86_64");
    assert_eq!(package.license, "GPL");
}

#[test]
fn package_fields_default_to_empty_and_epoch() {
    let package = package_from("%NAME%\n%OTHER%\nvalue\n");

    assert_eq!(package.name, "");
    assert_eq!(package.version, "");
    assert_eq!(package.desc, "");
    assert_eq!(package.arch, "");
    assert_eq!(package.license, "");
    assert_eq!(package.build_date, 0);
    assert_eq!(package.install_date, 0);
}

#[test]
fn package_dates_are_read_as_u64_parse_reads_them() {
    let cases = [
        "0",
        "1700000000",
        "+42",
        "007",
        "18446744073709551615",
        "18446744073709551616",
        "-1",
        "+",
        "",
        " 5",
        "5 ",
        "1e3",
        "١٢",
        "99999999999999999999999",
    ];
    for text in cases {
        let package = package_from(&format!("%BUILDDATE%\n{}\n%INSTALLDATE%\n{}\n", text, text));
        let expected = text.parse::<u64>().unwrap_or(0);
        assert_eq!(package.build_date, expected, "BUILDDATE {:?}", text);
        assert_eq!(package.install_date, expected, "INSTALLDATE {:?}", text);
    }
}

#[test]
fn package_from_an_empty_description() {
    let runner = ();
    let collector = PacmanCollector::new(&runner);
    let package = collector.parse_alpm_to_package(&AlpmDescription::new());

    assert_eq!(package.name, "");
    assert_eq!(package.build_date, 0);
    assert_eq!(package.install_date, 0);
}

#[test]
fn written_package_reads_back() {
    let written = oval::package::Package {
        name: "gcc-libs".to_string(),
        version: "14.1.1+r58-1".to_string(),
        desc: "Runtime libraries shipped by GCC".to_string(),
        arch: "x86_64".to_string(),
        license: String::new(),
        build_date: 1_718_000_000,
        install_date: u64::MAX,
    };
    let sections: Vec<(&str, Vec<String>)> = vec![
        ("NAME", vec![written.name.clone()]),
        ("VERSION", vec![written.version.clone()]),
        ("DESC", vec![written.desc.clone()]),
        ("ARCH", vec![written.arch.clone()]),
        ("LICENSE", vec![]),
        ("BUILDDATE", vec![written.build_date.to_string()]),
        ("INSTALLDATE", vec![written.install_date.to_string()]),
    ];
    let mut text = String::new();
    for (name, values) in &sections {
        text.push_str(&format!("%{}%\n", name));
        for v in values {
            text.push_str(v);
            text.push('\n');
        }
        text.push('\n');
    }

    let read = package_from(&text);

    assert_eq!(read.name, written.name);
    assert_eq!(read.version, written.version);
    assert_eq!(read.desc, written.desc);
    assert_eq!(read.arch, written.arch);
    assert_eq!(read.license, written.license);
    assert_eq!(read.build_date, written.build_date);
    assert_eq!(read.install_date, written.install_date);
}
