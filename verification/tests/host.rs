use oval::host::{Host, HostCollector};
use oval::package::Package;
use oval::runner::CommandOutput;

fn output(stdout: &str) -> CommandOutput {
    CommandOutput { exit_code: Some(0), stdout: stdout.to_string(), stderr: String::new() }
}

fn package(name: &str) -> Package {
    Package {
        name: name.to_string(),
        version: "1".to_string(),
        desc: String::new(),
        arch: "any".to_string(),
        license: String::new(),
        build_date: 1,
        install_date: 2,
    }
}

#[test]
fn host_from_trims_readings_and_parses_os_release() {
    let host = HostCollector::host_from(
        "  myhost\n",
        &output("6.9.1-arch1-1\n"),
        &output("x86_64\n"),
        "NAME=\"Arch Linux\"\nID=arch\n",
    )
    .expect("assembling a host never fails");

    assert_eq!(host.hostname, "myhost");
    assert_eq!(host.kernel, "6.9.1-arch1-1");
    assert_eq!(host.arch, "x86_64");
    assert_eq!(host.os_info.name(), "Arch Linux");
    assert_eq!(host.os_info.id(), "arch");
    assert!(host.packages.is_empty());
}

#[test]
fn host_from_trims_unicode_white_space() {
    let host = HostCollector::host_from("\u{3000}box\u{a0}\u{85}", &output(""), &output(" \t"), "")
        .expect("assembling a host never fails");

    assert_eq!(host.hostname, "box");
    assert_eq!(host.kernel, "");
    assert_eq!(host.arch, "");
    assert_eq!(host.os_info.name(), "");
}

#[test]
fn add_packages_appends_after_existing_ones() {
    let mut host = Host::default();
    host.hostname = "h".to_string();
    host.add_packages(vec![package("a")]);
    host.add_packages(vec![package("b"), package("c")]);
    host.add_packages(Vec::new());

    let names: Vec<&str> = host.packages.iter().map(|p| p.name.as_str()).collect();
    assert_eq!(names, vec!["a", "b", "c"]);
    assert_eq!(host.hostname, "h");
}

#[test]
fn default_host_is_empty() {
    let host = Host::default();

    assert_eq!(host.hostname, "");
    assert_eq!(host.kernel, "");
    assert_eq!(host.arch, "");
    assert_eq!(host.os_info.name(), "");
    assert_eq!(host.os_info.build_id(), "");
    assert!(host.packages.is_empty());
}
