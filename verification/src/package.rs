//! Installed packages, as the package managers describe them.
use vstd::prelude::*;

verus! {

/// A package that a package manager has installed.
#[derive(Debug)]
pub struct Package {
    pub name: String,
    pub version: String,
    pub desc: String,
    pub arch: String,
    pub license: String,
    /// When the package was built, in seconds since the Unix epoch.
    pub build_date: u64,
    /// When the package was installed, in seconds since the Unix epoch.
    pub install_date: u64,
}

/// What a `Package` holds, its texts as character sequences.
#[verifier::ext_equal]
pub struct PackageView {
    pub name: Seq<char>,
    pub version: Seq<char>,
    pub desc: Seq<char>,
    pub arch: Seq<char>,
    pub license: Seq<char>,
    pub build_date: u64,
    pub install_date: u64,
}

impl View for Package {
    type V = PackageView;

    open spec fn view(&self) -> PackageView {
        PackageView {
            name: self.name@,
            version: self.version@,
            desc: self.desc@,
            arch: self.arch@,
            license: self.license@,
            build_date: self.build_date,
            install_date: self.install_date,
        }
    }
}

/// The package managers that the scanner knows of.
#[allow(dead_code)]
enum PackageManager {
    Pacman,
    Apt,
    AptGet,
    Rpm,
    Dnf,
    Zypper,
    Dpkg,
}

/// What a package manager manages.
#[allow(dead_code)]
enum PackageManagerType {
    OS,
    Language,
    Container,
}

} // verus!
