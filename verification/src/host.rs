//! A scanned host: what the machine is and which packages it has.
use vstd::prelude::*;

use crate::os::{empty_os_info, os_release, parse_os_release, OsInfo, OsInfoView};
use crate::package::{Package, PackageView};
use crate::runner::CommandOutput;
use crate::text::{trim, trimmed};

verus! {

/// The inventory of one machine.
#[derive(Debug)]
pub struct Host {
    pub hostname: String,
    pub kernel: String,
    pub arch: String,
    pub os_info: OsInfo,
    pub packages: Vec<Package>,
}

/// What a `Host` holds.
#[verifier::ext_equal]
pub struct HostView {
    pub hostname: Seq<char>,
    pub kernel: Seq<char>,
    pub arch: Seq<char>,
    pub os_info: OsInfoView,
    pub packages: Seq<PackageView>,
}

impl View for Host {
    type V = HostView;

    open spec fn view(&self) -> HostView {
        HostView {
            hostname: self.hostname@,
            kernel: self.kernel@,
            arch: self.arch@,
            os_info: self.os_info@,
            packages: self.packages@.map_values(|p: Package| p@),
        }
    }
}

impl Default for Host {
    fn default() -> (r: Host)
        ensures
            r@ == (HostView {
                hostname: seq![],
                kernel: seq![],
                arch: seq![],
                os_info: empty_os_info(),
                packages: seq![],
            }),
    {
        let r = Host {
            hostname: String::new(),
            kernel: String::new(),
            arch: String::new(),
            os_info: OsInfo::default(),
            packages: Vec::new(),
        };
        proof {
            assert(r@.packages =~= Seq::<PackageView>::empty());
        }
        r
    }
}

impl Host {
    /// Adds `packages` after the packages the host already lists; the rest
    /// of the host stays as it was.
    pub fn add_packages(&mut self, packages: Vec<Package>)
        ensures
            final(self).packages@ == old(self).packages@ + packages@,
            final(self).hostname == old(self).hostname,
            final(self).kernel == old(self).kernel,
            final(self).arch == old(self).arch,
            final(self).os_info == old(self).os_info,
    {
        let mut packages = packages;
        self.packages.append(&mut packages);
    }
}

/// Collects what a machine is.
pub struct HostCollector {}

impl HostCollector {
    /// The host that these readings describe: the contents of `/etc/hostname`,
    /// the outputs of `uname -r` and `uname -m`, and the contents of
    /// `/etc/os-release`. The first three are trimmed; the host lists no
    /// packages yet. It never fails.
    pub fn host_from(
        hostname: &str,
        kernel: &CommandOutput,
        arch: &CommandOutput,
        os_release_text: &str,
    ) -> (r: Result<Host, std::io::Error>)
        ensures
            r matches Ok(host) && {
                &&& host@.hostname == trim(hostname@)
                &&& host@.kernel == trim(kernel.stdout@)
                &&& host@.arch == trim(arch.stdout@)
                &&& host@.os_info == os_release(os_release_text@)
                &&& host@.packages.len() == 0
            },
    {
        let os_info = match parse_os_release(os_release_text) {
            Ok(info) => info,
            Err(e) => return Err(e),
        };
        Ok(
            Host {
                hostname: trimmed(hostname),
                kernel: trimmed(kernel.stdout.as_str()),
                arch: trimmed(arch.stdout.as_str()),
                os_info,
                packages: Vec::new(),
            },
        )
    }
}

} // verus!
