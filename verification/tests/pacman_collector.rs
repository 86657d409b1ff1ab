use oval::pacman::{PacmanCollector, PACMAN_LOCAL_DB};
use oval::runner::DirectoryEntry;
use std::collections::HashMap;
use std::path::{Path, PathBuf};
use std::time::{Duration, UNIX_EPOCH};

const PACMAN_LOCAL_PATH: &str = "/var/lib/pacman/local";

struct MockRunner {
    pacman_exists: bool,
    entries: Vec<(PathBuf, bool)>,
    files: HashMap<PathBuf, String>,
}

impl MockRunner {
    fn with_packages(packages: &[(&str, &str)]) -> Self {
        let mut entries = Vec::new();
        let mut files = HashMap::new();

        for (directory, description) in packages {
            let path = Path::new(PACMAN_LOCAL_PATH).join(directory);
            entries.push((path.clone(), true));
            files.insert(path.join("desc"), (*description).to_owned());
        }

        Self {
            pacman_exists: true,
            entries,
            files,
        }
    }

    fn listing(&self) -> Vec<DirectoryEntry> {
        self.entries
            .iter()
            .map(|(path, is_dir)| DirectoryEntry {
                path: path.to_str().expect("test paths are text").as_bytes().to_vec(),
                is_dir: *is_dir,
            })
            .collect()
    }
}

fn path_of(bytes: &[u8]) -> PathBuf {
    PathBuf::from(String::from_utf8(bytes.to_vec()).expect("test paths are text"))
}

#[test]
fn name_identifies_pacman_collector() {
    let runner = MockRunner::with_packages(&[]);
    let collector = PacmanCollector::new(&runner);

    assert_eq!(collector.name(), "pacman");
}

#[test]
fn concurrency_is_at_least_one() {
    let runner = MockRunner::with_packages(&[]);
    let collector = PacmanCollector::new(&runner).with_concurrency(0);

    assert_eq!(collector.concurrency(), 1);
}

#[test]
fn new_collector_reads_sixteen_at_a_time() {
    let runner = MockRunner::with_packages(&[]);
    let collector = PacmanCollector::new(&runner);

    assert_eq!(collector.concurrency(), 16);
    assert!(std::ptr::eq(collector.runner(), &runner));
    assert!(runner.pacman_exists);
}

#[test]
fn with_concurrency_keeps_positive_values() {
    let runner = MockRunner::with_packages(&[]);
    let collector = PacmanCollector::new(&runner).with_concurrency(5);

    assert_eq!(collector.concurrency(), 5);
    assert_eq!(collector.with_concurrency(usize::MAX).concurrency(), usize::MAX);
}

#[test]
fn database_path_is_pacman_local_directory() {
    assert_eq!(Path::new(PACMAN_LOCAL_DB), Path::new(PACMAN_LOCAL_PATH));
}

#[test]
fn collect_parses_packages_and_ignores_non_directories() {
    let mut runner = MockRunner::with_packages(&[
        (
            "alpha-1.2.3-1",
            "\
%NAME%
alpha

%VERSION%
1.2.3-1

%DESC%
Alpha package

%ARCH%
x86_64

%LICENSE%
MIT

%BUILDDATE%
100

%INSTALLDATE%
200
",
        ),
        (
            "beta-2.0-1",
            "\
%NAME%
beta

%VERSION%
2.0-1

%ARCH%
any
",
        ),
    ]);
    runner
        .entries
        .push((Path::new(PACMAN_LOCAL_PATH).join("ALPM_DB_VERSION"), false));
    let collector = PacmanCollector::new(&runner).with_concurrency(2);

    let paths = collector.description_paths(&runner.listing());
    let mut packages: Vec<_> = paths
        .iter()
        .map(|path| {
            let content = runner
                .files
                .get(&path_of(path))
                .expect("package collection should succeed");
            collector.parse_alpm_to_package(&collector.parse_alpm_content(content))
        })
        .collect();
    packages.sort_by(|left, right| left.name.cmp(&right.name));

    assert_eq!(packages.len(), 2);

    let alpha = &packages[0];
    assert_eq!(alpha.name, "alpha");
    assert_eq!(alpha.version, "1.2.3-1");
    assert_eq!(alpha.desc, "Alpha package");
    assert_eq!(alpha.arch, "x86_64");
    assert_eq!(alpha.license, "MIT");
    assert_eq!(
        UNIX_EPOCH + Duration::from_secs(alpha.build_date),
        UNIX_EPOCH + Duration::from_secs(100)
    );
    assert_eq!(
        UNIX_EPOCH + Duration::from_secs(alpha.install_date),
        UNIX_EPOCH + Duration::from_secs(200)
    );

    let beta = &packages[1];
    assert_eq!(beta.name, "beta");
    assert_eq!(beta.version, "2.0-1");
    assert_eq!(beta.arch, "any");
    assert_eq!(beta.desc, "");
    assert_eq!(beta.license, "");
    assert_eq!(UNIX_EPOCH + Duration::from_secs(beta.build_date), UNIX_EPOCH);
    assert_eq!(UNIX_EPOCH + Duration::from_secs(beta.install_date), UNIX_EPOCH);
}

#[test]
fn description_paths_join_desc_to_each_directory() {
    let runner = MockRunner::with_packages(&[]);
    let collector = PacmanCollector::new(&runner);
    let entries = vec![
        DirectoryEntry { path: b"/db/a".to_vec(), is_dir: true },
        DirectoryEntry { path: b"/db/file".to_vec(), is_dir: false },
        DirectoryEntry { path: b"/db/b/".to_vec(), is_dir: true },
        DirectoryEntry { path: Vec::new(), is_dir: true },
    ];

    let paths = collector.description_paths(&entries);

    assert_eq!(
        paths,
        vec![b"/db/a/desc".to_vec(), b"/db/b/desc".to_vec(), b"desc".to_vec()]
    );
    for (dir, path) in [("/db/a", &paths[0]), ("/db/b/", &paths[1]), ("", &paths[2])] {
        assert_eq!(Path::new(dir).join("desc"), path_of(path));
    }
}

#[test]
fn description_paths_of_no_directories_is_empty() {
    let runner = MockRunner::with_packages(&[]);
    let collector = PacmanCollector::new(&runner);
    let entries = vec![DirectoryEntry { path: b"/db/ALPM_DB_VERSION".to_vec(), is_dir: false }];

    assert!(collector.description_paths(&entries).is_empty());
    assert!(collector.description_paths(&Vec::new()).is_empty());
}
