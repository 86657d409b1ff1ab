//! Pacman's local package database: which of its entries describe packages,
//! and how a package's description becomes a `Package`.
use vstd::prelude::*;

use crate::alpm::{
    alpm_fields, description_text, distinct_names, fields_of, is_field_name, is_field_value,
    is_writable_section, law_written_description_reads_back, lemma_fields_of_entry,
    AlpmDescription,
};
use crate::decimal::{
    decimal_text, is_digit, lemma_decimal_text, lemma_parse_decimal_text, parse_u64,
    parse_u64_range,
};
use crate::package::{Package, PackageView};
use crate::runner::DirectoryEntry;
use crate::text::chars_of;

verus! {

broadcast use vstd::string::group_string_axioms;

/// The directory of pacman's local database: one directory per installed
/// package, each holding a `desc` file.
pub const PACMAN_LOCAL_DB: &'static str = "/var/lib/pacman/local/";

/// Collects the packages that pacman has installed, reading through `runner`.
pub struct PacmanCollector<'a, R> {
    runner: &'a R,
    concurrency: usize,
}

impl<'a, R> PacmanCollector<'a, R> {
    #[verifier::type_invariant]
    spec fn reads_at_least_one_at_a_time(self) -> bool {
        self.concurrency >= 1
    }

    /// How many descriptions the collector reads at a time.
    pub closed spec fn spec_concurrency(self) -> usize {
        self.concurrency
    }

    /// What the collector reads through.
    pub closed spec fn spec_runner(self) -> &'a R {
        self.runner
    }

    /// A collector that reads through `runner`, 16 descriptions at a time.
    pub fn new(runner: &'a R) -> (r: Self)
        ensures
            r.spec_runner() == runner,
            r.spec_concurrency() == 16,
    {
        PacmanCollector { runner, concurrency: 16 }
    }

    /// The same collector, reading `concurrency` descriptions at a time, and
    /// at least one.
    pub fn with_concurrency(self, concurrency: usize) -> (r: Self)
        ensures
            r.spec_runner() == self.spec_runner(),
            r.spec_concurrency() == if concurrency >= 1 {
                concurrency
            } else {
                1
            },
    {
        PacmanCollector { runner: self.runner, concurrency: concurrency.max(1) }
    }

    /// How many descriptions the collector reads at a time: never fewer than one.
    pub fn concurrency(&self) -> (r: usize)
        ensures
            r == self.spec_concurrency(),
            r >= 1,
    {
        proof {
            use_type_invariant(self);
        }
        self.concurrency
    }

    /// What the collector reads through.
    pub fn runner(&self) -> (r: &'a R)
        ensures
            r == self.spec_runner(),
    {
        self.runner
    }

    /// The collector's name.
    pub fn name(&self) -> (r: &'static str)
        ensures
            r@ == "pacman"@,
    {
        "pacman"
    }

    /// Reads the text of a package description into its fields.
    pub fn parse_alpm_content(&self, content: &str) -> (r: AlpmDescription)
        ensures
            r@ == alpm_fields(content@),
    {
        crate::alpm::read_alpm_description(content)
    }

    /// The package that a description's fields describe: for each text
    /// field the first value of its field, or an empty text; for the dates the
    /// first value of `BUILDDATE` and `INSTALLDATE` read as seconds, or 0
    /// where it is missing or not a number.
    pub fn parse_alpm_to_package(&self, fields: &AlpmDescription) -> (r: Package)
        ensures
            r@ == package_of(fields@),
    {
        Package {
            arch: first_value(fields, "ARCH"),
            name: first_value(fields, "NAME"),
            version: first_value(fields, "VERSION"),
            desc: first_value(fields, "DESC"),
            license: first_value(fields, "LICENSE"),
            build_date: date_value(fields, "BUILDDATE"),
            install_date: date_value(fields, "INSTALLDATE"),
        }
    }

    /// The paths of the description files of the package directories among
    /// `entries`, in their order: each directory's path joined with `desc`.
    /// Entries that are not directories are passed over.
    pub fn description_paths(&self, entries: &Vec<DirectoryEntry>) -> (r: Vec<Vec<u8>>)
        ensures
            r.deep_view() == description_paths_of(entries@),
    {
        let mut r: Vec<Vec<u8>> = Vec::new();
        let mut k: usize = 0;
        while k < entries.len()
            invariant
                k <= entries.len(),
                r.deep_view() == description_paths_of(entries@.take(k as int)),
            decreases entries.len() - k,
        {
            proof {
                assert(entries@.take(k + 1).drop_last() =~= entries@.take(k as int));
            }
            let ghost before = r.deep_view();
            if entries[k].is_dir {
                let path = description_path(&entries[k].path);
                proof {
                    assert(path.deep_view() =~= path@);
                }
                r.push(path);
                proof {
                    assert(r.deep_view() =~= before.push(
                        description_path_of(entries@[k as int].path@),
                    ));
                }
            }
            k += 1;
        }
        proof {
            assert(entries@.take(k as int) =~= entries@);
        }
        r
    }
}

/// The first value of the field `name`, or an empty text where the field is
/// missing or has no value.
pub open spec fn first_value_of(fields: Map<Seq<char>, Seq<Seq<char>>>, name: Seq<char>) -> Seq<
    char,
> {
    if fields.contains_key(name) && fields[name].len() > 0 {
        fields[name][0]
    } else {
        seq![]
    }
}

/// The first value of the field `name` read as a number, or 0.
pub open spec fn date_value_of(fields: Map<Seq<char>, Seq<Seq<char>>>, name: Seq<char>) -> u64 {
    match parse_u64(first_value_of(fields, name)) {
        Some(n) => n,
        None => 0,
    }
}

/// The package that a description's fields describe.
pub open spec fn package_of(fields: Map<Seq<char>, Seq<Seq<char>>>) -> PackageView {
    PackageView {
        name: first_value_of(fields, "NAME"@),
        version: first_value_of(fields, "VERSION"@),
        desc: first_value_of(fields, "DESC"@),
        arch: first_value_of(fields, "ARCH"@),
        license: first_value_of(fields, "LICENSE"@),
        build_date: date_value_of(fields, "BUILDDATE"@),
        install_date: date_value_of(fields, "INSTALLDATE"@),
    }
}

/// The bytes of the file name `desc`.
pub open spec fn desc_file_name() -> Seq<u8> {
    seq![0x64u8, 0x65u8, 0x73u8, 0x63u8]
}

/// `dir` joined with `desc`, as `Path::join` joins a relative name: with a
/// `/` between them unless `dir` is empty or already ends with one.
pub open spec fn description_path_of(dir: Seq<u8>) -> Seq<u8> {
    if dir.len() > 0 && dir.last() != 0x2fu8 {
        dir.push(0x2fu8) + desc_file_name()
    } else {
        dir + desc_file_name()
    }
}

/// The description paths of the directories among `entries`, in order.
pub open spec fn description_paths_of(entries: Seq<DirectoryEntry>) -> Seq<Seq<u8>>
    decreases entries.len(),
{
    if entries.len() == 0 {
        seq![]
    } else {
        let rest = description_paths_of(entries.drop_last());
        if entries.last().is_dir {
            rest.push(description_path_of(entries.last().path@))
        } else {
            rest
        }
    }
}

/// `dir` joined with `desc`.
fn description_path(dir: &Vec<u8>) -> (r: Vec<u8>)
    ensures
        r@ == description_path_of(dir@),
{
    let mut r = dir.clone();
    if dir.len() > 0 && dir[dir.len() - 1] != 0x2fu8 {
        r.push(0x2fu8);
    }
    r.push(0x64u8);
    r.push(0x65u8);
    r.push(0x73u8);
    r.push(0x63u8);
    proof {
        assert(r@ =~= description_path_of(dir@));
    }
    r
}

/// The first value of the field `name`, or an empty text.
fn first_value(fields: &AlpmDescription, name: &str) -> (r: String)
    ensures
        r@ == first_value_of(fields@, name@),
{
    match fields.get(name) {
        Some(values) => {
            if values.len() > 0 {
                proof {
                    assert(values.deep_view()[0] == values@[0]@);
                }
                values[0].clone()
            } else {
                String::new()
            }
        },
        None => String::new(),
    }
}

/// The first value of the field `name` read as a number of seconds, or 0.
fn date_value(fields: &AlpmDescription, name: &str) -> (r: u64)
    ensures
        r == date_value_of(fields@, name@),
{
    let text = first_value(fields, name);
    let cs = chars_of(text.as_str());
    proof {
        assert(cs@.subrange(0, cs@.len() as int) =~= cs@);
    }
    match parse_u64_range(&cs, 0, cs.len()) {
        Some(n) => n,
        None => 0,
    }
}

/// A text field as a section: its value as the one value line, or no value
/// line where the text is empty.
pub open spec fn text_section(name: Seq<char>, value: Seq<char>) -> (Seq<char>, Seq<Seq<char>>) {
    (name, if value.len() == 0 {
        seq![]
    } else {
        seq![value]
    })
}

/// A date as a section: its number of seconds in decimal digits.
pub open spec fn date_section(name: Seq<char>, seconds: u64) -> (Seq<char>, Seq<Seq<char>>) {
    (name, seq![decimal_text(seconds as nat)])
}

/// The sections of a description of the package `p`, one per field.
pub open spec fn package_sections(p: PackageView) -> Seq<(Seq<char>, Seq<Seq<char>>)> {
    seq![
        text_section("NAME"@, p.name),
        text_section("VERSION"@, p.version),
        text_section("DESC"@, p.desc),
        text_section("ARCH"@, p.arch),
        text_section("LICENSE"@, p.license),
        date_section("BUILDDATE"@, p.build_date),
        date_section("INSTALLDATE"@, p.install_date),
    ]
}

/// A text that a description can carry as a field: empty, or one value line.
pub open spec fn is_writable_text(v: Seq<char>) -> bool {
    v.len() == 0 || is_field_value(v)
}

/// A package written as a description, one section per field (its text
/// fields as written, its dates in decimal seconds), is read back by
/// `parse_alpm_content` and `parse_alpm_to_package` as the same package.
pub proof fn law_written_package_reads_back(p: PackageView)
    requires
        is_writable_text(p.name),
        is_writable_text(p.version),
        is_writable_text(p.desc),
        is_writable_text(p.arch),
        is_writable_text(p.license),
    ensures
        package_of(alpm_fields(description_text(package_sections(p)))) == p,
{
    reveal_strlit("NAME");
    reveal_strlit("VERSION");
    reveal_strlit("DESC");
    reveal_strlit("ARCH");
    reveal_strlit("LICENSE");
    reveal_strlit("BUILDDATE");
    reveal_strlit("INSTALLDATE");
    let secs = package_sections(p);
    lemma_decimal_text(p.build_date as nat);
    lemma_decimal_text(p.install_date as nat);
    assert forall|i: int| 0 <= i < secs.len() implies is_writable_section(#[trigger] secs[i]) by {
        let name = secs[i].0;
        assert forall|k: int| 0 <= k < name.len() implies #[trigger] name[k] != '\n' by {
            assert('A' <= name[k] <= 'Z');
        }
        assert(is_field_name(name));
        if i >= 5 {
            let d = secs[i].1[0];
            assert(is_digit(d[0]));
            assert(is_digit(d[d.len() - 1]));
            assert forall|k: int| 0 <= k < d.len() implies #[trigger] d[k] != '\n' by {
                assert(is_digit(d[k]));
            }
            assert(is_field_value(d));
        }
    }
    assert(distinct_names(secs));
    law_written_description_reads_back(secs);
    let fields = fields_of(secs);
    lemma_fields_of_entry(secs, 0);
    lemma_fields_of_entry(secs, 1);
    lemma_fields_of_entry(secs, 2);
    lemma_fields_of_entry(secs, 3);
    lemma_fields_of_entry(secs, 4);
    lemma_fields_of_entry(secs, 5);
    lemma_fields_of_entry(secs, 6);
    lemma_parse_decimal_text(p.build_date);
    lemma_parse_decimal_text(p.install_date);
    assert(package_of(fields) =~= p);
}

/// Whether a listing entry is a package directory.
pub open spec fn is_package_dir() -> spec_fn(DirectoryEntry) -> bool {
    |e: DirectoryEntry| e.is_dir
}

/// The description path of a listing entry.
pub open spec fn entry_description_path() -> spec_fn(DirectoryEntry) -> Seq<u8> {
    |e: DirectoryEntry| description_path_of(e.path@)
}

/// Every directory of a listing yields its description path, and nothing
/// else does: the paths are the directories of the listing, in order, each
/// joined with `desc`. So there are as many paths as directories, whatever
/// the length of the listing, and each directory's `desc` is among them.
pub proof fn law_every_directory_is_read(entries: Seq<DirectoryEntry>)
    ensures
        description_paths_of(entries) == entries.filter(is_package_dir()).map_values(
            entry_description_path(),
        ),
        description_paths_of(entries).len() == entries.filter(is_package_dir()).len(),
        forall|i: int|
            0 <= i < entries.len() && #[trigger] entries[i].is_dir ==> description_paths_of(
                entries,
            ).contains(description_path_of(entries[i].path@)),
    decreases entries.len(),
{
    reveal(Seq::filter);
    if entries.len() == 0 {
        assert(entries.filter(is_package_dir()) =~= Seq::<DirectoryEntry>::empty());
        assert(description_paths_of(entries) =~= entries.filter(is_package_dir()).map_values(
            entry_description_path(),
        ));
    } else {
        let init = entries.drop_last();
        let last = entries.last();
        law_every_directory_is_read(init);
        let dirs = init.filter(is_package_dir());
        if last.is_dir {
            assert(entries.filter(is_package_dir()) == dirs.push(last));
            assert(dirs.push(last).map_values(entry_description_path()) =~= dirs.map_values(
                entry_description_path(),
            ).push(description_path_of(last.path@)));
        } else {
            assert(entries.filter(is_package_dir()) == dirs);
        }
        let paths = description_paths_of(entries);
        let before = description_paths_of(init);
        assert forall|i: int|
            0 <= i < entries.len() && #[trigger] entries[i].is_dir implies paths.contains(
                description_path_of(entries[i].path@),
            ) by {
            if i < entries.len() - 1 {
                assert(entries[i] == init[i]);
                assert(init[i].is_dir);
                let j = choose|j: int|
                    0 <= j < before.len() && before[j] == description_path_of(init[i].path@);
                assert(paths[j] == before[j]);
            } else {
                assert(paths[paths.len() - 1] == description_path_of(last.path@));
            }
        }
    }
}

/// A text field of a package is the first value of its field in the
/// description, whatever the number of values, and empty where the field is
/// missing or has no value; the dates are the first values of `BUILDDATE`
/// and `INSTALLDATE` read as numbers.
pub proof fn law_package_takes_first_values(fields: Map<Seq<char>, Seq<Seq<char>>>)
    ensures
        forall|name: Seq<char>|
            #![trigger fields[name]]
            fields.contains_key(name) && fields[name].len() > 0 ==> {
                &&& name == "NAME"@ ==> package_of(fields).name == fields[name][0]
                &&& name == "VERSION"@ ==> package_of(fields).version == fields[name][0]
                &&& name == "DESC"@ ==> package_of(fields).desc == fields[name][0]
                &&& name == "ARCH"@ ==> package_of(fields).arch == fields[name][0]
                &&& name == "LICENSE"@ ==> package_of(fields).license == fields[name][0]
                &&& name == "BUILDDATE"@ ==> (package_of(fields).build_date == match parse_u64(
                    fields[name][0],
                ) {
                    Some(n) => n,
                    None => 0u64,
                })
                &&& name == "INSTALLDATE"@ ==> (package_of(fields).install_date == match parse_u64(
                    fields[name][0],
                ) {
                    Some(n) => n,
                    None => 0u64,
                })
            },
        !(fields.contains_key("NAME"@) && fields["NAME"@].len() > 0) ==> package_of(fields).name
            == Seq::<char>::empty(),
        !(fields.contains_key("VERSION"@) && fields["VERSION"@].len() > 0) ==> package_of(
            fields,
        ).version == Seq::<char>::empty(),
        !(fields.contains_key("DESC"@) && fields["DESC"@].len() > 0) ==> package_of(fields).desc
            == Seq::<char>::empty(),
        !(fields.contains_key("ARCH"@) && fields["ARCH"@].len() > 0) ==> package_of(fields).arch
            == Seq::<char>::empty(),
        !(fields.contains_key("LICENSE"@) && fields["LICENSE"@].len() > 0) ==> package_of(
            fields,
        ).license == Seq::<char>::empty(),
{
}

} // verus!
