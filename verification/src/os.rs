//! The operating system's identification, read from an os-release file.
use vstd::prelude::*;

use crate::text::{
    chars_of, find_char, find_in_range, is_single_line, is_whitespace, is_whole_lines,
    lemma_find_char, lemma_lines_append, lemma_trim_end_keeps, lemma_trim_unchanged, line_ranges, lines, range_equals,
    substring, trim, trim_matches, trim_range, Strip,
};

verus! {

broadcast use vstd::string::group_string_axioms;

/// The fields of an os-release file that the scanner keeps.
#[derive(Debug)]
pub struct OsInfo {
    name: String,
    pretty_name: String,
    id: String,
    build_id: String,
}

/// What an `OsInfo` holds, as texts.
#[verifier::ext_equal]
pub struct OsInfoView {
    pub name: Seq<char>,
    pub pretty_name: Seq<char>,
    pub id: Seq<char>,
    pub build_id: Seq<char>,
}

impl View for OsInfo {
    type V = OsInfoView;

    closed spec fn view(&self) -> OsInfoView {
        OsInfoView {
            name: self.name@,
            pretty_name: self.pretty_name@,
            id: self.id@,
            build_id: self.build_id@,
        }
    }
}

/// An `OsInfo` with every field empty.
pub open spec fn empty_os_info() -> OsInfoView {
    OsInfoView { name: seq![], pretty_name: seq![], id: seq![], build_id: seq![] }
}

impl Default for OsInfo {
    fn default() -> (r: OsInfo)
        ensures
            r@ == empty_os_info(),
    {
        OsInfo {
            name: String::new(),
            pretty_name: String::new(),
            id: String::new(),
            build_id: String::new(),
        }
    }
}

impl OsInfo {
    /// An `OsInfo` with the given fields.
    pub fn new(name: String, pretty_name: String, id: String, build_id: String) -> (r: OsInfo)
        ensures
            r@ == (OsInfoView {
                name: name@,
                pretty_name: pretty_name@,
                id: id@,
                build_id: build_id@,
            }),
    {
        OsInfo { name, pretty_name, id, build_id }
    }

    /// The `NAME` of the system.
    pub fn name(&self) -> (r: &str)
        ensures
            r@ == self@.name,
    {
        self.name.as_str()
    }

    /// The `PRETTY_NAME` of the system.
    pub fn pretty_name(&self) -> (r: &str)
        ensures
            r@ == self@.pretty_name,
    {
        self.pretty_name.as_str()
    }

    /// The `ID` of the system.
    pub fn id(&self) -> (r: &str)
        ensures
            r@ == self@.id,
    {
        self.id.as_str()
    }

    /// The `BUILD_ID` of the system.
    pub fn build_id(&self) -> (r: &str)
        ensures
            r@ == self@.build_id,
    {
        self.build_id.as_str()
    }
}

/// The key of an assignment line: what stands before its first `=`.
pub open spec fn assignment_key(t: Seq<char>) -> Seq<char> {
    t.take(find_char(t, '=') as int)
}

/// The value of an assignment line: what follows its first `=`, trimmed of
/// white space and then of double quotes.
pub open spec fn assignment_value(t: Seq<char>) -> Seq<char> {
    trim_matches(trim(t.skip(find_char(t, '=') as int + 1)), '"')
}

/// Whether a trimmed line assigns a value: it is not empty, is not a comment
/// and holds an `=`.
pub open spec fn is_assignment(t: Seq<char>) -> bool {
    t.len() > 0 && t[0] != '#' && find_char(t, '=') < t.len()
}

/// `info` with the field that `key` names set to `value`, where `key` is one
/// of `NAME`, `PRETTY_NAME`, `ID` and `BUILD_ID`; `info` unchanged for any
/// other key.
pub open spec fn with_field(info: OsInfoView, key: Seq<char>, value: Seq<char>) -> OsInfoView {
    if key == "NAME"@ {
        OsInfoView { name: value, ..info }
    } else if key == "PRETTY_NAME"@ {
        OsInfoView { pretty_name: value, ..info }
    } else if key == "ID"@ {
        OsInfoView { id: value, ..info }
    } else if key == "BUILD_ID"@ {
        OsInfoView { build_id: value, ..info }
    } else {
        info
    }
}

/// `info` after one line of an os-release file: an assignment to `NAME`,
/// `PRETTY_NAME`, `ID` or `BUILD_ID` replaces that field; every other line
/// leaves `info` as it was.
pub open spec fn os_release_line(info: OsInfoView, line: Seq<char>) -> OsInfoView {
    let t = trim(line);
    if !is_assignment(t) {
        info
    } else {
        with_field(info, assignment_key(t), assignment_value(t))
    }
}

/// The fields that the lines `ls`, read in order, give.
pub open spec fn os_release_lines(ls: Seq<Seq<char>>) -> OsInfoView
    decreases ls.len(),
{
    if ls.len() == 0 {
        empty_os_info()
    } else {
        os_release_line(os_release_lines(ls.drop_last()), ls.last())
    }
}

/// The fields that an os-release file with the text `content` gives.
pub open spec fn os_release(content: Seq<char>) -> OsInfoView {
    os_release_lines(lines(content))
}

/// Reads the text of an os-release file. Each line is trimmed; empty lines,
/// comments and lines without `=` are skipped; for `NAME`, `PRETTY_NAME`, `ID`
/// and `BUILD_ID` the last assignment wins, its value trimmed of white space
/// and then of double quotes. It never fails.
pub fn parse_os_release(content: &str) -> (r: Result<OsInfo, std::io::Error>)
    ensures
        r matches Ok(info) && info@ == os_release(content@),
{
    let cs = chars_of(content);
    let ranges = line_ranges(&cs);
    let name_key = chars_of("NAME");
    let pretty_name_key = chars_of("PRETTY_NAME");
    let id_key = chars_of("ID");
    let build_id_key = chars_of("BUILD_ID");
    let ghost ls = lines(cs@);
    let mut info = OsInfo::default();
    let mut k: usize = 0;
    while k < ranges.len()
        invariant
            k <= ranges.len(),
            ls == lines(cs@),
            crate::text::ranges_within(cs@, ranges@),
            crate::text::range_texts(cs@, ranges@) == ls,
            name_key@ == "NAME"@,
            pretty_name_key@ == "PRETTY_NAME"@,
            id_key@ == "ID"@,
            build_id_key@ == "BUILD_ID"@,
            info@ == os_release_lines(ls.take(k as int)),
        decreases ranges.len() - k,
    {
        let (lo, hi) = ranges[k];
        let ghost line = ls[k as int];
        let ghost before = info@;
        proof {
            assert(line == cs@.subrange(lo as int, hi as int));
            assert(ls.take(k + 1).drop_last() =~= ls.take(k as int));
            assert(ls.take(k + 1).last() == line);
        }
        let (a, b) = trim_range(&cs, lo, hi, Strip::Whitespace);
        let ghost t = trim(line);
        proof {
            assert(t == cs@.subrange(a as int, b as int));
            if a < b {
                assert(t[0] == cs@[a as int]);
            }
        }
        if a < b && cs[a] != '#' {
            let eq = find_in_range(&cs, a, b, '=');
            if eq < b {
                let (va, vb) = trim_range(&cs, eq + 1, b, Strip::Whitespace);
                let (qa, qb) = trim_range(&cs, va, vb, Strip::Char('"'));
                proof {
                    assert(assignment_key(t) =~= cs@.subrange(a as int, eq as int));
                    assert(t.skip(eq - a + 1) =~= cs@.subrange(eq + 1, b as int));
                    assert(assignment_value(t) == cs@.subrange(qa as int, qb as int));
                    assert(is_assignment(t));
                }
                if range_equals(&cs, a, eq, &name_key) {
                    info.name = substring(&cs, qa, qb);
                } else if range_equals(&cs, a, eq, &pretty_name_key) {
                    info.pretty_name = substring(&cs, qa, qb);
                } else if range_equals(&cs, a, eq, &id_key) {
                    info.id = substring(&cs, qa, qb);
                } else if range_equals(&cs, a, eq, &build_id_key) {
                    info.build_id = substring(&cs, qa, qb);
                }
            } else {
                proof {
                    assert(!is_assignment(t));
                }
            }
        }
        proof {
            assert(info@ =~= os_release_line(before, line));
        }
        k += 1;
    }
    proof {
        assert(ls.take(k as int) =~= ls);
    }
    Ok(info)
}

/// An os-release file is read line by line: the fields that a file gives
/// once one more line is written at its end are those that its earlier lines
/// gave, updated by that line alone. So an assignment on a later line wins
/// over one on an earlier line.
pub proof fn law_os_release_reads_line_by_line(before: Seq<char>, line: Seq<char>)
    requires
        is_whole_lines(before),
        is_single_line(line),
    ensures
        os_release(before + line) == os_release_line(os_release(before), line),
{
    lemma_lines_append(before, line);
    if line.len() == 0 {
        assert(before + line =~= before);
        assert(trim(line) =~= line);
        assert(lines(before) + lines(line) =~= lines(before));
    } else {
        lemma_find_char(line, '\n', line.len() as int);
        assert(lines(line) == seq![line]);
        let ls = lines(before + line);
        assert(ls =~= lines(before).push(line));
        assert(ls.drop_last() =~= lines(before));
    }
}

/// One of the keys that the scanner keeps.
pub open spec fn is_known_key(key: Seq<char>) -> bool {
    key == "NAME"@ || key == "PRETTY_NAME"@ || key == "ID"@ || key == "BUILD_ID"@
}

/// A value that reads back as it is written: on one line, and neither
/// starting nor ending with white space or a double quote.
pub open spec fn is_plain_value(v: Seq<char>) -> bool {
    &&& is_single_line(v)
    &&& v.len() > 0 ==> {
        &&& !is_whitespace(v[0])
        &&& v[0] != '"'
        &&& !is_whitespace(v.last())
        &&& v.last() != '"'
    }
}

/// An assignment `KEY=value` written at the end of an os-release file, for a
/// key that the scanner keeps and a plain value, is read back as exactly that
/// value, whatever earlier lines assigned; the other fields stay as the
/// earlier lines gave them.
pub proof fn law_written_assignment_reads_back(
    before: Seq<char>,
    key: Seq<char>,
    value: Seq<char>,
)
    requires
        is_whole_lines(before),
        is_known_key(key),
        is_plain_value(value),
    ensures
        os_release(before + (key + seq!['='] + value)) == with_field(
            os_release(before),
            key,
            value,
        ),
{
    reveal_strlit("NAME");
    reveal_strlit("PRETTY_NAME");
    reveal_strlit("ID");
    reveal_strlit("BUILD_ID");
    let line = key + seq!['='] + value;
    let n = key.len() as int;
    assert(forall|k: int| 0 <= k < n ==> #[trigger] key[k] != '=' && key[k] != '\n');
    assert(forall|k: int| 0 <= k < n ==> !is_whitespace(#[trigger] key[k]));
    assert(key[0] != '#');
    assert forall|k: int| 0 <= k < line.len() implies #[trigger] line[k] != '\n' by {
        if k < n {
            assert(line[k] == key[k]);
        } else if k > n {
            assert(line[k] == value[k - n - 1]);
        }
    }
    law_os_release_reads_line_by_line(before, line);
    assert(line[0] == key[0]);
    if value.len() > 0 {
        assert(line.last() == value.last());
    } else {
        assert(line.last() == '=');
    }
    lemma_trim_unchanged(line, Strip::Whitespace);
    assert forall|k: int| 0 <= k < n implies line[k] != '=' by {
        assert(line[k] == key[k]);
    }
    lemma_find_char(line, '=', n);
    assert(line.take(n) =~= key);
    assert(line.skip(n + 1) =~= value);
    lemma_trim_unchanged(value, Strip::Whitespace);
    lemma_trim_unchanged(value, Strip::Char('"'));
}

/// Setting a field by a key that is not exactly `NAME`, `PRETTY_NAME`, `ID` or
/// `BUILD_ID` changes nothing.
pub proof fn law_only_known_keys_set_fields(info: OsInfoView, key: Seq<char>, value: Seq<char>)
    requires
        key != "NAME"@,
        key != "PRETTY_NAME"@,
        key != "ID"@,
        key != "BUILD_ID"@,
    ensures
        with_field(info, key, value) == info,
{
}

/// A line `key=value` written at the end of an os-release file, whose key is
/// not exactly one of `NAME`, `PRETTY_NAME`, `ID` and `BUILD_ID` (such as
/// `ID_LIKE` or `VERSION_ID`), leaves every field as the earlier lines gave
/// it, whatever the value.
pub proof fn law_other_keys_are_ignored(before: Seq<char>, key: Seq<char>, value: Seq<char>)
    requires
        is_whole_lines(before),
        is_single_line(key),
        is_single_line(value),
        forall|k: int| 0 <= k < key.len() ==> #[trigger] key[k] != '=',
        key.len() > 0 ==> !is_whitespace(key[0]),
        key != "NAME"@,
        key != "PRETTY_NAME"@,
        key != "ID"@,
        key != "BUILD_ID"@,
    ensures
        os_release(before + (key + seq!['='] + value)) == os_release(before),
{
    let line = key + seq!['='] + value;
    let n = key.len() as int;
    assert forall|k: int| 0 <= k < line.len() implies #[trigger] line[k] != '\n' by {
        if k < n {
            assert(line[k] == key[k]);
        } else if k > n {
            assert(line[k] == value[k - n - 1]);
        }
    }
    law_os_release_reads_line_by_line(before, line);
    let ws = Strip::Whitespace;
    assert(line[n] == '=');
    if n > 0 {
        assert(line[0] == key[0]);
    }
    assert(!ws.removes(line[0]));
    assert(line.drop_first().len() + 1 == line.len());
    assert(crate::text::trim_start(line, ws) == line);
    lemma_trim_end_keeps(line, ws, n);
    let t = trim(line);
    assert(t.len() > n);
    assert(t == line.take(t.len() as int));
    assert forall|k: int| 0 <= k <= n implies t[k] == line[k] by {
        assert(line.take(t.len() as int)[k] == line[k]);
    }
    assert forall|k: int| 0 <= k < n implies t[k] != '=' by {
        assert(t[k] == line[k]);
        assert(line[k] == key[k]);
    }
    assert(t[n] == line[n]);
    lemma_find_char(t, '=', n);
    assert(t.take(n) =~= key);
    assert(os_release_line(os_release(before), line) == os_release(before));
}

} // verus!
