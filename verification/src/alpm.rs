//! The ALPM package description format (pacman's `desc` files): sections
//! that start with a `%NAME%` header line, followed by value lines.
use vstd::prelude::*;

use crate::text::{
    chars_of, is_plain_line, is_single_line, lemma_lines_of_terminated, line_ranges, lines,
    range_texts, ranges_within, substring, terminated, trim_end, trim_matches, trim_range,
    trim_start, Strip,
};

verus! {

broadcast use vstd::string::group_string_axioms;

/// The map that a list of `(name, values)` entries gives; a later entry for
/// a name replaces an earlier one.
pub open spec fn fields_of(es: Seq<(Seq<char>, Seq<Seq<char>>)>) -> Map<
    Seq<char>,
    Seq<Seq<char>>,
>
    decreases es.len(),
{
    if es.len() == 0 {
        Map::empty()
    } else {
        fields_of(es.drop_last()).insert(es.last().0, es.last().1)
    }
}

/// No name stands twice among the entries.
pub open spec fn distinct_names(es: Seq<(Seq<char>, Seq<Seq<char>>)>) -> bool {
    forall|i: int, j: int| 0 <= i < j < es.len() ==> #[trigger] es[i].0 != #[trigger] es[j].0
}

pub proof fn lemma_fields_of_entry(es: Seq<(Seq<char>, Seq<Seq<char>>)>, i: int)
    requires
        distinct_names(es),
        0 <= i < es.len(),
    ensures
        fields_of(es).contains_key(es[i].0),
        fields_of(es)[es[i].0] == es[i].1,
    decreases es.len(),
{
    if i < es.len() - 1 {
        let rest = es.drop_last();
        assert(rest[i] == es[i]);
        assert(es[i].0 != es[es.len() - 1].0);
        lemma_fields_of_entry(rest, i);
    }
}

pub proof fn lemma_fields_of_absent(es: Seq<(Seq<char>, Seq<Seq<char>>)>, name: Seq<char>)
    requires
        forall|i: int| 0 <= i < es.len() ==> #[trigger] es[i].0 != name,
    ensures
        !fields_of(es).contains_key(name),
    decreases es.len(),
{
    if es.len() > 0 {
        let rest = es.drop_last();
        assert forall|i: int| 0 <= i < rest.len() implies #[trigger] rest[i].0 != name by {
            assert(rest[i] == es[i]);
        }
        assert(es[es.len() - 1].0 != name);
        lemma_fields_of_absent(rest, name);
    }
}

pub proof fn lemma_fields_of_update(
    es: Seq<(Seq<char>, Seq<Seq<char>>)>,
    i: int,
    values: Seq<Seq<char>>,
)
    requires
        distinct_names(es),
        0 <= i < es.len(),
    ensures
        fields_of(es.update(i, (es[i].0, values))) == fields_of(es).insert(es[i].0, values),
    decreases es.len(),
{
    let updated = es.update(i, (es[i].0, values));
    if i == es.len() - 1 {
        assert(updated.drop_last() =~= es.drop_last());
        assert(fields_of(updated) =~= fields_of(es).insert(es[i].0, values));
    } else {
        let rest = es.drop_last();
        assert(rest[i] == es[i]);
        assert(updated.drop_last() =~= rest.update(i, (es[i].0, values)));
        assert(es[i].0 != es[es.len() - 1].0);
        lemma_fields_of_update(rest, i, values);
        assert(fields_of(updated) =~= fields_of(es).insert(es[i].0, values));
    }
}

/// The fields of a package description: each field name mapped to its value
/// lines, in the order they came. Each name stands once.
pub struct AlpmDescription {
    entries: Vec<(String, Vec<String>)>,
}

impl View for AlpmDescription {
    type V = Map<Seq<char>, Seq<Seq<char>>>;

    closed spec fn view(&self) -> Map<Seq<char>, Seq<Seq<char>>> {
        fields_of(self.entries.deep_view())
    }
}

impl AlpmDescription {
    #[verifier::type_invariant]
    spec fn names_are_distinct(self) -> bool {
        distinct_names(self.entries.deep_view())
    }

    /// A description without fields.
    pub fn new() -> (r: AlpmDescription)
        ensures
            r@ == Map::<Seq<char>, Seq<Seq<char>>>::empty(),
    {
        let r = AlpmDescription { entries: Vec::new() };
        proof {
            assert(r.entries.deep_view() =~= Seq::<(Seq<char>, Seq<Seq<char>>)>::empty());
        }
        r
    }

    /// Sets the values of the field `name`, replacing those it had.
    pub fn insert(&mut self, name: String, values: Vec<String>)
        ensures
            final(self)@ == old(self)@.insert(name@, values.deep_view()),
    {
        proof {
            use_type_invariant(&*self);
        }
        let mut entries: Vec<(String, Vec<String>)> = Vec::new();
        std::mem::swap(&mut entries, &mut self.entries);
        let ghost es = entries.deep_view();
        let ghost vs = values.deep_view();
        let mut i: usize = 0;
        while i < entries.len()
            invariant
                i <= entries.len(),
                es == entries.deep_view(),
                es == old(self).entries.deep_view(),
                vs == values.deep_view(),
                distinct_names(es),
                forall|j: int| 0 <= j < i ==> #[trigger] es[j].0 != name@,
            decreases entries.len() - i,
        {
            proof {
                assert(es[i as int] == entries@[i as int].deep_view());
            }
            if entries[i].0 == name {
                proof {
                    lemma_fields_of_update(es, i as int, vs);
                }
                let ghost prev = entries@;
                let ghost entry = (name, values);
                entries.set(i, (name, values));
                proof {
                    assert(entries@ == prev.update(i as int, entry));
                    assert(entry.deep_view() == (es[i as int].0, vs));
                    assert forall|j: int| 0 <= j < es.len() implies #[trigger] entries.deep_view()[j]
                        == es.update(i as int, (es[i as int].0, vs))[j] by {
                        if j != i {
                            assert(entries@[j] == prev[j]);
                        }
                    }
                    assert(entries.deep_view() =~= es.update(i as int, (es[i as int].0, vs)));
                    assert(distinct_names(entries.deep_view()));
                }
                self.entries = entries;
                return;
            }
            i += 1;
        }
        entries.push((name, values));
        proof {
            assert(entries.deep_view() =~= es.push((name@, vs)));
            assert(entries.deep_view().drop_last() =~= es);
            assert(distinct_names(entries.deep_view()));
        }
        self.entries = entries;
    }

    /// The values of the field `name`, if the description has that field.
    pub fn get(&self, name: &str) -> (r: Option<&Vec<String>>)
        ensures
            match r {
                Some(values) => self@.contains_key(name@) && values.deep_view() == self@[name@],
                None => !self@.contains_key(name@),
            },
    {
        proof {
            use_type_invariant(self);
        }
        let ghost es = self.entries.deep_view();
        let wanted = name.to_owned();
        let mut i: usize = 0;
        while i < self.entries.len()
            invariant
                i <= self.entries.len(),
                es == self.entries.deep_view(),
                distinct_names(es),
                wanted@ == name@,
                forall|j: int| 0 <= j < i ==> #[trigger] es[j].0 != name@,
            decreases self.entries.len() - i,
        {
            proof {
                assert(es[i as int] == self.entries@[i as int].deep_view());
            }
            if self.entries[i].0 == wanted {
                proof {
                    lemma_fields_of_entry(es, i as int);
                }
                return Some(&self.entries[i].1);
            }
            i += 1;
        }
        proof {
            lemma_fields_of_absent(es, name@);
        }
        None
    }
}

/// Whether a line opens a section: it starts and ends with `%`.
pub open spec fn is_section_header(line: Seq<char>) -> bool {
    line.len() > 0 && line[0] == '%' && line.last() == '%'
}

/// Where the reading of a description stands: the fields read so far, the
/// field whose section is open, and the value lines read for it.
#[verifier::ext_equal]
pub struct AlpmReading {
    pub fields: Map<Seq<char>, Seq<Seq<char>>>,
    pub current: Option<Seq<char>>,
    pub values: Seq<Seq<char>>,
}

/// Nothing read yet.
pub open spec fn alpm_start() -> AlpmReading {
    AlpmReading { fields: Map::empty(), current: None, values: seq![] }
}

/// The fields once the open section, if any, is closed.
pub open spec fn close_section(st: AlpmReading) -> Map<Seq<char>, Seq<Seq<char>>> {
    match st.current {
        Some(name) => st.fields.insert(name, st.values),
        None => st.fields,
    }
}

/// One line of a description: empty lines are skipped; a header closes the
/// open section and opens one named by the header without its `%`s; any
/// other line is a value of the open section, and is dropped where no
/// section is open.
pub open spec fn alpm_line(st: AlpmReading, line: Seq<char>) -> AlpmReading {
    if line.len() == 0 {
        st
    } else if is_section_header(line) {
        AlpmReading {
            fields: close_section(st),
            current: Some(trim_matches(line, '%')),
            values: seq![],
        }
    } else if st.current is Some {
        AlpmReading { values: st.values.push(line), ..st }
    } else {
        st
    }
}

/// Where the reading stands after the lines `ls`, read from `st`.
pub open spec fn alpm_run(st: AlpmReading, ls: Seq<Seq<char>>) -> AlpmReading
    decreases ls.len(),
{
    if ls.len() == 0 {
        st
    } else {
        alpm_line(alpm_run(st, ls.drop_last()), ls.last())
    }
}

/// Where the reading stands after the lines `ls`.
pub open spec fn alpm_lines(ls: Seq<Seq<char>>) -> AlpmReading {
    alpm_run(alpm_start(), ls)
}

/// The fields of a description with the text `content`.
pub open spec fn alpm_fields(content: Seq<char>) -> Map<Seq<char>, Seq<Seq<char>>> {
    close_section(alpm_lines(lines(content)))
}

/// What the exec state of a reading stands for.
pub open spec fn reading_of(
    desc: AlpmDescription,
    current: Option<String>,
    values: Vec<String>,
) -> AlpmReading {
    AlpmReading { fields: desc@, current: current.deep_view(), values: values.deep_view() }
}

/// Reads the text of a package description into its fields.
pub(crate) fn read_alpm_description(content: &str) -> (r: AlpmDescription)
    ensures
        r@ == alpm_fields(content@),
{
    let cs = chars_of(content);
    let ranges = line_ranges(&cs);
    let ghost ls = lines(cs@);
    let mut desc = AlpmDescription::new();
    let mut current: Option<String> = None;
    let mut values: Vec<String> = Vec::new();
    proof {
        assert(values.deep_view() =~= Seq::<Seq<char>>::empty());
        assert(reading_of(desc, current, values) =~= alpm_lines(ls.take(0)));
    }
    let mut k: usize = 0;
    while k < ranges.len()
        invariant
            k <= ranges.len(),
            ls == lines(cs@),
            ranges_within(cs@, ranges@),
            range_texts(cs@, ranges@) == ls,
            reading_of(desc, current, values) == alpm_lines(ls.take(k as int)),
        decreases ranges.len() - k,
    {
        let (lo, hi) = ranges[k];
        let ghost line = ls[k as int];
        let ghost before = reading_of(desc, current, values);
        proof {
            assert(line == cs@.subrange(lo as int, hi as int));
            assert(ls.take(k + 1).drop_last() =~= ls.take(k as int));
            assert(ls.take(k + 1).last() == line);
            if lo < hi {
                assert(line[0] == cs@[lo as int]);
                assert(line.last() == cs@[hi - 1]);
            }
        }
        if lo == hi {
        } else if cs[lo] == '%' && cs[hi - 1] == '%' {
            let (a, b) = trim_range(&cs, lo, hi, Strip::Char('%'));
            let name = substring(&cs, a, b);
            let finished = values;
            values = Vec::new();
            if let Some(field) = current {
                desc.insert(field, finished);
            }
            current = Some(name);
            proof {
                assert(values.deep_view() =~= Seq::<Seq<char>>::empty());
                assert(reading_of(desc, current, values) =~= alpm_line(before, line));
            }
        } else if current.is_some() {
            let value = substring(&cs, lo, hi);
            values.push(value);
            proof {
                assert(values.deep_view() =~= before.values.push(line));
                assert(reading_of(desc, current, values) =~= alpm_line(before, line));
            }
        }
        k += 1;
    }
    proof {
        assert(ls.take(k as int) =~= ls);
    }
    if let Some(field) = current {
        desc.insert(field, values);
    }
    desc
}

/// The header line of the section `name`: `%name%`.
pub open spec fn section_header(name: Seq<char>) -> Seq<char> {
    seq!['%'] + name + seq!['%']
}

/// The lines of a section as the description format writes it: its header,
/// its values, and an empty line.
pub open spec fn section_lines(name: Seq<char>, values: Seq<Seq<char>>) -> Seq<Seq<char>> {
    seq![section_header(name)] + values + seq![Seq::<char>::empty()]
}

/// The lines of the sections `secs`, one section after another.
pub open spec fn sections_lines(secs: Seq<(Seq<char>, Seq<Seq<char>>)>) -> Seq<Seq<char>>
    decreases secs.len(),
{
    if secs.len() == 0 {
        seq![]
    } else {
        sections_lines(secs.drop_last()) + section_lines(secs.last().0, secs.last().1)
    }
}

/// The text of a description with the sections `secs`, each line followed by
/// a line break.
pub open spec fn description_text(secs: Seq<(Seq<char>, Seq<Seq<char>>)>) -> Seq<char> {
    terminated(sections_lines(secs))
}

/// A field name that the format can carry: on one line, and neither starting
/// nor ending with `%`.
pub open spec fn is_field_name(name: Seq<char>) -> bool {
    &&& is_single_line(name)
    &&& name.len() > 0 ==> name[0] != '%' && name.last() != '%'
}

/// A value line that the format can carry: not empty, a plain line, and not
/// a section header.
pub open spec fn is_field_value(value: Seq<char>) -> bool {
    &&& value.len() > 0
    &&& is_plain_line(value)
    &&& !is_section_header(value)
}

/// A section that the format can carry.
pub open spec fn is_writable_section(sec: (Seq<char>, Seq<Seq<char>>)) -> bool {
    &&& is_field_name(sec.0)
    &&& forall|k: int| 0 <= k < sec.1.len() ==> is_field_value(#[trigger] sec.1[k])
}

pub proof fn lemma_alpm_run_append(st: AlpmReading, a: Seq<Seq<char>>, b: Seq<Seq<char>>)
    ensures
        alpm_run(st, a + b) == alpm_run(alpm_run(st, a), b),
    decreases b.len(),
{
    if b.len() == 0 {
        assert(a + b =~= a);
    } else {
        assert((a + b).drop_last() =~= a + b.drop_last());
        assert((a + b).last() == b.last());
        lemma_alpm_run_append(st, a, b.drop_last());
    }
}

proof fn lemma_header_name(name: Seq<char>)
    requires
        is_field_name(name),
    ensures
        is_section_header(section_header(name)),
        trim_matches(section_header(name), '%') == name,
{
    let h = section_header(name);
    let p = Strip::Char('%');
    let tail = name + seq!['%'];
    assert(h.drop_first() =~= tail);
    assert(trim_start(h, p) == trim_start(tail, p));
    if name.len() > 0 {
        assert(tail[0] == name[0]);
        assert(trim_start(tail, p) == tail);
        assert(tail.drop_last() =~= name);
        assert(trim_end(tail, p) == trim_end(name, p));
        assert(trim_end(name, p) == name);
    } else {
        assert(tail =~= seq!['%']);
        assert(tail[0] == '%');
        assert(tail.drop_first() =~= Seq::<char>::empty());
        assert(trim_start(tail.drop_first(), p) =~= Seq::<char>::empty());
        assert(trim_start(tail, p) =~= Seq::<char>::empty());
    }
}

proof fn lemma_values_run(
    fields: Map<Seq<char>, Seq<Seq<char>>>,
    name: Seq<char>,
    values: Seq<Seq<char>>,
)
    requires
        forall|k: int| 0 <= k < values.len() ==> is_field_value(#[trigger] values[k]),
    ensures
        alpm_run(AlpmReading { fields, current: Some(name), values: seq![] }, values)
            == (AlpmReading { fields, current: Some(name), values }),
    decreases values.len(),
{
    if values.len() > 0 {
        let init = values.drop_last();
        assert forall|k: int| 0 <= k < init.len() implies is_field_value(#[trigger] init[k]) by {
            assert(init[k] == values[k]);
        }
        lemma_values_run(fields, name, init);
        assert(is_field_value(values[values.len() - 1]));
        assert(init.push(values.last()) =~= values);
    } else {
        assert(values =~= Seq::<Seq<char>>::empty());
    }
}

/// Reading one written section, from any point of a reading, closes the
/// section that was open and leaves the new one open with all its values.
proof fn lemma_section_run(st: AlpmReading, sec: (Seq<char>, Seq<Seq<char>>))
    requires
        is_writable_section(sec),
    ensures
        alpm_run(st, section_lines(sec.0, sec.1)) == (AlpmReading {
            fields: close_section(st),
            current: Some(sec.0),
            values: sec.1,
        }),
{
    let header = section_header(sec.0);
    lemma_header_name(sec.0);
    let opened = AlpmReading { fields: close_section(st), current: Some(sec.0), values: seq![] };
    assert(alpm_line(st, header) == opened);
    assert(seq![header].drop_last() =~= Seq::<Seq<char>>::empty());
    assert(seq![header].last() == header);
    assert(alpm_run(st, seq![header].drop_last()) == st);
    assert(alpm_run(st, seq![header]) == opened);
    lemma_alpm_run_append(st, seq![header], sec.1);
    lemma_values_run(close_section(st), sec.0, sec.1);
    let blank = seq![Seq::<char>::empty()];
    let filled = AlpmReading { fields: close_section(st), current: Some(sec.0), values: sec.1 };
    assert(alpm_run(st, seq![header] + sec.1) == filled);
    lemma_alpm_run_append(st, seq![header] + sec.1, blank);
    assert(blank.drop_last() =~= Seq::<Seq<char>>::empty());
    assert(blank.last() == Seq::<char>::empty());
    assert(alpm_run(filled, blank.drop_last()) == filled);
    assert(alpm_run(filled, blank) == filled);
    assert(section_lines(sec.0, sec.1) =~= seq![header] + sec.1 + blank);
}

proof fn lemma_sections_run(secs: Seq<(Seq<char>, Seq<Seq<char>>)>)
    requires
        forall|i: int| 0 <= i < secs.len() ==> is_writable_section(#[trigger] secs[i]),
    ensures
        close_section(alpm_lines(sections_lines(secs))) == fields_of(secs),
    decreases secs.len(),
{
    if secs.len() == 0 {
        assert(close_section(alpm_lines(sections_lines(secs))) =~= fields_of(secs));
    } else {
        let init = secs.drop_last();
        assert forall|i: int| 0 <= i < init.len() implies is_writable_section(
            #[trigger] init[i],
        ) by {
            assert(init[i] == secs[i]);
        }
        lemma_sections_run(init);
        let last = secs.last();
        assert(is_writable_section(secs[secs.len() - 1]));
        lemma_alpm_run_append(
            alpm_start(),
            sections_lines(init),
            section_lines(last.0, last.1),
        );
        lemma_section_run(alpm_lines(sections_lines(init)), last);
    }
}

proof fn lemma_sections_lines_plain(secs: Seq<(Seq<char>, Seq<Seq<char>>)>)
    requires
        forall|i: int| 0 <= i < secs.len() ==> is_writable_section(#[trigger] secs[i]),
    ensures
        forall|k: int|
            0 <= k < sections_lines(secs).len() ==> is_plain_line(
                #[trigger] sections_lines(secs)[k],
            ),
    decreases secs.len(),
{
    if secs.len() > 0 {
        let init = secs.drop_last();
        assert forall|i: int| 0 <= i < init.len() implies is_writable_section(
            #[trigger] init[i],
        ) by {
            assert(init[i] == secs[i]);
        }
        lemma_sections_lines_plain(init);
        let last = secs.last();
        assert(is_writable_section(secs[secs.len() - 1]));
        let header = section_header(last.0);
        assert forall|k: int| 0 <= k < header.len() implies #[trigger] header[k] != '\n' by {
            if 0 < k < header.len() - 1 {
                assert(header[k] == last.0[k - 1]);
            }
        }
        let ls = sections_lines(secs);
        let a = sections_lines(init);
        let s = section_lines(last.0, last.1);
        assert(ls == a + s);
        assert forall|k: int| 0 <= k < ls.len() implies is_plain_line(#[trigger] ls[k]) by {
            if k < a.len() {
                assert(ls[k] == a[k]);
            } else if k == a.len() {
                assert(ls[k] == header);
            } else if k < a.len() + 1 + last.1.len() {
                assert(ls[k] == last.1[k - a.len() - 1]);
            } else {
                assert(ls[k] == Seq::<char>::empty());
            }
        }
    }
}

/// A description written in the format, section after section (a `%name%`
/// header, the value lines, an empty line), is read back as exactly those
/// fields with their values in order; where a name is written twice, its
/// last section is the one read.
pub proof fn law_written_description_reads_back(secs: Seq<(Seq<char>, Seq<Seq<char>>)>)
    requires
        forall|i: int| 0 <= i < secs.len() ==> is_writable_section(#[trigger] secs[i]),
    ensures
        alpm_fields(description_text(secs)) == fields_of(secs),
{
    lemma_sections_lines_plain(secs);
    lemma_lines_of_terminated(sections_lines(secs));
    lemma_sections_run(secs);
}

} // verus!
