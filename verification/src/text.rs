//! Character-level text handling shared by the file-format readers:
//! line splitting, trimming and searching, stated over `Seq<char>`.
use vstd::prelude::*;

verus! {

broadcast use vstd::string::group_string_axioms;

/// Unicode `White_Space` characters, the set that `char::is_whitespace` and
/// `str::trim` go by.
pub open spec fn is_whitespace(c: char) -> bool {
    let v = c as u32;
    ||| 0x9 <= v <= 0xd
    ||| v == 0x20
    ||| v == 0x85
    ||| v == 0xa0
    ||| v == 0x1680
    ||| 0x2000 <= v <= 0x200a
    ||| v == 0x2028
    ||| v == 0x2029
    ||| v == 0x202f
    ||| v == 0x205f
    ||| v == 0x3000
}

/// Which characters a trim removes from both ends of a text.
#[derive(Clone, Copy)]
pub enum Strip {
    /// Unicode white space, as `str::trim` removes.
    Whitespace,
    /// One given character, as `str::trim_matches(c)` removes.
    Char(char),
}

impl Strip {
    pub open spec fn removes(self, c: char) -> bool {
        match self {
            Strip::Whitespace => is_whitespace(c),
            Strip::Char(q) => c == q,
        }
    }

    pub fn removes_char(&self, c: char) -> (b: bool)
        ensures
            b == self.removes(c),
    {
        match self {
            Strip::Whitespace => {
                let v = c as u32;
                (0x9 <= v && v <= 0xd) || v == 0x20 || v == 0x85 || v == 0xa0 || v == 0x1680 || (
                0x2000 <= v && v <= 0x200a) || v == 0x2028 || v == 0x2029 || v == 0x202f || v
                    == 0x205f || v == 0x3000
            },
            Strip::Char(q) => c == *q,
        }
    }
}

/// `s` without the characters that `strip` removes from its front.
pub open spec fn trim_start(s: Seq<char>, strip: Strip) -> Seq<char>
    decreases s.len(),
{
    if s.len() > 0 && strip.removes(s[0]) {
        trim_start(s.drop_first(), strip)
    } else {
        s
    }
}

/// `s` without the characters that `strip` removes from its back.
pub open spec fn trim_end(s: Seq<char>, strip: Strip) -> Seq<char>
    decreases s.len(),
{
    if s.len() > 0 && strip.removes(s.last()) {
        trim_end(s.drop_last(), strip)
    } else {
        s
    }
}

/// `s` without the characters that `strip` removes from either end.
pub open spec fn trim_with(s: Seq<char>, strip: Strip) -> Seq<char> {
    trim_end(trim_start(s, strip), strip)
}

/// What `str::trim` leaves of `s`.
pub open spec fn trim(s: Seq<char>) -> Seq<char> {
    trim_with(s, Strip::Whitespace)
}

/// What `str::trim_matches(c)` leaves of `s`.
pub open spec fn trim_matches(s: Seq<char>, c: char) -> Seq<char> {
    trim_with(s, Strip::Char(c))
}

/// Index of the first `c` in `s`, or the length of `s` where there is none.
pub open spec fn find_char(s: Seq<char>, c: char) -> nat
    decreases s.len(),
{
    if s.len() == 0 || s[0] == c {
        0
    } else {
        1 + find_char(s.drop_first(), c)
    }
}

/// `s` without one carriage return at its end, if it has one.
pub open spec fn strip_cr(s: Seq<char>) -> Seq<char> {
    if s.len() > 0 && s.last() == '\r' {
        s.drop_last()
    } else {
        s
    }
}

/// The lines of `s`, as `str::lines` yields them: pieces separated by `\n`,
/// each without one `\r` before its `\n`, and no empty piece after a final `\n`.
pub open spec fn lines(s: Seq<char>) -> Seq<Seq<char>>
    decreases s.len(),
{
    if s.len() == 0 {
        seq![]
    } else {
        let j = find_char(s, '\n') as int;
        if j < s.len() {
            seq![strip_cr(s.take(j))] + lines(s.skip(j + 1))
        } else {
            seq![s]
        }
    }
}

/// The texts of `cs` that the ranges `rs` cover.
pub open spec fn range_texts(cs: Seq<char>, rs: Seq<(usize, usize)>) -> Seq<Seq<char>> {
    Seq::new(rs.len(), |k: int| cs.subrange(rs[k].0 as int, rs[k].1 as int))
}

/// Every range of `rs` lies inside `cs`.
pub open spec fn ranges_within(cs: Seq<char>, rs: Seq<(usize, usize)>) -> bool {
    forall|k: int| 0 <= k < rs.len() ==> #[trigger] rs[k].0 <= rs[k].1 <= cs.len()
}

pub proof fn lemma_find_char(s: Seq<char>, c: char, j: int)
    requires
        0 <= j <= s.len(),
        forall|k: int| 0 <= k < j ==> s[k] != c,
        j == s.len() || s[j] == c,
    ensures
        find_char(s, c) == j,
    decreases j,
{
    if j > 0 {
        assert(s[0] != c);
        let t = s.drop_first();
        assert forall|k: int| 0 <= k < j - 1 implies t[k] != c by {
            assert(t[k] == s[k + 1]);
        }
        if j < s.len() {
            assert(t[j - 1] == s[j]);
        }
        lemma_find_char(t, c, j - 1);
    }
}

pub proof fn lemma_find_char_bounds(s: Seq<char>, c: char)
    ensures
        find_char(s, c) <= s.len(),
        forall|k: int| 0 <= k < find_char(s, c) ==> s[k] != c,
        find_char(s, c) < s.len() ==> s[find_char(s, c) as int] == c,
    decreases s.len(),
{
    if s.len() > 0 && s[0] != c {
        let t = s.drop_first();
        lemma_find_char_bounds(t, c);
        assert forall|k: int| 0 <= k < find_char(s, c) implies s[k] != c by {
            if k > 0 {
                assert(s[k] == t[k - 1]);
            }
        }
        if find_char(s, c) < s.len() {
            assert(s[find_char(s, c) as int] == t[find_char(t, c) as int]);
        }
    }
}

/// Trimming leaves a text alone whose first and last characters are kept.
pub proof fn lemma_trim_unchanged(s: Seq<char>, strip: Strip)
    requires
        s.len() > 0 ==> !strip.removes(s[0]) && !strip.removes(s.last()),
    ensures
        trim_with(s, strip) == s,
{
}

/// Trimming the back of a text keeps a prefix of it, and keeps every
/// character up to one that the trim does not remove.
pub proof fn lemma_trim_end_keeps(s: Seq<char>, strip: Strip, i: int)
    requires
        0 <= i < s.len(),
        !strip.removes(s[i]),
    ensures
        i < trim_end(s, strip).len() <= s.len(),
        trim_end(s, strip) == s.take(trim_end(s, strip).len() as int),
    decreases s.len(),
{
    if strip.removes(s.last()) {
        let t = s.drop_last();
        assert(i < s.len() - 1);
        assert(t[i] == s[i]);
        lemma_trim_end_keeps(t, strip, i);
        let m = trim_end(t, strip).len() as int;
        assert(t.take(m) =~= s.take(m));
    } else {
        assert(s.take(s.len() as int) =~= s);
    }
}

/// `s` holds no line break.
pub open spec fn is_single_line(s: Seq<char>) -> bool {
    forall|k: int| 0 <= k < s.len() ==> #[trigger] s[k] != '\n'
}

/// `s` is empty or ends with a line break: it is made of whole lines.
pub open spec fn is_whole_lines(s: Seq<char>) -> bool {
    s.len() == 0 || s.last() == '\n'
}

/// The lines `ls`, each followed by a line break.
pub open spec fn terminated(ls: Seq<Seq<char>>) -> Seq<char>
    decreases ls.len(),
{
    if ls.len() == 0 {
        seq![]
    } else {
        terminated(ls.drop_last()) + ls.last().push('\n')
    }
}

/// A line that `str::lines` gives back unchanged when a line break follows
/// it: it holds no line break and does not end with a carriage return.
pub open spec fn is_plain_line(l: Seq<char>) -> bool {
    is_single_line(l) && !(l.len() > 0 && l.last() == '\r')
}

/// The lines of a text made of whole lines, followed by more text, are its
/// lines followed by those of the rest.
pub proof fn lemma_lines_append(a: Seq<char>, b: Seq<char>)
    requires
        is_whole_lines(a),
    ensures
        lines(a + b) == lines(a) + lines(b),
    decreases a.len(),
{
    if a.len() == 0 {
        assert(a + b =~= b);
        assert(lines(a) =~= Seq::<Seq<char>>::empty());
        assert(lines(a) + lines(b) =~= lines(b));
    } else {
        let ab = a + b;
        lemma_find_char_bounds(a, '\n');
        let j = find_char(a, '\n') as int;
        assert(j < a.len()) by {
            if j == a.len() {
                assert(a[a.len() - 1] != '\n');
            }
        }
        assert forall|k: int| 0 <= k < j implies ab[k] != '\n' by {
            assert(ab[k] == a[k]);
        }
        assert(ab[j] == a[j]);
        lemma_find_char(ab, '\n', j);
        let rest = a.skip(j + 1);
        assert(ab.take(j) =~= a.take(j));
        assert(ab.skip(j + 1) =~= rest + b);
        if rest.len() > 0 {
            assert(rest.last() == a.last());
        }
        lemma_lines_append(rest, b);
        assert(lines(ab) == seq![strip_cr(a.take(j))] + lines(rest + b));
        assert(lines(a) == seq![strip_cr(a.take(j))] + lines(rest));
        assert(lines(ab) =~= lines(a) + lines(b));
    }
}

/// A plain line followed by a line break is that one line.
pub proof fn lemma_lines_of_line(l: Seq<char>)
    requires
        is_plain_line(l),
    ensures
        lines(l.push('\n')) == seq![l],
{
    let s = l.push('\n');
    assert forall|k: int| 0 <= k < l.len() implies s[k] != '\n' by {
        assert(s[k] == l[k]);
    }
    lemma_find_char(s, '\n', l.len() as int);
    assert(s.take(l.len() as int) =~= l);
    assert(s.skip(l.len() as int + 1) =~= Seq::<char>::empty());
    assert(lines(s.skip(l.len() as int + 1)) =~= Seq::<Seq<char>>::empty());
    assert(lines(s) =~= seq![l]);
}

/// Plain lines written one after another, each followed by a line break,
/// are read back as the same lines.
pub proof fn lemma_lines_of_terminated(ls: Seq<Seq<char>>)
    requires
        forall|i: int| 0 <= i < ls.len() ==> is_plain_line(#[trigger] ls[i]),
    ensures
        lines(terminated(ls)) == ls,
        is_whole_lines(terminated(ls)),
    decreases ls.len(),
{
    if ls.len() == 0 {
        assert(lines(terminated(ls)) =~= ls);
    } else {
        let init = ls.drop_last();
        assert forall|i: int| 0 <= i < init.len() implies is_plain_line(#[trigger] init[i]) by {
            assert(init[i] == ls[i]);
        }
        lemma_lines_of_terminated(init);
        assert(is_plain_line(ls[ls.len() - 1]));
        lemma_lines_append(terminated(init), ls.last().push('\n'));
        lemma_lines_of_line(ls.last());
        assert(lines(terminated(ls)) =~= ls);
    }
}

/// The characters of `s`, in order.
pub(crate) fn chars_of(s: &str) -> (r: Vec<char>)
    ensures
        r@ == s@,
{
    let mut r: Vec<char> = Vec::new();
    for c in it: s.chars()
        invariant
            r@ == it.seq().take(it.index() as int),
            it.seq() == s@,
    {
        r.push(c);
    }
    r
}

/// Builds a `String` from a run of characters.
/// Trusted: the body is `String::from_iter` over the slice; the contract
/// claims that the new string holds exactly those characters, in order.
#[verifier::external_body]
fn string_from_chars(cs: &[char]) -> (r: String)
    ensures
        r@ == cs@,
{
    String::from_iter(cs.iter())
}

/// The characters `lo..hi` of `cs` as a `String`.
pub(crate) fn substring(cs: &Vec<char>, lo: usize, hi: usize) -> (r: String)
    requires
        lo <= hi <= cs.len(),
    ensures
        r@ == cs@.subrange(lo as int, hi as int),
{
    let part = &cs.as_slice()[lo..hi];
    string_from_chars(part)
}

/// What `str::trim` leaves of `s`, as a new `String`.
pub(crate) fn trimmed(s: &str) -> (r: String)
    ensures
        r@ == trim(s@),
{
    let cs = chars_of(s);
    let (a, b) = trim_range(&cs, 0, cs.len(), Strip::Whitespace);
    proof {
        assert(cs@.subrange(0, cs@.len() as int) =~= cs@);
    }
    substring(&cs, a, b)
}

/// Whether the characters `lo..hi` of `cs` are exactly `word`.
pub(crate) fn range_equals(cs: &Vec<char>, lo: usize, hi: usize, word: &Vec<char>) -> (b: bool)
    requires
        lo <= hi <= cs.len(),
    ensures
        b == (cs@.subrange(lo as int, hi as int) == word@),
{
    if hi - lo != word.len() {
        proof {
            assert(cs@.subrange(lo as int, hi as int).len() != word@.len());
        }
        return false;
    }
    let mut k: usize = 0;
    while k < word.len()
        invariant
            lo <= hi <= cs.len(),
            hi - lo == word.len(),
            k <= word.len(),
            forall|i: int| 0 <= i < k ==> cs@[lo + i] == word@[i],
        decreases word.len() - k,
    {
        if cs[lo + k] != word[k] {
            proof {
                assert(cs@.subrange(lo as int, hi as int)[k as int] != word@[k as int]);
            }
            return false;
        }
        k += 1;
    }
    proof {
        assert(cs@.subrange(lo as int, hi as int) =~= word@);
    }
    true
}

/// Index of the first `c` among the characters `lo..hi` of `cs`, or `hi`.
pub(crate) fn find_in_range(cs: &Vec<char>, lo: usize, hi: usize, c: char) -> (r: usize)
    requires
        lo <= hi <= cs.len(),
    ensures
        lo <= r <= hi,
        r - lo == find_char(cs@.subrange(lo as int, hi as int), c),
        forall|k: int| lo <= k < r ==> cs@[k] != c,
        r < hi ==> cs@[r as int] == c,
{
    let mut r = lo;
    while r < hi && cs[r] != c
        invariant
            lo <= r <= hi <= cs.len(),
            forall|k: int| lo <= k < r ==> cs@[k] != c,
        decreases hi - r,
    {
        r += 1;
    }
    proof {
        let s = cs@.subrange(lo as int, hi as int);
        assert forall|k: int| 0 <= k < r - lo implies s[k] != c by {
            assert(s[k] == cs@[lo + k]);
        }
        if r < hi {
            assert(s[r - lo] == cs@[r as int]);
        }
        lemma_find_char(s, c, r - lo);
    }
    r
}

/// Narrows `lo..hi` to the part of `cs` that trimming by `strip` leaves.
pub(crate) fn trim_range(cs: &Vec<char>, lo: usize, hi: usize, strip: Strip) -> (r: (usize, usize))
    requires
        lo <= hi <= cs.len(),
    ensures
        lo <= r.0 <= r.1 <= hi,
        cs@.subrange(r.0 as int, r.1 as int) == trim_with(cs@.subrange(lo as int, hi as int), strip),
{
    let mut a = lo;
    while a < hi && strip.removes_char(cs[a])
        invariant
            lo <= a <= hi <= cs.len(),
            trim_start(cs@.subrange(lo as int, hi as int), strip) == trim_start(
                cs@.subrange(a as int, hi as int),
                strip,
            ),
        decreases hi - a,
    {
        proof {
            let s = cs@.subrange(a as int, hi as int);
            assert(s[0] == cs@[a as int]);
            assert(s.drop_first() =~= cs@.subrange(a + 1, hi as int));
        }
        a += 1;
    }
    proof {
        let s = cs@.subrange(a as int, hi as int);
        if a < hi {
            assert(s[0] == cs@[a as int]);
        }
    }
    let mut b = hi;
    while b > a && strip.removes_char(cs[b - 1])
        invariant
            lo <= a <= b <= hi <= cs.len(),
            trim_end(cs@.subrange(a as int, hi as int), strip) == trim_end(
                cs@.subrange(a as int, b as int),
                strip,
            ),
        decreases b - a,
    {
        proof {
            let s = cs@.subrange(a as int, b as int);
            assert(s.last() == cs@[b - 1]);
            assert(s.drop_last() =~= cs@.subrange(a as int, b - 1));
        }
        b -= 1;
    }
    proof {
        let s = cs@.subrange(a as int, b as int);
        if a < b {
            assert(s.last() == cs@[b - 1]);
        }
    }
    (a, b)
}

/// The ranges of the lines of `cs`, in order, as `str::lines` splits them.
pub(crate) fn line_ranges(cs: &Vec<char>) -> (r: Vec<(usize, usize)>)
    ensures
        ranges_within(cs@, r@),
        range_texts(cs@, r@) == lines(cs@),
{
    let mut r: Vec<(usize, usize)> = Vec::new();
    let mut start: usize = 0;
    proof {
        assert(cs@.skip(0) =~= cs@);
        assert(range_texts(cs@, r@) =~= seq![]);
    }
    while start < cs.len()
        invariant
            start <= cs.len(),
            ranges_within(cs@, r@),
            lines(cs@) == range_texts(cs@, r@) + lines(cs@.skip(start as int)),
        decreases cs.len() - start,
    {
        let j = find_in_range(cs, start, cs.len(), '\n');
        let ghost rest = cs@.skip(start as int);
        let ghost before = r@;
        proof {
            assert(cs@.subrange(start as int, cs.len() as int) =~= rest);
        }
        if j < cs.len() {
            let end = if j > start && cs[j - 1] == '\r' {
                j - 1
            } else {
                j
            };
            r.push((start, end));
            proof {
                let line = rest.take(j - start);
                assert(line =~= cs@.subrange(start as int, j as int));
                if j > start && cs@[j - 1] == '\r' {
                    assert(line.last() == cs@[j - 1]);
                    assert(strip_cr(line) =~= cs@.subrange(start as int, end as int));
                } else {
                    if line.len() > 0 {
                        assert(line.last() == cs@[j - 1]);
                    }
                    assert(strip_cr(line) =~= cs@.subrange(start as int, end as int));
                }
                assert(rest.skip(j - start + 1) =~= cs@.skip(j + 1));
                assert(range_texts(cs@, r@) =~= range_texts(cs@, before).push(
                    cs@.subrange(start as int, end as int),
                ));
                assert(lines(rest) == seq![strip_cr(line)] + lines(cs@.skip(j + 1)));
                assert(lines(cs@) =~= range_texts(cs@, r@) + lines(cs@.skip(j + 1)));
            }
            start = j + 1;
        } else {
            r.push((start, j));
            proof {
                assert(rest =~= cs@.subrange(start as int, j as int));
                assert(range_texts(cs@, r@) =~= range_texts(cs@, before).push(rest));
                assert(lines(rest) == seq![rest]);
                assert(cs@.skip(j as int) =~= seq![]);
                assert(lines(cs@) =~= range_texts(cs@, r@) + lines(cs@.skip(j as int)));
            }
            start = j;
        }
    }
    proof {
        assert(cs@.skip(start as int) =~= seq![]);
        assert(lines(cs@) =~= range_texts(cs@, r@));
    }
    r
}

} // verus!
