//! The block parser: freeform, indentation-delimited text is read as a
//! sequence of sections, each a trimmed header line followed by `Key: Value`
//! field lines.
//!
//! A line whose first character is alphabetic opens a new section; every
//! other non-empty line is a field line of the section that is currently
//! open, split on its first colon with key and value trimmed.  Field lines
//! before the first header, and lines without a colon, are dropped.  Sections
//! are kept in input order; a repeated header name keeps the first position
//! and the fields seen last.

use vstd::prelude::*;

use crate::text::{
    char_is_alpha, find_char, find_char_at, is_alpha, lines_of, trim, trim_str,
};

verus! {

/// The mathematical reading of one section: its trimmed header text and its
/// field mapping.
pub type SecView = (Seq<char>, Map<Seq<char>, Seq<char>>);

/// Decoding failed: the input bytes are not valid text.
#[derive(Clone, Copy, PartialEq, Eq, Structural, Debug)]
pub struct DecodeError;

/// One header-delimited record: the trimmed header text and its fields.
pub struct Section {
    pub name: String,
    pub fields: Vec<(String, String)>,
}

/// The field entries read as a mapping: a later entry for the same key
/// overwrites an earlier one.
pub open spec fn fields_map(entries: Seq<(String, String)>) -> Map<Seq<char>, Seq<char>>
    decreases entries.len(),
{
    if entries.len() == 0 {
        Map::empty()
    } else {
        fields_map(entries.drop_last()).insert(entries.last().0@, entries.last().1@)
    }
}

impl View for Section {
    type V = SecView;

    open spec fn view(&self) -> SecView {
        (self.name@, fields_map(self.fields@))
    }
}

pub proof fn lemma_fields_map_found(entries: Seq<(String, String)>, k: Seq<char>, i: int)
    requires
        0 <= i < entries.len(),
        entries[i].0@ == k,
        forall|j: int| i < j < entries.len() ==> entries[j].0@ != k,
    ensures
        fields_map(entries).contains_key(k),
        fields_map(entries)[k] == entries[i].1@,
    decreases entries.len(),
{
    if i < entries.len() - 1 {
        let d = entries.drop_last();
        assert(entries.last().0@ != k);
        assert forall|j: int| i < j < d.len() implies d[j].0@ != k by {
            assert(d[j] == entries[j]);
        }
        assert(d[i] == entries[i]);
        lemma_fields_map_found(d, k, i);
    }
}

pub proof fn lemma_fields_map_absent(entries: Seq<(String, String)>, k: Seq<char>)
    requires
        forall|j: int| 0 <= j < entries.len() ==> entries[j].0@ != k,
    ensures
        !fields_map(entries).contains_key(k),
    decreases entries.len(),
{
    if entries.len() > 0 {
        let d = entries.drop_last();
        assert forall|j: int| 0 <= j < d.len() implies d[j].0@ != k by {
            assert(d[j] == entries[j]);
        }
        lemma_fields_map_absent(d, k);
    }
}

impl Section {
    /// The value stored under `key`, if any.
    pub fn get<'a>(&'a self, key: &str) -> (r: Option<&'a String>)
        ensures
            match r {
                Some(v) => self@.1.contains_key(key@) && v@ == self@.1[key@],
                None => !self@.1.contains_key(key@),
            },
    {
        let n = self.fields.len();
        let mut i: usize = n;
        while i > 0
            invariant
                i <= n,
                n == self.fields.len(),
                forall|j: int| i <= j < n ==> self.fields@[j].0@ != key@,
            decreases i,
        {
            if crate::text::str_eq(self.fields[i - 1].0.as_str(), key) {
                proof {
                    lemma_fields_map_found(self.fields@, key@, i as int - 1);
                }
                return Some(&self.fields[i - 1].1);
            }
            i = i - 1;
        }
        proof {
            lemma_fields_map_absent(self.fields@, key@);
        }
        None
    }
}

/// The ordered sequence of parsed sections.
pub struct ParseResult {
    pub sections: Vec<Section>,
}

impl View for ParseResult {
    type V = Seq<SecView>;

    open spec fn view(&self) -> Seq<SecView> {
        self.sections@.map_values(|s: Section| s@)
    }
}

/// No two sections carry the same name.
pub open spec fn distinct_names(ss: Seq<SecView>) -> bool {
    forall|i: int, j: int| 0 <= i < j < ss.len() ==> ss[i].0 != ss[j].0
}

/// Index of the first section named `name`, or `ss.len()` if there is none.
pub open spec fn find_section(ss: Seq<SecView>, name: Seq<char>) -> int
    decreases ss.len(),
{
    if ss.len() == 0 {
        0
    } else if ss[0].0 == name {
        0
    } else {
        1 + find_section(ss.drop_first(), name)
    }
}

pub proof fn lemma_find_section(ss: Seq<SecView>, name: Seq<char>)
    ensures
        0 <= find_section(ss, name) <= ss.len(),
        forall|j: int| 0 <= j < find_section(ss, name) ==> ss[j].0 != name,
        find_section(ss, name) < ss.len() ==> ss[find_section(ss, name)].0 == name,
    decreases ss.len(),
{
    if ss.len() > 0 && ss[0].0 != name {
        let d = ss.drop_first();
        lemma_find_section(d, name);
        assert forall|j: int| 0 <= j < find_section(ss, name) implies ss[j].0 != name by {
            if j > 0 {
                assert(ss[j] == d[j - 1]);
            }
        }
        if find_section(ss, name) < ss.len() {
            assert(ss[find_section(ss, name)] == d[find_section(d, name)]);
        }
    }
}

/// `find_section` is pinned down by the first-occurrence description.
pub proof fn lemma_find_section_is(ss: Seq<SecView>, name: Seq<char>, i: int)
    requires
        0 <= i <= ss.len(),
        forall|j: int| 0 <= j < i ==> ss[j].0 != name,
        i < ss.len() ==> ss[i].0 == name,
    ensures
        find_section(ss, name) == i,
    decreases ss.len(),
{
    if ss.len() > 0 && ss[0].0 != name {
        let d = ss.drop_first();
        assert(i > 0);
        assert forall|j: int| 0 <= j < i - 1 implies d[j].0 != name by {
            assert(d[j] == ss[j + 1]);
        }
        if i - 1 < d.len() {
            assert(d[i - 1] == ss[i]);
        }
        lemma_find_section_is(d, name, i - 1);
    }
}

/// Committing a section: a section of the same name keeps its position and
/// takes the new fields; a new name is appended.
pub open spec fn commit_section(ss: Seq<SecView>, name: Seq<char>, f: Map<Seq<char>, Seq<char>>) -> Seq<SecView> {
    let i = find_section(ss, name);
    if 0 <= i < ss.len() {
        ss.update(i, (name, f))
    } else {
        ss.push((name, f))
    }
}

pub proof fn lemma_commit_distinct(ss: Seq<SecView>, name: Seq<char>, f: Map<Seq<char>, Seq<char>>)
    requires
        distinct_names(ss),
    ensures
        distinct_names(commit_section(ss, name, f)),
{
    lemma_find_section(ss, name);
    let i = find_section(ss, name);
    let r = commit_section(ss, name, f);
    if i < ss.len() {
        assert forall|x: int, y: int| 0 <= x < y < r.len() implies r[x].0 != r[y].0 by {
            assert(r[x].0 == ss[x].0);
            assert(r[y].0 == ss[y].0);
        }
    } else {
        assert forall|x: int, y: int| 0 <= x < y < r.len() implies r[x].0 != r[y].0 by {
            if y == ss.len() {
                assert(r[x].0 == ss[x].0);
                assert(ss[x].0 != name);
            } else {
                assert(r[x].0 == ss[x].0);
                assert(r[y].0 == ss[y].0);
            }
        }
    }
}

/// Whether a line opens a new section: it is non-empty and its first
/// character is alphabetic (so in particular not indented).
pub open spec fn line_is_header(l: Seq<char>) -> bool {
    l.len() > 0 && is_alpha(l[0])
}

/// The scan state: the section currently open, if any, and the committed
/// sections so far.
pub open spec fn cur_view(name: Option<String>, fields: Seq<(String, String)>) -> Option<SecView> {
    match name {
        Some(s) => Some((s@, fields_map(fields))),
        None => None,
    }
}

/// One line of the scan.  A header line commits the open section and opens a
/// new one under the line's trimmed text.  Any other line is a field line: if
/// it has a colon and a section is open, the text before the first colon and
/// the text after it, both trimmed, become a field of the open section;
/// otherwise the line is dropped.
pub open spec fn scan_step(cur: Option<SecView>, out: Seq<SecView>, line: Seq<char>) -> (Option<SecView>, Seq<SecView>) {
    if line_is_header(line) {
        let out2 = match cur {
            Some(p) => commit_section(out, p.0, p.1),
            None => out,
        };
        (Some((trim(line), Map::empty())), out2)
    } else {
        match cur {
            None => (None, out),
            Some(p) => {
                let i = find_char(line, ':');
                if 0 <= i < line.len() {
                    (Some((p.0, p.1.insert(trim(line.take(i)), trim(line.skip(i + 1))))), out)
                } else {
                    (Some(p), out)
                }
            },
        }
    }
}

/// The scan folded over a sequence of lines.
pub open spec fn scan_lines(lines: Seq<Seq<char>>, cur: Option<SecView>, out: Seq<SecView>) -> (Option<SecView>, Seq<SecView>)
    decreases lines.len(),
{
    if lines.len() == 0 {
        (cur, out)
    } else {
        let st = scan_step(cur, out, lines[0]);
        scan_lines(lines.drop_first(), st.0, st.1)
    }
}

/// The end of input commits the section still open, if any.
pub open spec fn scan_finish(st: (Option<SecView>, Seq<SecView>)) -> Seq<SecView> {
    match st.0 {
        Some(p) => commit_section(st.1, p.0, p.1),
        None => st.1,
    }
}

/// What `parse` returns, as a function of the input text.
pub open spec fn spec_parse(text: Seq<char>) -> Seq<SecView> {
    scan_finish(scan_lines(lines_of(text), None, Seq::empty()))
}

fn find_index(sections: &Vec<Section>, name: &String) -> (r: usize)
    ensures
        r as int == find_section(sections@.map_values(|s: Section| s@), name@),
{
    let ghost sv = sections@.map_values(|s: Section| s@);
    let n = sections.len();
    let mut i: usize = 0;
    while i < n
        invariant
            i <= n,
            n == sections.len(),
            sv == sections@.map_values(|s: Section| s@),
            forall|j: int| 0 <= j < i ==> sv[j].0 != name@,
        decreases n - i,
    {
        if crate::text::str_eq(sections[i].name.as_str(), name.as_str()) {
            proof {
                assert(sv[i as int].0 == sections@[i as int]@.0);
                lemma_find_section_is(sv, name@, i as int);
            }
            return i;
        }
        proof {
            assert(sv[i as int].0 == sections@[i as int]@.0);
        }
        i = i + 1;
    }
    proof {
        lemma_find_section_is(sv, name@, n as int);
    }
    n
}

impl ParseResult {
    /// A result with no sections.
    pub fn new() -> (r: ParseResult)
        ensures
            r@ == Seq::<SecView>::empty(),
    {
        let r = ParseResult { sections: Vec::new() };
        proof {
            assert(r@ =~= Seq::<SecView>::empty());
        }
        r
    }

    /// Number of sections.
    pub fn len(&self) -> (n: usize)
        ensures
            n == self@.len(),
    {
        self.sections.len()
    }

    /// The section at position `i`.
    pub fn section_at<'a>(&'a self, i: usize) -> (r: &'a Section)
        requires
            i < self@.len(),
        ensures
            r@ == self@[i as int],
    {
        &self.sections[i]
    }

    /// Commit a section under `name`: replace the fields of the section of
    /// that name if one exists, else append a new section.
    fn commit(&mut self, name: String, fields: Vec<(String, String)>)
        ensures
            final(self)@ == commit_section(old(self)@, name@, fields_map(fields@)),
    {
        proof {
            lemma_find_section(old(self)@, name@);
        }
        let i = find_index(&self.sections, &name);
        let ghost ss0 = self@;
        let ghost nv = name@;
        let ghost fv = fields_map(fields@);
        let sec = Section { name, fields };
        proof {
            assert(sec@ == (nv, fv));
        }
        if i < self.sections.len() {
            let _ = self.sections.remove(i);
            self.sections.insert(i, sec);
            proof {
                assert(self@ =~= ss0.update(i as int, (nv, fv)));
            }
        } else {
            self.sections.push(sec);
            proof {
                assert(self@ =~= ss0.push((nv, fv)));
            }
        }
    }
}

/// Parse newline-delimited text into its sections.
pub fn parse(text: &str) -> (r: ParseResult)
    ensures
        r@ == spec_parse(text@),
        distinct_names(r@),
{
    let ghost goal = scan_lines(lines_of(text@), None, Seq::<SecView>::empty());
    let n = text.unicode_len();
    let mut out = ParseResult::new();
    let mut cur_name: Option<String> = None;
    let mut cur_fields: Vec<(String, String)> = Vec::new();
    let mut pos: usize = 0;
    proof {
        assert(text@.skip(0) =~= text@);
    }
    while pos < n
        invariant
            pos <= n,
            n == text@.len(),
            distinct_names(out@),
            goal == scan_lines(lines_of(text@), None, Seq::<SecView>::empty()),
            scan_lines(lines_of(text@.skip(pos as int)), cur_view(cur_name, cur_fields@), out@) == goal,
        decreases n - pos,
    {
        let ghost pos0 = pos as int;
        let ghost restv = text@.skip(pos0);
        let ghost cur0 = cur_view(cur_name, cur_fields@);
        let ghost out0 = out@;
        let rest = text.substring_char(pos, n);
        proof {
            assert(rest@ == restv);
        }
        let k = find_char_at(rest, '\n');
        proof {
            crate::text::lemma_find_char(restv, '\n');
        }
        let line = rest.substring_char(0, k);
        proof {
            assert(line@ =~= restv.take(k as int));
            assert(line@.len() == k);
        }
        let ghost st = scan_step(cur0, out0, line@);
        let hdr = k > 0 && char_is_alpha(line.get_char(0));
        if hdr {
            match cur_name {
                Some(nm) => {
                    proof {
                        lemma_commit_distinct(out0, nm@, fields_map(cur_fields@));
                    }
                    out.commit(nm, cur_fields);
                    cur_fields = Vec::new();
                },
                None => {
                    cur_fields = Vec::new();
                },
            }
            let t = trim_str(line);
            cur_name = Some(t.to_owned());
            proof {
                assert(cur_fields@ =~= Seq::<(String, String)>::empty());
                assert(fields_map(cur_fields@) == Map::<Seq<char>, Seq<char>>::empty());
                assert(cur_view(cur_name, cur_fields@) == st.0);
                assert(out@ == st.1);
            }
        } else {
            if cur_name.is_some() {
                let ci = find_char_at(line, ':');
                if ci < k {
                    let ghost e0 = cur_fields@;
                    let key = trim_str(line.substring_char(0, ci)).to_owned();
                    let value = trim_str(line.substring_char(ci + 1, k)).to_owned();
                    let ghost kv = key@;
                    let ghost vv = value@;
                    cur_fields.push((key, value));
                    proof {
                        assert(cur_fields@.drop_last() =~= e0);
                        assert(cur_fields@.last().0@ == kv);
                        assert(cur_fields@.last().1@ == vv);
                        assert(fields_map(cur_fields@) == fields_map(e0).insert(kv, vv));
                        assert(line@.take(ci as int) == line@.subrange(0, ci as int));
                        assert(line@.skip(ci as int + 1) == line@.subrange(ci as int + 1, line@.len() as int));
                        assert(cur_view(cur_name, cur_fields@) == st.0);
                        assert(out@ == st.1);
                    }
                } else {
                    proof {
                        assert(find_char(line@, ':') == line@.len());
                        assert(cur_view(cur_name, cur_fields@) == st.0);
                        assert(out@ == st.1);
                    }
                }
            } else {
                proof {
                    assert(cur_view(cur_name, cur_fields@) == st.0);
                    assert(out@ == st.1);
                }
            }
        }
        let rest_len = n - pos;
        if k < rest_len {
            pos = pos + k + 1;
            proof {
                let ll = lines_of(restv);
                assert(restv.len() > 0);
                assert(find_char(restv, '\n') == k);
                assert(ll == seq![restv.take(k as int)] + lines_of(restv.skip(k as int + 1)));
                assert(ll[0] == line@);
                assert(ll.drop_first() =~= lines_of(restv.skip(k as int + 1)));
                assert(scan_lines(ll, cur0, out0) == scan_lines(ll.drop_first(), st.0, st.1));
                assert(restv.skip(k as int + 1) =~= text@.skip(pos as int));
                assert(scan_lines(lines_of(text@.skip(pos as int)), cur_view(cur_name, cur_fields@), out@) == goal);
            }
        } else {
            pos = n;
            proof {
                let ll = lines_of(restv);
                assert(restv.len() > 0);
                assert(find_char(restv, '\n') == k);
                assert(k == restv.len());
                assert(ll == seq![restv]);
                assert(line@ =~= restv);
                assert(ll[0] == line@);
                assert(ll.drop_first() =~= Seq::<Seq<char>>::empty());
                assert(scan_lines(ll, cur0, out0) == scan_lines(ll.drop_first(), st.0, st.1));
                assert(scan_lines(Seq::<Seq<char>>::empty(), st.0, st.1) == st);
                assert(text@.skip(pos as int) =~= Seq::<char>::empty());
                assert(lines_of(text@.skip(pos as int)) == Seq::<Seq<char>>::empty());
                assert(scan_lines(lines_of(text@.skip(pos as int)), cur_view(cur_name, cur_fields@), out@) == goal);
            }
        }
    }
    proof {
        assert(text@.skip(pos as int) =~= Seq::<char>::empty());
        assert(lines_of(text@.skip(pos as int)) == Seq::<Seq<char>>::empty());
        assert((cur_view(cur_name, cur_fields@), out@) == goal);
    }
    match cur_name {
        Some(nm) => {
            proof {
                lemma_commit_distinct(out@, nm@, fields_map(cur_fields@));
            }
            out.commit(nm, cur_fields);
        },
        None => {},
    }
    proof {
        assert(out@ == scan_finish(goal));
    }
    out
}

/// Relies on `core::str::from_utf8`: `Ok` exactly when the bytes are valid
/// UTF-8, and then the returned slice is their decoding.
#[verifier::external_body]
fn str_from_utf8<'a>(bytes: &'a [u8]) -> (r: Result<&'a str, DecodeError>)
    ensures
        r is Ok <==> vstd::utf8::valid_utf8(bytes@),
        r matches Ok(s) ==> s@ == vstd::utf8::decode_utf8(bytes@),
{
    match core::str::from_utf8(bytes) {
        Ok(s) => Ok(s),
        Err(_) => Err(DecodeError),
    }
}

/// Parse raw bytes: decode them as UTF-8 text, then parse the text.  Fails
/// with `DecodeError` exactly when the bytes are not valid UTF-8.
pub fn parse_bytes(bytes: &[u8]) -> (r: Result<ParseResult, DecodeError>)
    ensures
        r is Ok <==> vstd::utf8::valid_utf8(bytes@),
        r matches Ok(p) ==> p@ == spec_parse(vstd::utf8::decode_utf8(bytes@)) && distinct_names(p@),
{
    match str_from_utf8(bytes) {
        Ok(s) => Ok(parse(s)),
        Err(e) => Err(e),
    }
}

} // verus!
