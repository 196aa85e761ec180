//! General properties of the parser and the sink query, stated and proved
//! over the specification functions that the executable contracts use.

use vstd::prelude::*;

use crate::parser::{
    commit_section, find_section, lemma_find_section, line_is_header, scan_finish, scan_lines,
    scan_step, spec_parse, SecView,
};
use crate::sinks::{active_of, is_sink_name, outputs_of};
use crate::text::{lines_of, trim};

verus! {

/// The names of the sections, in order.
pub open spec fn sec_names(ss: Seq<SecView>) -> Seq<Seq<char>> {
    ss.map_values(|p: SecView| p.0)
}

/// No two entries are the same sequence of characters.
pub open spec fn distinct_strs(s: Seq<Seq<char>>) -> bool {
    forall|i: int, j: int| 0 <= i < j < s.len() ==> s[i] != s[j]
}

/// The name of the open section, as a sequence of zero or one names.
pub open spec fn opt_name(cur: Option<SecView>) -> Seq<Seq<char>> {
    match cur {
        Some(p) => seq![p.0],
        None => Seq::empty(),
    }
}

/// The trimmed text of the header lines, in input order.
pub open spec fn header_names(lines: Seq<Seq<char>>) -> Seq<Seq<char>>
    decreases lines.len(),
{
    if lines.len() == 0 {
        Seq::empty()
    } else if line_is_header(lines[0]) {
        seq![trim(lines[0])] + header_names(lines.drop_first())
    } else {
        header_names(lines.drop_first())
    }
}

proof fn lemma_distinct_transfer(s1: Seq<Seq<char>>, s2: Seq<Seq<char>>)
    requires
        distinct_strs(s1),
        s1 =~= s2,
    ensures
        distinct_strs(s2),
{
}

/// Committing a name that no section carries appends a section of that name.
proof fn lemma_commit_fresh(ss: Seq<SecView>, name: Seq<char>, f: Map<Seq<char>, Seq<char>>)
    requires
        forall|j: int| 0 <= j < ss.len() ==> ss[j].0 != name,
    ensures
        commit_section(ss, name, f) == ss.push((name, f)),
        sec_names(commit_section(ss, name, f)) == sec_names(ss).push(name),
    decreases ss.len(),
{
    lemma_find_section(ss, name);
    let i = find_section(ss, name);
    if i < ss.len() {
        assert(ss[i].0 == name);
        assert(false);
    }
    assert(sec_names(ss.push((name, f))) =~= sec_names(ss).push(name));
}

proof fn lemma_scan_names(lines: Seq<Seq<char>>, cur: Option<SecView>, out: Seq<SecView>)
    requires
        distinct_strs(sec_names(out) + opt_name(cur) + header_names(lines)),
    ensures
        sec_names(scan_finish(scan_lines(lines, cur, out))) == sec_names(out) + opt_name(cur)
            + header_names(lines),
    decreases lines.len(),
{
    let all = sec_names(out) + opt_name(cur) + header_names(lines);
    if lines.len() == 0 {
        match cur {
            None => {
                assert(sec_names(scan_finish((cur, out))) =~= all);
            },
            Some(p) => {
                assert(all[out.len() as int] == p.0);
                assert forall|j: int| 0 <= j < out.len() implies out[j].0 != p.0 by {
                    assert(all[j] == sec_names(out)[j]);
                    assert(sec_names(out)[j] == out[j].0);
                }
                lemma_commit_fresh(out, p.0, p.1);
                assert(sec_names(out).push(p.0) =~= all);
            },
        }
    } else {
        let l = lines[0];
        let st = scan_step(cur, out, l);
        let rest = lines.drop_first();
        if line_is_header(l) {
            assert(header_names(lines) == seq![trim(l)] + header_names(rest));
            match cur {
                Some(p) => {
                    assert(all[out.len() as int] == p.0);
                    assert forall|j: int| 0 <= j < out.len() implies out[j].0 != p.0 by {
                        assert(all[j] == sec_names(out)[j]);
                        assert(sec_names(out)[j] == out[j].0);
                    }
                    lemma_commit_fresh(out, p.0, p.1);
                    assert(st.0 == Some((trim(l), Map::<Seq<char>, Seq<char>>::empty())));
                    assert(st.1 == commit_section(out, p.0, p.1));
                    let all2 = sec_names(st.1) + opt_name(st.0) + header_names(rest);
                    assert(all2 =~= all);
                    lemma_distinct_transfer(all, all2);
                    lemma_scan_names(rest, st.0, st.1);
                    assert(sec_names(scan_finish(scan_lines(lines, cur, out))) == all2);
                    assert(all2 == all);
                },
                None => {
                    assert(st.0 == Some((trim(l), Map::<Seq<char>, Seq<char>>::empty())));
                    assert(st.1 == out);
                    let all2 = sec_names(st.1) + opt_name(st.0) + header_names(rest);
                    assert(all2 =~= all);
                    lemma_distinct_transfer(all, all2);
                    lemma_scan_names(rest, st.0, st.1);
                    assert(sec_names(scan_finish(scan_lines(lines, cur, out))) == all2);
                    assert(all2 == all);
                },
            }
        } else {
            assert(header_names(lines) == header_names(rest));
            assert(st.1 == out);
            assert(opt_name(st.0) == opt_name(cur));
            let all2 = sec_names(st.1) + opt_name(st.0) + header_names(rest);
            assert(all2 == all);
            lemma_scan_names(rest, st.0, st.1);
        }
    }
}

/// Text whose trimmed header names are pairwise distinct parses to exactly
/// one section per header line, named in input order.
pub proof fn lemma_parse_header_names(text: Seq<char>)
    requires
        distinct_strs(header_names(lines_of(text))),
    ensures
        sec_names(spec_parse(text)) == header_names(lines_of(text)),
        spec_parse(text).len() == header_names(lines_of(text)).len(),
{
    let hn = header_names(lines_of(text));
    let all = sec_names(Seq::<SecView>::empty()) + opt_name(None) + hn;
    assert(all =~= hn);
    lemma_distinct_transfer(hn, all);
    lemma_scan_names(lines_of(text), None, Seq::empty());
    assert(sec_names(spec_parse(text)).len() == spec_parse(text).len());
}

/// Parsing is deterministic: the result is a function of the input text
/// alone, so equal texts parse to equal results.
pub proof fn lemma_parse_deterministic(a: Seq<char>, b: Seq<char>)
    requires
        a == b,
    ensures
        spec_parse(a) == spec_parse(b),
{
}

/// Before the first header, there is no open section, and a field line then
/// changes nothing: such lines are dropped.
pub proof fn lemma_field_before_header_dropped(out: Seq<SecView>, line: Seq<char>)
    requires
        !line_is_header(line),
    ensures
        scan_step(None, out, line) == (None::<SecView>, out),
{
}

/// A line with no colon that is not a header contributes no field and leaves
/// the scan state unchanged.
pub proof fn lemma_no_colon_line(cur: Option<SecView>, out: Seq<SecView>, line: Seq<char>)
    requires
        !line_is_header(line),
        forall|j: int| 0 <= j < line.len() ==> line[j] != ':',
    ensures
        scan_step(cur, out, line) == (cur, out),
{
    crate::text::lemma_find_char_is(line, ':', line.len() as int);
}

/// The active output, whenever there is one, is one of the listed outputs.
pub proof fn lemma_active_is_an_output(ss: Seq<SecView>, d: Seq<char>)
    requires
        active_of(ss) == Some(d),
    ensures
        outputs_of(ss).contains(d),
    decreases ss.len(),
{
    let p = ss.last();
    if is_sink_name(p.0) && p.1.contains_key(("State")@) && p.1[("State")@] == ("RUNNING")@
        && p.1.contains_key(("Description")@) {
        let outs = outputs_of(ss);
        assert(outs[outs.len() - 1] == d);
    } else {
        lemma_active_is_an_output(ss.drop_last(), d);
        let rest = outputs_of(ss.drop_last());
        let k = choose|k: int| 0 <= k < rest.len() && rest[k] == d;
        assert(outputs_of(ss)[k] == d);
    }
}

/// With no section named with the sink prefix, the query yields no outputs
/// and no active output.
pub proof fn lemma_no_sink_sections(ss: Seq<SecView>)
    requires
        forall|i: int| 0 <= i < ss.len() ==> !is_sink_name(ss[i].0),
    ensures
        outputs_of(ss) == Seq::<Seq<char>>::empty(),
        active_of(ss) is None,
    decreases ss.len(),
{
    if ss.len() > 0 {
        let d = ss.drop_last();
        assert(!is_sink_name(ss.last().0));
        assert forall|i: int| 0 <= i < d.len() implies !is_sink_name(d[i].0) by {
            assert(d[i] == ss[i]);
        }
        lemma_no_sink_sections(d);
    }
}

} // verus!
