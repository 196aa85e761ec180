//! The sink query: which audio outputs a parsed listing describes, and which
//! one is running; and the selection between the supported sound servers.

use vstd::prelude::*;

use crate::parser::{
    spec_parse, parse, ParseResult, SecView,
};
use crate::text::{has_prefix, str_eq};

verus! {

/// The sound-server identifier is not one of the supported backends.
#[derive(Clone, Copy, PartialEq, Eq, Structural, Debug)]
pub struct UnsupportedBackend;

/// Whether a section name marks an audio sink.
pub open spec fn is_sink_name(name: Seq<char>) -> bool {
    ("Sink #")@.is_prefix_of(name)
}

/// The `Description` values of the sink sections, in section order.
pub open spec fn outputs_of(ss: Seq<SecView>) -> Seq<Seq<char>>
    decreases ss.len(),
{
    if ss.len() == 0 {
        Seq::empty()
    } else {
        let rest = outputs_of(ss.drop_last());
        let p = ss.last();
        if is_sink_name(p.0) && p.1.contains_key(("Description")@) {
            rest.push(p.1[("Description")@])
        } else {
            rest
        }
    }
}

/// The `Description` of the last sink section, in section order, whose
/// `State` is `RUNNING` and which has a `Description`; `None` if there is no
/// such section.
pub open spec fn active_of(ss: Seq<SecView>) -> Option<Seq<char>>
    decreases ss.len(),
{
    if ss.len() == 0 {
        None
    } else {
        let p = ss.last();
        if is_sink_name(p.0) && p.1.contains_key(("State")@) && p.1[("State")@] == ("RUNNING")@
            && p.1.contains_key(("Description")@) {
            Some(p.1[("Description")@])
        } else {
            active_of(ss.drop_last())
        }
    }
}

/// List every output description found in the sink sections, and the
/// description of the running sink, if any.  When several sink sections
/// report `RUNNING`, the last one in section order wins.
pub fn extract_outputs(parsed: &ParseResult) -> (r: (Vec<String>, Option<String>))
    ensures
        r.0.deep_view() == outputs_of(parsed@),
        r.1.deep_view() == active_of(parsed@),
{
    let mut outs: Vec<String> = Vec::new();
    let mut active: Option<String> = None;
    let n = parsed.len();
    let mut i: usize = 0;
    proof {
        assert(parsed@.take(0) =~= Seq::<SecView>::empty());
        assert(outs.deep_view() =~= outputs_of(parsed@.take(0)));
    }
    while i < n
        invariant
            i <= n,
            n == parsed@.len(),
            outs.deep_view() == outputs_of(parsed@.take(i as int)),
            active.deep_view() == active_of(parsed@.take(i as int)),
        decreases n - i,
    {
        let sec = parsed.section_at(i);
        let ghost pref = parsed@.take(i as int);
        if has_prefix(sec.name.as_str(), "Sink #") {
            match sec.get("Description") {
                Some(d) => {
                    outs.push(d.clone());
                    match sec.get("State") {
                        Some(st) => {
                            if str_eq(st.as_str(), "RUNNING") {
                                active = Some(d.clone());
                            }
                        },
                        None => {},
                    }
                },
                None => {},
            }
        }
        i = i + 1;
        proof {
            let prefn = parsed@.take(i as int);
            assert(prefn.drop_last() =~= pref);
            assert(prefn.last() == parsed@[i as int - 1]);
            assert(outs.deep_view() =~= outputs_of(prefn));
            assert(active.deep_view() == active_of(prefn));
        }
    }
    proof {
        assert(parsed@.take(n as int) =~= parsed@);
    }
    (outs, active)
}

/// The `pulseaudio` backend: a stub that reports no outputs.
pub fn get_outputs_pulseaudio() -> (r: (Vec<String>, Option<String>))
    ensures
        r.0@.len() == 0,
        r.1 is None,
{
    (Vec::new(), None)
}

/// The `pipewire` backend: parse the listing text and query it for sinks.
pub fn get_outputs_pipewire(text: &str) -> (r: (Vec<String>, Option<String>))
    ensures
        r.0.deep_view() == outputs_of(spec_parse(text@)),
        r.1.deep_view() == active_of(spec_parse(text@)),
{
    let parsed = parse(text);
    extract_outputs(&parsed)
}

/// Choose the sound server from the two process probes: a non-empty
/// `pulseaudio` probe wins, then a non-empty `pipewire` probe; with both
/// probes empty no supported server is running.
pub fn select_sound_server(pulseaudio_probe: &[u8], pipewire_probe: &[u8]) -> (r: Result<String, UnsupportedBackend>)
    ensures
        pulseaudio_probe@.len() > 0 ==> (r matches Ok(s) && s@ == ("pulseaudio")@),
        pulseaudio_probe@.len() == 0 && pipewire_probe@.len() > 0 ==> (r matches Ok(s) && s@ == ("pipewire")@),
        (pulseaudio_probe@.len() == 0 && pipewire_probe@.len() == 0) <==> r is Err,
{
    if pulseaudio_probe.len() > 0 {
        Ok("pulseaudio".to_owned())
    } else if pipewire_probe.len() > 0 {
        Ok("pipewire".to_owned())
    } else {
        Err(UnsupportedBackend)
    }
}

/// Dispatch on the sound-server identifier: `pulseaudio` answers with the
/// stub, `pipewire` answers by parsing the listing text; any other
/// identifier is refused.
pub fn get_audio_outputs(sound_server: &str, pactl_text: &str) -> (r: Result<(Vec<String>, Option<String>), UnsupportedBackend>)
    ensures
        sound_server@ == ("pulseaudio")@ ==> (r matches Ok(v) && v.0@.len() == 0 && v.1 is None),
        sound_server@ == ("pipewire")@ ==> (r matches Ok(v)
            && v.0.deep_view() == outputs_of(spec_parse(pactl_text@))
            && v.1.deep_view() == active_of(spec_parse(pactl_text@))),
        r is Err <==> (sound_server@ != ("pulseaudio")@ && sound_server@ != ("pipewire")@),
{
    proof {
        reveal_strlit("pulseaudio");
        reveal_strlit("pipewire");
        assert(("pulseaudio")@.len() == 10);
        assert(("pipewire")@.len() == 8);
    }
    if str_eq(sound_server, "pulseaudio") {
        Ok(get_outputs_pulseaudio())
    } else if str_eq(sound_server, "pipewire") {
        Ok(get_outputs_pipewire(pactl_text))
    } else {
        Err(UnsupportedBackend)
    }
}

} // verus!
