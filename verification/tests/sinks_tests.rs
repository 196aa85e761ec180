use pactl_sinks::parser::parse;
use pactl_sinks::sinks::{
    extract_outputs, get_audio_outputs, get_outputs_pipewire, get_outputs_pulseaudio,
    select_sound_server, UnsupportedBackend,
};

#[test]
fn no_sink_sections_yield_nothing() {
    let parsed = parse("Module #1\n\tDescription: M\nSource #0\n\tState: RUNNING\n\tDescription: Mic\n");
    let (outputs, active) = extract_outputs(&parsed);
    assert!(outputs.is_empty());
    assert_eq!(active, None);
}

#[test]
fn empty_listing_yields_nothing() {
    let (outputs, active) = extract_outputs(&parse(""));
    assert!(outputs.is_empty());
    assert_eq!(active, None);
}

#[test]
fn descriptions_are_collected_in_order() {
    let text = "Sink #0\n\tDescription: Speakers\nSink #1\n\tDescription: Headphones\n";
    let (outputs, active) = extract_outputs(&parse(text));
    assert_eq!(outputs, vec!["Speakers".to_string(), "Headphones".to_string()]);
    assert_eq!(active, None);
}

#[test]
fn running_sink_is_active() {
    let text = "Sink #0\n\tState: IDLE\n\tDescription: Speakers\nSink #1\n\tState: RUNNING\n\tDescription: Headphones\n";
    let (outputs, active) = extract_outputs(&parse(text));
    assert_eq!(outputs, vec!["Speakers".to_string(), "Headphones".to_string()]);
    assert_eq!(active, Some("Headphones".to_string()));
}

#[test]
fn two_running_sinks_pick_the_last() {
    let text = "Sink #0\n\tState: RUNNING\n\tDescription: A\nSink #1\n\tState: RUNNING\n\tDescription: B\n";
    let (outputs, active) = extract_outputs(&parse(text));
    assert_eq!(outputs, vec!["A".to_string(), "B".to_string()]);
    let a = active.expect("one running sink must be picked");
    assert!(outputs.contains(&a));
    assert_eq!(a, "B");
}

#[test]
fn running_sink_without_description_is_skipped() {
    let text = "Sink #0\n\tState: RUNNING\nSink #1\n\tDescription: B\n";
    let (outputs, active) = extract_outputs(&parse(text));
    assert_eq!(outputs, vec!["B".to_string()]);
    assert_eq!(active, None);
}

#[test]
fn sink_prefix_must_match_exactly() {
    let text = "Sinks #0\n\tDescription: No\nSink Input #3\n\tDescription: Also no\nSink #12\n\tDescription: Yes\n";
    let (outputs, active) = extract_outputs(&parse(text));
    assert_eq!(outputs, vec!["Yes".to_string()]);
    assert_eq!(active, None);
}

#[test]
fn state_must_equal_running_exactly() {
    let text = "Sink #0\n\tState: running\n\tDescription: A\n";
    let (_, active) = extract_outputs(&parse(text));
    assert_eq!(active, None);
}

#[test]
fn pipewire_backend_parses_and_queries() {
    let text = "Sink #0\n\tState: RUNNING\n\tDescription: Built-in Audio\nSource #1\n\tDescription: Mic\n";
    let (outputs, active) = get_outputs_pipewire(text);
    assert_eq!(outputs, vec!["Built-in Audio".to_string()]);
    assert_eq!(active, Some("Built-in Audio".to_string()));
}

#[test]
fn pulseaudio_backend_is_a_stub() {
    let (outputs, active) = get_outputs_pulseaudio();
    assert!(outputs.is_empty());
    assert_eq!(active, None);
}

#[test]
fn pulseaudio_probe_wins() {
    assert_eq!(select_sound_server(b"1234\n", b"5678\n"), Ok("pulseaudio".to_string()));
    assert_eq!(select_sound_server(b"1234\n", b""), Ok("pulseaudio".to_string()));
}

#[test]
fn pipewire_probe_is_second() {
    assert_eq!(select_sound_server(b"", b"5678\n"), Ok("pipewire".to_string()));
}

#[test]
fn no_probe_is_unsupported() {
    assert_eq!(select_sound_server(b"", b""), Err(UnsupportedBackend));
}

#[test]
fn dispatch_on_pulseaudio() {
    let r = get_audio_outputs("pulseaudio", "Sink #0\n\tDescription: X\n").unwrap();
    assert!(r.0.is_empty());
    assert_eq!(r.1, None);
}

#[test]
fn dispatch_on_pipewire() {
    let r = get_audio_outputs("pipewire", "Sink #0\n\tState: RUNNING\n\tDescription: X\n").unwrap();
    assert_eq!(r.0, vec!["X".to_string()]);
    assert_eq!(r.1, Some("X".to_string()));
}

#[test]
fn dispatch_refuses_unknown_backend() {
    assert!(matches!(get_audio_outputs("jack", ""), Err(UnsupportedBackend)));
    assert!(matches!(get_audio_outputs("", ""), Err(UnsupportedBackend)));
}

#[test]
fn realistic_listing() {
    let text = "Sink #47\n\tState: RUNNING\n\tName: alsa_output.pci-0000_00_1f.3.analog-stereo\n\tDescription: Built-in Audio Analog Stereo\n\tVolume: front-left: 65536 / 100%\nSink #51\n\tState: SUSPENDED\n\tName: bluez_output.headset\n\tDescription: Vibe 100\nSource #48\n\tState: IDLE\n\tDescription: Built-in Audio Analog Stereo\n";
    let (outputs, active) = get_outputs_pipewire(text);
    assert_eq!(
        outputs,
        vec!["Built-in Audio Analog Stereo".to_string(), "Vibe 100".to_string()]
    );
    assert_eq!(active, Some("Built-in Audio Analog Stereo".to_string()));
}
