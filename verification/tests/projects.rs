use std::io::Write;

use beatcrate::als::{
    als_meta_from_nodes, classify_als_entry, created_date, failed_name, orphan_projects, parse_als, secs_as_i64,
    systime_secs, AlsEntry,
};
use beatcrate::xml::{check_tree, XmlNode};

fn gzip(text: &str) -> Vec<u8> {
    let mut enc = flate2::write::GzEncoder::new(Vec::new(), flate2::Compression::default());
    enc.write_all(text.as_bytes()).unwrap();
    enc.finish().unwrap()
}

const SET: &str = r#"<?xml version="1.0" encoding="UTF-8"?>
<Ableton MajorVersion="5" Creator="Ableton Live 12.0.5">
  <LiveSet>
    <Tracks>
      <MidiTrack><DeviceChain><MainSequencer><ClipTimeable><ArrangerAutomation><Events><MidiClip/></Events></ArrangerAutomation></ClipTimeable></MainSequencer></DeviceChain></MidiTrack>
      <MidiTrack><DeviceChain><MainSequencer><ClipTimeable><ArrangerAutomation><Events/></ArrangerAutomation></ClipTimeable></MainSequencer></DeviceChain></MidiTrack>
      <AudioTrack><DeviceChain><MainSequencer><Sample><ArrangerAutomation><Events><AudioClip/></Events></ArrangerAutomation></Sample></MainSequencer></DeviceChain></AudioTrack>
      <ReturnTrack><DeviceChain><Devices><Reverb/></Devices></DeviceChain></ReturnTrack>
      <GroupTrack><DeviceChain><Devices/></DeviceChain></GroupTrack>
    </Tracks>
    <MainTrack><DeviceChain><Mixer><Tempo><Manual Value="92.5"/></Tempo></Mixer></DeviceChain></MainTrack>
    <ScaleInformation><Root Value="9"/><Name Value="Minor"/></ScaleInformation>
    <InKey Value="true"/>
    <Somewhere><RemoteableTimeSignature><Numerator Value="7"/><Denominator Value="8"/></RemoteableTimeSignature></Somewhere>
    <Devices>
      <PluginDesc><VstPluginInfo><PlugName Value="Serum"/></VstPluginInfo></PluginDesc>
      <PluginDesc><Vst3PluginInfo><Name Value="Pro-Q 3"/></Vst3PluginInfo></PluginDesc>
      <PluginDesc><VstPluginInfo><PlugName Value="Serum"/></VstPluginInfo><AuPluginInfo><Name Value=""/></AuPluginInfo></PluginDesc>
    </Devices>
    <SampleRef><FileRef><Name Value="Samples/kick.wav"/></FileRef></SampleRef>
    <SampleRef><FileRef><Name Value="   "/></FileRef></SampleRef>
    <SampleRef><FileRef><Name Value="other/kick.wav"/></FileRef></SampleRef>
    <SampleRef><FileRef><Name Value="snare.wav"/></FileRef></SampleRef>
  </LiveSet>
</Ableton>"#;

#[test]
fn live_set_metadata_is_read() {
    let m = parse_als(&gzip(SET), 1_700_000_000, Some(1_600_000_000)).expect("a valid set parses");
    assert_eq!(m.bpm_text, Some("92.5".to_string()));
    assert_eq!(m.key_root, Some(9));
    assert_eq!(m.key_scale, Some("Minor".to_string()));
    assert!(m.key_confirmed);
    assert_eq!((m.time_sig_num, m.time_sig_den), (7, 8));
    assert_eq!(m.active_track_count, 4, "main + midi with events + audio with events + return with devices");
    assert_eq!(m.plugins, vec!["Serum".to_string(), "Pro-Q 3".to_string()]);
    assert_eq!(m.samples, vec!["kick.wav".to_string(), "snare.wav".to_string()]);
    assert_eq!(m.ableton_version, Some("Ableton Live 12.0.5".to_string()));
    assert_eq!(m.file_mod_date, 1_700_000_000);
    assert_eq!(m.created_date, 1_600_000_000);
}

#[test]
fn bare_set_takes_the_defaults() {
    let xml = r#"<Ableton><LiveSet><Tempo><Manual Value="120"/></Tempo><ScaleInformation><Root Value="3"/></ScaleInformation><InKey Value="false"/></LiveSet></Ableton>"#;
    let m = parse_als(&gzip(xml), 10, None).unwrap();
    assert_eq!(m.bpm_text, Some("120".to_string()), "top-level Tempo is the fallback");
    assert_eq!(m.key_root, None, "a key counts only when InKey is true");
    assert!(!m.key_confirmed);
    assert_eq!((m.time_sig_num, m.time_sig_den), (4, 4));
    assert_eq!(m.active_track_count, 1);
    assert!(m.plugins.is_empty() && m.samples.is_empty());
    assert_eq!(m.ableton_version, None);
    assert_eq!(m.created_date, 10, "no folder time falls back to the file time");
}

#[test]
fn tempo_is_found_anywhere_as_a_last_resort() {
    let xml = r#"<Ableton><LiveSet><A><B><Tempo><Manual Value="88"/></Tempo></B></A></LiveSet></Ableton>"#;
    let m = parse_als(&gzip(xml), 0, None).unwrap();
    assert_eq!(m.bpm_text, Some("88".to_string()));
}

#[test]
fn unreadable_sets_are_refused() {
    assert!(parse_als(&b"not gzip".to_vec(), 0, None).is_none(), "not gzip");
    assert!(parse_als(&gzip("<Ableton><LiveSet>"), 0, None).is_none(), "not XML");
    assert!(parse_als(&gzip("<Ableton><Other/></Ableton>"), 0, None).is_none(), "no LiveSet");
}

#[test]
fn malformed_key_root_is_dropped() {
    let xml = r#"<Ableton><LiveSet><ScaleInformation><Root Value="x"/><Name Value=""/></ScaleInformation><InKey Value="true"/></LiveSet></Ableton>"#;
    let m = parse_als(&gzip(xml), 0, None).unwrap();
    assert!(m.key_confirmed);
    assert_eq!(m.key_root, None);
    assert_eq!(m.key_scale, None, "an empty scale name is not stored");
}

#[test]
fn node_lists_must_have_document_shape() {
    let node = |id: usize, children: Vec<usize>| XmlNode {
        id,
        is_element: true,
        name: "e".to_string(),
        attributes: vec![],
        children,
    };
    assert!(check_tree(&vec![node(0, vec![1]), node(1, vec![])]));
    assert!(!check_tree(&vec![node(0, vec![0])]), "a node cannot be its own child");
    assert!(!check_tree(&vec![node(1, vec![])]), "ids follow positions");
    assert!(!check_tree(&vec![node(0, vec![2, 1]), node(1, vec![]), node(2, vec![])]), "children in order");
    assert!(als_meta_from_nodes(&vec![node(0, vec![])], 0, 0).is_none(), "no root element");
}

#[test]
fn project_walk_classifies_entries() {
    assert!(matches!(classify_als_entry("/p/Backup", "Backup", true, false), AlsEntry::Skip));
    assert!(matches!(classify_als_entry("/p/Song Project", "Song Project", true, false), AlsEntry::Descend));
    assert!(matches!(classify_als_entry("/p/Song.als", "Song.als", false, true), AlsEntry::Collect));
    assert!(matches!(classify_als_entry("/p/Song.ALS", "Song.ALS", false, true), AlsEntry::Collect));
    assert!(matches!(classify_als_entry("/p/Song.als.bak", "Song.als.bak", false, true), AlsEntry::Skip));
    assert!(matches!(classify_als_entry("/p/.als", ".als", false, true), AlsEntry::Skip));
}

#[test]
fn failed_projects_are_named_by_file() {
    assert_eq!(failed_name("/p/Song Project/Song.als"), "Song.als");
    assert_eq!(failed_name("/"), "/");
}

#[test]
fn orphan_rows_are_those_gone_from_disk() {
    let existing = vec!["/p/a.als".to_string(), "/p/b.als".to_string()];
    let on_disk = vec!["/p/b.als".to_string(), "/p/c.als".to_string()];
    assert_eq!(orphan_projects(&existing, &on_disk), vec!["/p/a.als".to_string()]);
    assert!(orphan_projects(&existing, &vec![]).is_empty(), "an empty walk prunes nothing");
}

#[test]
fn file_times_in_seconds() {
    assert_eq!(created_date(Some(5), 9), 5);
    assert_eq!(created_date(Some(0), 9), 9);
    assert_eq!(created_date(None, 9), 9);
    assert_eq!(secs_as_i64(Some(17)), 17);
    assert_eq!(secs_as_i64(None), 0);
    let t = std::time::UNIX_EPOCH + std::time::Duration::from_secs(1234);
    assert_eq!(systime_secs(t), 1234);
    let before = std::time::UNIX_EPOCH - std::time::Duration::from_secs(5);
    assert_eq!(systime_secs(before), 0);
}
