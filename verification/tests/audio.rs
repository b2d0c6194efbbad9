use vac::audio::{
    input_sources, output_device_index, output_sources, resolve_input_device_by_id,
    routes_carrying, DeviceType, DspSettingsTable, InputDeviceError, LOOPBACK_DEFAULT_ID,
};
use vac::devices::{DeviceProbe, StreamFormat};
use vac::routing::RoutingMatrix;
use vac::text::ParseIndexError;

fn probe(name: Option<&str>, format: Option<(u16, u32)>) -> DeviceProbe {
    DeviceProbe {
        name: name.map(|n| n.to_string()),
        format: format.map(|(channels, sample_rate)| StreamFormat { channels, sample_rate }),
    }
}

fn names(list: &[Option<&str>]) -> Vec<Option<String>> {
    list.iter().map(|n| n.map(|s| s.to_string())).collect()
}

#[test]
fn input_sources_are_listed_by_enumeration_index() {
    let probes = vec![
        probe(Some("Mic A"), Some((1, 48000))),
        probe(None, Some((2, 48000))),
        probe(Some("Mic C"), Some((2, 44100))),
    ];
    let sources = input_sources(&probes, false);
    assert_eq!(sources.len(), 2);
    assert_eq!(sources[0].id, "mic_0");
    assert_eq!(sources[0].name, "Mic A");
    assert_eq!(sources[0].device_type, DeviceType::Microphone);
    assert_eq!(sources[1].id, "mic_2");
    assert_eq!(sources[1].sample_rate, 44100);
    assert_eq!(sources[1].channels, 2);
}

#[test]
fn loopback_source_comes_last() {
    let probes = vec![probe(Some("Mic A"), Some((1, 48000)))];
    let sources = input_sources(&probes, true);
    assert_eq!(sources.len(), 2);
    let lb = &sources[1];
    assert_eq!(lb.id, LOOPBACK_DEFAULT_ID);
    assert_eq!(lb.id, "loopback_default");
    assert_eq!(lb.name, "System Speaker Loopback (Default Output)");
    assert_eq!(lb.device_type, DeviceType::SystemAudio);
    assert_eq!(lb.sample_rate, 48000);
    assert_eq!(lb.channels, 2);
}

#[test]
fn output_sources_are_system_audio() {
    let probes = vec![
        probe(Some("Speakers"), Some((2, 48000))),
        probe(Some("Broken"), None),
        probe(Some("Headphones"), Some((2, 44100))),
    ];
    let outs = output_sources(&probes);
    assert_eq!(outs.len(), 2);
    assert_eq!(outs[0].id, "out_0");
    assert_eq!(outs[1].id, "out_2");
    assert_eq!(outs[1].device_type, DeviceType::SystemAudio);
}

#[test]
fn device_type_names() {
    assert_eq!(DeviceType::Microphone.name(), "Microphone");
    assert_eq!(DeviceType::SystemAudio.name(), "SystemAudio");
    assert_eq!(DeviceType::AudioFile.name(), "AudioFile");
    assert_eq!(DeviceType::NetworkStream.name(), "NetworkStream");
}

#[test]
fn mic_ids_resolve_to_their_index() {
    let ns = names(&[Some("Mic A"), None, Some("Mic C")]);
    assert_eq!(resolve_input_device_by_id("mic_2", Some(&ns)), Ok(2));
    assert_eq!(resolve_input_device_by_id("mic_+1", Some(&ns)), Ok(1));
    assert_eq!(resolve_input_device_by_id("mic_007", Some(&ns)), Err(InputDeviceError::IndexNotFound(7)));
}

#[test]
fn bad_mic_indices_are_reported() {
    let ns = names(&[Some("Mic A")]);
    assert_eq!(
        resolve_input_device_by_id("mic_", Some(&ns)),
        Err(InputDeviceError::BadIndex(ParseIndexError::Empty))
    );
    assert_eq!(
        resolve_input_device_by_id("mic_x", Some(&ns)),
        Err(InputDeviceError::BadIndex(ParseIndexError::InvalidDigit))
    );
    assert_eq!(
        resolve_input_device_by_id("mic_+", Some(&ns)),
        Err(InputDeviceError::BadIndex(ParseIndexError::InvalidDigit))
    );
    assert_eq!(
        resolve_input_device_by_id("mic_-1", Some(&ns)),
        Err(InputDeviceError::BadIndex(ParseIndexError::InvalidDigit))
    );
    assert_eq!(
        resolve_input_device_by_id("mic_99999999999999999999999", Some(&ns)),
        Err(InputDeviceError::BadIndex(ParseIndexError::PosOverflow))
    );
}

#[test]
fn other_ids_are_found_by_name() {
    let ns = names(&[Some("Built-in"), None, Some("USB Mic 1"), Some("USB Mic 2")]);
    assert_eq!(resolve_input_device_by_id("USB", Some(&ns)), Ok(2));
    assert_eq!(resolve_input_device_by_id("Mic 2", Some(&ns)), Ok(3));
    assert_eq!(resolve_input_device_by_id("Bluetooth", Some(&ns)), Err(InputDeviceError::NotFound));
    assert_eq!(resolve_input_device_by_id("USB", None), Err(InputDeviceError::Unavailable));
    assert_eq!(resolve_input_device_by_id("mic_0", None), Err(InputDeviceError::Unavailable));
}

#[test]
fn input_device_error_messages() {
    assert_eq!(InputDeviceError::IndexNotFound(12).message("mic_12"), "Input device index 12 not found");
    assert_eq!(InputDeviceError::NotFound.message("Foo"), "Input device not found for id Foo");
    assert_eq!(
        InputDeviceError::BadIndex(ParseIndexError::Empty).message("mic_"),
        "cannot parse integer from empty string"
    );
    assert_eq!(
        InputDeviceError::BadIndex(ParseIndexError::InvalidDigit).message("mic_a"),
        "invalid digit found in string"
    );
    assert_eq!(
        InputDeviceError::BadIndex(ParseIndexError::PosOverflow).message("mic_9"),
        "number too large to fit in target type"
    );
    // The same texts as the standard library gives.
    assert_eq!("".parse::<usize>().unwrap_err().to_string(), "cannot parse integer from empty string");
    assert_eq!("x".parse::<usize>().unwrap_err().to_string(), "invalid digit found in string");
}

#[test]
fn output_ids() {
    assert_eq!(output_device_index("out_0"), Some(0));
    assert_eq!(output_device_index("out_15"), Some(15));
    assert_eq!(output_device_index("out_"), None);
    assert_eq!(output_device_index("vac_1"), None);
    assert_eq!(output_device_index("out_x"), None);
    assert_eq!(output_device_index("ou"), None);
}

#[test]
fn frames_travel_over_unmuted_routes_of_their_input() {
    let mut m: RoutingMatrix<u8> = RoutingMatrix::new();
    m.add_route("mic_0".into(), "out_0".into());
    let mut muted = m.add_route("mic_0".into(), "out_1".into());
    m.add_route("mic_1".into(), "out_0".into());
    m.add_route("mic_0".into(), "out_2".into());
    muted.muted = true;
    m.update_route(muted).unwrap();
    let carrying = routes_carrying(&m.get_all_routes(), "mic_0");
    assert_eq!(carrying.len(), 2);
    assert_eq!(carrying[0].output_id, "out_0");
    assert_eq!(carrying[1].output_id, "out_2");
}

#[test]
fn dsp_settings_read_after_write() {
    let mut t: DspSettingsTable<[u8; 2]> = DspSettingsTable::new();
    assert_eq!(
        t.get_device_dsp("mic_0"),
        Err("No DSP config for device mic_0".to_string())
    );
    t.set_device_dsp("mic_0", [1, 2]);
    t.set_device_dsp("mic_1", [3, 4]);
    t.set_device_dsp("mic_0", [5, 6]);
    assert_eq!(t.get_device_dsp("mic_0"), Ok([5, 6]));
    assert_eq!(t.get_device_dsp("mic_1"), Ok([3, 4]));
    let all = t.get_all_dsp_settings();
    assert_eq!(all, vec![("mic_0".to_string(), [5, 6]), ("mic_1".to_string(), [3, 4])]);
}
