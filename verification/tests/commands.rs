use vac::audio::{AudioSource, DeviceType};
use vac::commands::{
    chrono_now, find_route_id, format_timestamp, get_audio_devices, get_presets,
    preset_file_name, remove_route, restore_routes, sanitize_filename, set_mute, set_route,
    set_volume, timestamp, RouteSetting,
};
use vac::devices::VirtualDevice;
use vac::routing::RoutingMatrix;

#[derive(Debug, Clone, Copy, PartialEq)]
struct Mix {
    volume: f32,
}

impl Default for Mix {
    fn default() -> Self {
        Mix { volume: 1.0 }
    }
}

fn source(id: &str, name: &str, t: DeviceType) -> AudioSource {
    AudioSource { id: id.into(), name: name.into(), device_type: t, sample_rate: 48000, channels: 2 }
}

#[test]
fn device_list_puts_inputs_outputs_then_virtuals() {
    let inputs = vec![source("mic_0", "Mic", DeviceType::Microphone)];
    let outputs = vec![
        source("out_0", "Speakers", DeviceType::SystemAudio),
        source("out_1", "Phones", DeviceType::SystemAudio),
    ];
    let virtuals = vec![VirtualDevice {
        id: "vac_1".into(),
        name: "Bus".into(),
        channels: 8,
        sample_rate: 48000,
        is_active: true,
    }];
    let list = get_audio_devices(&inputs, &outputs, &virtuals);
    assert_eq!(list.len(), 4);
    assert_eq!(list[0].id, "mic_0");
    assert_eq!(list[0].device_type, "Microphone");
    assert_eq!(list[1].device_type, "SystemAudio");
    assert_eq!(list[2].name, "Phones");
    assert_eq!(list[3].id, "vac_1");
    assert_eq!(list[3].device_type, "Virtual");
    assert_eq!(list[3].channels, 8);
}

#[test]
fn file_names_are_sanitized() {
    assert_eq!(sanitize_filename("my preset/1"), "my_preset_1");
    assert_eq!(sanitize_filename("../etc/passwd"), "___etc_passwd");
    assert_eq!(sanitize_filename("Live-Set_2"), "Live-Set_2");
    assert_eq!(sanitize_filename("Müsik"), "Müsik");
    assert_eq!(sanitize_filename("a.b:c\\d"), "a_b_c_d");
    assert_eq!(sanitize_filename(""), "");
    let once = sanitize_filename("x y.z");
    assert_eq!(sanitize_filename(&once), once);
}

#[test]
fn preset_files_end_in_json() {
    assert_eq!(preset_file_name("Studio A"), "Studio_A.json");
    assert_eq!(preset_file_name("x.json"), "x_json.json");
}

#[test]
fn preset_listing_filters_trims_and_sorts() {
    let files: Vec<String> = vec![
        "b.json".into(),
        "notes.txt".into(),
        "a.json.json".into(),
        "Zed.json".into(),
        ".json".into(),
        "json".into(),
    ];
    let names = get_presets(&files);
    assert_eq!(names, vec!["".to_string(), "Zed".into(), "a".into(), "b".into()]);
}

#[test]
fn saved_preset_is_listed_under_its_sanitized_name() {
    let file = preset_file_name("My Set.v2");
    assert_eq!(get_presets(&vec![file]), vec!["My_Set_v2".to_string()]);
}

#[test]
fn timestamps() {
    assert_eq!(format_timestamp(0), "1970-01-01T00:00:00Z");
    assert_eq!(format_timestamp(365 * 86400 + 3661), "1971-01-01T01:01:01Z");
    assert_eq!(format_timestamp(86399), "1970-01-01T23:59:59Z");
    let now = chrono_now();
    assert_eq!(now.len(), 20);
    assert!(now.ends_with('Z'));
    assert_eq!(&now[4..11], "-01-01T");
    assert_eq!(timestamp().len(), 20);
}

#[test]
fn routes_are_found_by_their_devices() {
    let mut m: RoutingMatrix<Mix> = RoutingMatrix::new();
    m.add_route("mic_0".into(), "out_0".into());
    m.add_route("mic_0".into(), "out_1".into());
    assert_eq!(find_route_id(&m, "mic_0", "out_1"), Some("route_2".to_string()));
    assert_eq!(find_route_id(&m, "mic_1", "out_1"), None);
}

#[test]
fn muting_a_route() {
    let mut m: RoutingMatrix<Mix> = RoutingMatrix::new();
    m.add_route("mic_0".into(), "out_0".into());
    m.add_route("mic_0".into(), "out_1".into());
    set_mute(&mut m, "mic_0", "out_1", true);
    assert!(!m.get_route("route_1").unwrap().muted);
    assert!(m.get_route("route_2").unwrap().muted);
    set_mute(&mut m, "mic_9", "out_1", false);
    assert!(m.get_route("route_2").unwrap().muted);
}

#[test]
fn setting_a_volume() {
    let mut m: RoutingMatrix<Mix> = RoutingMatrix::new();
    m.add_route("mic_0".into(), "out_0".into());
    set_volume(&mut m, "mic_0", "out_0", |mix: Mix| Mix { volume: 50.0 / 100.0, ..mix });
    assert_eq!(m.get_route("route_1").unwrap().mix.volume, 0.5);
    set_volume(&mut m, "mic_0", "out_7", |_mix: Mix| Mix { volume: 0.0 });
    assert_eq!(m.get_all_routes().len(), 1);
}

#[test]
fn setting_a_route_adds_it_once() {
    let mut m: RoutingMatrix<Mix> = RoutingMatrix::new();
    set_route(&mut m, "mic_0".into(), "out_0".into(), true, |mix: Mix| Mix { volume: 80.0 / 100.0, ..mix });
    let r = m.get_route("route_1").unwrap();
    assert!(r.muted);
    assert_eq!(r.mix.volume, 0.8);
    assert_eq!(m.next_route_number(), 2);
}

#[test]
fn setting_an_existing_route_updates_it_in_place() {
    let mut m: RoutingMatrix<Mix> = RoutingMatrix::new();
    m.add_route("mic_1".into(), "out_0".into());
    set_route(&mut m, "mic_0".into(), "out_0".into(), true, |mix: Mix| Mix { volume: 0.8, ..mix });
    set_route(&mut m, "mic_0".into(), "out_0".into(), false, |mix: Mix| Mix { volume: 50.0 / 100.0, ..mix });
    let all = m.get_all_routes();
    assert_eq!(all.len(), 2);
    assert_eq!(m.next_route_number(), 3);
    let r = m.get_route("route_2").unwrap();
    assert_eq!(r.input_id, "mic_0");
    assert!(!r.muted);
    assert_eq!(r.mix.volume, 0.5);
    let other = m.get_route("route_1").unwrap();
    assert_eq!(other.mix.volume, 1.0);
    assert!(!other.muted);
}

#[test]
fn removing_a_route_reports_remaining_routes_of_the_input() {
    let mut m: RoutingMatrix<Mix> = RoutingMatrix::new();
    m.add_route("mic_0".into(), "out_0".into());
    m.add_route("mic_0".into(), "out_1".into());
    assert!(remove_route(&mut m, "mic_0", "out_0"));
    assert!(!remove_route(&mut m, "mic_0", "out_1"));
    assert!(m.get_all_routes().is_empty());
    assert!(!remove_route(&mut m, "mic_0", "out_1"));
}

#[test]
fn restoring_routes_renumbers_them() {
    let mut m: RoutingMatrix<Mix> = RoutingMatrix::new();
    m.add_route("old".into(), "old".into());
    m.add_route("old".into(), "old2".into());
    let settings = vec![
        RouteSetting { input_id: "mic_0".into(), output_id: "out_0".into(), mix: Mix { volume: 0.3 }, muted: false },
        RouteSetting { input_id: "mic_1".into(), output_id: "out_0".into(), mix: Mix { volume: 0.9 }, muted: true },
    ];
    restore_routes(&mut m, &settings);
    let all = m.get_all_routes();
    assert_eq!(all.len(), 2);
    assert_eq!(all[0].id, "route_1");
    assert_eq!(all[0].mix.volume, 0.3);
    assert_eq!(all[1].id, "route_2");
    assert_eq!(all[1].input_id, "mic_1");
    assert!(all[1].muted);
    assert_eq!(m.next_route_number(), 3);
}
