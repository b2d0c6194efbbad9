use vac::devices::{is_virtual_device_name, DeviceManager, DeviceProbe, StreamFormat};

fn probe(name: Option<&str>, format: Option<(u16, u32)>) -> DeviceProbe {
    DeviceProbe {
        name: name.map(|n| n.to_string()),
        format: format.map(|(channels, sample_rate)| StreamFormat { channels, sample_rate }),
    }
}

#[test]
fn created_devices_are_numbered_from_one() {
    let mut m = DeviceManager::new();
    let a = m.create_virtual_device("Cable A".into(), 2);
    let b = m.create_virtual_device("Cable B".into(), 8);
    assert_eq!(a.id, "vac_1");
    assert_eq!(b.id, "vac_2");
    assert_eq!(a.sample_rate, 48000);
    assert_eq!(b.channels, 8);
    assert!(a.is_active);
    assert_eq!(m.next_device_number(), 3);
    assert_eq!(m.get_virtual_devices().len(), 2);
}

#[test]
fn created_device_is_found_again() {
    let mut m = DeviceManager::new();
    let a = m.create_virtual_device("Mixer".into(), 2);
    let found = m.get_virtual_device(&a.id).unwrap();
    assert_eq!(found.name, "Mixer");
    assert!(m.get_virtual_device("vac_9").is_none());
}

#[test]
fn deleting_a_device() {
    let mut m = DeviceManager::new();
    let a = m.create_virtual_device("Mixer".into(), 2);
    assert_eq!(m.delete_virtual_device(&a.id), Ok(()));
    assert!(m.get_virtual_device(&a.id).is_none());
    assert_eq!(m.delete_virtual_device(&a.id), Err("Device not found".to_string()));
    let b = m.create_virtual_device("Mixer".into(), 2);
    assert_eq!(b.id, "vac_2");
}

#[test]
fn virtual_cable_names() {
    assert!(is_virtual_device_name("CABLE Input (VB-Audio Virtual Cable)"));
    assert!(is_virtual_device_name("VB-Cable"));
    assert!(is_virtual_device_name("My VAC 1"));
    assert!(is_virtual_device_name("Cable Output"));
    assert!(!is_virtual_device_name("Speakers (Realtek)"));
    assert!(!is_virtual_device_name("virtual"));
    assert!(!is_virtual_device_name(""));
}

#[test]
fn detection_registers_virtual_cables_by_index() {
    let mut m = DeviceManager::new();
    let probes = vec![
        probe(Some("Speakers"), Some((2, 44100))),
        probe(Some("CABLE Input (VB-Audio Virtual Cable)"), Some((2, 48000))),
        probe(None, Some((2, 48000))),
        probe(Some("Virtual Output"), None),
        probe(Some("VAC 2"), Some((8, 96000))),
    ];
    let found = m.detect_virtual_devices(&probes);
    assert_eq!(found.len(), 2);
    assert_eq!(found[0].id, "virtual_1");
    assert_eq!(found[0].channels, 2);
    assert_eq!(found[1].id, "virtual_4");
    assert_eq!(found[1].sample_rate, 96000);
    assert!(found[1].is_active);
    assert_eq!(m.get_virtual_devices().len(), 2);
    assert_eq!(m.get_virtual_device("virtual_4").unwrap().name, "VAC 2");
}

#[test]
fn detecting_again_replaces_devices_with_the_same_id() {
    let mut m = DeviceManager::new();
    m.create_virtual_device("Own".into(), 2);
    m.detect_virtual_devices(&vec![probe(Some("VAC one"), Some((2, 48000)))]);
    let again = m.detect_virtual_devices(&vec![probe(Some("VAC renamed"), Some((4, 44100)))]);
    assert_eq!(again.len(), 1);
    let all = m.get_virtual_devices();
    assert_eq!(all.len(), 2);
    assert_eq!(all[0].id, "vac_1");
    assert_eq!(all[1].id, "virtual_0");
    assert_eq!(all[1].name, "VAC renamed");
    assert_eq!(all[1].channels, 4);
}

#[test]
fn detection_with_no_devices_finds_nothing() {
    let mut m = DeviceManager::default();
    assert!(m.detect_virtual_devices(&vec![]).is_empty());
    assert!(m.get_virtual_devices().is_empty());
}
