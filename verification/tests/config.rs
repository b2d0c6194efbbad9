use vac::config::AppConfig;

#[test]
fn default_config() {
    let c = AppConfig::default();
    assert_eq!(c.buffer_size, 512);
    assert_eq!(c.sample_rate, 48000);
    assert!(c.default_preset.is_none());
    assert!(!c.start_minimized);
    assert_eq!(c.theme, "dark");
    let d = c.clone();
    assert_eq!(d.theme, c.theme);
}
