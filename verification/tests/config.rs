use ferrox::config::{
    default_http_port, default_https_port, default_timeout, default_tls_config, RouterPreset,
};

#[test]
fn defaults() {
    assert_eq!(default_timeout(), 10);
    assert_eq!(default_http_port(), 80);
    assert_eq!(default_https_port(), 443);
    let tls = default_tls_config();
    assert!(!tls.enabled);
    assert_eq!(tls.cert_path, "");
    assert_eq!(tls.key_path, "");
    assert_eq!(RouterPreset::default(), RouterPreset::Static);
}

#[test]
fn router_preset_names_ignore_case() {
    assert_eq!(RouterPreset::from_name("static"), Some(RouterPreset::Static));
    assert_eq!(RouterPreset::from_name("SPA"), Some(RouterPreset::Spa));
    assert_eq!(RouterPreset::from_name("Spa"), Some(RouterPreset::Spa));
    assert_eq!(RouterPreset::from_name("StAtIc"), Some(RouterPreset::Static));
    assert_eq!(RouterPreset::from_name("spa "), None);
    assert_eq!(RouterPreset::from_name("proxy"), None);
    assert_eq!(RouterPreset::from_name(""), None);
}
