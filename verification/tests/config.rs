use web_app::{AppConfig, Config, ServerConfig};

#[test]
fn default_config_is_unset() {
    let config = Config::default();
    assert!(config.app.ccit_info_file.is_none());
    assert!(config.app.server_network_log_file.is_none());
    assert!(config.app.some_tools.is_none());
    assert!(config.app.diary.is_none());
    assert!(config.server.addr.is_none());
    assert_eq!(config.server.port, 0);
}

#[test]
fn default_parts_are_unset() {
    let app = AppConfig::default();
    assert!(app.diary.is_none());
    let server = ServerConfig::default();
    assert_eq!(server.port, 0);
    assert!(server.addr.is_none());
}
