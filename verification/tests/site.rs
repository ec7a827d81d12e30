use shardscape::clock::ClusterClock;
use shardscape::config::Config;
use shardscape::site::{random_hex, render_k8s_manifests, startup_config};
use shardscape::store::Store;

#[test]
fn render_k8s_uses_site_and_ports_from_config() {
    let mut config = Config::default();
    config.storage.local_location_id = "office".to_string();
    config.server.s3_bind_addr = "0.0.0.0:9000".to_string();
    config.server.internal_bind_addr = "0.0.0.0:9001".to_string();
    let y = render_k8s_manifests(&config);
    assert!(y.contains("shardscape-office"));
    assert!(y.contains("name: shardscape")); // namespace
    assert!(y.contains("containerPort: 9000"));
    assert!(y.contains("containerPort: 9001"));
    assert!(y.contains(r#"args: ["serve", "--config", "/data/config.toml"]"#));
}

#[test]
fn random_hex_is_right_length_and_varies() {
    let a = random_hex(32);
    let b = random_hex(32);
    assert_eq!(a.len(), 64); // 32 bytes → 64 hex chars
    assert_ne!(a, b, "two draws should differ");
}

#[test]
fn startup_config_takes_the_secret_and_misses_the_key() {
    let (config, keyless) = startup_config(None, None);
    assert_eq!(config.server.cluster_secret, "default-cluster-secret");
    assert!(keyless);
    let mut loaded = Config::default();
    loaded.server.noise_private_key = "key".to_string();
    loaded.storage.local_location_id = "office".to_string();
    let (config, keyless) = startup_config(Some(loaded), Some("hush".to_string()));
    assert_eq!(config.server.cluster_secret, "hush");
    assert_eq!(config.storage.local_location_id, "office");
    assert_eq!(config.server.noise_private_key, "key");
    assert!(!keyless);
}

#[test]
fn bootstrap_creates_the_admin_once() {
    let mut s = Store::new("site-a".to_string(), ClusterClock::new(0));
    assert_eq!(s.bootstrap_admin_user_at("first", "{}", 1), Ok(true));
    assert_eq!(s.bootstrap_admin_user_at("second", "{}", 2), Ok(false));
    assert_eq!(s.bootstrap_admin_user("third", "{}"), Ok(false));
    assert_eq!(s.get_user("admin"), Some(("first".to_string(), "{}".to_string())));
}
