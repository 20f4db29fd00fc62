use gravity_core::config::AppConfig;

#[test]
fn default_accent_is_neutral_dark_gray() {
    let c = AppConfig::default();
    assert_eq!(c.accent_r, 40);
    assert_eq!(c.accent_g, 40);
    assert_eq!(c.accent_b, 40);
}

#[test]
fn config_round_trips_through_json_text() {
    let c = AppConfig { accent_r: 10, accent_g: 20, accent_b: 30 };
    let text = format!(
        "{{\"accent_r\":{},\"accent_b\":{},\"accent_g\":{}}}",
        c.accent_r, c.accent_b, c.accent_g
    );
    let parsed: serde_json::Value = serde_json::from_str(&text).unwrap();
    let back = AppConfig {
        accent_r: parsed["accent_r"].as_u64().unwrap() as u8,
        accent_b: parsed["accent_b"].as_u64().unwrap() as u8,
        accent_g: parsed["accent_g"].as_u64().unwrap() as u8,
    };
    assert_eq!(back, c);
}
