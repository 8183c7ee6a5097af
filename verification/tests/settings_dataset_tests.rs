use covekit::data_transfer::records::{Field, Record};
use covekit::data_transfer::settings_dataset::{apply, validate, validate_records, APP_SETTINGS, TOOL_SETTINGS};
use covekit::preferences::{Layer, SettingValue, ToolSettings};

fn setting(id: &str, value: &str) -> Record {
    Record::Object(vec![
        ("id".to_string(), Field::Text(id.to_string())),
        ("value".to_string(), Field::Text(value.to_string())),
    ])
}

fn get<'a>(l: &'a Layer, key: &str) -> Option<&'a SettingValue> {
    l.iter().find(|(k, _)| k == key).map(|(_, v)| v)
}

fn tool_setting<'a>(l: &'a Layer, owner: &str, key: &str) -> Option<&'a str> {
    match get(l, "tools") {
        Some(SettingValue::Object(tools)) => match tools.iter().find(|(k, _)| k == owner).map(|(_, v)| v) {
            Some(ToolSettings::Object(entries)) => entries.iter().find(|(k, _)| k == key).map(|(_, v)| v.as_str()),
            _ => None,
        },
        _ => None,
    }
}

#[test]
fn settings_whitelist_rejects_device_fields_and_preserves_unselected_values() {
    assert!(validate(APP_SETTINGS, &setting("launchAtStartup", "true")).is_err());
    assert!(validate(TOOL_SETTINGS, &setting("frp.profileDir", "C:/private")).is_err());
    let map: Layer = vec![
        ("language".to_string(), SettingValue::Other("\"zh-CN\"".into())),
        (
            "tools".to_string(),
            SettingValue::Object(vec![(
                "frp".to_string(),
                ToolSettings::Object(vec![("profileDir".to_string(), "\"local\"".to_string())]),
            )]),
        ),
    ];
    let (map, count) = apply(map, APP_SETTINGS, &[setting("theme", "dark")]).unwrap();
    assert_eq!(count, 1);
    assert_eq!(get(&map, "language"), Some(&SettingValue::Other("\"zh-CN\"".into())));
    assert_eq!(get(&map, "theme"), Some(&SettingValue::Other("\"dark\"".into())));
    assert_eq!(tool_setting(&map, "frp", "profileDir"), Some("\"local\""));
    let (map, _) = apply(map, TOOL_SETTINGS, &[setting("ssh.idleDisconnectMinutes", "0")]).unwrap();
    assert_eq!(tool_setting(&map, "ssh", "idleDisconnectMinutes"), Some("\"0\""));
    assert_eq!(tool_setting(&map, "ssh", "idleDisconnectV2"), Some("true"));
}

#[test]
fn settings_records_are_checked_field_by_field() {
    assert_eq!(validate(APP_SETTINGS, &setting("theme", "neon")).unwrap_err(), "设置字段或取值不在可移植白名单内");
    assert!(validate(APP_SETTINGS, &setting("language", "en-US")).is_ok());
    assert!(validate(TOOL_SETTINGS, &setting("ssh.idleDisconnectMinutes", "120")).is_ok());
    assert!(validate(TOOL_SETTINGS, &setting("theme", "dark")).is_err());
    let extra = Record::Object(vec![
        ("id".to_string(), Field::Text("theme".into())),
        ("value".to_string(), Field::Text("dark".into())),
        ("scope".to_string(), Field::Text("device".into())),
    ]);
    assert_eq!(validate(APP_SETTINGS, &extra).unwrap_err(), "导入记录包含当前版本不支持的字段");
    let numeric = Record::Object(vec![
        ("id".to_string(), Field::Text("ssh.idleDisconnectMinutes".into())),
        ("value".to_string(), Field::Other("30".into())),
    ]);
    assert_eq!(validate(TOOL_SETTINGS, &numeric).unwrap_err(), "导入记录字段 value 必须为字符串");
    assert_eq!(
        validate_records(APP_SETTINGS, &[setting("theme", "dark"), setting("theme", "light")]).unwrap_err(),
        "设置键重复"
    );
    assert!(validate_records(APP_SETTINGS, &[setting("theme", "dark"), setting("language", "zh-CN")]).is_ok());
}

#[test]
fn broken_tool_structure_is_refused() {
    let map: Layer = vec![("tools".to_string(), SettingValue::Other("[]".into()))];
    assert_eq!(
        apply(map, TOOL_SETTINGS, &[setting("ssh.idleDisconnectMinutes", "0")]).unwrap_err(),
        "工具设置结构损坏"
    );
    let map: Layer = vec![(
        "tools".to_string(),
        SettingValue::Object(vec![("ssh".to_string(), ToolSettings::Other("1".into()))]),
    )];
    assert_eq!(
        apply(map, TOOL_SETTINGS, &[setting("ssh.idleDisconnectMinutes", "0")]).unwrap_err(),
        "SSH 设置结构损坏"
    );
}
