use covekit::preferences::{
    is_device_key, is_device_tool_key, merge_view, merged_tools, path_in, read_view, split_patch, split_tools, Document,
    Layer, SettingValue, ToolSettings, Tools,
};

fn text(json: &str) -> SettingValue {
    SettingValue::Other(json.to_string())
}

/// A layer with its keys put in ascending order, as a JSON object keeps them.
fn layer(mut entries: Vec<(&str, SettingValue)>) -> Layer {
    entries.sort_by(|a, b| a.0.cmp(b.0));
    entries.into_iter().map(|(k, v)| (k.to_string(), v)).collect()
}

fn settings(mut entries: Vec<(&str, &str)>) -> ToolSettings {
    entries.sort_by(|a, b| a.0.cmp(b.0));
    ToolSettings::Object(entries.into_iter().map(|(k, v)| (k.to_string(), v.to_string())).collect())
}

fn tools(mut owners: Vec<(&str, ToolSettings)>) -> Tools {
    owners.sort_by(|a, b| a.0.cmp(b.0));
    owners.into_iter().map(|(k, v)| (k.to_string(), v)).collect()
}

fn get<'a>(l: &'a Layer, key: &str) -> Option<&'a SettingValue> {
    l.iter().find(|(k, _)| k == key).map(|(_, v)| v)
}

fn tool<'a>(t: &'a Tools, owner: &str) -> Option<&'a ToolSettings> {
    t.iter().find(|(k, _)| k == owner).map(|(_, v)| v)
}

fn setting<'a>(t: &'a ToolSettings, key: &str) -> Option<&'a str> {
    match t {
        ToolSettings::Object(entries) => entries.iter().find(|(k, _)| k == key).map(|(_, v)| v.as_str()),
        ToolSettings::Other(_) => None,
    }
}

fn reserved() -> Vec<String> {
    vec!["storageRoot".to_string()]
}

#[test]
fn patch_splits_by_scope() {
    let patch = layer(vec![
        ("theme", text("\"dark\"")),
        ("language", text("\"zh-CN\"")),
        ("launchAtStartup", text("true")),
        ("defaultDownloadDirectory", text("\"D:/dl\"")),
        ("storageRoot", text("\"D:/pb\"")),
    ]);
    let (device, space) = split_patch(&patch, &reserved()).unwrap();
    assert!(get(&device, "launchAtStartup").is_some());
    assert!(get(&device, "defaultDownloadDirectory").is_some());
    assert!(get(&device, "storageRoot").is_some(), "自举键必须留设备层");
    assert!(get(&space, "launchAtStartup").is_none());
    assert_eq!(get(&space, "theme"), Some(&text("\"dark\"")), "主题随空间隔离");
    assert_eq!(get(&space, "language"), Some(&text("\"zh-CN\"")));
}

#[test]
fn frp_device_keys_stay_on_device_side() {
    let value = SettingValue::Object(tools(vec![
        ("frp", settings(vec![("frpcPath", "\"D:/frp/frpc.exe\""), ("profileDir", "\"D:/frp/profiles\""), ("maxLogLines", "500")])),
        ("ssh", settings(vec![("keepAlive", "30")])),
    ]));
    let (device_tools, space_tools) = split_tools(&value).unwrap();
    let device_frp = tool(&device_tools, "frp").unwrap();
    assert!(setting(device_frp, "frpcPath").is_some());
    assert!(setting(device_frp, "profileDir").is_some());
    assert!(setting(device_frp, "maxLogLines").is_none());
    let space_frp = tool(&space_tools, "frp").unwrap();
    assert!(setting(space_frp, "maxLogLines").is_some());
    assert!(tool(&space_tools, "ssh").is_some(), "其他工具设置随空间");
    assert!(tool(&device_tools, "ssh").is_none());
}

#[test]
fn merged_view_overlays_space_over_device() {
    let device = Document::Object(layer(vec![
        ("theme", text("\"light\"")),
        ("launchAtStartup", text("true")),
        ("tools", SettingValue::Object(tools(vec![("frp", settings(vec![("frpcPath", "\"D:/frp/frpc.exe\"")]))]))),
    ]));
    let space = layer(vec![
        ("theme", text("\"dark\"")),
        ("tools", SettingValue::Object(tools(vec![("frp", settings(vec![("maxLogLines", "500")]))]))),
    ]);
    let merged = merge_view(&device, &space);
    assert_eq!(get(&merged, "theme"), Some(&text("\"dark\"")));
    assert_eq!(get(&merged, "launchAtStartup"), Some(&text("true")), "设备级键必须仍在");
    let merged_tools = match get(&merged, "tools") {
        Some(SettingValue::Object(t)) => t,
        other => panic!("tools missing: {other:?}"),
    };
    let frp = tool(merged_tools, "frp").unwrap();
    assert_eq!(setting(frp, "maxLogLines"), Some("500"));
    assert_eq!(setting(frp, "frpcPath"), Some("\"D:/frp/frpc.exe\""), "设备级工具键不得被空间层抹掉");
}

#[test]
fn read_view_falls_back_to_device_value() {
    let device = Document::Object(layer(vec![("theme", text("\"light\"")), ("launchAtStartup", text("false"))]));
    let space = layer(vec![]);
    assert_eq!(read_view(&device, &space, "theme", &reserved()), text("\"light\""), "空间层为空时读历史值");
    let with_space = layer(vec![("theme", text("\"dark\""))]);
    assert_eq!(read_view(&device, &with_space, "theme", &reserved()), text("\"dark\""));
    assert_eq!(read_view(&device, &with_space, "launchAtStartup", &reserved()), text("false"), "设备级键不受空间层影响");
}

#[test]
fn device_keys_ignore_the_space_layer_and_missing_keys_read_null() {
    let device = Document::Object(layer(vec![("storageRoot", text("\"D:/pb\""))]));
    let space = layer(vec![("storageRoot", text("\"E:/other\"")), ("launchAtStartup", text("true"))]);
    assert_eq!(read_view(&device, &space, "storageRoot", &reserved()), text("\"D:/pb\""));
    assert_eq!(read_view(&device, &space, "launchAtStartup", &reserved()), text("null"));
    assert_eq!(read_view(&Document::Other("[]".into()), &layer(vec![]), "theme", &reserved()), text("null"));
}

#[test]
fn malformed_tool_settings_are_refused() {
    assert_eq!(split_tools(&text("3")).unwrap_err(), "工具设置必须是对象（工具 id → 设置键值）");
    let bad = SettingValue::Object(tools(vec![
        ("ssh", ToolSettings::Other("true".into())),
        ("frp", settings(vec![("frpcPath", "\"x\"")])),
        ("abc", ToolSettings::Other("1".into())),
    ]));
    assert_eq!(split_tools(&bad).unwrap_err(), "工具 abc 的设置必须是对象");
    let patch = layer(vec![("theme", text("\"dark\"")), ("tools", text("[]"))]);
    assert_eq!(split_patch(&patch, &reserved()).unwrap_err(), "工具设置必须是对象（工具 id → 设置键值）");
}

#[test]
fn split_then_merge_gives_the_patch_back() {
    let patch = layer(vec![
        ("theme", text("\"dark\"")),
        ("storageRoot", text("\"D:/pb\"")),
        ("tools", SettingValue::Object(tools(vec![
            ("frp", settings(vec![("frpcPath", "\"x\""), ("maxLogLines", "9")])),
            ("ssh", settings(vec![("keepAlive", "30")])),
        ]))),
    ]);
    let (device, space) = split_patch(&patch, &reserved()).unwrap();
    let merged = merge_view(&Document::Object(device), &space);
    assert_eq!(merged, patch);
}

#[test]
fn merged_tools_keeps_odd_device_values_and_adds_space_only_tools() {
    let device = Document::Object(layer(vec![(
        "tools",
        SettingValue::Object(tools(vec![("legacy", ToolSettings::Other("\"on\"".into()))])),
    )]));
    let space = layer(vec![(
        "tools",
        SettingValue::Object(tools(vec![
            ("legacy", settings(vec![("a", "1")])),
            ("newtool", ToolSettings::Other("7".into())),
        ])),
    )]);
    let merged = merged_tools(&device, &space);
    let expected = SettingValue::Object(tools(vec![
        ("legacy", ToolSettings::Other("\"on\"".into())),
        ("newtool", ToolSettings::Object(vec![])),
    ]));
    assert_eq!(merged, expected);
}

#[test]
fn scope_predicates() {
    assert!(is_device_key("launchAtStartup", &reserved()));
    assert!(is_device_key("defaultDownloadDirectory", &reserved()));
    assert!(is_device_key("storageRoot", &reserved()));
    assert!(!is_device_key("theme", &reserved()));
    assert!(is_device_tool_key("frp", "downloadMirror"));
    assert!(!is_device_tool_key("ssh", "frpcPath"));
    assert_eq!(path_in("/data/spaces/a"), "/data/spaces/a/preferences.json");
}
