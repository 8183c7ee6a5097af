//! Portable application and tool settings as package datasets: only the
//! published whitelist travels (theme, language, the SSH idle disconnect);
//! device paths and system switches never enter a package.

use vstd::prelude::*;

use crate::data_transfer::records::{fields, fields_spec, missing_string_message, string, str_views, text_field, Record};
use crate::preferences::{
    copy_texts, copy_tools, find_key, layer_view, lemma_assoc_absent, lemma_assoc_at, lemma_assoc_put, put,
    text_map, text_of, tool_view, tools_view, value_view, wf_layer, wf_tool, wf_value, Layer,
    SettingValue, ToolSettings, Tools, TOOLS_KEY,
};
use crate::text::{concat3, owned, str_eq};

verus! {

/// Dataset of the portable application settings.
pub const APP_SETTINGS: &'static str = "settings.application";

/// Dataset of the portable tool settings.
pub const TOOL_SETTINGS: &'static str = "settings.tools";

/// The two dataset names differ.
proof fn lemma_names_differ()
    ensures
        APP_SETTINGS@ != TOOL_SETTINGS@,
        "theme"@ != "language"@,
{
    reveal_strlit("settings.application");
    reveal_strlit("settings.tools");
    reveal_strlit("theme");
    reveal_strlit("language");
    assert(APP_SETTINGS@.len() != TOOL_SETTINGS@.len());
    assert("theme"@.len() != "language"@.len());
}

/// The whitelist: which setting may travel with which value.
pub open spec fn portable_setting(dataset: Seq<char>, id: Seq<char>, value: Seq<char>) -> bool {
    ||| dataset == APP_SETTINGS@ && id == "theme"@ && (value == "light"@ || value == "dark"@ || value == "system"@)
    ||| dataset == APP_SETTINGS@ && id == "language"@ && (value == "zh-CN"@ || value == "en-US"@)
    ||| dataset == TOOL_SETTINGS@ && id == "ssh.idleDisconnectMinutes"@ && (value == "0"@ || value == "1"@ || value
        == "10"@ || value == "30"@ || value == "60"@ || value == "120"@)
}

/// The refusal of a setting outside the whitelist.
pub open spec fn not_portable_message() -> Seq<char> {
    "设置字段或取值不在可移植白名单内"@
}

/// What checking one settings record gives: only `id` and `value` fields,
/// both strings, and a whitelisted pair.
pub open spec fn validate_spec(dataset: Seq<char>, r: Record) -> Result<(), Seq<char>> {
    match fields_spec(r, seq!["id"@, "value"@]) {
        Err(e) => Err(e),
        Ok(_) => match text_field(r, "id"@) {
            None => Err(missing_string_message("id"@)),
            Some(id) => match text_field(r, "value"@) {
                None => Err(missing_string_message("value"@)),
                Some(v) => if portable_setting(dataset, id, v) {
                    Ok(())
                } else {
                    Err(not_portable_message())
                },
            },
        },
    }
}

/// An application-settings record that sets the theme to `v`: only the
/// string fields `id` ("theme") and `value` (`v`).
pub open spec fn theme_record(r: Record, v: Seq<char>) -> bool {
    &&& fields_spec(r, seq!["id"@, "value"@]) is Ok
    &&& text_field(r, "id"@) == Some("theme"@)
    &&& text_field(r, "value"@) == Some(v)
}

/// Every theme the application offers (light, dark, following the system)
/// travels: such a record is accepted, and a block of it is accepted and
/// written under the theme key, whatever the layer held before.
pub proof fn every_theme_choice_is_portable(r: Record, v: Seq<char>, layer: LayerView)
    requires
        v == "light"@ || v == "dark"@ || v == "system"@,
        theme_record(r, v),
    ensures
        validate_spec(APP_SETTINGS@, r) is Ok,
        records_error(APP_SETTINGS@, seq![r]) is None,
        apply_spec(layer, APP_SETTINGS@, seq![r]) == Ok::<(LayerView, nat), Seq<char>>(
            (layer.insert("theme"@, Err(quoted(v))), 1),
        ),
{
    let empty = Seq::<Record>::empty();
    assert(seq![r].drop_last() =~= empty);
    assert(seq![r].last() == r);
    assert(records_error(APP_SETTINGS@, empty) is None);
    assert(apply_spec(layer, APP_SETTINGS@, empty) == Ok::<(LayerView, nat), Seq<char>>((layer, 0)));
    assert(validate_spec(APP_SETTINGS@, r) is Ok);
}

/// A settings record with only the string fields `id` and `value`.
pub open spec fn setting_record(r: Record, id: Seq<char>, v: Seq<char>) -> bool {
    &&& fields_spec(r, seq!["id"@, "value"@]) is Ok
    &&& text_field(r, "id"@) == Some(id)
    &&& text_field(r, "value"@) == Some(v)
}

/// The application language travels as Simplified Chinese or US English,
/// and nothing else; the theme travels as light, dark or system, and
/// nothing else.
pub proof fn application_settings_whitelist(r: Record, id: Seq<char>, v: Seq<char>)
    requires
        setting_record(r, id, v),
    ensures
        id == "language"@ ==> (validate_spec(APP_SETTINGS@, r) is Ok <==> (v == "zh-CN"@ || v == "en-US"@)),
        id == "theme"@ ==> (validate_spec(APP_SETTINGS@, r) is Ok <==> (v == "light"@ || v == "dark"@ || v
            == "system"@)),
{
    lemma_names_differ();
}

/// The SSH idle disconnect travels with the choices the settings page
/// offers (never, 1, 10, 30, 60 or 120 minutes), and with nothing else.
pub proof fn idle_disconnect_whitelist(r: Record, v: Seq<char>)
    requires
        setting_record(r, "ssh.idleDisconnectMinutes"@, v),
    ensures
        validate_spec(TOOL_SETTINGS@, r) is Ok <==> (v == "0"@ || v == "1"@ || v == "10"@ || v == "30"@ || v == "60"@
            || v == "120"@),
{
    lemma_names_differ();
}

/// Whether one of the listed strings equals `s`.
fn one_of(s: &str, options: &[&str]) -> (r: bool)
    ensures
        r == str_views(options@).contains(s@),
{
    let mut i: usize = 0;
    while i < options.len()
        invariant
            i <= options@.len(),
            forall|k: int| 0 <= k < i ==> (#[trigger] options@[k])@ != s@,
        decreases options@.len() - i,
    {
        if str_eq(options[i], s) {
            assert(str_views(options@)[i as int] == s@);
            return true;
        }
        i = i + 1;
    }
    proof {
        if str_views(options@).contains(s@) {
            let k = choose|k: int| 0 <= k < str_views(options@).len() && str_views(options@)[k] == s@;
            assert(options@[k]@ == s@);
        }
    }
    false
}

/// Whether a setting and value are on the whitelist.
fn is_portable(dataset: &str, id: &str, value: &str) -> (r: bool)
    ensures
        r == portable_setting(dataset@, id@, value@),
{
    proof {
        reveal_strlit("settings.application");
        reveal_strlit("settings.tools");
        reveal_strlit("theme");
        reveal_strlit("language");
        reveal_strlit("ssh.idleDisconnectMinutes");
        reveal_strlit("light");
        reveal_strlit("dark");
        reveal_strlit("system");
        reveal_strlit("zh-CN");
        reveal_strlit("en-US");
        reveal_strlit("0");
        reveal_strlit("1");
        reveal_strlit("10");
        reveal_strlit("30");
        reveal_strlit("60");
        reveal_strlit("120");
    }
    let themes: [&str; 3] = ["light", "dark", "system"];
    let languages: [&str; 2] = ["zh-CN", "en-US"];
    let minutes: [&str; 6] = ["0", "1", "10", "30", "60", "120"];
    proof {
        assert(str_views(themes@) =~= seq!["light"@, "dark"@, "system"@]);
        assert(str_views(languages@) =~= seq!["zh-CN"@, "en-US"@]);
        assert(str_views(minutes@) =~= seq!["0"@, "1"@, "10"@, "30"@, "60"@, "120"@]);
        assert(seq!["light"@, "dark"@, "system"@].contains(value@) <==> (value@ == "light"@ || value@ == "dark"@
            || value@ == "system"@)) by {
            if value@ == "dark"@ {
                assert(seq!["light"@, "dark"@, "system"@][1] == value@);
            }
            if value@ == "system"@ {
                assert(seq!["light"@, "dark"@, "system"@][2] == value@);
            }
            if value@ == "light"@ {
                assert(seq!["light"@, "dark"@, "system"@][0] == value@);
            }
        }
        assert(seq!["zh-CN"@, "en-US"@].contains(value@) <==> (value@ == "zh-CN"@ || value@ == "en-US"@)) by {
            if value@ == "zh-CN"@ {
                assert(seq!["zh-CN"@, "en-US"@][0] == value@);
            }
            if value@ == "en-US"@ {
                assert(seq!["zh-CN"@, "en-US"@][1] == value@);
            }
        }
        let ms = seq!["0"@, "1"@, "10"@, "30"@, "60"@, "120"@];
        assert(ms.contains(value@) <==> (value@ == "0"@ || value@ == "1"@ || value@ == "10"@ || value@ == "30"@
            || value@ == "60"@ || value@ == "120"@)) by {
            if value@ == "0"@ {
                assert(ms[0] == value@);
            }
            if value@ == "1"@ {
                assert(ms[1] == value@);
            }
            if value@ == "10"@ {
                assert(ms[2] == value@);
            }
            if value@ == "30"@ {
                assert(ms[3] == value@);
            }
            if value@ == "60"@ {
                assert(ms[4] == value@);
            }
            if value@ == "120"@ {
                assert(ms[5] == value@);
            }
        }
    }
    proof {
        lemma_names_differ();
    }
    if str_eq(dataset, APP_SETTINGS) {
        (str_eq(id, "theme") && one_of(value, themes.as_slice())) || (str_eq(id, "language") && one_of(
            value,
            languages.as_slice(),
        ))
    } else if str_eq(dataset, TOOL_SETTINGS) {
        str_eq(id, "ssh.idleDisconnectMinutes") && one_of(value, minutes.as_slice())
    } else {
        false
    }
}

/// Checks one settings record against the whitelist.
pub fn validate(dataset: &str, record: &Record) -> (r: Result<(), String>)
    ensures
        match validate_spec(dataset@, *record) {
            Ok(()) => r is Ok,
            Err(e) => r matches Err(m) && m@ == e,
        },
{
    proof {
        reveal_strlit("id");
        reveal_strlit("value");
    }
    let allowed: [&str; 2] = ["id", "value"];
    proof {
        assert(str_views(allowed@) =~= seq!["id"@, "value"@]);
    }
    fields(record, allowed.as_slice())?;
    let id = string(record, "id")?;
    let value = string(record, "value")?;
    if is_portable(dataset, id, value) {
        Ok(())
    } else {
        let m = owned("设置字段或取值不在可移植白名单内");
        proof {
            reveal_strlit("设置字段或取值不在可移植白名单内");
        }
        Err(m)
    }
}

/// Why a block of settings records is refused, if it is: the first record
/// that fails the whitelist, or the first repeated setting.
pub open spec fn records_error(dataset: Seq<char>, items: Seq<Record>) -> Option<Seq<char>>
    decreases items.len(),
{
    if items.len() == 0 {
        None
    } else {
        match records_error(dataset, items.drop_last()) {
            Some(e) => Some(e),
            None => match validate_spec(dataset, items.last()) {
                Err(e) => Some(e),
                Ok(_) => if exists|j: int|
                    0 <= j < items.len() - 1 && text_field(#[trigger] items[j], "id"@) == text_field(
                        items.last(),
                        "id"@,
                    ) {
                    Some("设置键重复"@)
                } else {
                    None
                },
            },
        }
    }
}

/// Checks a block of settings records: each on the whitelist, no setting twice.
pub fn validate_records(dataset: &str, items: &[Record]) -> (r: Result<(), String>)
    ensures
        match records_error(dataset@, items@) {
            None => r is Ok,
            Some(e) => r matches Err(m) && m@ == e,
        },
{
    proof {
        reveal_strlit("id");
        reveal_strlit("设置键重复");
    }
    let mut i: usize = 0;
    while i < items.len()
        invariant
            i <= items@.len(),
            records_error(dataset@, items@.subrange(0, i as int)) is None,
            forall|k: int| 0 <= k < i ==> text_field(#[trigger] items@[k], "id"@) is Some,
        decreases items@.len() - i,
    {
        proof {
            assert(items@.subrange(0, i + 1).drop_last() =~= items@.subrange(0, i as int));
            assert(items@.subrange(0, i + 1).last() == items@[i as int]);
        }
        match validate(dataset, &items[i]) {
            Err(e) => {
                proof {
                    lemma_records_error_stops(dataset@, items@, i + 1);
                }
                return Err(e);
            },
            Ok(()) => {},
        }
        let id = string(&items[i], "id");
        let mut k: usize = 0;
        while k < i
            invariant
                i < items@.len(),
                k <= i,
                records_error(dataset@, items@.subrange(0, i as int)) is None,
                validate_spec(dataset@, items@[i as int]) is Ok,
                id matches Ok(s) && text_field(items@[i as int], "id"@) == Some(s@),
                forall|q: int| 0 <= q < k ==> text_field(#[trigger] items@[q], "id"@) != text_field(items@[i as int], "id"@),
            decreases i - k,
        {
            let other = string(&items[k], "id");
            let same = match (&other, &id) {
                (Ok(a), Ok(b)) => str_eq(a, b),
                _ => false,
            };
            if same {
                let m = owned("设置键重复");
                proof {
                    let sub = items@.subrange(0, i + 1);
                    assert(sub[k as int] == items@[k as int]);
                    assert(sub.last() == items@[i as int]);
                    assert(text_field(sub[k as int], "id"@) == text_field(sub.last(), "id"@));
                    assert(sub.drop_last() =~= items@.subrange(0, i as int));
                    assert(records_error(dataset@, sub) == Some("设置键重复"@));
                    lemma_records_error_stops(dataset@, items@, i + 1);
                }
                return Err(m);
            }
            proof {
                if other is Ok {
                    assert(text_field(items@[k as int], "id"@) != text_field(items@[i as int], "id"@));
                }
            }
            k = k + 1;
        }
        proof {
            let sub = items@.subrange(0, i + 1);
            assert forall|j: int| 0 <= j < sub.len() - 1 implies text_field(#[trigger] sub[j], "id"@) != text_field(
                sub.last(),
                "id"@,
            ) by {
                assert(sub[j] == items@[j]);
            }
        }
        i = i + 1;
    }
    assert(items@.subrange(0, items@.len() as int) =~= items@);
    Ok(())
}

/// Once a prefix of a block is refused, the whole block is refused the same way.
proof fn lemma_records_error_stops(dataset: Seq<char>, items: Seq<Record>, k: int)
    requires
        0 <= k <= items.len(),
        records_error(dataset, items.subrange(0, k)) is Some,
    ensures
        records_error(dataset, items) == records_error(dataset, items.subrange(0, k)),
    decreases items.len() - k,
{
    if k < items.len() {
        assert(items.subrange(0, k + 1).drop_last() =~= items.subrange(0, k));
        lemma_records_error_stops(dataset, items, k + 1);
    } else {
        assert(items.subrange(0, k) =~= items);
    }
}

/// The JSON text of a whitelisted string value (whitelisted values need no escaping).
pub open spec fn quoted(v: Seq<char>) -> Seq<char> {
    "\""@ + v + "\""@
}

/// A settings layer view.
pub type LayerView = Map<Seq<char>, Result<Map<Seq<char>, Result<Map<Seq<char>, Seq<char>>, Seq<char>>>, Seq<char>>>;

/// Writes one validated record into a layer view.
pub open spec fn apply_one(v: LayerView, dataset: Seq<char>, id: Seq<char>, value: Seq<char>) -> Result<LayerView, Seq<char>> {
    if dataset == APP_SETTINGS@ {
        Ok(v.insert(id, Err(quoted(value))))
    } else {
        let tools = if v.contains_key(TOOLS_KEY@) {
            v[TOOLS_KEY@]
        } else {
            Ok(Map::empty())
        };
        match tools {
            Err(_) => Err("工具设置结构损坏"@),
            Ok(t) => {
                let ssh = if t.contains_key("ssh"@) {
                    t["ssh"@]
                } else {
                    Ok(Map::empty())
                };
                match ssh {
                    Err(_) => Err("SSH 设置结构损坏"@),
                    Ok(s) => Ok(
                        v.insert(
                            TOOLS_KEY@,
                            Ok(
                                t.insert(
                                    "ssh"@,
                                    Ok(s.insert("idleDisconnectMinutes"@, quoted(value)).insert("idleDisconnectV2"@, "true"@)),
                                ),
                            ),
                        ),
                    ),
                }
            },
        }
    }
}

/// Applying a block of settings records to a layer view, in order: each is
/// checked, then written (an application setting under its own key, the SSH
/// idle disconnect under `tools.ssh`, marked as explicitly set).
pub open spec fn apply_spec(v: LayerView, dataset: Seq<char>, items: Seq<Record>) -> Result<(LayerView, nat), Seq<char>>
    decreases items.len(),
{
    if items.len() == 0 {
        Ok((v, 0))
    } else {
        match apply_spec(v, dataset, items.drop_last()) {
            Err(e) => Err(e),
            Ok((w, n)) => match validate_spec(dataset, items.last()) {
                Err(e) => Err(e),
                Ok(_) => match apply_one(w, dataset, text_field(items.last(), "id"@)->0, text_field(items.last(), "value"@)->0) {
                    Err(e) => Err(e),
                    Ok(x) => Ok((x, n + 1)),
                },
            },
        }
    }
}

/// Once applying a prefix fails, applying the whole block fails the same way.
proof fn lemma_apply_stops(v: LayerView, dataset: Seq<char>, items: Seq<Record>, k: int)
    requires
        0 <= k <= items.len(),
        apply_spec(v, dataset, items.subrange(0, k)) is Err,
    ensures
        apply_spec(v, dataset, items) == apply_spec(v, dataset, items.subrange(0, k)),
    decreases items.len() - k,
{
    if k < items.len() {
        assert(items.subrange(0, k + 1).drop_last() =~= items.subrange(0, k));
        lemma_apply_stops(v, dataset, items, k + 1);
    } else {
        assert(items.subrange(0, k) =~= items);
    }
}

/// Writes one validated tool setting into a layer.
fn write_tool_setting(layer: &mut Layer, value: &str) -> (r: Result<(), String>)
    requires
        wf_layer(old(layer)@),
    ensures
        match apply_one(layer_view(old(layer)@), TOOL_SETTINGS@, "ssh.idleDisconnectMinutes"@, value@) {
            Err(e) => r matches Err(m) && m@ == e,
            Ok(w) => r is Ok && wf_layer(final(layer)@) && layer_view(final(layer)@) == w,
        },
        r is Err ==> final(layer)@ == old(layer)@,
{
    proof {
        reveal_strlit("tools");
        reveal_strlit("ssh");
        reveal_strlit("settings.tools");
        reveal_strlit("settings.application");
        reveal_strlit("idleDisconnectMinutes");
        reveal_strlit("idleDisconnectV2");
        reveal_strlit("true");
        reveal_strlit("\"");
    }
    proof {
        lemma_names_differ();
    }
    let ghost v0 = layer_view(layer@);
    // the tools object, copied (an empty one when absent)
    let mut tools: Tools = match find_key(layer, TOOLS_KEY) {
        Some(i) => {
            proof {
                lemma_assoc_at(layer@, |v: SettingValue| value_view(v), i as int);
                assert(wf_value(layer@[i as int].1));
            }
            match &layer[i].1 {
                SettingValue::Object(tl) => copy_tools(tl),
                SettingValue::Other(_) => {
                    let m = owned("工具设置结构损坏");
                    proof {
                        reveal_strlit("工具设置结构损坏");
                    }
                    return Err(m);
                },
            }
        },
        None => {
            proof {
                lemma_assoc_absent(layer@, |v: SettingValue| value_view(v), TOOLS_KEY@);
            }
            Vec::new()
        },
    };
    let ghost t0 = tools_view(tools@);
    proof {
        assert(tools_view(Seq::<(String, ToolSettings)>::empty()) =~= Map::empty());
        assert(v0.contains_key(TOOLS_KEY@) ==> v0[TOOLS_KEY@] == Ok::<_, Seq<char>>(t0));
        assert(!v0.contains_key(TOOLS_KEY@) ==> t0 =~= Map::empty());
    }
    let mut ssh: Vec<(String, String)> = match find_key(&tools, "ssh") {
        Some(j) => {
            proof {
                lemma_assoc_at(tools@, |t: ToolSettings| tool_view(t), j as int);
                assert(wf_tool(tools@[j as int].1));
            }
            match &tools[j].1 {
                ToolSettings::Object(st) => copy_texts(st),
                ToolSettings::Other(_) => {
                    let m = owned("SSH 设置结构损坏");
                    proof {
                        reveal_strlit("SSH 设置结构损坏");
                    }
                    return Err(m);
                },
            }
        },
        None => {
            proof {
                lemma_assoc_absent(tools@, |t: ToolSettings| tool_view(t), "ssh"@);
            }
            Vec::new()
        },
    };
    let ghost s0 = text_map(ssh@);
    proof {
        assert(text_map(Seq::<(String, String)>::empty()) =~= Map::empty());
        assert(t0.contains_key("ssh"@) ==> t0["ssh"@] == Ok::<_, Seq<char>>(s0));
        assert(!t0.contains_key("ssh"@) ==> s0 =~= Map::empty());
    }
    let q = concat3("\"", value, "\"");
    let ghost s1_before = ssh@;
    let k1 = owned("idleDisconnectMinutes");
    let ghost e1 = (k1, q);
    put(&mut ssh, k1, q);
    proof {
        lemma_assoc_put(s1_before, ssh@, e1.0, e1.1, |s: String| text_of(s));
    }
    let ghost s2_before = ssh@;
    let k2 = owned("idleDisconnectV2");
    let t2 = owned("true");
    let ghost e2 = (k2, t2);
    put(&mut ssh, k2, t2);
    proof {
        lemma_assoc_put(s2_before, ssh@, e2.0, e2.1, |s: String| text_of(s));
    }
    let ghost tools_before = tools@;
    let ks = owned("ssh");
    let vs = ToolSettings::Object(ssh);
    let ghost es = (ks, vs);
    put(&mut tools, ks, vs);
    proof {
        lemma_assoc_put(tools_before, tools@, es.0, es.1, |t: ToolSettings| tool_view(t));
        let pp = choose|p: int|
            0 <= p <= tools_before.len() && ((p < tools_before.len() && tools_before[p].0@ == es.0@ && tools@
                == tools_before.update(p, es)) || (tools@ == tools_before.insert(p, es) && forall|i: int|
                0 <= i < tools_before.len() ==> (#[trigger] tools_before[i]).0@ != es.0@));
        assert forall|q: int| 0 <= q < tools@.len() implies wf_tool(#[trigger] tools@[q].1) by {
            if q < pp {
                assert(tools@[q] == tools_before[q]);
            } else if q > pp {
                if tools@ == tools_before.insert(pp, es) {
                    assert(tools@[q] == tools_before[q - 1]);
                } else {
                    assert(tools@[q] == tools_before[q]);
                }
            }
        }
    }
    let ghost layer_before = layer@;
    let kt = owned(TOOLS_KEY);
    let vt = SettingValue::Object(tools);
    let ghost et = (kt, vt);
    put(layer, kt, vt);
    proof {
        lemma_assoc_put(layer_before, layer@, et.0, et.1, |v: SettingValue| value_view(v));
        let pp = choose|p: int|
            0 <= p <= layer_before.len() && ((p < layer_before.len() && layer_before[p].0@ == et.0@ && layer@
                == layer_before.update(p, et)) || (layer@ == layer_before.insert(p, et) && forall|i: int|
                0 <= i < layer_before.len() ==> (#[trigger] layer_before[i]).0@ != et.0@));
        assert forall|q: int| 0 <= q < layer@.len() implies wf_value(#[trigger] layer@[q].1) by {
            if q < pp {
                assert(layer@[q] == layer_before[q]);
            } else if q > pp {
                if layer@ == layer_before.insert(pp, et) {
                    assert(layer@[q] == layer_before[q - 1]);
                } else {
                    assert(layer@[q] == layer_before[q]);
                }
            }
        }
        assert(layer_view(layer@) =~= apply_one(v0, TOOL_SETTINGS@, "ssh.idleDisconnectMinutes"@, value@)->Ok_0);
    }
    Ok(())
}

/// Applies a block of settings records to a preferences layer, checking each
/// record first; returns the layer and how many records were written.
pub fn apply(layer: Layer, dataset: &str, items: &[Record]) -> (r: Result<(Layer, usize), String>)
    requires
        wf_layer(layer@),
    ensures
        match apply_spec(layer_view(layer@), dataset@, items@) {
            Err(e) => r matches Err(m) && m@ == e,
            Ok((w, n)) => r matches Ok(out) && wf_layer(out.0@) && layer_view(out.0@) == w && out.1 == n,
        },
{
    let ghost v0 = layer_view(layer@);
    let mut layer = layer;
    let mut count: usize = 0;
    let mut i: usize = 0;
    let mut fault: Option<String> = None;
    proof {
        reveal_strlit("id");
        reveal_strlit("value");
        reveal_strlit("settings.application");
        reveal_strlit("settings.tools");
        reveal_strlit("ssh.idleDisconnectMinutes");
        reveal_strlit("\"");
        lemma_names_differ();
    }
    while i < items.len() && fault.is_none()
        invariant
            i <= items@.len(),
            wf_layer(layer@),
            count <= i,
            fault is None ==> apply_spec(v0, dataset@, items@.subrange(0, i as int)) == Ok::<(LayerView, nat), Seq<char>>(
                (layer_view(layer@), count as nat),
            ),
            fault matches Some(m) ==> apply_spec(v0, dataset@, items@) == Err::<(LayerView, nat), Seq<char>>(m@),
        decreases items@.len() - i,
    {
        proof {
            assert(items@.subrange(0, i + 1).drop_last() =~= items@.subrange(0, i as int));
            assert(items@.subrange(0, i + 1).last() == items@[i as int]);
        }
        match validate(dataset, &items[i]) {
            Err(e) => {
                proof {
                    assert(apply_spec(v0, dataset@, items@.subrange(0, i + 1)) == Err::<(LayerView, nat), Seq<char>>(e@));
                    lemma_apply_stops(v0, dataset@, items@, i + 1);
                }
                fault = Some(e);
            },
            Ok(()) => {
                let id = match string(&items[i], "id") {
                    Ok(s) => s,
                    Err(_) => "",
                };
                let value = match string(&items[i], "value") {
                    Ok(s) => s,
                    Err(_) => "",
                };
                if str_eq(dataset, APP_SETTINGS) {
                    let ghost before = layer@;
                    let k = owned(id);
                    let v = SettingValue::Other(concat3("\"", value, "\""));
                    let ghost e = (k, v);
                    put(&mut layer, k, v);
                    proof {
                        lemma_assoc_put(before, layer@, e.0, e.1, |v: SettingValue| value_view(v));
                        let pp = choose|p: int|
                            0 <= p <= before.len() && ((p < before.len() && before[p].0@ == e.0@ && layer@
                                == before.update(p, e)) || (layer@ == before.insert(p, e) && forall|i: int|
                                0 <= i < before.len() ==> (#[trigger] before[i]).0@ != e.0@));
                        assert forall|q: int| 0 <= q < layer@.len() implies wf_value(#[trigger] layer@[q].1) by {
                            if q < pp {
                                assert(layer@[q] == before[q]);
                            } else if q > pp {
                                if layer@ == before.insert(pp, e) {
                                    assert(layer@[q] == before[q - 1]);
                                } else {
                                    assert(layer@[q] == before[q]);
                                }
                            }
                        }
                    }
                    count = count + 1;
                } else {
                    match write_tool_setting(&mut layer, value) {
                        Err(e) => {
                            proof {
                                assert(id@ == "ssh.idleDisconnectMinutes"@);
                                assert(dataset@ == TOOL_SETTINGS@);
                                assert(apply_spec(v0, dataset@, items@.subrange(0, i + 1)) == Err::<
                                    (LayerView, nat),
                                    Seq<char>,
                                >(e@));
                                lemma_apply_stops(v0, dataset@, items@, i + 1);
                            }
                            fault = Some(e);
                        },
                        Ok(()) => {
                            proof {
                                assert(id@ == "ssh.idleDisconnectMinutes"@);
                            }
                            count = count + 1;
                        },
                    }
                }
            },
        }
        i = i + 1;
    }
    match fault {
        Some(m) => Err(m),
        None => {
            assert(items@.subrange(0, items@.len() as int) =~= items@);
            Ok((layer, count))
        },
    }
}

} // verus!
