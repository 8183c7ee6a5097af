//! Which settings belong to the device and which to the current space, and
//! the merged view of the two layers.
//!
//! Device-level settings (storage root and the other bootstrap keys, launch at
//! startup, default download directory, and the three local facts of the FRP
//! tool) stay in the bootstrap configuration; everything else is space-level
//! and lives in the space's `preferences.json`. A key not listed as
//! device-level is space-level. Reading a space-level key falls back to the
//! device layer, where older versions kept it.
//!
//! A JSON object is modelled as its entries in ascending key order (as a
//! `serde_json` map keeps them); values are modelled as deep as the rules
//! read them: top-level values and the settings of each tool under `tools`
//! may be objects, anything else is carried as its JSON text.

use vstd::prelude::*;

use crate::context::{join_path, join_spec};
use crate::text::{lemma_seq_lt_irreflexive, lemma_seq_lt_transitive, lemma_seq_lt_trichotomy, concat3, owned, seq_lt, str_eq, str_lt, views};

verus! {

/// Preferences file name, in the space root.
pub const PREFERENCES_FILE: &'static str = "preferences.json";

/// The preferences file of the space whose root is `space_root`.
pub fn path_in(space_root: &str) -> (r: String)
    ensures
        r@ == join_spec(space_root@, PREFERENCES_FILE@),
{
    join_path(space_root, PREFERENCES_FILE)
}

/// The key under which tool settings are kept (tool id to its settings).
pub const TOOLS_KEY: &'static str = "tools";

/// The settings of one tool: an object of settings (each value as its JSON
/// text), or any other JSON value, as its text.
#[derive(Debug, PartialEq, Eq)]
pub enum ToolSettings {
    /// An object: setting key to JSON text, keys ascending.
    Object(Vec<(String, String)>),
    /// Any other JSON value.
    Other(String),
}

/// A top-level setting value: an object (of values read as tool settings),
/// or any other JSON value, as its text.
#[derive(Debug, PartialEq, Eq)]
pub enum SettingValue {
    /// An object: key to value, keys ascending.
    Object(Vec<(String, ToolSettings)>),
    /// Any other JSON value.
    Other(String),
}

/// One settings layer (the device layer or the space layer): key to value, keys ascending.
pub type Layer = Vec<(String, SettingValue)>;

/// Tool settings by tool id, ids ascending.
pub type Tools = Vec<(String, ToolSettings)>;

/// A whole settings document, which is normally an object.
#[derive(Debug, PartialEq, Eq)]
pub enum Document {
    /// An object.
    Object(Layer),
    /// Any other JSON value.
    Other(String),
}

// ---------------------------------------------------------------------------
// Entries in ascending key order, and the maps they denote.

/// Keys strictly ascending.
pub open spec fn ascending<V>(l: Seq<(String, V)>) -> bool {
    forall|i: int, j: int| 0 <= i < j < l.len() ==> seq_lt(#[trigger] l[i].0@, #[trigger] l[j].0@)
}

/// The map the entries denote, each value seen through `f` (a later entry wins).
pub open spec fn assoc<V, W>(l: Seq<(String, V)>, f: spec_fn(V) -> W) -> Map<Seq<char>, W>
    decreases l.len(),
{
    if l.len() == 0 {
        Map::empty()
    } else {
        assoc(l.drop_last(), f).insert(l.last().0@, f(l.last().1))
    }
}

/// The keys of the entries form the domain of the map they denote.
pub proof fn lemma_assoc_dom<V, W>(l: Seq<(String, V)>, f: spec_fn(V) -> W, k: Seq<char>)
    ensures
        assoc(l, f).contains_key(k) <==> exists|i: int| 0 <= i < l.len() && (#[trigger] l[i]).0@ == k,
    decreases l.len(),
{
    if l.len() > 0 {
        lemma_assoc_dom(l.drop_last(), f, k);
        if exists|i: int| 0 <= i < l.len() && (#[trigger] l[i]).0@ == k {
            let i = choose|i: int| 0 <= i < l.len() && (#[trigger] l[i]).0@ == k;
            if i < l.len() - 1 {
                assert(l.drop_last()[i] == l[i]);
            }
        }
        if exists|i: int| 0 <= i < l.drop_last().len() && (#[trigger] l.drop_last()[i]).0@ == k {
            let i = choose|i: int| 0 <= i < l.drop_last().len() && (#[trigger] l.drop_last()[i]).0@ == k;
            assert(l[i] == l.drop_last()[i]);
        }
    }
}

/// In ascending entries, the map holds at each key the value of its entry.
pub proof fn lemma_assoc_at<V, W>(l: Seq<(String, V)>, f: spec_fn(V) -> W, i: int)
    requires
        ascending(l),
        0 <= i < l.len(),
    ensures
        assoc(l, f).contains_key(l[i].0@),
        assoc(l, f)[l[i].0@] == f(l[i].1),
    decreases l.len(),
{
    if i < l.len() - 1 {
        let t = l.drop_last();
        assert forall|a: int, b: int| 0 <= a < b < t.len() implies seq_lt(#[trigger] t[a].0@, #[trigger] t[b].0@) by {
            assert(t[a] == l[a] && t[b] == l[b]);
        }
        assert(t[i] == l[i]);
        lemma_assoc_at(t, f, i);
        assert(seq_lt(l[i].0@, l.last().0@));
        lemma_seq_lt_irreflexive(l[i].0@);
    }
}

/// A key of no entry is outside the map.
pub proof fn lemma_assoc_absent<V, W>(l: Seq<(String, V)>, f: spec_fn(V) -> W, k: Seq<char>)
    requires
        forall|i: int| 0 <= i < l.len() ==> (#[trigger] l[i]).0@ != k,
    ensures
        !assoc(l, f).contains_key(k),
{
    lemma_assoc_dom(l, f, k);
}

/// Appending an entry above every key adds it to the map and keeps the order.
pub proof fn lemma_assoc_push<V, W>(l: Seq<(String, V)>, f: spec_fn(V) -> W, e: (String, V))
    requires
        ascending(l),
        forall|i: int| 0 <= i < l.len() ==> seq_lt((#[trigger] l[i]).0@, e.0@),
    ensures
        ascending(l.push(e)),
        assoc(l.push(e), f) == assoc(l, f).insert(e.0@, f(e.1)),
{
    let m = l.push(e);
    assert(m.drop_last() =~= l);
    assert forall|a: int, b: int| 0 <= a < b < m.len() implies seq_lt(#[trigger] m[a].0@, #[trigger] m[b].0@) by {
        if b == l.len() {
            assert(m[a] == l[a]);
        } else {
            assert(m[a] == l[a] && m[b] == l[b]);
        }
    }
}

/// The text of a JSON value.
pub open spec fn text_of(s: String) -> Seq<char> {
    s@
}

/// What settings entries denote: key to JSON text.
pub open spec fn text_map(st: Seq<(String, String)>) -> Map<Seq<char>, Seq<char>> {
    assoc(st, |s: String| text_of(s))
}

/// What a tool's settings denote: the settings map of an object, or the text of any other value.
pub open spec fn tool_view(t: ToolSettings) -> Result<Map<Seq<char>, Seq<char>>, Seq<char>> {
    match t {
        ToolSettings::Object(st) => Ok(text_map(st@)),
        ToolSettings::Other(x) => Err(x@),
    }
}

/// What tool settings by tool id denote.
pub open spec fn tools_view(tl: Seq<(String, ToolSettings)>) -> Map<Seq<char>, Result<Map<Seq<char>, Seq<char>>, Seq<char>>> {
    assoc(tl, |t: ToolSettings| tool_view(t))
}

/// What a top-level value denotes.
pub open spec fn value_view(v: SettingValue) -> Result<
    Map<Seq<char>, Result<Map<Seq<char>, Seq<char>>, Seq<char>>>,
    Seq<char>,
> {
    match v {
        SettingValue::Object(tl) => Ok(tools_view(tl@)),
        SettingValue::Other(x) => Err(x@),
    }
}

/// What a layer denotes.
pub open spec fn layer_view(l: Seq<(String, SettingValue)>) -> Map<
    Seq<char>,
    Result<Map<Seq<char>, Result<Map<Seq<char>, Seq<char>>, Seq<char>>>, Seq<char>>,
> {
    assoc(l, |v: SettingValue| value_view(v))
}

/// Well-formed tool settings: keys ascending.
pub open spec fn wf_tool(t: ToolSettings) -> bool {
    match t {
        ToolSettings::Object(st) => ascending(st@),
        ToolSettings::Other(_) => true,
    }
}

/// Well-formed tool settings by tool id.
pub open spec fn wf_tools(tl: Seq<(String, ToolSettings)>) -> bool {
    ascending(tl) && forall|i: int| 0 <= i < tl.len() ==> wf_tool(#[trigger] tl[i].1)
}

/// A well-formed top-level value.
pub open spec fn wf_value(v: SettingValue) -> bool {
    match v {
        SettingValue::Object(tl) => wf_tools(tl@),
        SettingValue::Other(_) => true,
    }
}

/// A well-formed layer.
pub open spec fn wf_layer(l: Seq<(String, SettingValue)>) -> bool {
    ascending(l) && forall|i: int| 0 <= i < l.len() ==> wf_value(#[trigger] l[i].1)
}

// ---------------------------------------------------------------------------
// Which keys belong to the device.

/// Top-level device keys: launch at startup, the default download
/// directory, and the bootstrap keys `reserved`.
pub open spec fn device_key(key: Seq<char>, reserved: Seq<Seq<char>>) -> bool {
    key == "launchAtStartup"@ || key == "defaultDownloadDirectory"@ || reserved.contains(key)
}

/// Tool setting keys that are device facts: where the FRP client lives, its
/// profile directory and its download mirror.
pub open spec fn device_tool_key(owner: Seq<char>, key: Seq<char>) -> bool {
    owner == "frp"@ && (key == "frpcPath"@ || key == "profileDir"@ || key == "downloadMirror"@)
}

/// Whether a top-level key is device-level (`reserved`: the bootstrap keys).
pub fn is_device_key(key: &str, reserved: &Vec<String>) -> (r: bool)
    ensures
        r == device_key(key@, views(reserved@)),
{
    proof {
        reveal_strlit("launchAtStartup");
        reveal_strlit("defaultDownloadDirectory");
    }
    if str_eq(key, "launchAtStartup") || str_eq(key, "defaultDownloadDirectory") {
        return true;
    }
    let mut i: usize = 0;
    while i < reserved.len()
        invariant
            i <= reserved@.len(),
            forall|k: int| 0 <= k < i ==> (#[trigger] reserved@[k])@ != key@,
        decreases reserved@.len() - i,
    {
        if str_eq(reserved[i].as_str(), key) {
            assert(views(reserved@)[i as int] == key@);
            return true;
        }
        i = i + 1;
    }
    proof {
        if views(reserved@).contains(key@) {
            let k = choose|k: int| 0 <= k < views(reserved@).len() && views(reserved@)[k] == key@;
            assert(reserved@[k]@ == key@);
        }
    }
    false
}

/// Whether a tool setting key is device-level (only the three FRP facts).
pub fn is_device_tool_key(owner: &str, key: &str) -> (r: bool)
    ensures
        r == device_tool_key(owner@, key@),
{
    proof {
        reveal_strlit("frp");
        reveal_strlit("frpcPath");
        reveal_strlit("profileDir");
        reveal_strlit("downloadMirror");
    }
    str_eq(owner, "frp") && (str_eq(key, "frpcPath") || str_eq(key, "profileDir") || str_eq(key, "downloadMirror"))
}


// ---------------------------------------------------------------------------
// Splitting a patch by scope.

/// The device-level setting keys of a tool.
pub open spec fn device_tool_keys(owner: Seq<char>) -> Set<Seq<char>> {
    Set::new(|k: Seq<char>| device_tool_key(owner, k))
}

/// The map has some key in the set.
pub open spec fn meets<V>(m: Map<Seq<char>, V>, keys: Set<Seq<char>>) -> bool {
    exists|k: Seq<char>| m.contains_key(k) && keys.contains(k)
}

/// The map has some key outside the set.
pub open spec fn escapes<V>(m: Map<Seq<char>, V>, keys: Set<Seq<char>>) -> bool {
    exists|k: Seq<char>| m.contains_key(k) && !keys.contains(k)
}

/// The device part of tool settings: each tool whose settings object holds
/// device keys, with just those keys.
pub open spec fn device_tools(t: Map<Seq<char>, Result<Map<Seq<char>, Seq<char>>, Seq<char>>>) -> Map<
    Seq<char>,
    Result<Map<Seq<char>, Seq<char>>, Seq<char>>,
> {
    Map::new(
        |o: Seq<char>| t.contains_key(o) && t[o] is Ok && meets(t[o]->Ok_0, device_tool_keys(o)),
        |o: Seq<char>| Ok(t[o]->Ok_0.restrict(device_tool_keys(o))),
    )
}

/// The space part of tool settings: each tool whose settings object holds
/// other keys, with just those keys.
pub open spec fn space_tools(t: Map<Seq<char>, Result<Map<Seq<char>, Seq<char>>, Seq<char>>>) -> Map<
    Seq<char>,
    Result<Map<Seq<char>, Seq<char>>, Seq<char>>,
> {
    Map::new(
        |o: Seq<char>| t.contains_key(o) && t[o] is Ok && escapes(t[o]->Ok_0, device_tool_keys(o)),
        |o: Seq<char>| Ok(t[o]->Ok_0.remove_keys(device_tool_keys(o))),
    )
}

/// The first tool whose settings are not an object.
pub open spec fn first_other(tl: Seq<(String, ToolSettings)>) -> Option<int>
    decreases tl.len(),
{
    if tl.len() == 0 {
        None
    } else if tl[0].1 is Other {
        Some(0)
    } else {
        match first_other(tl.drop_first()) {
            Some(i) => Some(i + 1),
            None => None,
        }
    }
}

/// `first_other` finds the first tool whose settings are not an object.
proof fn lemma_first_other(tl: Seq<(String, ToolSettings)>)
    ensures
        first_other(tl) matches Some(i) ==> 0 <= i < tl.len() && tl[i].1 is Other && forall|j: int|
            0 <= j < i ==> (#[trigger] tl[j]).1 is Object,
        first_other(tl) is None ==> forall|j: int| 0 <= j < tl.len() ==> (#[trigger] tl[j]).1 is Object,
    decreases tl.len(),
{
    if tl.len() > 0 {
        lemma_first_other(tl.drop_first());
        assert forall|j: int| 0 < j < tl.len() implies tl.drop_first()[j - 1] == tl[j] by {}
    }
}

/// The report for tool settings that are not an object.
pub open spec fn tools_not_object_message() -> Seq<char> {
    "工具设置必须是对象（工具 id → 设置键值）"@
}

/// The report for a tool whose settings are not an object.
pub open spec fn tool_not_object_message(owner: Seq<char>) -> Seq<char> {
    "工具 "@ + owner + " 的设置必须是对象"@
}

/// Why a `tools` value cannot be split, if it cannot.
pub open spec fn tools_error(v: SettingValue) -> Option<Seq<char>> {
    match v {
        SettingValue::Other(_) => Some(tools_not_object_message()),
        SettingValue::Object(tl) => match first_other(tl@) {
            Some(i) => Some(tool_not_object_message(tl@[i].0@)),
            None => None,
        },
    }
}

/// Entries are nonempty exactly when the map they denote is.
proof fn lemma_nonempty<V, W>(l: Seq<(String, V)>, f: spec_fn(V) -> W)
    ensures
        l.len() > 0 <==> exists|k: Seq<char>| assoc(l, f).contains_key(k),
{
    if l.len() > 0 {
        lemma_assoc_dom(l, f, l[0].0@);
    }
    if exists|k: Seq<char>| assoc(l, f).contains_key(k) {
        let k = choose|k: Seq<char>| assoc(l, f).contains_key(k);
        lemma_assoc_dom(l, f, k);
    }
}

/// Splits one tool's settings into its device keys and the rest.
fn split_settings(owner: &str, st: &Vec<(String, String)>) -> (r: (Vec<(String, String)>, Vec<(String, String)>))
    requires
        ascending(st@),
    ensures
        ascending(r.0@),
        ascending(r.1@),
        text_map(r.0@) == text_map(st@).restrict(device_tool_keys(owner@)),
        text_map(r.1@) == text_map(st@).remove_keys(device_tool_keys(owner@)),
{
    let mut dev: Vec<(String, String)> = Vec::new();
    let mut spc: Vec<(String, String)> = Vec::new();
    let mut j: usize = 0;
    while j < st.len()
        invariant
            j <= st@.len(),
            ascending(st@),
            ascending(dev@),
            ascending(spc@),
            forall|q: int| 0 <= q < dev@.len() ==> exists|k: int| 0 <= k < j && (#[trigger] dev@[q]).0@ == st@[k].0@,
            forall|q: int| 0 <= q < spc@.len() ==> exists|k: int| 0 <= k < j && (#[trigger] spc@[q]).0@ == st@[k].0@,
            text_map(dev@) == text_map(st@.subrange(0, j as int)).restrict(device_tool_keys(owner@)),
            text_map(spc@) == text_map(st@.subrange(0, j as int)).remove_keys(device_tool_keys(owner@)),
        decreases st@.len() - j,
    {
        let key = &st[j].0;
        let value = &st[j].1;
        let ghost pre = text_map(st@.subrange(0, j as int));
        proof {
            assert(st@.subrange(0, j + 1).drop_last() =~= st@.subrange(0, j as int));
            assert(text_map(st@.subrange(0, j + 1)) == pre.insert(key@, value@));
        }
        if is_device_tool_key(owner, key.as_str()) {
            let ghost before = dev@;
            let item = (key.clone(), value.clone());
            proof {
                assert forall|q: int| 0 <= q < before.len() implies seq_lt((#[trigger] before[q]).0@, item.0@) by {
                    let k = choose|k: int| 0 <= k < j && before[q].0@ == st@[k].0@;
                }
                lemma_assoc_push(before, |s: String| text_of(s), item);
            }
            dev.push(item);
            proof {
                assert(text_map(dev@) =~= pre.insert(key@, value@).restrict(device_tool_keys(owner@)));
                assert(text_map(spc@) =~= pre.insert(key@, value@).remove_keys(device_tool_keys(owner@)));
                assert forall|q: int| 0 <= q < dev@.len() implies exists|k: int|
                    0 <= k < j + 1 && (#[trigger] dev@[q]).0@ == st@[k].0@ by {
                    if q == before.len() {
                        assert(dev@[q].0@ == st@[j as int].0@);
                    } else {
                        assert(dev@[q] == before[q]);
                    }
                }
            }
        } else {
            let ghost before = spc@;
            let item = (key.clone(), value.clone());
            proof {
                assert forall|q: int| 0 <= q < before.len() implies seq_lt((#[trigger] before[q]).0@, item.0@) by {
                    let k = choose|k: int| 0 <= k < j && before[q].0@ == st@[k].0@;
                }
                lemma_assoc_push(before, |s: String| text_of(s), item);
            }
            spc.push(item);
            proof {
                assert(text_map(dev@) =~= pre.insert(key@, value@).restrict(device_tool_keys(owner@)));
                assert(text_map(spc@) =~= pre.insert(key@, value@).remove_keys(device_tool_keys(owner@)));
                assert forall|q: int| 0 <= q < spc@.len() implies exists|k: int|
                    0 <= k < j + 1 && (#[trigger] spc@[q]).0@ == st@[k].0@ by {
                    if q == before.len() {
                        assert(spc@[q].0@ == st@[j as int].0@);
                    } else {
                        assert(spc@[q] == before[q]);
                    }
                }
            }
        }
        j = j + 1;
    }
    assert(st@.subrange(0, st@.len() as int) =~= st@);
    (dev, spc)
}

/// Adding a tool not yet present to tool settings adds its device part, if any.
proof fn lemma_device_tools_insert(
    m: Map<Seq<char>, Result<Map<Seq<char>, Seq<char>>, Seq<char>>>,
    o: Seq<char>,
    st: Map<Seq<char>, Seq<char>>,
)
    requires
        !m.contains_key(o),
    ensures
        device_tools(m.insert(o, Ok(st))) == if meets(st, device_tool_keys(o)) {
            device_tools(m).insert(o, Ok(st.restrict(device_tool_keys(o))))
        } else {
            device_tools(m)
        },
        space_tools(m.insert(o, Ok(st))) == if escapes(st, device_tool_keys(o)) {
            space_tools(m).insert(o, Ok(st.remove_keys(device_tool_keys(o))))
        } else {
            space_tools(m)
        },
{
    let m2 = m.insert(o, Ok(st));
    assert(m2[o] == Ok::<Map<Seq<char>, Seq<char>>, Seq<char>>(st));
    if meets(st, device_tool_keys(o)) {
        assert(device_tools(m2) =~= device_tools(m).insert(o, Ok(st.restrict(device_tool_keys(o)))));
    } else {
        assert(device_tools(m2) =~= device_tools(m));
    }
    if escapes(st, device_tool_keys(o)) {
        assert(space_tools(m2) =~= space_tools(m).insert(o, Ok(st.remove_keys(device_tool_keys(o)))));
    } else {
        assert(space_tools(m2) =~= space_tools(m));
    }
}

/// Splits tool settings into the device part and the space part: for each
/// tool, its device keys go to the first, the others to the second, and a
/// tool left with nothing on one side is left out of that side. Fails when
/// the value or some tool's settings is not an object (the first such tool is
/// named).
pub fn split_tools(value: &SettingValue) -> (r: Result<(Tools, Tools), String>)
    requires
        wf_value(*value),
    ensures
        match tools_error(*value) {
            Some(e) => r matches Err(m) && m@ == e,
            None => r matches Ok(parts) && wf_tools(parts.0@) && wf_tools(parts.1@) && match *value {
                SettingValue::Object(tl) => tools_view(parts.0@) == device_tools(tools_view(tl@)) && tools_view(
                    parts.1@,
                ) == space_tools(tools_view(tl@)),
                SettingValue::Other(_) => false,
            },
        },
{
    match value {
        SettingValue::Other(_) => {
            let m = owned("工具设置必须是对象（工具 id → 设置键值）");
            proof {
                reveal_strlit("工具设置必须是对象（工具 id → 设置键值）");
            }
            Err(m)
        },
        SettingValue::Object(tl) => {
            proof {
                lemma_first_other(tl@);
            }
            let mut d: Tools = Vec::new();
            let mut s: Tools = Vec::new();
            let mut i: usize = 0;
            while i < tl.len()
                invariant
                    *value == SettingValue::Object(*tl),
                    wf_tools(tl@),
                    i <= tl@.len(),
                    forall|k: int| 0 <= k < i ==> (#[trigger] tl@[k]).1 is Object,
                    first_other(tl@) matches Some(f) ==> 0 <= f < tl@.len() && tl@[f].1 is Other && forall|j: int|
                        0 <= j < f ==> (#[trigger] tl@[j]).1 is Object,
                    first_other(tl@) is None ==> forall|j: int| 0 <= j < tl@.len() ==> (#[trigger] tl@[j]).1 is Object,
                    wf_tools(d@),
                    wf_tools(s@),
                    forall|q: int| 0 <= q < d@.len() ==> exists|k: int| 0 <= k < i && (#[trigger] d@[q]).0@ == tl@[k].0@,
                    forall|q: int| 0 <= q < s@.len() ==> exists|k: int| 0 <= k < i && (#[trigger] s@[q]).0@ == tl@[k].0@,
                    tools_view(d@) == device_tools(tools_view(tl@.subrange(0, i as int))),
                    tools_view(s@) == space_tools(tools_view(tl@.subrange(0, i as int))),
                decreases tl@.len() - i,
            {
                let owner = &tl[i].0;
                match &tl[i].1 {
                    ToolSettings::Other(_) => {
                        let m = concat3("工具 ", owner.as_str(), " 的设置必须是对象");
                        proof {
                            reveal_strlit("工具 ");
                            reveal_strlit(" 的设置必须是对象");
                            if first_other(tl@) is Some {
                                let f = first_other(tl@)->0;
                                if f < i {
                                    assert(tl@[f].1 is Object);
                                } else if f > i {
                                    assert(tl@[i as int].1 is Object);
                                }
                            } else {
                                assert(tl@[i as int].1 is Object);
                            }
                        }
                        return Err(m);
                    },
                    ToolSettings::Object(st) => {
                        let ghost pre = tools_view(tl@.subrange(0, i as int));
                        proof {
                            assert(tl@.subrange(0, i + 1).drop_last() =~= tl@.subrange(0, i as int));
                            assert(wf_tool(tl@[i as int].1));
                            assert forall|k: int| 0 <= k < tl@.subrange(0, i as int).len() implies (#[trigger] tl@.subrange(
                                0,
                                i as int,
                            )[k]).0@ != owner@ by {
                                assert(tl@.subrange(0, i as int)[k] == tl@[k]);
                                assert(seq_lt(tl@[k].0@, tl@[i as int].0@));
                                lemma_seq_lt_irreflexive(owner@);
                            }
                            lemma_assoc_absent(tl@.subrange(0, i as int), |t: ToolSettings| tool_view(t), owner@);
                            lemma_device_tools_insert(pre, owner@, text_map(st@));
                        }
                        let (dp, sp) = split_settings(owner.as_str(), st);
                        proof {
                            lemma_nonempty(dp@, |s: String| text_of(s));
                            lemma_nonempty(sp@, |s: String| text_of(s));
                            if dp@.len() > 0 {
                                let k = choose|k: Seq<char>| text_map(dp@).contains_key(k);
                                assert(text_map(st@).contains_key(k) && device_tool_keys(owner@).contains(k));
                            }
                            if meets(text_map(st@), device_tool_keys(owner@)) {
                                let k = choose|k: Seq<char>| text_map(st@).contains_key(k) && device_tool_keys(owner@).contains(k);
                                assert(text_map(dp@).contains_key(k));
                            }
                            if sp@.len() > 0 {
                                let k = choose|k: Seq<char>| text_map(sp@).contains_key(k);
                                assert(text_map(st@).contains_key(k) && !device_tool_keys(owner@).contains(k));
                            }
                            if escapes(text_map(st@), device_tool_keys(owner@)) {
                                let k = choose|k: Seq<char>| text_map(st@).contains_key(k) && !device_tool_keys(owner@).contains(k);
                                assert(text_map(sp@).contains_key(k));
                            }
                        }
                        if dp.len() > 0 {
                            let ghost before = d@;
                            let item = (owner.clone(), ToolSettings::Object(dp));
                            proof {
                                assert forall|q: int| 0 <= q < before.len() implies seq_lt((#[trigger] before[q]).0@, item.0@) by {
                                    let k = choose|k: int| 0 <= k < i && before[q].0@ == tl@[k].0@;
                                }
                                lemma_assoc_push(before, |t: ToolSettings| tool_view(t), item);
                            }
                            d.push(item);
                            proof {
                                assert forall|q: int| 0 <= q < d@.len() implies exists|k: int|
                                    0 <= k < i + 1 && (#[trigger] d@[q]).0@ == tl@[k].0@ by {
                                    if q == before.len() {
                                        assert(d@[q].0@ == tl@[i as int].0@);
                                    } else {
                                        assert(d@[q] == before[q]);
                                    }
                                }
                                assert forall|q: int| 0 <= q < d@.len() implies wf_tool(#[trigger] d@[q].1) by {
                                    if q < before.len() {
                                        assert(d@[q] == before[q]);
                                    }
                                }
                            }
                        } else {
                            proof {
                                assert forall|q: int| 0 <= q < d@.len() implies exists|k: int|
                                    0 <= k < i + 1 && (#[trigger] d@[q]).0@ == tl@[k].0@ by {
                                    let k = choose|k: int| 0 <= k < i && d@[q].0@ == tl@[k].0@;
                                }
                            }
                        }
                        if sp.len() > 0 {
                            let ghost before = s@;
                            let item = (owner.clone(), ToolSettings::Object(sp));
                            proof {
                                assert forall|q: int| 0 <= q < before.len() implies seq_lt((#[trigger] before[q]).0@, item.0@) by {
                                    let k = choose|k: int| 0 <= k < i && before[q].0@ == tl@[k].0@;
                                }
                                lemma_assoc_push(before, |t: ToolSettings| tool_view(t), item);
                            }
                            s.push(item);
                            proof {
                                assert forall|q: int| 0 <= q < s@.len() implies exists|k: int|
                                    0 <= k < i + 1 && (#[trigger] s@[q]).0@ == tl@[k].0@ by {
                                    if q == before.len() {
                                        assert(s@[q].0@ == tl@[i as int].0@);
                                    } else {
                                        assert(s@[q] == before[q]);
                                    }
                                }
                                assert forall|q: int| 0 <= q < s@.len() implies wf_tool(#[trigger] s@[q].1) by {
                                    if q < before.len() {
                                        assert(s@[q] == before[q]);
                                    }
                                }
                            }
                        } else {
                            proof {
                                assert forall|q: int| 0 <= q < s@.len() implies exists|k: int|
                                    0 <= k < i + 1 && (#[trigger] s@[q]).0@ == tl@[k].0@ by {
                                    let k = choose|k: int| 0 <= k < i && s@[q].0@ == tl@[k].0@;
                                }
                            }
                        }
                    },
                }
                i = i + 1;
            }
            proof {
                assert(tl@.subrange(0, tl@.len() as int) =~= tl@);
                if first_other(tl@) is Some {
                    let f = first_other(tl@)->0;
                    assert(tl@[f].1 is Object);
                }
            }
            Ok((d, s))
        },
    }
}

// ---------------------------------------------------------------------------
// Copies and the top-level split.

/// Entries with the same keys and values seen alike denote the same map.
proof fn lemma_assoc_congruent<V, W>(a: Seq<(String, V)>, b: Seq<(String, V)>, f: spec_fn(V) -> W)
    requires
        a.len() == b.len(),
        forall|i: int| 0 <= i < a.len() ==> (#[trigger] a[i]).0@ == b[i].0@ && f(a[i].1) == f(b[i].1),
    ensures
        assoc(a, f) == assoc(b, f),
    decreases a.len(),
{
    if a.len() > 0 {
        assert forall|i: int| 0 <= i < a.drop_last().len() implies (#[trigger] a.drop_last()[i]).0@ == b.drop_last()[i].0@
            && f(a.drop_last()[i].1) == f(b.drop_last()[i].1) by {
            assert(a.drop_last()[i] == a[i] && b.drop_last()[i] == b[i]);
        }
        lemma_assoc_congruent(a.drop_last(), b.drop_last(), f);
        assert(a.last().0@ == b.last().0@);
    }
}

/// Two positions of ascending entries with the same key are the same position.
proof fn lemma_unique_key<V>(l: Seq<(String, V)>, i: int, j: int)
    requires
        ascending(l),
        0 <= i < l.len(),
        0 <= j < l.len(),
        l[i].0@ == l[j].0@,
    ensures
        i == j,
{
    if i < j {
        assert(seq_lt(l[i].0@, l[j].0@));
        lemma_seq_lt_irreflexive(l[i].0@);
    } else if j < i {
        assert(seq_lt(l[j].0@, l[i].0@));
        lemma_seq_lt_irreflexive(l[i].0@);
    }
}

/// Copy of settings entries.
pub(crate) fn copy_texts(st: &Vec<(String, String)>) -> (r: Vec<(String, String)>)
    ensures
        r@ == st@,
{
    let mut r: Vec<(String, String)> = Vec::new();
    let mut i: usize = 0;
    while i < st.len()
        invariant
            i <= st@.len(),
            r@ == st@.subrange(0, i as int),
        decreases st@.len() - i,
    {
        r.push((st[i].0.clone(), st[i].1.clone()));
        proof {
            assert(st@.subrange(0, i + 1) =~= st@.subrange(0, i as int).push(st@[i as int]));
        }
        i = i + 1;
    }
    assert(st@.subrange(0, st@.len() as int) =~= st@);
    r
}

/// Copy of a tool's settings.
fn copy_tool(t: &ToolSettings) -> (r: ToolSettings)
    ensures
        tool_view(r) == tool_view(*t),
        wf_tool(*t) ==> wf_tool(r),
{
    match t {
        ToolSettings::Object(st) => ToolSettings::Object(copy_texts(st)),
        ToolSettings::Other(x) => ToolSettings::Other(x.clone()),
    }
}

/// Copy of tool settings by tool id.
pub(crate) fn copy_tools(tl: &Tools) -> (r: Tools)
    ensures
        tools_view(r@) == tools_view(tl@),
        wf_tools(tl@) ==> wf_tools(r@),
{
    let mut c: Tools = Vec::new();
    let mut i: usize = 0;
    while i < tl.len()
        invariant
            i <= tl@.len(),
            c@.len() == i,
            forall|k: int|
                0 <= k < i ==> (#[trigger] c@[k]).0 == tl@[k].0 && tool_view(c@[k].1) == tool_view(tl@[k].1) && (
                wf_tool(tl@[k].1) ==> wf_tool(c@[k].1)),
        decreases tl@.len() - i,
    {
        c.push((tl[i].0.clone(), copy_tool(&tl[i].1)));
        i = i + 1;
    }
    proof {
        lemma_assoc_congruent(c@, tl@, |t: ToolSettings| tool_view(t));
        if wf_tools(tl@) {
            assert forall|a: int, b: int| 0 <= a < b < c@.len() implies seq_lt(
                #[trigger] c@[a].0@,
                #[trigger] c@[b].0@,
            ) by {
                assert(c@[a].0 == tl@[a].0 && c@[b].0 == tl@[b].0);
            }
            assert forall|k: int| 0 <= k < c@.len() implies wf_tool(#[trigger] c@[k].1) by {
                assert(wf_tool(tl@[k].1));
            }
        }
    }
    c
}

/// Copy of a top-level value.
fn copy_value(v: &SettingValue) -> (r: SettingValue)
    ensures
        value_view(r) == value_view(*v),
        wf_value(*v) ==> wf_value(r),
{
    match v {
        SettingValue::Other(x) => SettingValue::Other(x.clone()),
        SettingValue::Object(tl) => SettingValue::Object(copy_tools(tl)),
    }
}

/// The map has some key.
pub open spec fn nonempty<V>(m: Map<Seq<char>, V>) -> bool {
    exists|k: Seq<char>| m.contains_key(k)
}

/// The `tools` value of a layer, if it has one.
pub open spec fn tools_entry(l: Seq<(String, SettingValue)>) -> Option<SettingValue> {
    if exists|i: int| 0 <= i < l.len() && (#[trigger] l[i]).0@ == TOOLS_KEY@ {
        Some(l[choose|i: int| 0 <= i < l.len() && (#[trigger] l[i]).0@ == TOOLS_KEY@].1)
    } else {
        None
    }
}

/// Why a patch cannot be split, if it cannot: only its `tools` value can fail.
pub open spec fn patch_error(l: Seq<(String, SettingValue)>) -> Option<Seq<char>> {
    match tools_entry(l) {
        Some(t) => tools_error(t),
        None => None,
    }
}

/// The device part of a layer: its device keys, and the device part of its tools if any.
pub open spec fn device_layer(
    p: Map<Seq<char>, Result<Map<Seq<char>, Result<Map<Seq<char>, Seq<char>>, Seq<char>>>, Seq<char>>>,
    reserved: Seq<Seq<char>>,
) -> Map<Seq<char>, Result<Map<Seq<char>, Result<Map<Seq<char>, Seq<char>>, Seq<char>>>, Seq<char>>> {
    let plain = p.restrict(Set::new(|k: Seq<char>| k != TOOLS_KEY@ && device_key(k, reserved)));
    if p.contains_key(TOOLS_KEY@) && p[TOOLS_KEY@] is Ok && nonempty(device_tools(p[TOOLS_KEY@]->Ok_0)) {
        plain.insert(TOOLS_KEY@, Ok(device_tools(p[TOOLS_KEY@]->Ok_0)))
    } else {
        plain
    }
}

/// The space part of a layer: every other key, and the space part of its tools if any.
pub open spec fn space_layer(
    p: Map<Seq<char>, Result<Map<Seq<char>, Result<Map<Seq<char>, Seq<char>>, Seq<char>>>, Seq<char>>>,
    reserved: Seq<Seq<char>>,
) -> Map<Seq<char>, Result<Map<Seq<char>, Result<Map<Seq<char>, Seq<char>>, Seq<char>>>, Seq<char>>> {
    let plain = p.restrict(Set::new(|k: Seq<char>| k != TOOLS_KEY@ && !device_key(k, reserved)));
    if p.contains_key(TOOLS_KEY@) && p[TOOLS_KEY@] is Ok && nonempty(space_tools(p[TOOLS_KEY@]->Ok_0)) {
        plain.insert(TOOLS_KEY@, Ok(space_tools(p[TOOLS_KEY@]->Ok_0)))
    } else {
        plain
    }
}

/// Splits a settings patch by scope into the device layer and the space
/// layer (`reserved`: the bootstrap keys, which are device-level). Tool
/// settings are split key by key; the patch is refused when its `tools` value
/// cannot be split.
pub fn split_patch(patch: &Layer, reserved: &Vec<String>) -> (r: Result<(Layer, Layer), String>)
    requires
        wf_layer(patch@),
    ensures
        match patch_error(patch@) {
            Some(e) => r matches Err(m) && m@ == e,
            None => r matches Ok(parts) && wf_layer(parts.0@) && wf_layer(parts.1@) && layer_view(parts.0@)
                == device_layer(layer_view(patch@), views(reserved@)) && layer_view(parts.1@) == space_layer(
                layer_view(patch@),
                views(reserved@),
            ),
        },
{
    let ghost rv = views(reserved@);
    let mut device: Layer = Vec::new();
    let mut space: Layer = Vec::new();
    let mut i: usize = 0;
    proof {
        reveal_strlit("tools");
        assert(layer_view(patch@.subrange(0, 0)) =~= Map::empty());
        assert(device_layer(Map::empty(), rv) =~= Map::empty());
        assert(space_layer(Map::empty(), rv) =~= Map::empty());
    }
    while i < patch.len()
        invariant
            rv == views(reserved@),
            wf_layer(patch@),
            i <= patch@.len(),
            wf_layer(device@),
            wf_layer(space@),
            forall|q: int| 0 <= q < device@.len() ==> exists|k: int| 0 <= k < i && (#[trigger] device@[q]).0@ == patch@[k].0@,
            forall|q: int| 0 <= q < space@.len() ==> exists|k: int| 0 <= k < i && (#[trigger] space@[q]).0@ == patch@[k].0@,
            forall|k: int| 0 <= k < i && (#[trigger] patch@[k]).0@ == TOOLS_KEY@ ==> tools_error(patch@[k].1) is None,
            layer_view(device@) == device_layer(layer_view(patch@.subrange(0, i as int)), rv),
            layer_view(space@) == space_layer(layer_view(patch@.subrange(0, i as int)), rv),
        decreases patch@.len() - i,
    {
        let key = &patch[i].0;
        let value = &patch[i].1;
        let ghost pre = layer_view(patch@.subrange(0, i as int));
        proof {
            reveal_strlit("tools");
            assert(patch@.subrange(0, i + 1).drop_last() =~= patch@.subrange(0, i as int));
            assert(layer_view(patch@.subrange(0, i + 1)) == pre.insert(key@, value_view(*value)));
            assert(wf_value(patch@[i as int].1));
            assert forall|k: int| 0 <= k < patch@.subrange(0, i as int).len() implies (#[trigger] patch@.subrange(
                0,
                i as int,
            )[k]).0@ != key@ by {
                assert(patch@.subrange(0, i as int)[k] == patch@[k]);
                assert(seq_lt(patch@[k].0@, patch@[i as int].0@));
                lemma_seq_lt_irreflexive(key@);
            }
            lemma_assoc_absent(patch@.subrange(0, i as int), |v: SettingValue| value_view(v), key@);
            // every key pushed so far is below this one
            assert forall|q: int| 0 <= q < device@.len() implies seq_lt((#[trigger] device@[q]).0@, key@) by {
                let k = choose|k: int| 0 <= k < i && device@[q].0@ == patch@[k].0@;
            }
            assert forall|q: int| 0 <= q < space@.len() implies seq_lt((#[trigger] space@[q]).0@, key@) by {
                let k = choose|k: int| 0 <= k < i && space@[q].0@ == patch@[k].0@;
            }
        }
        if str_eq(key.as_str(), TOOLS_KEY) {
            match split_tools(value) {
                Err(e) => {
                    proof {
                        assert(tools_entry(patch@) == Some(patch@[i as int].1)) by {
                            let c = choose|c: int| 0 <= c < patch@.len() && (#[trigger] patch@[c]).0@ == TOOLS_KEY@;
                            lemma_unique_key(patch@, c, i as int);
                        }
                    }
                    return Err(e);
                },
                Ok((dt, st)) => {
                    let ghost t = match value {
                        SettingValue::Object(tl) => tools_view(tl@),
                        SettingValue::Other(_) => Map::empty(),
                    };
                    proof {
                        lemma_nonempty(dt@, |x: ToolSettings| tool_view(x));
                        lemma_nonempty(st@, |x: ToolSettings| tool_view(x));
                        assert(value_view(*value) == Ok::<_, Seq<char>>(t));
                        assert(!pre.contains_key(TOOLS_KEY@));
                    }
                    if dt.len() > 0 {
                        let ghost before = device@;
                        let item = (key.clone(), SettingValue::Object(dt));
                        proof {
                            lemma_assoc_push(before, |v: SettingValue| value_view(v), item);
                        }
                        device.push(item);
                        proof {
                            assert forall|q: int| 0 <= q < device@.len() implies wf_value(#[trigger] device@[q].1) by {
                                if q < before.len() {
                                    assert(device@[q] == before[q]);
                                }
                            }
                            assert forall|q: int| 0 <= q < device@.len() implies exists|k: int|
                                0 <= k < i + 1 && (#[trigger] device@[q]).0@ == patch@[k].0@ by {
                                if q == before.len() {
                                    assert(device@[q].0@ == patch@[i as int].0@);
                                } else {
                                    assert(device@[q] == before[q]);
                                    let k = choose|k: int| 0 <= k < i && before[q].0@ == patch@[k].0@;
                                }
                            }
                            assert(layer_view(device@) =~= device_layer(pre.insert(key@, value_view(*value)), rv));
                        }
                    } else {
                        proof {
                            assert(layer_view(device@) =~= device_layer(pre.insert(key@, value_view(*value)), rv));
                            assert forall|q: int| 0 <= q < device@.len() implies exists|k: int|
                                0 <= k < i + 1 && (#[trigger] device@[q]).0@ == patch@[k].0@ by {
                                let k = choose|k: int| 0 <= k < i && device@[q].0@ == patch@[k].0@;
                            }
                        }
                    }
                    if st.len() > 0 {
                        let ghost before = space@;
                        let item = (key.clone(), SettingValue::Object(st));
                        proof {
                            lemma_assoc_push(before, |v: SettingValue| value_view(v), item);
                        }
                        space.push(item);
                        proof {
                            assert forall|q: int| 0 <= q < space@.len() implies wf_value(#[trigger] space@[q].1) by {
                                if q < before.len() {
                                    assert(space@[q] == before[q]);
                                }
                            }
                            assert forall|q: int| 0 <= q < space@.len() implies exists|k: int|
                                0 <= k < i + 1 && (#[trigger] space@[q]).0@ == patch@[k].0@ by {
                                if q == before.len() {
                                    assert(space@[q].0@ == patch@[i as int].0@);
                                } else {
                                    assert(space@[q] == before[q]);
                                    let k = choose|k: int| 0 <= k < i && before[q].0@ == patch@[k].0@;
                                }
                            }
                            assert(layer_view(space@) =~= space_layer(pre.insert(key@, value_view(*value)), rv));
                        }
                    } else {
                        proof {
                            assert(layer_view(space@) =~= space_layer(pre.insert(key@, value_view(*value)), rv));
                            assert forall|q: int| 0 <= q < space@.len() implies exists|k: int|
                                0 <= k < i + 1 && (#[trigger] space@[q]).0@ == patch@[k].0@ by {
                                let k = choose|k: int| 0 <= k < i && space@[q].0@ == patch@[k].0@;
                            }
                        }
                    }
                },
            }
        } else {
            let to_device = is_device_key(key.as_str(), reserved);
            let item = (key.clone(), copy_value(value));
            if to_device {
                let ghost before = device@;
                proof {
                    lemma_assoc_push(before, |v: SettingValue| value_view(v), item);
                }
                device.push(item);
                proof {
                    assert forall|q: int| 0 <= q < device@.len() implies wf_value(#[trigger] device@[q].1) by {
                        if q < before.len() {
                            assert(device@[q] == before[q]);
                        }
                    }
                    assert forall|q: int| 0 <= q < device@.len() implies exists|k: int|
                        0 <= k < i + 1 && (#[trigger] device@[q]).0@ == patch@[k].0@ by {
                        if q == before.len() {
                            assert(device@[q].0@ == patch@[i as int].0@);
                        } else {
                            assert(device@[q] == before[q]);
                            let k = choose|k: int| 0 <= k < i && before[q].0@ == patch@[k].0@;
                        }
                    }
                    assert forall|q: int| 0 <= q < space@.len() implies exists|k: int|
                        0 <= k < i + 1 && (#[trigger] space@[q]).0@ == patch@[k].0@ by {
                        let k = choose|k: int| 0 <= k < i && space@[q].0@ == patch@[k].0@;
                    }
                    assert(layer_view(device@) =~= device_layer(pre.insert(key@, value_view(*value)), rv));
                    assert(layer_view(space@) =~= space_layer(pre.insert(key@, value_view(*value)), rv));
                }
            } else {
                let ghost before = space@;
                proof {
                    lemma_assoc_push(before, |v: SettingValue| value_view(v), item);
                }
                space.push(item);
                proof {
                    assert forall|q: int| 0 <= q < space@.len() implies wf_value(#[trigger] space@[q].1) by {
                        if q < before.len() {
                            assert(space@[q] == before[q]);
                        }
                    }
                    assert forall|q: int| 0 <= q < space@.len() implies exists|k: int|
                        0 <= k < i + 1 && (#[trigger] space@[q]).0@ == patch@[k].0@ by {
                        if q == before.len() {
                            assert(space@[q].0@ == patch@[i as int].0@);
                        } else {
                            assert(space@[q] == before[q]);
                            let k = choose|k: int| 0 <= k < i && before[q].0@ == patch@[k].0@;
                        }
                    }
                    assert forall|q: int| 0 <= q < device@.len() implies exists|k: int|
                        0 <= k < i + 1 && (#[trigger] device@[q]).0@ == patch@[k].0@ by {
                        let k = choose|k: int| 0 <= k < i && device@[q].0@ == patch@[k].0@;
                    }
                    assert(layer_view(device@) =~= device_layer(pre.insert(key@, value_view(*value)), rv));
                    assert(layer_view(space@) =~= space_layer(pre.insert(key@, value_view(*value)), rv));
                }
            }
        }
        i = i + 1;
    }
    proof {
        assert(patch@.subrange(0, patch@.len() as int) =~= patch@);
        if tools_entry(patch@) is Some {
            let c = choose|c: int| 0 <= c < patch@.len() && (#[trigger] patch@[c]).0@ == TOOLS_KEY@;
            assert(tools_error(patch@[c].1) is None);
        }
    }
    Ok((device, space))
}

// ---------------------------------------------------------------------------
// The merged view.

/// The position of the entry with key `key`, if any.
pub(crate) fn find_key<V>(l: &Vec<(String, V)>, key: &str) -> (r: Option<usize>)
    ensures
        r matches Some(i) ==> i < l@.len() && l@[i as int].0@ == key@,
        r is None ==> forall|i: int| 0 <= i < l@.len() ==> (#[trigger] l@[i]).0@ != key@,
{
    let mut i: usize = 0;
    while i < l.len()
        invariant
            i <= l@.len(),
            forall|k: int| 0 <= k < i ==> (#[trigger] l@[k]).0@ != key@,
        decreases l@.len() - i,
    {
        if str_eq(l[i].0.as_str(), key) {
            return Some(i);
        }
        i = i + 1;
    }
    None
}

/// `new` is `old` with entry `(k, v)` put in: replacing the entry of key `k`,
/// or inserted where the order wants it.
pub open spec fn put_into<V>(old: Seq<(String, V)>, new: Seq<(String, V)>, k: String, v: V) -> bool {
    exists|p: int|
        0 <= p <= old.len() && ((p < old.len() && old[p].0@ == k@ && new == old.update(p, (k, v))) || (new
            == old.insert(p, (k, v)) && forall|i: int| 0 <= i < old.len() ==> (#[trigger] old[i]).0@ != k@))
}

/// Putting an entry into ascending entries puts it into the map they denote.
pub(crate) proof fn lemma_assoc_put<V, W>(old: Seq<(String, V)>, new: Seq<(String, V)>, k: String, v: V, f: spec_fn(V) -> W)
    requires
        ascending(old),
        ascending(new),
        put_into(old, new, k, v),
    ensures
        assoc(new, f) == assoc(old, f).insert(k@, f(v)),
{
    let p = choose|p: int|
        0 <= p <= old.len() && ((p < old.len() && old[p].0@ == k@ && new == old.update(p, (k, v))) || (new
            == old.insert(p, (k, v)) && forall|i: int| 0 <= i < old.len() ==> (#[trigger] old[i]).0@ != k@));
    let replaced = p < old.len() && old[p].0@ == k@ && new == old.update(p, (k, v));
    let target = assoc(old, f).insert(k@, f(v));
    assert forall|key: Seq<char>| #[trigger] assoc(new, f).contains_key(key) == target.contains_key(key) by {
        lemma_assoc_dom(new, f, key);
        lemma_assoc_dom(old, f, key);
        if key != k@ {
            if exists|i: int| 0 <= i < old.len() && (#[trigger] old[i]).0@ == key {
                let i = choose|i: int| 0 <= i < old.len() && (#[trigger] old[i]).0@ == key;
                if replaced {
                    assert(new[i] == old[i]);
                } else if i < p {
                    assert(new[i] == old[i]);
                } else {
                    assert(new[i + 1] == old[i]);
                }
            }
            if exists|j: int| 0 <= j < new.len() && (#[trigger] new[j]).0@ == key {
                let j = choose|j: int| 0 <= j < new.len() && (#[trigger] new[j]).0@ == key;
                if replaced {
                    assert(old[j] == new[j]);
                } else if j < p {
                    assert(old[j] == new[j]);
                } else if j > p {
                    assert(old[j - 1] == new[j]);
                }
            }
        } else {
            assert(new[p].0@ == k@);
        }
    }
    assert forall|key: Seq<char>| #[trigger] assoc(new, f).contains_key(key) implies assoc(new, f)[key] == target[key] by {
        lemma_assoc_dom(new, f, key);
        let j = choose|j: int| 0 <= j < new.len() && (#[trigger] new[j]).0@ == key;
        lemma_assoc_at(new, f, j);
        if key == k@ {
            lemma_assoc_at(new, f, p);
        } else if replaced {
            assert(old[j] == new[j]);
            lemma_assoc_at(old, f, j);
        } else if j < p {
            assert(old[j] == new[j]);
            lemma_assoc_at(old, f, j);
        } else {
            assert(j != p);
            assert(old[j - 1] == new[j]);
            lemma_assoc_at(old, f, j - 1);
        }
    }
    assert(assoc(new, f) =~= target);
}

/// Puts entry `(k, v)` into ascending entries: replaces the entry of key `k`,
/// or inserts it in order.
pub(crate) fn put<V>(l: &mut Vec<(String, V)>, k: String, v: V)
    requires
        ascending(old(l)@),
    ensures
        ascending(final(l)@),
        put_into(old(l)@, final(l)@, k, v),
{
    let ghost before = l@;
    let mut p: usize = 0;
    while p < l.len() && str_lt(l[p].0.as_str(), k.as_str())
        invariant
            p <= l@.len(),
            l@ == before,
            forall|q: int| 0 <= q < p ==> seq_lt(#[trigger] before[q].0@, k@),
        decreases l@.len() - p,
    {
        p = p + 1;
    }
    proof {
        assert forall|q: int| p <= q < before.len() implies !seq_lt(#[trigger] before[q].0@, k@) by {
            if q > p {
                assert(seq_lt(before[p as int].0@, before[q].0@));
                if seq_lt(before[q].0@, k@) {
                    lemma_seq_lt_transitive(before[p as int].0@, before[q].0@, k@);
                }
            }
        }
    }
    let ghost entry = (k, v);
    if p < l.len() && str_eq(l[p].0.as_str(), k.as_str()) {
        l.set(p, (k, v));
        proof {
            assert(l@ =~= before.update(p as int, entry));
            assert forall|a: int, b: int| 0 <= a < b < l@.len() implies seq_lt(#[trigger] l@[a].0@, #[trigger] l@[b].0@) by {
                assert(before[a].0@ == l@[a].0@ && before[b].0@ == l@[b].0@);
            }
        }
    } else {
        proof {
            if p < before.len() {
                lemma_seq_lt_trichotomy(entry.0@, before[p as int].0@);
            }
            assert forall|i: int| 0 <= i < before.len() implies (#[trigger] before[i]).0@ != entry.0@ by {
                if i < p {
                    lemma_seq_lt_irreflexive(entry.0@);
                } else if i > p {
                    assert(seq_lt(before[p as int].0@, before[i].0@));
                    if before[i].0@ == entry.0@ {
                        lemma_seq_lt_trichotomy(entry.0@, before[p as int].0@);
                    }
                }
            }
        }
        l.insert(p, (k, v));
        proof {
            assert(l@ =~= before.insert(p as int, entry));
            assert forall|a: int, b: int| 0 <= a < b < l@.len() implies seq_lt(#[trigger] l@[a].0@, #[trigger] l@[b].0@) by {
                if a == p {
                    assert(l@[b] == before[b - 1]);
                    if b - 1 > p {
                        lemma_seq_lt_trichotomy(entry.0@, before[p as int].0@);
                        lemma_seq_lt_transitive(entry.0@, before[p as int].0@, before[b - 1].0@);
                    } else {
                        lemma_seq_lt_trichotomy(entry.0@, before[p as int].0@);
                    }
                } else if b == p {
                    assert(l@[a] == before[a]);
                } else if a < p && b > p {
                    assert(l@[a] == before[a] && l@[b] == before[b - 1]);
                } else if a > p {
                    assert(l@[a] == before[a - 1] && l@[b] == before[b - 1]);
                } else {
                    assert(l@[a] == before[a] && l@[b] == before[b]);
                }
            }
        }
    }
}

/// Tool settings by tool id.
pub type ToolsMap = Map<Seq<char>, Result<Map<Seq<char>, Seq<char>>, Seq<char>>>;

/// A well-formed document.
pub open spec fn wf_document(d: Document) -> bool {
    match d {
        Document::Object(l) => wf_layer(l@),
        Document::Other(_) => true,
    }
}

/// What a document denotes as a layer: its entries, or nothing when it is not an object.
pub open spec fn doc_layer(d: Document) -> Map<Seq<char>, Result<ToolsMap, Seq<char>>> {
    match d {
        Document::Object(l) => layer_view(l@),
        Document::Other(_) => Map::empty(),
    }
}

/// The tool settings of a layer: its `tools` object, or nothing.
pub open spec fn tools_of(m: Map<Seq<char>, Result<ToolsMap, Seq<char>>>) -> ToolsMap {
    if m.contains_key(TOOLS_KEY@) && m[TOOLS_KEY@] is Ok {
        m[TOOLS_KEY@]->Ok_0
    } else {
        Map::empty()
    }
}

/// Space tool settings over device tool settings: a tool's space settings
/// override its device settings key by key. A tool the device layer holds as
/// anything but an object keeps that value; a tool only the space layer has
/// takes its space settings (an empty object when those are not an object).
pub open spec fn overlay_tools(d: ToolsMap, s: ToolsMap) -> ToolsMap {
    Map::new(
        |o: Seq<char>| d.contains_key(o) || s.contains_key(o),
        |o: Seq<char>|
            if !s.contains_key(o) {
                d[o]
            } else if !d.contains_key(o) {
                match s[o] {
                    Ok(m) => Ok(m),
                    Err(_) => Ok(Map::empty()),
                }
            } else {
                match (d[o], s[o]) {
                    (Ok(dm), Ok(sm)) => Ok(dm.union_prefer_right(sm)),
                    (dv, _) => dv,
                }
            },
    )
}

/// Settings entries with `over` put in one by one, each replacing the same key.
fn overlay_settings(base: &Vec<(String, String)>, over: &Vec<(String, String)>) -> (r: Vec<(String, String)>)
    requires
        ascending(base@),
    ensures
        ascending(r@),
        text_map(r@) == text_map(base@).union_prefer_right(text_map(over@)),
{
    let mut r = copy_texts(base);
    let mut i: usize = 0;
    while i < over.len()
        invariant
            i <= over@.len(),
            ascending(r@),
            text_map(r@) == text_map(base@).union_prefer_right(text_map(over@.subrange(0, i as int))),
        decreases over@.len() - i,
    {
        let ghost before = r@;
        let k = over[i].0.clone();
        let v = over[i].1.clone();
        let ghost kv = (k, v);
        put(&mut r, k, v);
        proof {
            lemma_assoc_put(before, r@, kv.0, kv.1, |s: String| text_of(s));
            assert(over@.subrange(0, i + 1).drop_last() =~= over@.subrange(0, i as int));
            assert(text_map(r@) =~= text_map(base@).union_prefer_right(text_map(over@.subrange(0, i + 1))));
        }
        i = i + 1;
    }
    assert(over@.subrange(0, over@.len() as int) =~= over@);
    r
}

/// The tools entries of a layer, when its `tools` value is an object.
fn tools_list(l: &Layer) -> (r: Option<&Tools>)
    requires
        wf_layer(l@),
    ensures
        match r {
            Some(tl) => wf_tools(tl@) && tools_of(layer_view(l@)) == tools_view(tl@),
            None => tools_of(layer_view(l@)) == Map::<Seq<char>, Result<Map<Seq<char>, Seq<char>>, Seq<char>>>::empty(),
        },
{
    proof {
        reveal_strlit("tools");
    }
    match find_key(l, TOOLS_KEY) {
        Some(i) => {
            proof {
                lemma_assoc_at(l@, |v: SettingValue| value_view(v), i as int);
                assert(wf_value(l@[i as int].1));
            }
            match &l[i].1 {
                SettingValue::Object(tl) => Some(tl),
                SettingValue::Other(_) => None,
            }
        },
        None => {
            proof {
                lemma_assoc_absent(l@, |v: SettingValue| value_view(v), TOOLS_KEY@);
            }
            None
        },
    }
}

/// The merged tool settings of a device tools list and a space tools list.
fn overlay_tool_lists(device: Option<&Tools>, space: Option<&Tools>) -> (r: Tools)
    requires
        device matches Some(d) ==> wf_tools(d@),
        space matches Some(s) ==> wf_tools(s@),
    ensures
        wf_tools(r@),
        tools_view(r@) == overlay_tools(
            match device {
                Some(d) => tools_view(d@),
                None => Map::empty(),
            },
            match space {
                Some(s) => tools_view(s@),
                None => Map::empty(),
            },
        ),
{
    let ghost dm = match device {
        Some(d) => tools_view(d@),
        None => Map::<Seq<char>, Result<Map<Seq<char>, Seq<char>>, Seq<char>>>::empty(),
    };
    let mut merged: Tools = match device {
        Some(d) => copy_tools(d),
        None => Vec::new(),
    };
    let ghost sl: Seq<(String, ToolSettings)> = match space {
        Some(s) => s@,
        None => Seq::empty(),
    };
    proof {
        assert(tools_view(sl.subrange(0, 0)) =~= Map::empty());
        assert(overlay_tools(dm, Map::empty()) =~= dm);
    }
    match space {
        None => {},
        Some(s) => {
            let mut i: usize = 0;
            while i < s.len()
                invariant
                    sl == s@,
                    wf_tools(s@),
                    i <= s@.len(),
                    wf_tools(merged@),
                    tools_view(merged@) == overlay_tools(dm, tools_view(s@.subrange(0, i as int))),
                decreases s@.len() - i,
            {
                let owner = &s[i].0;
                let ghost pre = tools_view(s@.subrange(0, i as int));
                proof {
                    assert(s@.subrange(0, i + 1).drop_last() =~= s@.subrange(0, i as int));
                    assert(tools_view(s@.subrange(0, i + 1)) == pre.insert(owner@, tool_view(s@[i as int].1)));
                    assert(wf_tool(s@[i as int].1));
                    assert forall|k: int| 0 <= k < s@.subrange(0, i as int).len() implies (#[trigger] s@.subrange(
                        0,
                        i as int,
                    )[k]).0@ != owner@ by {
                        assert(s@.subrange(0, i as int)[k] == s@[k]);
                        assert(seq_lt(s@[k].0@, s@[i as int].0@));
                        lemma_seq_lt_irreflexive(owner@);
                    }
                    lemma_assoc_absent(s@.subrange(0, i as int), |t: ToolSettings| tool_view(t), owner@);
                }
                let ghost cur = tools_view(merged@);
                let ghost target = overlay_tools(dm, pre.insert(owner@, tool_view(s@[i as int].1)));
                match find_key(&merged, owner.as_str()) {
                    None => {
                        proof {
                            lemma_assoc_absent(merged@, |t: ToolSettings| tool_view(t), owner@);
                        }
                        let fresh = match &s[i].1 {
                            ToolSettings::Object(ss) => ToolSettings::Object(copy_texts(ss)),
                            ToolSettings::Other(_) => ToolSettings::Object(Vec::new()),
                        };
                        let ghost before = merged@;
                        let key = owner.clone();
                        let ghost item = (key, fresh);
                        proof {
                            assert(wf_tool(fresh));
                            if !(s@[i as int].1 is Object) {
                                assert(text_map(Seq::<(String, String)>::empty()) =~= Map::empty());
                            }
                        }
                        put(&mut merged, key, fresh);
                        proof {
                            lemma_assoc_put(before, merged@, item.0, item.1, |t: ToolSettings| tool_view(t));
                            assert forall|q: int| 0 <= q < merged@.len() implies wf_tool(#[trigger] merged@[q].1) by {
                                let p = choose|p: int|
                                    0 <= p <= before.len() && ((p < before.len() && before[p].0@ == item.0@ && merged@
                                        == before.update(p, item)) || (merged@ == before.insert(p, item) && forall|i: int|
                                        0 <= i < before.len() ==> (#[trigger] before[i]).0@ != item.0@));
                                if q < p {
                                    assert(merged@[q] == before[q]);
                                } else if q > p {
                                    assert(merged@[q] == before[q - 1]);
                                }
                            }
                            assert(tools_view(merged@) =~= target);
                        }
                    },
                    Some(p) => {
                        proof {
                            lemma_assoc_at(merged@, |t: ToolSettings| tool_view(t), p as int);
                            assert(wf_tool(merged@[p as int].1));
                        }
                        let updated = match (&merged[p].1, &s[i].1) {
                            (ToolSettings::Object(ds), ToolSettings::Object(ss)) => Some(overlay_settings(ds, ss)),
                            _ => None,
                        };
                        match updated {
                            Some(ov) => {
                                let ghost before = merged@;
                                let entry = (owner.clone(), ToolSettings::Object(ov));
                                let ghost item = entry;
                                merged.set(p, entry);
                                proof {
                                    assert(merged@ =~= before.update(p as int, item));
                                    assert(put_into(before, merged@, item.0, item.1));
                                    assert forall|a: int, b: int| 0 <= a < b < merged@.len() implies seq_lt(
                                        #[trigger] merged@[a].0@,
                                        #[trigger] merged@[b].0@,
                                    ) by {
                                        assert(merged@[a].0@ == before[a].0@ && merged@[b].0@ == before[b].0@);
                                    }
                                    lemma_assoc_put(before, merged@, item.0, item.1, |t: ToolSettings| tool_view(t));
                                    assert forall|q: int| 0 <= q < merged@.len() implies wf_tool(#[trigger] merged@[q].1) by {
                                        if q != p {
                                            assert(merged@[q] == before[q]);
                                        }
                                    }
                                    assert(tools_view(merged@) =~= target);
                                }
                            },
                            None => {
                                proof {
                                    assert(tools_view(merged@) =~= target);
                                }
                            },
                        }
                    },
                }
                i = i + 1;
            }
            proof {
                assert(s@.subrange(0, s@.len() as int) =~= s@);
            }
        },
    }
    merged
}

/// The merged tool settings: the space layer's settings of each tool over
/// the device layer's, key by key (device-level tool keys live only in the
/// device layer).
pub fn merged_tools(device: &Document, space: &Layer) -> (r: SettingValue)
    requires
        wf_document(*device),
        wf_layer(space@),
    ensures
        wf_value(r),
        value_view(r) == Ok::<ToolsMap, Seq<char>>(
            overlay_tools(tools_of(doc_layer(*device)), tools_of(layer_view(space@))),
        ),
{
    let d = match device {
        Document::Object(l) => tools_list(l),
        Document::Other(_) => None,
    };
    let s = tools_list(space);
    proof {
        assert(tools_of(Map::empty()) =~= Map::empty());
    }
    SettingValue::Object(overlay_tool_lists(d, s))
}

/// The merged view: the device layer under the space layer (a space key
/// overrides the same device key), with tool settings merged tool by tool
/// and key by key; `tools` is left out when nothing is merged into it.
pub open spec fn overlay_layer(
    d: Map<Seq<char>, Result<ToolsMap, Seq<char>>>,
    s: Map<Seq<char>, Result<ToolsMap, Seq<char>>>,
) -> Map<Seq<char>, Result<ToolsMap, Seq<char>>> {
    let plain = Map::new(
        |k: Seq<char>| k != TOOLS_KEY@ && (d.contains_key(k) || s.contains_key(k)),
        |k: Seq<char>|
            if s.contains_key(k) {
                s[k]
            } else {
                d[k]
            },
    );
    let t = overlay_tools(tools_of(d), tools_of(s));
    if nonempty(t) {
        plain.insert(TOOLS_KEY@, Ok(t))
    } else {
        plain
    }
}

/// The merged settings view of the device document and the space layer.
pub fn merge_view(device: &Document, space: &Layer) -> (r: Layer)
    requires
        wf_document(*device),
        wf_layer(space@),
    ensures
        wf_layer(r@),
        layer_view(r@) == overlay_layer(doc_layer(*device), layer_view(space@)),
{
    proof {
        reveal_strlit("tools");
    }
    let ghost dmap = doc_layer(*device);
    let ghost smap = layer_view(space@);
    let mut merged: Layer = Vec::new();
    match device {
        Document::Other(_) => {
            proof {
                assert(layer_view(merged@) =~= dmap.remove(TOOLS_KEY@));
            }
        },
        Document::Object(l) => {
            let mut i: usize = 0;
            proof {
                assert(layer_view(l@.subrange(0, 0)) =~= Map::empty());
                assert(layer_view(merged@) =~= layer_view(l@.subrange(0, 0)).remove(TOOLS_KEY@));
            }
            while i < l.len()
                invariant
                    dmap == layer_view(l@),
                    wf_layer(l@),
                    i <= l@.len(),
                    wf_layer(merged@),
                    forall|q: int| 0 <= q < merged@.len() ==> exists|k: int| 0 <= k < i && (#[trigger] merged@[q]).0@ == l@[k].0@,
                    layer_view(merged@) == layer_view(l@.subrange(0, i as int)).remove(TOOLS_KEY@),
                decreases l@.len() - i,
            {
                let key = &l[i].0;
                let ghost pre = layer_view(l@.subrange(0, i as int));
                proof {
                    assert(l@.subrange(0, i + 1).drop_last() =~= l@.subrange(0, i as int));
                    assert(layer_view(l@.subrange(0, i + 1)) == pre.insert(key@, value_view(l@[i as int].1)));
                    assert(wf_value(l@[i as int].1));
                }
                if !str_eq(key.as_str(), TOOLS_KEY) {
                    let ghost before = merged@;
                    let item = (key.clone(), copy_value(&l[i].1));
                    proof {
                        assert forall|q: int| 0 <= q < before.len() implies seq_lt((#[trigger] before[q]).0@, item.0@) by {
                            let k = choose|k: int| 0 <= k < i && before[q].0@ == l@[k].0@;
                        }
                        lemma_assoc_push(before, |v: SettingValue| value_view(v), item);
                    }
                    merged.push(item);
                    proof {
                        assert forall|q: int| 0 <= q < merged@.len() implies wf_value(#[trigger] merged@[q].1) by {
                            if q < before.len() {
                                assert(merged@[q] == before[q]);
                            }
                        }
                        assert forall|q: int| 0 <= q < merged@.len() implies exists|k: int|
                            0 <= k < i + 1 && (#[trigger] merged@[q]).0@ == l@[k].0@ by {
                            if q == before.len() {
                                assert(merged@[q].0@ == l@[i as int].0@);
                            } else {
                                assert(merged@[q] == before[q]);
                                let k = choose|k: int| 0 <= k < i && before[q].0@ == l@[k].0@;
                            }
                        }
                        assert(layer_view(merged@) =~= layer_view(l@.subrange(0, i + 1)).remove(TOOLS_KEY@));
                    }
                } else {
                    proof {
                        assert(layer_view(merged@) =~= layer_view(l@.subrange(0, i + 1)).remove(TOOLS_KEY@));
                        assert forall|q: int| 0 <= q < merged@.len() implies exists|k: int|
                            0 <= k < i + 1 && (#[trigger] merged@[q]).0@ == l@[k].0@ by {
                            let k = choose|k: int| 0 <= k < i && merged@[q].0@ == l@[k].0@;
                        }
                    }
                }
                i = i + 1;
            }
            proof {
                assert(l@.subrange(0, l@.len() as int) =~= l@);
            }
        },
    }
    let mut j: usize = 0;
    proof {
        assert(layer_view(space@.subrange(0, 0)) =~= Map::empty());
        assert(layer_view(merged@) =~= dmap.remove(TOOLS_KEY@).union_prefer_right(
            layer_view(space@.subrange(0, 0)).remove(TOOLS_KEY@),
        ));
    }
    while j < space.len()
        invariant
            smap == layer_view(space@),
            wf_layer(space@),
            j <= space@.len(),
            wf_layer(merged@),
            layer_view(merged@) == dmap.remove(TOOLS_KEY@).union_prefer_right(
                layer_view(space@.subrange(0, j as int)).remove(TOOLS_KEY@),
            ),
        decreases space@.len() - j,
    {
        let key = &space[j].0;
        let ghost pre = layer_view(space@.subrange(0, j as int));
        proof {
            assert(space@.subrange(0, j + 1).drop_last() =~= space@.subrange(0, j as int));
            assert(layer_view(space@.subrange(0, j + 1)) == pre.insert(key@, value_view(space@[j as int].1)));
            assert(wf_value(space@[j as int].1));
        }
        if !str_eq(key.as_str(), TOOLS_KEY) {
            let ghost before = merged@;
            let k = key.clone();
            let v = copy_value(&space[j].1);
            let ghost kv = (k, v);
            put(&mut merged, k, v);
            proof {
                lemma_assoc_put(before, merged@, kv.0, kv.1, |v: SettingValue| value_view(v));
                let p = choose|p: int|
                    0 <= p <= before.len() && ((p < before.len() && before[p].0@ == kv.0@ && merged@ == before.update(
                        p,
                        kv,
                    )) || (merged@ == before.insert(p, kv) && forall|i: int|
                        0 <= i < before.len() ==> (#[trigger] before[i]).0@ != kv.0@));
                assert forall|q: int| 0 <= q < merged@.len() implies wf_value(#[trigger] merged@[q].1) by {
                    if q < p {
                        assert(merged@[q] == before[q]);
                    } else if q > p {
                        if merged@ == before.insert(p, kv) {
                            assert(merged@[q] == before[q - 1]);
                        } else {
                            assert(merged@[q] == before[q]);
                        }
                    }
                }
                assert(layer_view(merged@) =~= dmap.remove(TOOLS_KEY@).union_prefer_right(
                    layer_view(space@.subrange(0, j + 1)).remove(TOOLS_KEY@),
                ));
            }
        } else {
            proof {
                assert(layer_view(merged@) =~= dmap.remove(TOOLS_KEY@).union_prefer_right(
                    layer_view(space@.subrange(0, j + 1)).remove(TOOLS_KEY@),
                ));
            }
        }
        j = j + 1;
    }
    proof {
        assert(space@.subrange(0, space@.len() as int) =~= space@);
    }
    let tools = merged_tools(device, space);
    let ghost t = overlay_tools(tools_of(dmap), tools_of(smap));
    let ghost plain = layer_view(merged@);
    match tools {
        SettingValue::Object(tl) => {
            proof {
                lemma_nonempty(tl@, |x: ToolSettings| tool_view(x));
            }
            if tl.len() > 0 {
                let ghost before = merged@;
                let k = TOOLS_KEY.to_string();
                let v = SettingValue::Object(tl);
                let ghost kv = (k, v);
                put(&mut merged, k, v);
                proof {
                    lemma_assoc_put(before, merged@, kv.0, kv.1, |v: SettingValue| value_view(v));
                    let p = choose|p: int|
                        0 <= p <= before.len() && ((p < before.len() && before[p].0@ == kv.0@ && merged@
                            == before.update(p, kv)) || (merged@ == before.insert(p, kv) && forall|i: int|
                            0 <= i < before.len() ==> (#[trigger] before[i]).0@ != kv.0@));
                    assert forall|q: int| 0 <= q < merged@.len() implies wf_value(#[trigger] merged@[q].1) by {
                        if q < p {
                            assert(merged@[q] == before[q]);
                        } else if q > p {
                            if merged@ == before.insert(p, kv) {
                                assert(merged@[q] == before[q - 1]);
                            } else {
                                assert(merged@[q] == before[q]);
                            }
                        }
                    }
                    assert(layer_view(merged@) =~= overlay_layer(dmap, smap));
                }
            } else {
                proof {
                    assert(layer_view(merged@) =~= overlay_layer(dmap, smap));
                }
            }
        },
        SettingValue::Other(_) => {},
    }
    merged
}

/// The `null` JSON value.
pub open spec fn null_view() -> Result<ToolsMap, Seq<char>> {
    Err("null"@)
}

/// What reading one key gives: `tools` gives the merged tool settings; a
/// device key is read from the device layer only; any other key from the
/// space layer, falling back to the device layer; `null` when absent.
pub open spec fn read_spec(
    d: Map<Seq<char>, Result<ToolsMap, Seq<char>>>,
    s: Map<Seq<char>, Result<ToolsMap, Seq<char>>>,
    key: Seq<char>,
    reserved: Seq<Seq<char>>,
) -> Result<ToolsMap, Seq<char>> {
    if key == TOOLS_KEY@ {
        Ok(overlay_tools(tools_of(d), tools_of(s)))
    } else if device_key(key, reserved) {
        if d.contains_key(key) {
            d[key]
        } else {
            null_view()
        }
    } else if s.contains_key(key) {
        s[key]
    } else if d.contains_key(key) {
        d[key]
    } else {
        null_view()
    }
}

/// The value of key `key` in a layer, if it has one.
fn layer_get(l: &Layer, key: &str) -> (r: Option<SettingValue>)
    requires
        wf_layer(l@),
    ensures
        match r {
            Some(v) => layer_view(l@).contains_key(key@) && value_view(v) == layer_view(l@)[key@] && wf_value(v),
            None => !layer_view(l@).contains_key(key@),
        },
{
    match find_key(l, key) {
        Some(i) => {
            proof {
                lemma_assoc_at(l@, |v: SettingValue| value_view(v), i as int);
                assert(wf_value(l@[i as int].1));
            }
            Some(copy_value(&l[i].1))
        },
        None => {
            proof {
                lemma_assoc_absent(l@, |v: SettingValue| value_view(v), key@);
            }
            None
        },
    }
}

/// Reads one setting from the two layers (`reserved`: the bootstrap keys).
pub fn read_view(device: &Document, space: &Layer, key: &str, reserved: &Vec<String>) -> (r: SettingValue)
    requires
        wf_document(*device),
        wf_layer(space@),
    ensures
        wf_value(r),
        value_view(r) == read_spec(doc_layer(*device), layer_view(space@), key@, views(reserved@)),
{
    proof {
        reveal_strlit("tools");
        reveal_strlit("null");
    }
    if str_eq(key, TOOLS_KEY) {
        return merged_tools(device, space);
    }
    let from_device = match device {
        Document::Object(l) => layer_get(l, key),
        Document::Other(_) => None,
    };
    if is_device_key(key, reserved) {
        return match from_device {
            Some(v) => v,
            None => SettingValue::Other("null".to_string()),
        };
    }
    match layer_get(space, key) {
        Some(v) => v,
        None => match from_device {
            Some(v) => v,
            None => SettingValue::Other("null".to_string()),
        },
    }
}

// ---------------------------------------------------------------------------
// Laws.

/// Every tool in the map has settings that are a nonempty object.
pub open spec fn tools_all_nonempty(t: ToolsMap) -> bool {
    forall|o: Seq<char>| #[trigger] t.contains_key(o) ==> (t[o] is Ok && nonempty(t[o]->Ok_0))
}

/// Merging the device part and the space part of tool settings gives them back.
proof fn lemma_tools_round_trip(t: ToolsMap)
    requires
        tools_all_nonempty(t),
    ensures
        overlay_tools(device_tools(t), space_tools(t)) == t,
{
    let r = overlay_tools(device_tools(t), space_tools(t));
    assert forall|o: Seq<char>| #[trigger] r.contains_key(o) == t.contains_key(o) by {
        if t.contains_key(o) {
            let m = t[o]->Ok_0;
            let k = choose|k: Seq<char>| m.contains_key(k);
            if device_tool_keys(o).contains(k) {
                assert(meets(m, device_tool_keys(o)));
            } else {
                assert(escapes(m, device_tool_keys(o)));
            }
        }
    }
    assert forall|o: Seq<char>| #[trigger] r.contains_key(o) implies r[o] == t[o] by {
        let m = t[o]->Ok_0;
        let dk = device_tool_keys(o);
        if meets(m, dk) && escapes(m, dk) {
            assert(m.restrict(dk).union_prefer_right(m.remove_keys(dk)) =~= m);
        } else if meets(m, dk) {
            assert(m.restrict(dk) =~= m);
        } else {
            assert(m.remove_keys(dk) =~= m);
        }
    }
    assert(r =~= t);
}

/// A patch split by scope and merged back is the patch: every key lands on
/// exactly one side and each tool's settings are split key by key. (A tool
/// whose settings are an empty object, or an empty `tools` object, is
/// dropped by the split and so not given back.)
pub proof fn split_then_merge_restores_patch(
    p: Map<Seq<char>, Result<ToolsMap, Seq<char>>>,
    reserved: Seq<Seq<char>>,
)
    requires
        p.contains_key(TOOLS_KEY@) ==> p[TOOLS_KEY@] is Ok && nonempty(p[TOOLS_KEY@]->Ok_0) && tools_all_nonempty(
            p[TOOLS_KEY@]->Ok_0,
        ),
    ensures
        overlay_layer(device_layer(p, reserved), space_layer(p, reserved)) == p,
{
    let d = device_layer(p, reserved);
    let s = space_layer(p, reserved);
    let r = overlay_layer(d, s);
    if p.contains_key(TOOLS_KEY@) {
        let t = p[TOOLS_KEY@]->Ok_0;
        lemma_tools_round_trip(t);
        assert(tools_of(d) =~= device_tools(t));
        assert(tools_of(s) =~= space_tools(t));
        let o = choose|o: Seq<char>| t.contains_key(o);
        assert(overlay_tools(tools_of(d), tools_of(s)).contains_key(o));
        assert(r =~= p);
    } else {
        assert(tools_of(d) =~= Map::empty());
        assert(tools_of(s) =~= Map::empty());
        assert(overlay_tools(Map::<Seq<char>, Result<Map<Seq<char>, Seq<char>>, Seq<char>>>::empty(), Map::empty()) =~= Map::empty());
        assert(r =~= p);
    }
}

/// Splitting keeps scopes apart: the space side holds no device key and no
/// device tool key, the device side holds nothing else.
pub proof fn split_keeps_scopes_apart(p: Map<Seq<char>, Result<ToolsMap, Seq<char>>>, reserved: Seq<Seq<char>>, key: Seq<char>)
    requires
        key != TOOLS_KEY@,
    ensures
        space_layer(p, reserved).contains_key(key) ==> !device_key(key, reserved),
        device_layer(p, reserved).contains_key(key) ==> device_key(key, reserved),
        space_layer(p, reserved).contains_key(TOOLS_KEY@) ==> forall|o: Seq<char>, k: Seq<char>|
            tools_of(space_layer(p, reserved)).contains_key(o) && #[trigger] (tools_of(space_layer(p, reserved))[o]->Ok_0).contains_key(k)
                ==> !device_tool_key(o, k),
        device_layer(p, reserved).contains_key(TOOLS_KEY@) ==> forall|o: Seq<char>, k: Seq<char>|
            tools_of(device_layer(p, reserved)).contains_key(o) && #[trigger] (tools_of(device_layer(p, reserved))[o]->Ok_0).contains_key(k)
                ==> device_tool_key(o, k),
{
}

/// Reading a space-level key gives what the merged view shows for it.
pub proof fn read_agrees_with_merged_view(
    d: Map<Seq<char>, Result<ToolsMap, Seq<char>>>,
    s: Map<Seq<char>, Result<ToolsMap, Seq<char>>>,
    key: Seq<char>,
    reserved: Seq<Seq<char>>,
)
    requires
        key != TOOLS_KEY@,
        !device_key(key, reserved),
        d.contains_key(key) || s.contains_key(key),
    ensures
        overlay_layer(d, s).contains_key(key),
        read_spec(d, s, key, reserved) == overlay_layer(d, s)[key],
{
}

} // verus!
