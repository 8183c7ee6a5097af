//! Continuing an installation made under the previous application id: its
//! bootstrap settings are adopted in place. Nothing is moved or deleted, an
//! existing current configuration is never overwritten, and the old default
//! storage root is written down explicitly so that existing spaces, ciphertext
//! and custom roots stay where they are.
//!
//! The caller looks at the files in order (current settings, old settings,
//! old `spaces` directory) and hands the observation to [`adoption`].

use vstd::prelude::*;

use crate::paths::{resolve_root, root_choice};
use crate::text::{concat2, owned};

verus! {

/// Application id of the released versions; used only to find an old installation.
pub const LEGACY_APP_ID: &'static str = "com.patchy23.patchybox";

/// Staging prefix of the released versions; only for reading or cleaning old staging directories.
pub const LEGACY_STAGING_PREFIX: &'static str = ".patchybox-staging-";

/// Bootstrap settings file, in the application directory.
pub const SETTINGS_FILE: &'static str = "settings.json";

/// What was found of the bootstrap settings, looked at in this order.
#[derive(Debug, PartialEq, Eq)]
pub enum LegacyBootstrap {
    /// The current installation already has its settings file.
    CurrentExists,
    /// The old installation has no settings file; whether it has a `spaces` directory.
    Missing { spaces_exist: bool },
    /// The old settings file could not be read (the error text).
    ReadFailed(String),
    /// The old settings file does not parse (the error text).
    Corrupt(String),
    /// The old settings parse. `app` is `None` when they have no `app`
    /// object, else the `storageRoot` written there when it is a string.
    Parsed { app: Option<Option<String>> },
}

/// What to do about the old installation.
#[derive(Debug, PartialEq, Eq)]
pub enum Adoption {
    /// Nothing to adopt (or the current settings already exist): leave everything alone.
    Skip,
    /// Stop with this error and leave every file as it is.
    Fail(String),
    /// Write the old settings as the current ones, with `app.storageRoot` set to this root.
    Write { storage_root: String },
}

/// The report when old spaces exist without their settings file.
pub open spec fn spaces_without_settings_message() -> Seq<char> {
    "发现旧数据空间但缺少 settings.json，已停止接续以保留现场"@
}

/// The report when the old settings have no `app` object.
pub open spec fn missing_app_message() -> Seq<char> {
    "旧安装自举缺少 app 对象"@
}

/// The configured root of the old settings, empty when absent.
pub open spec fn configured_text(configured: Option<String>) -> Seq<char> {
    match configured {
        Some(c) => c@,
        None => Seq::empty(),
    }
}

/// Decides the adoption from what was found; `legacy_root` is the old
/// application directory, the default root of the old installation.
pub fn adoption(found: &LegacyBootstrap, legacy_root: &str) -> (r: Adoption)
    ensures
        match *found {
            LegacyBootstrap::CurrentExists => r is Skip,
            LegacyBootstrap::Missing { spaces_exist } => if spaces_exist {
                r matches Adoption::Fail(m) && m@ == spaces_without_settings_message()
            } else {
                r is Skip
            },
            LegacyBootstrap::ReadFailed(e) => r matches Adoption::Fail(m) && m@ == "读取旧安装自举失败："@ + e@,
            LegacyBootstrap::Corrupt(e) => r matches Adoption::Fail(m) && m@ == "旧安装自举损坏："@ + e@,
            LegacyBootstrap::Parsed { app } => match app {
                None => r matches Adoption::Fail(m) && m@ == missing_app_message(),
                Some(configured) => r matches Adoption::Write { storage_root } && exists|absolute: bool|
                    storage_root@ == #[trigger] root_choice(configured_text(configured), legacy_root@, absolute),
            },
        },
{
    match found {
        LegacyBootstrap::CurrentExists => Adoption::Skip,
        LegacyBootstrap::Missing { spaces_exist } => {
            if *spaces_exist {
                let m = owned("发现旧数据空间但缺少 settings.json，已停止接续以保留现场");
                proof {
                    reveal_strlit("发现旧数据空间但缺少 settings.json，已停止接续以保留现场");
                }
                Adoption::Fail(m)
            } else {
                Adoption::Skip
            }
        },
        LegacyBootstrap::ReadFailed(e) => {
            let m = concat2("读取旧安装自举失败：", e.as_str());
            proof {
                reveal_strlit("读取旧安装自举失败：");
            }
            Adoption::Fail(m)
        },
        LegacyBootstrap::Corrupt(e) => {
            let m = concat2("旧安装自举损坏：", e.as_str());
            proof {
                reveal_strlit("旧安装自举损坏：");
            }
            Adoption::Fail(m)
        },
        LegacyBootstrap::Parsed { app } => match app {
            None => {
                let m = owned("旧安装自举缺少 app 对象");
                proof {
                    reveal_strlit("旧安装自举缺少 app 对象");
                }
                Adoption::Fail(m)
            },
            Some(configured) => {
                proof {
                    reveal_strlit("");
                }
                let root = match configured {
                    Some(c) => {
                        let root = resolve_root(c.as_str(), legacy_root);
                        proof {
                            let a = choose|a: bool| root@ == root_choice(c@, legacy_root@, a);
                            assert(root@ == root_choice(configured_text(*configured), legacy_root@, a));
                        }
                        root
                    },
                    None => {
                        let root = resolve_root("", legacy_root);
                        proof {
                            let a = choose|a: bool| root@ == root_choice(""@, legacy_root@, a);
                            assert(""@ =~= Seq::<char>::empty());
                            assert(root@ == root_choice(configured_text(*configured), legacy_root@, a));
                        }
                        root
                    },
                };
                Adoption::Write { storage_root: root }
            },
        },
    }
}

} // verus!
