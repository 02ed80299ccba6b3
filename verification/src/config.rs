//! The settings of the user, and whether the chosen vault can be used.

use vstd::prelude::*;

use crate::number::{law_nothing_else_is_a_number, number_of, parse_u32};
use crate::text::{
    chars_of, concat, law_join_of_one_piece, law_join_puts_separators_between,
    law_join_undoes_split, lemma_split_on_append, lemma_split_on_none, split, split_on, texts,
};
use crate::todo::value::valid_clock;

verus! {

/// The version of the settings.
pub const CURRENT_VERSION: u32 = 1;

/// The settings of the user.
#[derive(Debug, Clone, PartialEq, Eq)]
pub struct Config {
    /// The vault; nothing, where none was chosen yet.
    pub vault_path: Option<String>,
    pub version: u32,
    /// When to remind where only a day is given, as `HH:MM`.
    pub default_reminder_time: String,
}

pub struct ConfigView {
    pub vault_path: Option<Seq<char>>,
    pub version: int,
    pub default_reminder_time: Seq<char>,
}

impl View for Config {
    type V = ConfigView;

    open spec fn view(&self) -> ConfigView {
        ConfigView {
            vault_path: match self.vault_path {
                Some(p) => Some(p@),
                None => None,
            },
            version: self.version as int,
            default_reminder_time: self.default_reminder_time@,
        }
    }
}

/// The settings for a vault, with everything else as it is at first.
pub open spec fn settings_for(vault_path: Option<Seq<char>>) -> ConfigView {
    ConfigView { vault_path, version: 1, default_reminder_time: "09:00"@ }
}

/// The version that settings without one have.
pub fn default_version() -> (r: u32)
    ensures
        r == 1,
{
    CURRENT_VERSION
}

/// The time of day that settings without one have.
pub fn default_reminder_time() -> (r: String)
    ensures
        r@ == "09:00"@,
{
    "09:00".to_string()
}

impl Default for Config {
    fn default() -> (r: Config)
        ensures
            r@ == settings_for(None),
    {
        Config {
            vault_path: None,
            version: default_version(),
            default_reminder_time: default_reminder_time(),
        }
    }
}

/// Whether the vault can be used.
#[derive(Debug, Clone, PartialEq, Eq)]
pub enum VaultStatus {
    /// It can.
    Ready(String),
    /// None was chosen.
    NotChosen,
    /// The directory is not there.
    Missing(String),
    /// The directory is there, and cannot be written to.
    NotWritable(String),
}

pub enum StatusView {
    Ready(Seq<char>),
    NotChosen,
    Missing(Seq<char>),
    NotWritable(Seq<char>),
}

impl View for VaultStatus {
    type V = StatusView;

    open spec fn view(&self) -> StatusView {
        match self {
            VaultStatus::Ready(p) => StatusView::Ready(p@),
            VaultStatus::NotChosen => StatusView::NotChosen,
            VaultStatus::Missing(p) => StatusView::Missing(p@),
            VaultStatus::NotWritable(p) => StatusView::NotWritable(p@),
        }
    }
}

impl StatusView {
    /// Why the vault cannot be used.
    pub open spec fn reason(self) -> Option<Seq<char>> {
        match self {
            StatusView::Ready(_) => None,
            StatusView::NotChosen => Some("还没有选择笔记存放位置"@),
            StatusView::Missing(p) => Some("上次使用的笔记目录已不存在："@ + p),
            StatusView::NotWritable(p) => Some("笔记目录没有写入权限："@ + p),
        }
    }
}

impl VaultStatus {
    /// The vault, where it can be used.
    pub fn ready_path(&self) -> (r: Option<&String>)
        ensures
            match r {
                Some(p) => self@ == StatusView::Ready(p@),
                None => !(self@ is Ready),
            },
    {
        match self {
            VaultStatus::Ready(p) => Some(p),
            _ => None,
        }
    }

    /// Why the vault cannot be used.
    pub fn reason(&self) -> (r: Option<String>)
        ensures
            match r {
                Some(m) => self@.reason() == Some(m@),
                None => self@.reason() is None,
            },
    {
        match self {
            VaultStatus::Ready(_) => None,
            VaultStatus::NotChosen => Some("还没有选择笔记存放位置".to_string()),
            VaultStatus::Missing(p) => Some(concat("上次使用的笔记目录已不存在：", p.as_str())),
            VaultStatus::NotWritable(p) => Some(concat("笔记目录没有写入权限：", p.as_str())),
        }
    }

    /// The status of a vault after its database could not be opened: one that can be used
    /// cannot be any more.
    pub fn without_database(self) -> (r: VaultStatus)
        ensures
            r@ == (match self@ {
                StatusView::Ready(p) => StatusView::NotWritable(p),
                other => other,
            }),
    {
        match self {
            VaultStatus::Ready(p) => VaultStatus::NotWritable(p),
            other => other,
        }
    }
}

/// A vault can be used exactly where there is no reason why not.
pub proof fn law_reason_or_ready(s: StatusView)
    ensures
        s is Ready <==> s.reason() is None,
{
}

/// What was found where the settings are kept.
#[derive(Debug)]
pub enum Loaded {
    /// There is no place for settings.
    NoPlace,
    /// There are none.
    Missing,
    /// They could not be read.
    Unreadable,
    /// They make no sense.
    Corrupt,
    /// These.
    Parsed(Config),
}

pub enum LoadedView {
    NoPlace,
    Missing,
    Unreadable,
    Corrupt,
    Parsed(ConfigView),
}

impl View for Loaded {
    type V = LoadedView;

    open spec fn view(&self) -> LoadedView {
        match self {
            Loaded::NoPlace => LoadedView::NoPlace,
            Loaded::Missing => LoadedView::Missing,
            Loaded::Unreadable => LoadedView::Unreadable,
            Loaded::Corrupt => LoadedView::Corrupt,
            Loaded::Parsed(c) => LoadedView::Parsed(c@),
        }
    }
}

/// The time of day that a setting writes as hours and minutes, with or without zeros in
/// front.
pub open spec fn setting_time_of(s: Seq<char>) -> Option<(u32, u32)> {
    let parts = split_on(s, ':');
    if parts.len() != 2 {
        None
    } else {
        match (number_of(parts[0]), number_of(parts[1])) {
            (Some(hour), Some(minute)) => if valid_clock(hour, minute) {
                Some((hour, minute))
            } else {
                None
            },
            _ => None,
        }
    }
}

/// The time of day that a setting writes, or nine o'clock.
pub open spec fn time_or_nine(text: Seq<char>) -> (u32, u32) {
    match setting_time_of(text) {
        Some(t) => t,
        None => (9, 0),
    }
}

/// The status of a vault, from whether its directory is there and whether it can be
/// written to.
pub open spec fn status_of(vault_path: Option<Seq<char>>, is_dir: bool, writable: bool) -> StatusView {
    match vault_path {
        None => StatusView::NotChosen,
        Some(p) => if !is_dir {
            StatusView::Missing(p)
        } else if writable {
            StatusView::Ready(p)
        } else {
            StatusView::NotWritable(p)
        },
    }
}

impl Config {
    /// The settings to start with, and whether what was found is to be set aside: settings
    /// that make no sense are kept for the user, and never stop the start.
    pub fn load(found: Loaded) -> (r: (Config, bool))
        ensures
            r.0@ == (match found@ {
                LoadedView::Parsed(c) => c,
                _ => settings_for(None),
            }),
            r.1 == (found@ is Corrupt),
    {
        match found {
            Loaded::Parsed(c) => (c, false),
            Loaded::Corrupt => (Config::default(), true),
            _ => (Config::default(), false),
        }
    }

    /// The settings after a vault was chosen.
    pub fn for_vault(path: &str) -> (r: Config)
        ensures
            r@ == settings_for(Some(path@)),
    {
        Config {
            vault_path: Some(path.to_string()),
            version: default_version(),
            default_reminder_time: default_reminder_time(),
        }
    }

    /// Whether the vault can be used. A directory that is not there is never made: it may
    /// be on a disk that is not connected.
    pub fn vault_status(&self, is_dir: bool, writable: bool) -> (r: VaultStatus)
        ensures
            r@ == status_of(self@.vault_path, is_dir, writable),
    {
        match &self.vault_path {
            None => VaultStatus::NotChosen,
            Some(path) => {
                if !is_dir {
                    VaultStatus::Missing(path.clone())
                } else if writable {
                    VaultStatus::Ready(path.clone())
                } else {
                    VaultStatus::NotWritable(path.clone())
                }
            },
        }
    }

    /// When to remind where only a day is given, in hours and minutes.
    pub fn parse_default_reminder_time(&self) -> (r: (u32, u32))
        ensures
            r == time_or_nine(self@.default_reminder_time),
    {
        let chars: Vec<char> = chars_of(self.default_reminder_time.as_str());
        let parts: Vec<Vec<char>> = split(chars.as_slice(), ':');
        if parts.len() != 2 {
            return (9, 0);
        }
        assert(texts(parts@)[0] == parts[0]@);
        assert(texts(parts@)[1] == parts[1]@);
        let hour: u32 = match parse_u32(parts[0].as_slice()) {
            Some(n) => n,
            None => return (9, 0),
        };
        let minute: u32 = match parse_u32(parts[1].as_slice()) {
            Some(n) => n,
            None => return (9, 0),
        };
        if hour > 23 || minute > 59 {
            return (9, 0);
        }
        (hour, minute)
    }
}

/// Which status a vault has: none where none was chosen; else missing, where its directory is
/// not there, and ready exactly where it is there and can be written to.
pub proof fn law_status_of_a_vault(p: Seq<char>, is_dir: bool, writable: bool)
    ensures
        status_of(None, is_dir, writable) is NotChosen,
        status_of(Some(p), is_dir, writable) == StatusView::Ready(p) <==> is_dir && writable,
        status_of(Some(p), is_dir, writable) == StatusView::Missing(p) <==> !is_dir,
        status_of(Some(p), is_dir, writable) == StatusView::NotWritable(p) <==> is_dir
            && !writable,
{
}

/// What the user is told of a vault that cannot be used: which of the three it is, and where
/// the vault is.
pub proof fn law_reasons_of_statuses(p: Seq<char>)
    ensures
        StatusView::Ready(p).reason() is None,
        StatusView::NotChosen.reason() == Some("还没有选择笔记存放位置"@),
        StatusView::Missing(p).reason() == Some("上次使用的笔记目录已不存在："@ + p),
        StatusView::NotWritable(p).reason() == Some("笔记目录没有写入权限："@ + p),
{
}

/// Settings are those of the first version for the given vault, with nine o'clock.
pub proof fn law_settings_at_first(vault_path: Option<Seq<char>>)
    ensures
        settings_for(vault_path).vault_path == vault_path,
        settings_for(vault_path).version == 1,
        settings_for(vault_path).default_reminder_time == "09:00"@,
{
}

/// Two numbers with a colon between them are hours and minutes, where a day has such a time;
/// else it is nine o'clock.
pub proof fn law_time_is_read(a: Seq<char>, b: Seq<char>, hour: u32, minute: u32)
    requires
        number_of(a) == Some(hour),
        number_of(b) == Some(minute),
    ensures
        time_or_nine(a.push(':') + b) == (if hour < 24 && minute < 60 {
            (hour, minute)
        } else {
            (9u32, 0u32)
        }),
{
    law_nothing_else_is_a_number(a);
    law_nothing_else_is_a_number(b);
    assert(!a.contains(':'));
    assert(!b.contains(':'));
    lemma_split_on_none(a, ':');
    lemma_split_on_append(a, ':', b);
    let parts = split_on(a.push(':') + b, ':');
    assert(parts =~= seq![a, b]);
}

/// Another time than nine o'clock comes of nothing else.
pub proof fn law_no_other_time_is_read(s: Seq<char>)
    requires
        time_or_nine(s) != (9u32, 0u32),
    ensures
        exists|a: Seq<char>, b: Seq<char>|
            s == #[trigger] (a.push(':') + b) && number_of(a) == Some(time_or_nine(s).0)
                && number_of(b) == Some(time_or_nine(s).1),
{
    let parts = split_on(s, ':');
    let a = parts[0];
    let b = parts[1];
    law_join_undoes_split(s, ':');
    law_join_puts_separators_between(seq![a], seq![b], ':');
    assert(parts =~= seq![a] + seq![b]);
    law_join_of_one_piece(a, ':');
    law_join_of_one_piece(b, ':');
    assert(s == a.push(':') + b);
}

} // verus!
