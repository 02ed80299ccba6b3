//! The window for quick notes, and how long it takes to come up.

use vstd::prelude::*;

verus! {

/// The window for quick notes.
pub const QUICK: &'static str = "quick";

/// The main window.
pub const MAIN: &'static str = "main";

/// The measurements of how long the window for quick notes takes to come up.
#[derive(Debug)]
pub struct Timing {
    /// When it was last called up, in nanoseconds; nothing, once that was measured.
    pub pending: Option<u64>,
    /// How long it took each time, in milliseconds.
    pub samples: Vec<u64>,
}

/// The whole milliseconds between two moments in nanoseconds; none, where the second comes
/// before the first.
pub open spec fn elapsed_ms(from: u64, to: u64) -> u64 {
    if to >= from {
        ((to - from) / 1_000_000) as u64
    } else {
        0
    }
}

impl Default for Timing {
    fn default() -> (r: Timing)
        ensures
            r.pending is None,
            r.samples.len() == 0,
    {
        Timing { pending: None, samples: Vec::new() }
    }
}

impl Timing {
    /// Notes that the window was called up. Gives back whether an earlier call was not
    /// measured, and now is not going to be.
    pub fn begin(&mut self, started: u64) -> (overtaken: bool)
        ensures
            overtaken == old(self).pending is Some,
            final(self).pending == Some(started),
            final(self).samples == old(self).samples,
    {
        let overtaken: bool = self.pending.is_some();
        self.pending = Some(started);
        overtaken
    }

    /// Notes that the window has the focus. Gives back how long it took since it was called
    /// up; nothing, where that was measured before.
    pub fn mark_ready(&mut self, now: u64) -> (r: Option<u64>)
        ensures
            final(self).pending is None,
            match old(self).pending {
                Some(started) => r == Some(elapsed_ms(started, now)) && final(self).samples@
                    == old(self).samples@.push(elapsed_ms(started, now)),
                None => r is None && final(self).samples == old(self).samples,
            },
    {
        let started: u64 = match self.pending {
            Some(started) => started,
            None => {
                return None;
            },
        };
        self.pending = None;
        let ms: u64 = if now >= started {
            (now - started) / 1_000_000
        } else {
            0
        };
        self.samples.push(ms);
        Some(ms)
    }

    /// How long it took each time.
    pub fn timings(&self) -> (r: Vec<u64>)
        ensures
            r@ == self.samples@,
    {
        let mut r: Vec<u64> = Vec::new();
        let mut i: usize = 0;
        while i < self.samples.len()
            invariant
                i <= self.samples.len(),
                r@ == self.samples@.take(i as int),
            decreases self.samples.len() - i,
        {
            r.push(self.samples[i]);
            i = i + 1;
        }
        assert(self.samples@.take(i as int) =~= self.samples@);
        r
    }
}

/// What happens when the window for quick notes is called up.
#[derive(Debug, Clone, Copy, PartialEq, Eq, Structural)]
pub enum QuickAction {
    /// Nothing: there is no window.
    Nothing,
    /// It is shown already, and goes.
    Hide,
    /// It is shown, and the time is taken.
    Show,
}

/// What happens when the window for quick notes is called up. `visible` says whether it is
/// shown, if that can be told.
pub fn show_quick(exists: bool, visible: Option<bool>) -> (r: QuickAction)
    ensures
        r == (if !exists {
            QuickAction::Nothing
        } else if visible == Some(true) {
            QuickAction::Hide
        } else {
            QuickAction::Show
        }),
{
    if !exists {
        return QuickAction::Nothing;
    }
    match visible {
        Some(true) => QuickAction::Hide,
        _ => QuickAction::Show,
    }
}

/// The keys that could not be had, as the user is told.
#[derive(Debug)]
pub struct HotkeyFailures(pub Vec<String>);

/// The texts that a vector of strings holds.
pub open spec fn labels_of(v: Seq<String>) -> Seq<Seq<char>> {
    v.map_values(|s: String| s@)
}

/// What the user is told of keys that could not be had.
pub open spec fn failed_keys(plugin: bool, quick: bool, main: bool) -> Seq<Seq<char>> {
    if !plugin {
        seq!["插件初始化失败"@]
    } else {
        (if quick {
            Seq::<Seq<char>>::empty()
        } else {
            seq!["Alt+Space（速记条）"@]
        }) + (if main {
            Seq::<Seq<char>>::empty()
        } else {
            seq!["Alt+N（主窗口）"@]
        })
    }
}

impl HotkeyFailures {
    /// The keys that could not be had, from whether keys can be had at all and whether the
    /// one for quick notes and the one for the main window were.
    pub fn of(plugin: bool, quick: bool, main: bool) -> (r: HotkeyFailures)
        ensures
            labels_of(r.0@) == failed_keys(plugin, quick, main),
    {
        let mut failed: Vec<String> = Vec::new();
        if !plugin {
            failed.push("插件初始化失败".to_string());
        } else {
            if !quick {
                failed.push("Alt+Space（速记条）".to_string());
            }
            if !main {
                failed.push("Alt+N（主窗口）".to_string());
            }
        }
        assert(labels_of(failed@) =~= failed_keys(plugin, quick, main));
        HotkeyFailures(failed)
    }
}

/// Milliseconds are counted when they are over, and none where the clock went back.
pub proof fn law_whole_milliseconds_count(from: u64, to: u64)
    ensures
        from <= to ==> elapsed_ms(from, to) * 1_000_000 <= to - from < (elapsed_ms(from, to) + 1)
            * 1_000_000,
        to < from ==> elapsed_ms(from, to) == 0,
{
}

/// The user is told of each key that could not be had and of no other, the one for quick notes
/// first; of no single key, where none could be had.
pub proof fn law_failed_keys_are_told(quick: bool, main: bool)
    ensures
        failed_keys(false, quick, main) == seq!["插件初始化失败"@],
        failed_keys(true, true, true).len() == 0,
        failed_keys(true, false, true) == seq!["Alt+Space（速记条）"@],
        failed_keys(true, true, false) == seq!["Alt+N（主窗口）"@],
        failed_keys(true, false, false) == seq!["Alt+Space（速记条）"@, "Alt+N（主窗口）"@],
{
    assert(failed_keys(true, false, true) =~= seq!["Alt+Space（速记条）"@]);
    assert(failed_keys(true, true, false) =~= seq!["Alt+N（主窗口）"@]);
    assert(failed_keys(true, false, false) =~= seq![
        "Alt+Space（速记条）"@,
        "Alt+N（主窗口）"@,
    ]);
}

} // verus!
