//! The layout of a vault.

use vstd::prelude::*;

use crate::actor::path::{names_of, VaultPath, VaultPathView};
use crate::text::{
    chars_of, law_split_parts_at_a_separator, lemma_split_on_append, lemma_split_on_none, push_text,
    same_text, split, split_on, starts_with, string_from, texts, trim, trimmed,
};

verus! {

/// The directory of what can be thrown away.
pub const STATE_DIR: &'static str = ".noteidea";

/// The database, in the directory of what can be thrown away.
pub const DB_FILE: &'static str = "local.db";

/// The file that quick notes go to.
pub const INBOX: &'static str = "inbox.md";

/// The directory of attachments.
pub const ASSETS: &'static str = "assets";

/// A file of a vault with one name.
pub open spec fn directly_in(vault: Seq<char>, name: Seq<char>) -> VaultPathView {
    VaultPathView { root: vault, below: seq![name] }
}

fn below(vault: &str, name: &str) -> (r: VaultPath)
    ensures
        r@ == directly_in(vault@, name@),
{
    let mut names: Vec<String> = Vec::new();
    names.push(name.to_string());
    assert(names_of(names@) =~= seq![name@]);
    VaultPath { root: vault.to_string(), below: names }
}

/// The directory of what can be thrown away.
pub fn state_dir(vault: &str) -> (r: VaultPath)
    ensures
        r@ == directly_in(vault@, ".noteidea"@),
{
    below(vault, STATE_DIR)
}

/// The database of a vault.
pub fn db_path(vault: &str) -> (r: VaultPath)
    ensures
        r@ == (VaultPathView { root: vault@, below: seq![".noteidea"@, "local.db"@] }),
{
    let mut path: VaultPath = state_dir(vault);
    let ghost before = path.below@;
    path.below.push(DB_FILE.to_string());
    assert(names_of(path.below@) =~= names_of(before).push("local.db"@));
    assert(names_of(path.below@) =~= seq![".noteidea"@, "local.db"@]);
    path
}

/// The file that quick notes go to.
pub fn inbox_path(vault: &str) -> (r: VaultPath)
    ensures
        r@ == directly_in(vault@, "inbox.md"@),
{
    below(vault, INBOX)
}

/// The directory of attachments.
pub fn assets_dir(vault: &str) -> (r: VaultPath)
    ensures
        r@ == directly_in(vault@, "assets"@),
{
    below(vault, ASSETS)
}

// ---------- What git leaves alone ----------

/// Whether a line has git leave the directory alone of what can be thrown away.
pub open spec fn ignores_state(line: Seq<char>) -> bool {
    let t = trim(line);
    t == ".noteidea/"@ || t == ".noteidea"@ || t == "/.noteidea/"@ || t == "/.noteidea"@
}

/// Whether one of the lines does.
pub open spec fn state_is_ignored(content: Seq<char>) -> bool {
    exists|k: int|
        0 <= k < split_on(content, '\n').len() && ignores_state(
            #[trigger] split_on(content, '\n')[k],
        )
}

/// The lines, with one more that does.
pub open spec fn with_state_ignored(content: Seq<char>) -> Seq<char> {
    let whole_lines = if content.len() > 0 && content.last() != '\n' {
        content.push('\n')
    } else {
        content
    };
    whole_lines + ".noteidea/"@ + seq!['\n']
}

fn line_ignores_state(line: &[char]) -> (r: bool)
    ensures
        r == ignores_state(line@),
{
    let t: &[char] = trimmed(line);
    same_text(t, ".noteidea/") || same_text(t, ".noteidea") || same_text(t, "/.noteidea/")
        || same_text(t, "/.noteidea")
}

/// What `.gitignore` is to hold, so that git leaves the directory alone of what can be
/// thrown away; nothing, where it may stay as it is.
pub fn ensure_gitignore(existing: &str) -> (r: Option<String>)
    ensures
        match r {
            Some(out) => !state_is_ignored(existing@) && out@ == with_state_ignored(existing@),
            None => state_is_ignored(existing@),
        },
{
    let mut out: Vec<char> = chars_of(existing);
    let lines: Vec<Vec<char>> = split(out.as_slice(), '\n');
    let mut k: usize = 0;
    while k < lines.len()
        invariant
            k <= lines.len(),
            texts(lines@) == split_on(existing@, '\n'),
            forall|j: int| 0 <= j < k ==> !ignores_state(#[trigger] split_on(existing@, '\n')[j]),
        decreases lines.len() - k,
    {
        assert(split_on(existing@, '\n')[k as int] == lines[k as int]@);
        if line_ignores_state(lines[k].as_slice()) {
            return None;
        }
        k = k + 1;
    }
    if out.len() > 0 && out[out.len() - 1] != '\n' {
        out.push('\n');
    }
    push_text(&mut out, ".noteidea/");
    out.push('\n');
    assert(out@ =~= with_state_ignored(existing@));
    Some(string_from(out.as_slice()))
}

/// The user's own lines stay as they are.
pub proof fn law_own_lines_stay(content: Seq<char>)
    ensures
        starts_with(with_state_ignored(content), content),
{
    assert(with_state_ignored(content).take(content.len() as int) =~= content);
}

/// After one change no other is needed.
pub proof fn law_ignoring_once_is_enough(content: Seq<char>)
    ensures
        state_is_ignored(with_state_ignored(content)),
{
    reveal_strlit(".noteidea/");
    let entry = ".noteidea/"@;
    let out = with_state_ignored(content);
    let whole_lines = if content.len() > 0 && content.last() != '\n' {
        content.push('\n')
    } else {
        content
    };
    let body = whole_lines + entry;
    assert(out =~= body.push('\n') + Seq::<char>::empty());
    lemma_split_on_append(body, '\n', Seq::empty());
    assert(!entry.contains('\n'));
    if whole_lines.len() > 0 {
        let before = whole_lines.drop_last();
        assert(body =~= before.push('\n') + entry);
        lemma_split_on_append(before, '\n', entry);
    } else {
        assert(body =~= entry);
        lemma_split_on_none(entry, '\n');
    }
    let pieces = split_on(body, '\n');
    let k = pieces.len() - 1;
    assert(pieces[k] == entry);
    assert(split_on(out, '\n')[k] == entry);
    lemma_entry_is_trimmed();
}

proof fn lemma_entry_is_trimmed()
    ensures
        trim(".noteidea/"@) == ".noteidea/"@,
{
    reveal_strlit(".noteidea/");
    let e = ".noteidea/"@;
    assert(e.skip(0) =~= e);
    assert(e.take(e.len() as int) =~= e);
}

/// A line feed parts the lines: git leaves the directory alone where one of the two sides has
/// it do so, and a line does where it names the directory, with or without a slash at either
/// end and with white space around it.
pub proof fn law_one_line_is_enough(a: Seq<char>, b: Seq<char>, line: Seq<char>)
    requires
        !line.contains('\n'),
    ensures
        state_is_ignored(a.push('\n') + b) <==> state_is_ignored(a) || state_is_ignored(b),
        state_is_ignored(line) <==> trim(line) == ".noteidea"@ || trim(line) == ".noteidea/"@
            || trim(line) == "/.noteidea"@ || trim(line) == "/.noteidea/"@,
{
    law_split_parts_at_a_separator(a, b, '\n');
    lemma_split_on_none(line, '\n');
    let all = split_on(a.push('\n') + b, '\n');
    let left = split_on(a, '\n');
    let right = split_on(b, '\n');
    if state_is_ignored(a.push('\n') + b) {
        let k = choose|k: int| 0 <= k < all.len() && ignores_state(#[trigger] all[k]);
        if k < left.len() {
            assert(left[k] == all[k]);
        } else {
            assert(right[k - left.len()] == all[k]);
        }
    }
    if state_is_ignored(a) {
        let k = choose|k: int| 0 <= k < left.len() && ignores_state(#[trigger] left[k]);
        assert(left[k] == all[k]);
    }
    if state_is_ignored(b) {
        let k = choose|k: int| 0 <= k < right.len() && ignores_state(#[trigger] right[k]);
        assert(right[k] == all[k + left.len()]);
    }
    assert(split_on(line, '\n')[0] == line);
}

/// What is added is one line, behind a line feed only where the last line was not ended.
pub proof fn law_one_line_is_added(content: Seq<char>, last: char)
    ensures
        with_state_ignored(Seq::empty()) == ".noteidea/\n"@,
        with_state_ignored(content.push(last)) == (if last == '\n' {
            content.push(last) + ".noteidea/\n"@
        } else {
            content.push(last).push('\n') + ".noteidea/\n"@
        }),
{
    reveal_strlit(".noteidea/");
    reveal_strlit(".noteidea/\n");
    let entry = ".noteidea/"@ + seq!['\n'];
    assert(entry =~= ".noteidea/\n"@);
    assert(Seq::<char>::empty() + ".noteidea/"@ + seq!['\n'] =~= entry);
    let s = content.push(last);
    assert(s + ".noteidea/"@ + seq!['\n'] =~= s + entry);
    assert(s.push('\n') + ".noteidea/"@ + seq!['\n'] =~= s.push('\n') + entry);
}

} // verus!
