//! Paths below a vault: a request names a file by a relative path, which must not lead out
//! of the vault.

use vstd::prelude::*;

use crate::actor::change::{rejected_with, WriteError, WriteErrorView};
use crate::text::{
    lemma_split_on_append, lemma_split_on_len, lemma_split_on_none, lemma_split_on_pieces, split_on,
};

verus! {

/// A file or directory of a vault: the vault's own path, and the names that lead from it
/// to the file.
#[derive(Debug, Clone, PartialEq, Eq)]
pub struct VaultPath {
    pub root: String,
    pub below: Vec<String>,
}

pub struct VaultPathView {
    pub root: Seq<char>,
    pub below: Seq<Seq<char>>,
}

/// The names that a vector of names holds.
pub open spec fn names_of(v: Seq<String>) -> Seq<Seq<char>> {
    v.map_values(|s: String| s@)
}

impl View for VaultPath {
    type V = VaultPathView;

    open spec fn view(&self) -> VaultPathView {
        VaultPathView { root: self.root@, below: names_of(self.below@) }
    }
}

/// A part of a path.
#[derive(Debug, Clone, PartialEq, Eq)]
pub enum PathPart {
    /// What stands before the root on some systems, such as a drive.
    Prefix,
    /// The root of the file system.
    RootDir,
    /// The directory itself, `.`.
    CurDir,
    /// The directory above, `..`.
    ParentDir,
    /// A file or a directory with this name.
    Normal(String),
}

pub enum PartView {
    Prefix,
    RootDir,
    CurDir,
    ParentDir,
    Normal(Seq<char>),
}

impl View for PathPart {
    type V = PartView;

    open spec fn view(&self) -> PartView {
        match self {
            PathPart::Prefix => PartView::Prefix,
            PathPart::RootDir => PartView::RootDir,
            PathPart::CurDir => PartView::CurDir,
            PathPart::ParentDir => PartView::ParentDir,
            PathPart::Normal(name) => PartView::Normal(name@),
        }
    }
}

pub open spec fn part_views(v: Seq<PathPart>) -> Seq<PartView> {
    v.map_values(|p: PathPart| p@)
}

/// Whether a path may begin at a root, or with a drive, on some system: it begins with a
/// separator, or its second character is a colon.
pub open spec fn rooted(path: Seq<char>) -> bool {
    ||| path.len() > 0 && (path[0] == '/' || path[0] == '\\')
    ||| path.len() > 1 && path[1] == ':'
}

/// Whether a path means the same on every system: it does not begin at a root or with a
/// drive, and does not hold the separator that only some systems have.
pub open spec fn portable(path: Seq<char>) -> bool {
    !rooted(path) && !path.contains('\\')
}

/// The parts that the pieces between separators are. Empty pieces count for nothing, and
/// neither does `.` behind the first piece.
pub open spec fn parts_of(pieces: Seq<Seq<char>>) -> Seq<PartView>
    decreases pieces.len(),
{
    if pieces.len() == 0 {
        Seq::empty()
    } else {
        let before = parts_of(pieces.drop_last());
        let piece = pieces.last();
        if piece.len() == 0 {
            before
        } else if piece == seq!['.'] {
            if pieces.len() == 1 {
                before.push(PartView::CurDir)
            } else {
                before
            }
        } else if piece == seq!['.', '.'] {
            before.push(PartView::ParentDir)
        } else {
            before.push(PartView::Normal(piece))
        }
    }
}

/// Whether a name is that of a file or a directory within another one.
pub open spec fn proper_name(name: Seq<char>) -> bool {
    name.len() > 0 && name != seq!['.'] && name != seq!['.', '.']
}

/// A path with slashes in the place of its backslashes.
pub open spec fn slashed(path: Seq<char>) -> Seq<char> {
    path.map_values(
        |c: char|
            if c == '\\' {
                '/'
            } else {
                c
            },
    )
}

/// Whether a path may fall into these parts. It depends on the system whether `/` alone
/// separates them, or `\` as well. A path that begins with `/` begins with the root or with
/// a prefix, and so does one that begins with `\` or with a drive where these mean anything.
pub open spec fn may_fall_into(path: Seq<char>, parts: Seq<PartView>) -> bool {
    ||| rooted(path) && parts.len() > 0 && (parts[0] is RootDir || parts[0] is Prefix)
    ||| !(path.len() > 0 && path[0] == '/') && parts == parts_of(split_on(path, '/'))
    ||| !(path.len() > 0 && (path[0] == '/' || path[0] == '\\')) && parts == parts_of(
        split_on(slashed(path), '/'),
    )
}

/// Whether a path is absolute, by `std::path::Path::is_absolute`. What that is depends on
/// the system: on Unix a path is absolute that begins with the root, and on Windows one
/// with a prefix and the root. The contract claims that such a path begins with a separator,
/// or has a colon behind its first character, and nothing else.
#[verifier::external_body]
fn is_absolute(path: &str) -> (r: bool)
    ensures
        r ==> rooted(path@),
{
    std::path::Path::new(path).is_absolute()
}

/// The parts of a path, by `std::path::Path::components`. How a path falls into parts
/// depends on the system. The contract claims that they are those of one of the readings
/// on Unix and on Windows: the first part is the root or a prefix, where the path begins
/// with a separator or a drive; or the parts lie between the separators, `/` alone or `/`
/// and `\`, without empty ones and without `.` behind the first. Which of the readings it
/// is, and what follows a root or a prefix, is left unsaid.
#[verifier::external_body]
fn components(path: &str) -> (r: Vec<PathPart>)
    ensures
        may_fall_into(path@, part_views(r@)),
{
    std::path::Path::new(path)
        .components()
        .map(|c| match c {
            std::path::Component::Prefix(_) => PathPart::Prefix,
            std::path::Component::RootDir => PathPart::RootDir,
            std::path::Component::CurDir => PathPart::CurDir,
            std::path::Component::ParentDir => PathPart::ParentDir,
            std::path::Component::Normal(n) => PathPart::Normal(n.to_string_lossy().into_owned()),
        })
        .collect()
}

/// Why a path with this part is refused.
pub open spec fn objection(part: PartView) -> Option<Seq<char>> {
    match part {
        PartView::Normal(_) | PartView::CurDir => None,
        PartView::ParentDir => Some("路径不得包含 ..: "@),
        PartView::RootDir | PartView::Prefix => Some("非法路径: "@),
    }
}

/// Why a path with these parts is refused: for the first of them that gives a reason.
pub open spec fn first_objection(parts: Seq<PartView>) -> Option<Seq<char>>
    decreases parts.len(),
{
    if parts.len() == 0 {
        None
    } else {
        match first_objection(parts.drop_last()) {
            Some(m) => Some(m),
            None => objection(parts.last()),
        }
    }
}

/// The names among the parts of a path.
pub open spec fn part_names(parts: Seq<PartView>) -> Seq<Seq<char>>
    decreases parts.len(),
{
    if parts.len() == 0 {
        Seq::empty()
    } else {
        match parts.last() {
            PartView::Normal(name) => part_names(parts.drop_last()).push(name),
            _ => part_names(parts.drop_last()),
        }
    }
}

/// The file that a path below a vault means, or why the path is refused.
pub open spec fn placed_below(
    root: Seq<char>,
    path: Seq<char>,
    absolute: bool,
    parts: Seq<PartView>,
) -> Result<VaultPathView, WriteErrorView> {
    if absolute {
        Err(WriteErrorView::Rejected("只接受相对路径: "@ + path))
    } else {
        match first_objection(parts) {
            Some(m) => Err(WriteErrorView::Rejected(m + path)),
            None => Ok(VaultPathView { root, below: part_names(parts) }),
        }
    }
}

/// The file that a portable path below a vault means, or why the path is refused.
pub open spec fn resolved_portable(root: Seq<char>, path: Seq<char>) -> Result<
    VaultPathView,
    WriteErrorView,
> {
    placed_below(root, path, false, parts_of(split_on(path, '/')))
}

/// What a result of [`resolve`] holds.
pub open spec fn path_result(r: Result<VaultPath, WriteError>) -> Result<
    VaultPathView,
    WriteErrorView,
> {
    match r {
        Ok(p) => Ok(p@),
        Err(e) => Err(e@),
    }
}

proof fn lemma_objection_prefix(parts: Seq<PartView>, n: int)
    requires
        0 <= n <= parts.len(),
        first_objection(parts.take(n)) is Some,
    ensures
        first_objection(parts) == first_objection(parts.take(n)),
    decreases parts.len() - n,
{
    if n < parts.len() {
        assert(parts.take(n + 1).drop_last() =~= parts.take(n));
        lemma_objection_prefix(parts, n + 1);
    } else {
        assert(parts.take(n) =~= parts);
    }
}

/// Finds the file that a path below a vault means, from the parts of the path.
pub fn place_below(root: &str, path: &str, absolute: bool, parts: &[PathPart]) -> (r: Result<
    VaultPath,
    WriteError,
>)
    ensures
        path_result(r) == placed_below(root@, path@, absolute, part_views(parts@)),
{
    if absolute {
        return Err(rejected_with("只接受相对路径: ", path));
    }
    let ghost views = part_views(parts@);
    let mut below: Vec<String> = Vec::new();
    let mut i: usize = 0;
    assert(names_of(below@) =~= part_names(views.take(0)));
    while i < parts.len()
        invariant
            !absolute,
            i <= parts.len(),
            views == part_views(parts@),
            first_objection(views.take(i as int)) is None,
            names_of(below@) == part_names(views.take(i as int)),
        decreases parts.len() - i,
    {
        proof {
            assert(views.take(i + 1).drop_last() =~= views.take(i as int));
            assert(views.take(i + 1).last() == parts[i as int]@);
            if first_objection(views.take(i + 1)) is Some {
                lemma_objection_prefix(views, i + 1);
            }
        }
        match &parts[i] {
            PathPart::Normal(name) => {
                let ghost before = below@;
                below.push(name.clone());
                assert(names_of(below@) =~= names_of(before).push(name@));
            },
            PathPart::CurDir => {},
            PathPart::ParentDir => {
                return Err(rejected_with("路径不得包含 ..: ", path));
            },
            PathPart::RootDir => {
                return Err(rejected_with("非法路径: ", path));
            },
            PathPart::Prefix => {
                return Err(rejected_with("非法路径: ", path));
            },
        }
        i = i + 1;
    }
    assert(views.take(i as int) =~= views);
    Ok(VaultPath { root: root.to_string(), below })
}

/// Whether a path holds `..` between two of its slashes.
pub open spec fn leads_up(path: Seq<char>) -> bool {
    exists|k: int|
        0 <= k < split_on(path, '/').len() && #[trigger] split_on(path, '/')[k] == seq!['.', '.']
}

/// Whether names lead from a directory to something within it: each is that of a file or
/// directory, and none holds a separator.
pub open spec fn stay_below(names: Seq<Seq<char>>) -> bool {
    forall|i: int|
        0 <= i < names.len() ==> proper_name(#[trigger] names[i]) && !names[i].contains('/')
}

/// Whether this may come of a path below a vault. It depends on the system whether a path
/// counts as absolute, and into which parts it falls.
pub open spec fn may_resolve(
    root: Seq<char>,
    path: Seq<char>,
    r: Result<VaultPathView, WriteErrorView>,
) -> bool {
    exists|absolute: bool, parts: Seq<PartView>|
        (absolute ==> rooted(path)) && may_fall_into(path, parts) && r == #[trigger] placed_below(
            root,
            path,
            absolute,
            parts,
        )
}

/// Finds the file that a path below a vault means. It depends on the system into which
/// parts a path falls; a portable path means the same everywhere. No path leads out of the
/// vault.
pub fn resolve(vault_root: &str, rel: &str) -> (r: Result<VaultPath, WriteError>)
    ensures
        may_resolve(vault_root@, rel@, path_result(r)),
        portable(rel@) ==> path_result(r) == resolved_portable(vault_root@, rel@),
        rel@.len() > 0 && rel@[0] == '/' ==> r is Err,
        leads_up(rel@) ==> r is Err,
        match r {
            Ok(p) => p@.root == vault_root@ && stay_below(p@.below),
            Err(e) => e is Rejected,
        },
{
    let absolute: bool = is_absolute(rel);
    let parts: Vec<PathPart> = components(rel);
    proof {
        let views = part_views(parts@);
        if placed_below(vault_root@, rel@, absolute, views) is Ok {
            law_paths_stay_in_the_vault(vault_root@, rel@, absolute, views);
        }
        if rel@.len() > 0 && rel@[0] == '/' {
            law_no_way_from_the_root(vault_root@, rel@, absolute, views);
        }
        if leads_up(rel@) {
            law_no_way_up(vault_root@, rel@, absolute, views);
        }
        if portable(rel@) {
            assert(slashed(rel@) =~= rel@);
        }
    }
    place_below(vault_root, rel, absolute, parts.as_slice())
}

/// A path that is not refused leads to a file within the vault, whatever the system makes
/// of it: each of its names is that of a file or directory within the one before.
pub proof fn law_paths_stay_in_the_vault(
    root: Seq<char>,
    path: Seq<char>,
    absolute: bool,
    parts: Seq<PartView>,
)
    requires
        may_fall_into(path, parts),
        placed_below(root, path, absolute, parts) is Ok,
    ensures
        placed_below(root, path, absolute, parts)->Ok_0.root == root,
        stay_below(placed_below(root, path, absolute, parts)->Ok_0.below),
{
    lemma_first_part(parts);
    lemma_split_on_pieces(path, '/');
    lemma_split_on_pieces(slashed(path), '/');
    lemma_parts_proper(split_on(path, '/'));
    lemma_parts_proper(split_on(slashed(path), '/'));
}

/// A path with `..` between its slashes is refused, whatever the system makes of it; a
/// portable one for this very reason.
pub proof fn law_no_way_up(root: Seq<char>, path: Seq<char>, absolute: bool, parts: Seq<PartView>)
    requires
        may_fall_into(path, parts),
        leads_up(path),
    ensures
        placed_below(root, path, absolute, parts) is Err,
        portable(path) ==> resolved_portable(root, path) == Err::<VaultPathView, WriteErrorView>(
            WriteErrorView::Rejected("路径不得包含 ..: "@ + path),
        ),
{
    let k = choose|k: int|
        0 <= k < split_on(path, '/').len() && #[trigger] split_on(path, '/')[k] == seq!['.', '.'];
    lemma_first_part(parts);
    lemma_way_up(split_on(path, '/'), k);
    let j = lemma_slashed_piece(path, k);
    lemma_way_up(split_on(slashed(path), '/'), j);
}

/// A path that begins with a slash is refused, whatever the system makes of it.
pub proof fn law_no_way_from_the_root(
    root: Seq<char>,
    path: Seq<char>,
    absolute: bool,
    parts: Seq<PartView>,
)
    requires
        may_fall_into(path, parts),
        path.len() > 0,
        path[0] == '/',
    ensures
        placed_below(root, path, absolute, parts) is Err,
{
    lemma_first_part(parts);
}

/// A path that begins with the root or a prefix is refused.
proof fn lemma_first_part(parts: Seq<PartView>)
    ensures
        parts.len() > 0 && (parts[0] is RootDir || parts[0] is Prefix) ==> first_objection(
            parts,
        ) is Some,
{
    if parts.len() > 0 && (parts[0] is RootDir || parts[0] is Prefix) {
        reveal_with_fuel(first_objection, 2);
        assert(parts.take(1).drop_last() =~= Seq::<PartView>::empty());
        assert(parts.take(1).last() == parts[0]);
        lemma_objection_prefix(parts, 1);
    }
}

/// A piece between slashes that holds no backslash is one between separators of both kinds.
proof fn lemma_slashed_piece(path: Seq<char>, k: int) -> (j: int)
    requires
        0 <= k < split_on(path, '/').len(),
        !split_on(path, '/')[k].contains('\\'),
    ensures
        0 <= j < split_on(slashed(path), '/').len(),
        split_on(slashed(path), '/')[j] == split_on(path, '/')[k],
        k == split_on(path, '/').len() - 1 <==> j == split_on(slashed(path), '/').len() - 1,
    decreases path.len(),
{
    if path.len() == 0 {
        assert(slashed(path) =~= path);
        0
    } else {
        let t = path.drop_last();
        let before = split_on(t, '/');
        let after = split_on(slashed(t), '/');
        assert(slashed(path).drop_last() =~= slashed(t));
        lemma_split_on_len(t, '/');
        lemma_split_on_len(slashed(t), '/');
        if k == before.len() {
            after.len() as int
        } else if k < before.len() - 1 || path.last() == '/' {
            assert(split_on(path, '/')[k] == before[k]);
            let j = lemma_slashed_piece(t, k);
            assert(split_on(slashed(path), '/')[j] == after[j]);
            j
        } else {
            let piece = split_on(path, '/')[k];
            assert(piece == before[k].push(path.last()));
            assert(piece[piece.len() - 1] == path.last());
            assert forall|i: int| 0 <= i < before[k].len() implies #[trigger] before[k][i]
                != '\\' by {
                assert(piece[i] == before[k][i]);
            }
            lemma_slashed_piece(t, k)
        }
    }
}

proof fn lemma_parts_proper(pieces: Seq<Seq<char>>)
    requires
        forall|i: int| 0 <= i < pieces.len() ==> !(#[trigger] pieces[i]).contains('/'),
    ensures
        forall|i: int|
            0 <= i < part_names(parts_of(pieces)).len() ==> proper_name(
                #[trigger] part_names(parts_of(pieces))[i],
            ) && !part_names(parts_of(pieces))[i].contains('/'),
    decreases pieces.len(),
{
    if pieces.len() > 0 {
        lemma_parts_proper(pieces.drop_last());
        let before = parts_of(pieces.drop_last());
        let all = parts_of(pieces);
        assert(!pieces[pieces.len() - 1].contains('/'));
        if all.len() > before.len() {
            assert(all.drop_last() =~= before);
        }
        let names = part_names(all);
        assert forall|i: int| 0 <= i < names.len() implies proper_name(#[trigger] names[i])
            && !names[i].contains('/') by {
            if i < part_names(before).len() {
                assert(names[i] == part_names(before)[i]);
            }
        }
    }
}

proof fn lemma_way_up(pieces: Seq<Seq<char>>, k: int)
    requires
        0 <= k < pieces.len(),
        pieces[k] == seq!['.', '.'],
    ensures
        first_objection(parts_of(pieces)) == Some("路径不得包含 ..: "@),
    decreases pieces.len(),
{
    let before = parts_of(pieces.drop_last());
    let all = parts_of(pieces);
    if all.len() > before.len() {
        assert(all.drop_last() =~= before);
    }
    if k < pieces.len() - 1 {
        lemma_way_up(pieces.drop_last(), k);
    } else {
        lemma_objections(pieces.drop_last());
        assert(pieces[k].len() == 2);
        assert(pieces[k] != seq!['.']) by {
            assert(seq!['.'].len() == 1);
        }
    }
}

/// Pieces between separators give no other reason than the way up.
proof fn lemma_objections(pieces: Seq<Seq<char>>)
    ensures
        first_objection(parts_of(pieces)) is Some ==> first_objection(parts_of(pieces)) == Some(
            "路径不得包含 ..: "@,
        ),
    decreases pieces.len(),
{
    if pieces.len() > 0 {
        lemma_objections(pieces.drop_last());
        let before = parts_of(pieces.drop_last());
        let all = parts_of(pieces);
        if all.len() > before.len() {
            assert(all.drop_last() =~= before);
        }
    }
}

/// A path leads from the vault through its names, one after the other; the directory itself
/// leads nowhere else. The way up, a root and a prefix are refused, each with its message, and
/// what has been refused stays so. An absolute path is refused whatever its parts are.
pub proof fn law_parts_are_followed(
    root: Seq<char>,
    path: Seq<char>,
    parts: Seq<PartView>,
    name: Seq<char>,
)
    ensures
        placed_below(root, path, true, parts) == Err::<VaultPathView, WriteErrorView>(
            WriteErrorView::Rejected("只接受相对路径: "@ + path),
        ),
        placed_below(root, path, false, Seq::empty()) == Ok::<VaultPathView, WriteErrorView>(
            VaultPathView { root, below: Seq::empty() },
        ),
        match placed_below(root, path, false, parts) {
            Ok(p) => {
                &&& placed_below(root, path, false, parts.push(PartView::Normal(name))) == Ok::<
                    VaultPathView,
                    WriteErrorView,
                >(VaultPathView { root, below: p.below.push(name) })
                &&& placed_below(root, path, false, parts.push(PartView::CurDir)) == Ok::<
                    VaultPathView,
                    WriteErrorView,
                >(p)
                &&& placed_below(root, path, false, parts.push(PartView::ParentDir)) == Err::<
                    VaultPathView,
                    WriteErrorView,
                >(WriteErrorView::Rejected("路径不得包含 ..: "@ + path))
                &&& placed_below(root, path, false, parts.push(PartView::RootDir)) == Err::<
                    VaultPathView,
                    WriteErrorView,
                >(WriteErrorView::Rejected("非法路径: "@ + path))
                &&& placed_below(root, path, false, parts.push(PartView::Prefix)) == Err::<
                    VaultPathView,
                    WriteErrorView,
                >(WriteErrorView::Rejected("非法路径: "@ + path))
            },
            Err(e) => forall|part: PartView|
                #[trigger] placed_below(root, path, false, parts.push(part)) == Err::<
                    VaultPathView,
                    WriteErrorView,
                >(e),
        },
{
    assert forall|part: PartView| (#[trigger] parts.push(part)).drop_last() == parts && parts.push(
        part,
    ).last() == part by {
        assert(parts.push(part).drop_last() =~= parts);
    }
    assert(parts.push(PartView::Normal(name)).drop_last() == parts);
    assert(parts.push(PartView::CurDir).drop_last() == parts);
    assert(parts.push(PartView::ParentDir).drop_last() == parts);
    assert(parts.push(PartView::RootDir).drop_last() == parts);
    assert(parts.push(PartView::Prefix).drop_last() == parts);
}

/// Where a portable path is refused, it is told which path it was.
pub open spec fn leads_to(
    r: Result<VaultPathView, WriteErrorView>,
    root: Seq<char>,
    path: Seq<char>,
    below: Option<Seq<Seq<char>>>,
) -> bool {
    match below {
        Some(names) => r == Ok::<VaultPathView, WriteErrorView>(
            VaultPathView { root, below: names },
        ),
        None => r == Err::<VaultPathView, WriteErrorView>(
            WriteErrorView::Rejected("路径不得包含 ..: "@ + path),
        ),
    }
}

/// A portable path of one piece leads to the file with this name; an empty one and `.` to the
/// vault itself, and `..` is refused.
pub proof fn law_one_name_is_followed(root: Seq<char>, name: Seq<char>)
    requires
        !name.contains('/'),
    ensures
        leads_to(
            resolved_portable(root, name),
            root,
            name,
            if name == seq!['.', '.'] {
                None
            } else if name == seq!['.'] || name.len() == 0 {
                Some(Seq::empty())
            } else {
                Some(seq![name])
            },
        ),
{
    lemma_split_on_none(name, '/');
    reveal_with_fuel(parts_of, 2);
    reveal_with_fuel(first_objection, 2);
    reveal_with_fuel(part_names, 2);
    let pieces = seq![name];
    assert(pieces.drop_last() =~= Seq::<Seq<char>>::empty());
    assert(seq!['.'].len() == 1 && seq!['.', '.'].len() == 2);
    let all = parts_of(pieces);
    if all.len() > 0 {
        assert(all.drop_last() =~= Seq::<PartView>::empty());
    }
    assert(part_names(all) =~= if proper_name(name) {
        seq![name]
    } else {
        Seq::empty()
    });
}

/// A portable path with one more name behind it leads from where it led to the file with this
/// name there; an empty name and `.` lead no further, and `..` is refused, as is all behind
/// it.
pub proof fn law_next_name_is_followed(root: Seq<char>, path: Seq<char>, name: Seq<char>)
    requires
        !name.contains('/'),
    ensures
        leads_to(
            resolved_portable(root, path + seq!['/'] + name),
            root,
            path + seq!['/'] + name,
            if resolved_portable(root, path) is Err || name == seq!['.', '.'] {
                None
            } else if name == seq!['.'] || name.len() == 0 {
                Some(resolved_portable(root, path)->Ok_0.below)
            } else {
                Some(resolved_portable(root, path)->Ok_0.below.push(name))
            },
        ),
{
    assert(path + seq!['/'] + name =~= path.push('/') + name);
    lemma_split_on_append(path, '/', name);
    let before = split_on(path, '/');
    let pieces = split_on(path + seq!['/'] + name, '/');
    lemma_split_on_len(path, '/');
    assert(pieces =~= before.push(name));
    assert(pieces.drop_last() =~= before);
    assert(seq!['.'].len() == 1 && seq!['.', '.'].len() == 2);
    lemma_objections(before);
    lemma_objections(pieces);
    let all = parts_of(pieces);
    if all.len() > parts_of(before).len() {
        assert(all.drop_last() =~= parts_of(before));
    }
}

} // verus!
