//! What a file's name says: its extension, whether a language claims it,
//! and the icon the explorer shows for it.

use vstd::prelude::*;

verus! {

/// `c` in ASCII lower case.
pub open spec fn ascii_lower(c: char) -> char {
    if 'A' <= c <= 'Z' {
        ((c as u32) + 32) as char
    } else {
        c
    }
}

/// `a` and `b` are equal ignoring ASCII case.
pub open spec fn eq_ignore_ascii_case(a: Seq<char>, b: Seq<char>) -> bool {
    a.len() == b.len() && forall|i: int| 0 <= i < a.len() ==> ascii_lower(#[trigger] a[i]) == ascii_lower(b[i])
}

fn lower(c: char) -> (l: char)
    ensures
        l == ascii_lower(c),
{
    if 'A' <= c && c <= 'Z' {
        let b = c as u8;
        (b + 32) as char
    } else {
        c
    }
}

/// Whether `a` and `b` are equal ignoring ASCII case.
pub fn equal_ignoring_ascii_case(a: &str, b: &str) -> (same: bool)
    ensures
        same == eq_ignore_ascii_case(a@, b@),
{
    let n = a.unicode_len();
    if n != b.unicode_len() {
        return false;
    }
    let mut i: usize = 0;
    while i < n
        invariant
            n == a@.len() == b@.len(),
            0 <= i <= n,
            forall|k: int| 0 <= k < i ==> ascii_lower(#[trigger] a@[k]) == ascii_lower(b@[k]),
        decreases n - i,
    {
        if lower(a.get_char(i)) != lower(b.get_char(i)) {
            return false;
        }
        i = i + 1;
    }
    true
}

/// The index of the last `.` in `name`, if any.
pub open spec fn last_dot(name: Seq<char>) -> Option<int>
    decreases name.len(),
{
    if name.len() == 0 {
        None
    } else if name.last() == '.' {
        Some(name.len() - 1)
    } else {
        last_dot(name.drop_last())
    }
}

proof fn lemma_last_dot(name: Seq<char>)
    ensures
        last_dot(name) matches Some(k) ==> 0 <= k < name.len() && name[k] == '.' && forall|j: int|
            k < j < name.len() ==> name[j] != '.',
        last_dot(name) is None ==> forall|j: int| 0 <= j < name.len() ==> name[j] != '.',
    decreases name.len(),
{
    if name.len() > 0 && name.last() != '.' {
        lemma_last_dot(name.drop_last());
        assert(forall|j: int| 0 <= j < name.len() - 1 ==> name.drop_last()[j] == name[j]);
    }
}

/// The extension of a file name, as `Path::extension` finds it: what
/// follows the last `.`, unless there is no `.`, the only `.` starts the
/// name, or the name is `..`.
pub open spec fn extension_of_name(name: Seq<char>) -> Option<Seq<char>> {
    if name == ".."@ {
        None
    } else {
        match last_dot(name) {
            None => None,
            Some(k) => if k == 0 {
                None
            } else {
                Some(name.skip(k + 1))
            },
        }
    }
}

/// The extension of a file name.
pub fn extension_of(name: &str) -> (extension: Option<&str>)
    ensures
        match extension {
            Some(e) => extension_of_name(name@) == Some(e@),
            None => extension_of_name(name@) is None,
        },
{
    proof {
        reveal_strlit("..");
        lemma_last_dot(name@);
    }
    let n = name.unicode_len();
    if n == 2 && name.get_char(0) == '.' && name.get_char(1) == '.' {
        assert(name@ =~= ".."@);
        return None;
    }
    assert(name@ != ".."@) by {
        if name@ == ".."@ {
            assert(name@[0] == '.' && name@[1] == '.');
        }
    }
    let mut k = n;
    while k > 0 && name.get_char(k - 1) != '.'
        invariant
            n == name@.len(),
            0 <= k <= n,
            forall|j: int| k <= j < n ==> name@[j] != '.',
        decreases k,
    {
        k = k - 1;
    }
    if k <= 1 {
        return None;
    }
    Some(name.substring_char(k, n))
}

/// Where the path component that ends before `end` starts: just after the
/// last `/` before `end`, or at 0.
pub open spec fn component_start(path: Seq<char>, end: int) -> int
    decreases end,
{
    if end <= 0 {
        0
    } else if path[end - 1] == '/' {
        end
    } else {
        component_start(path, end - 1)
    }
}

/// The bounds of the last normal component of `path.take(end)`, as
/// `Path::file_name` finds it: trailing separators and `.` components are
/// passed over; there is none when nothing is left, or the last component
/// is `..` or a leading `.`.
pub open spec fn file_name_bounds(path: Seq<char>, end: int) -> Option<(int, int)>
    decreases end,
{
    if end <= 0 {
        None
    } else if path[end - 1] == '/' {
        file_name_bounds(path, end - 1)
    } else {
        let start = component_start(path, end);
        if end - start == 1 && path[start] == '.' {
            if start > 0 {
                file_name_bounds(path, start - 1)
            } else {
                None
            }
        } else if end - start == 2 && path[start] == '.' && path[start + 1] == '.' {
            None
        } else {
            Some((start, end))
        }
    }
}

/// The file name of `path`: its last normal component.
pub open spec fn spec_file_name(path: Seq<char>) -> Option<Seq<char>> {
    match file_name_bounds(path, path.len() as int) {
        Some((start, end)) => Some(path.subrange(start, end)),
        None => None,
    }
}

proof fn lemma_component_start(path: Seq<char>, end: int)
    requires
        0 <= end <= path.len(),
    ensures
        0 <= component_start(path, end) <= end,
        component_start(path, end) > 0 ==> path[component_start(path, end) - 1] == '/',
        forall|j: int| component_start(path, end) <= j < end ==> path[j] != '/',
    decreases end,
{
    if end > 0 && path[end - 1] != '/' {
        lemma_component_start(path, end - 1);
    }
}

/// The file name of `path`, as `Path::file_name` gives it.
pub fn file_name_of(path: &str) -> (name: Option<&str>)
    ensures
        match name {
            Some(n) => spec_file_name(path@) == Some(n@),
            None => spec_file_name(path@) is None,
        },
{
    let mut end = path.unicode_len();
    let ghost n = end as int;
    loop
        invariant
            n == path@.len(),
            0 <= end <= n,
            file_name_bounds(path@, end as int) == file_name_bounds(path@, n),
        decreases end,
    {
        if end == 0 {
            return None;
        }
        if path.get_char(end - 1) == '/' {
            end = end - 1;
            continue;
        }
        let mut start = end;
        while start > 0 && path.get_char(start - 1) != '/'
            invariant
                n == path@.len(),
                0 <= start <= end <= n,
                end > 0,
                path@[end - 1] != '/',
                component_start(path@, start as int) == component_start(path@, end as int),
                start < end ==> forall|j: int| start <= j < end ==> path@[j] != '/',
            decreases start,
        {
            start = start - 1;
        }
        proof {
            lemma_component_start(path@, end as int);
        }
        if end - start == 1 && path.get_char(start) == '.' {
            if start > 0 {
                end = start - 1;
                continue;
            }
            return None;
        }
        if end - start == 2 && path.get_char(start) == '.' && path.get_char(start + 1) == '.' {
            return None;
        }
        return Some(path.substring_char(start, end));
    }
}

/// The extension of the file a path names (`Path::extension`).
pub open spec fn spec_path_extension(path: Seq<char>) -> Option<Seq<char>> {
    match spec_file_name(path) {
        Some(name) => extension_of_name(name),
        None => None,
    }
}

/// The extension of the file `path` names.
pub fn path_extension(path: &str) -> (extension: Option<&str>)
    ensures
        match extension {
            Some(e) => spec_path_extension(path@) == Some(e@),
            None => spec_path_extension(path@) is None,
        },
{
    match file_name_of(path) {
        Some(name) => extension_of(name),
        None => None,
    }
}

/// Whether `extension` is one of `candidates`, ignoring ASCII case.
pub fn matches_extension(extension: Option<&str>, candidates: &[&str]) -> (found: bool)
    ensures
        found == match extension {
            Some(e) => exists|i: int| 0 <= i < candidates@.len() && eq_ignore_ascii_case(e@, #[trigger] candidates@[i]@),
            None => false,
        },
{
    let e = match extension {
        Some(e) => e,
        None => {
            return false;
        },
    };
    let mut i: usize = 0;
    while i < candidates.len()
        invariant
            extension == Some(e),
            0 <= i <= candidates@.len(),
            forall|j: int| 0 <= j < i ==> !eq_ignore_ascii_case(e@, #[trigger] candidates@[j]@),
        decreases candidates@.len() - i,
    {
        if equal_ignoring_ascii_case(e, candidates[i]) {
            assert(eq_ignore_ascii_case(e@, candidates@[i as int]@));
            return true;
        }
        i = i + 1;
    }
    false
}

/// The icons the project explorer draws.
#[derive(Clone, Copy, Debug, PartialEq, Eq, Structural)]
pub enum ExplorerIcon {
    ChevronDown,
    ChevronRight,
    File,
    Folder,
    FolderOpen,
    Lock,
    Markdown,
    Rust,
    Toml,
}

/// The icon and color (as 0xRRGGBB) for a file: lock files, then by
/// extension, ignoring case.
pub open spec fn spec_file_icon(name: Seq<char>) -> (ExplorerIcon, u32) {
    let ext = extension_of_name(name);
    if (name.len() >= 5 && name.skip(name.len() - 5) == ".lock"@) || name == "lock"@ {
        (ExplorerIcon::Lock, 0x8f96a3)
    } else if ext matches Some(e) && eq_ignore_ascii_case(e, "rs"@) {
        (ExplorerIcon::Rust, 0xdea584)
    } else if ext matches Some(e) && eq_ignore_ascii_case(e, "toml"@) {
        (ExplorerIcon::Toml, 0x98c379)
    } else if ext matches Some(e) && (eq_ignore_ascii_case(e, "md"@) || eq_ignore_ascii_case(e, "markdown"@)) {
        (ExplorerIcon::Markdown, 0x61afef)
    } else {
        (ExplorerIcon::File, 0xaeb4bf)
    }
}

/// Whether `name` ends with `suffix`.
fn ends_with(name: &str, suffix: &str) -> (yes: bool)
    ensures
        yes == (name@.len() >= suffix@.len() && name@.skip(name@.len() - suffix@.len()) == suffix@),
{
    let n = name.unicode_len();
    let m = suffix.unicode_len();
    if n < m {
        return false;
    }
    let mut i: usize = 0;
    while i < m
        invariant
            n == name@.len(),
            m == suffix@.len(),
            m <= n,
            0 <= i <= m,
            forall|k: int| 0 <= k < i ==> name@[n - m + k] == suffix@[k],
        decreases m - i,
    {
        if name.get_char(n - m + i) != suffix.get_char(i) {
            assert(name@.skip(n - m)[i as int] != suffix@[i as int]);
            return false;
        }
        i = i + 1;
    }
    assert(name@.skip(n - m) =~= suffix@);
    true
}

/// The icon and color of a file with the given name.
fn icon_for_name(name: &str) -> (icon: (ExplorerIcon, u32))
    ensures
        icon == spec_file_icon(name@),
{
    proof {
        reveal_strlit(".lock");
        reveal_strlit("lock");
    }
    if ends_with(name, ".lock") || crate::strings::text_eq(name, "lock") {
        return (ExplorerIcon::Lock, 0x8f96a3);
    }
    match extension_of(name) {
        Some(e) => if equal_ignoring_ascii_case(e, "rs") {
            (ExplorerIcon::Rust, 0xdea584)
        } else if equal_ignoring_ascii_case(e, "toml") {
            (ExplorerIcon::Toml, 0x98c379)
        } else if equal_ignoring_ascii_case(e, "md") || equal_ignoring_ascii_case(e, "markdown") {
            (ExplorerIcon::Markdown, 0x61afef)
        } else {
            (ExplorerIcon::File, 0xaeb4bf)
        },
        None => (ExplorerIcon::File, 0xaeb4bf),
    }
}

/// The icon and color of the file `path` names; a path that names no file
/// gets the plain file icon.
pub fn file_icon(path: &str) -> (icon: (ExplorerIcon, u32))
    ensures
        icon == spec_file_icon(
            match spec_file_name(path@) {
                Some(name) => name,
                None => Seq::empty(),
            },
        ),
{
    match file_name_of(path) {
        Some(name) => icon_for_name(name),
        None => {
            proof {
                reveal_strlit("lock");
                reveal_strlit("..");
            }
            assert("lock"@.len() == 4 && ".."@.len() == 2);
            assert(Seq::<char>::empty().len() == 0);
            (ExplorerIcon::File, 0xaeb4bf)
        },
    }
}

/// The icon and color of a folder, open or closed.
pub fn folder_icon(expanded: bool) -> (icon: (ExplorerIcon, u32))
    ensures
        icon == (if expanded { ExplorerIcon::FolderOpen } else { ExplorerIcon::Folder }, 0xc4a574u32),
{
    let kind = if expanded {
        ExplorerIcon::FolderOpen
    } else {
        ExplorerIcon::Folder
    };
    (kind, 0xc4a574)
}

/// The chevron in front of a folder, open or closed.
pub fn chevron_icon(expanded: bool) -> (icon: ExplorerIcon)
    ensures
        icon == if expanded { ExplorerIcon::ChevronDown } else { ExplorerIcon::ChevronRight },
{
    if expanded {
        ExplorerIcon::ChevronDown
    } else {
        ExplorerIcon::ChevronRight
    }
}

} // verus!
