//! The application's directories for configuration, data and cache, and the
//! files kept in them. Resolving and creating the directories is the
//! caller's part.

use vstd::prelude::*;

use crate::strings::push_char;

verus! {

/// `name` inside the directory `dir`, as joining a relative path does: a
/// separator goes between them unless `dir` is empty or already ends with one.
pub open spec fn joined(dir: Seq<char>, name: Seq<char>) -> Seq<char> {
    if dir.len() == 0 || dir.last() == '/' {
        dir + name
    } else {
        dir + seq!['/'] + name
    }
}

/// User-owned application directories for config, data, and cache.
#[derive(Clone, Debug, PartialEq, Eq)]
pub struct AppPaths {
    config: String,
    data: String,
    cache: String,
}

impl AppPaths {
    pub closed spec fn spec_config(self) -> Seq<char> {
        self.config@
    }

    pub closed spec fn spec_data(self) -> Seq<char> {
        self.data@
    }

    pub closed spec fn spec_cache(self) -> Seq<char> {
        self.cache@
    }

    /// The directories at the given paths.
    pub fn from_dirs(config: &str, data: &str, cache: &str) -> (paths: Self)
        ensures
            paths.spec_config() == config@,
            paths.spec_data() == data@,
            paths.spec_cache() == cache@,
    {
        AppPaths { config: config.to_owned(), data: data.to_owned(), cache: cache.to_owned() }
    }

    pub fn config_dir(&self) -> (dir: &str)
        ensures
            dir@ == self.spec_config(),
    {
        self.config.as_str()
    }

    pub fn data_dir(&self) -> (dir: &str)
        ensures
            dir@ == self.spec_data(),
    {
        self.data.as_str()
    }

    pub fn cache_dir(&self) -> (dir: &str)
        ensures
            dir@ == self.spec_cache(),
    {
        self.cache.as_str()
    }

    /// The file that lists recent projects, in the data directory.
    pub fn projects_file(&self) -> (file: String)
        ensures
            file@ == joined(self.spec_data(), "projects.toml"@),
    {
        join_path(self.data.as_str(), "projects.toml")
    }
}

/// `name` inside the directory `dir`.
pub fn join_path(dir: &str, name: &str) -> (path: String)
    ensures
        path@ == joined(dir@, name@),
{
    let mut path = dir.to_owned();
    let n = dir.unicode_len();
    if n > 0 && dir.get_char(n - 1) != '/' {
        push_char(&mut path, '/');
    }
    path.append(name);
    assert(path@ =~= joined(dir@, name@));
    path
}

} // verus!
