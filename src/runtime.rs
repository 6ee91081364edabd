use vstd::prelude::*;

verus! {

/// Metadata of a runtime: the name to show, and the directories, relative
/// to a version directory, that go on the search path.
#[derive(Debug, PartialEq, Eq, Hash)]
pub struct RuntimeMetadata {
    pub display_name: String,
    pub search_paths: Vec<String>,
}

impl Default for RuntimeMetadata {
    /// An empty name and no search paths.
    fn default() -> (r: RuntimeMetadata)
        ensures
            r@ == (RuntimeMetadataView { display_name: Seq::empty(), search_paths: Seq::empty() }),
    {
        let r = RuntimeMetadata { display_name: String::new(), search_paths: Vec::new() };
        assert(r@.search_paths =~= Seq::empty());
        r
    }
}

pub struct RuntimeMetadataView {
    pub display_name: Seq<char>,
    pub search_paths: Seq<Seq<char>>,
}

impl View for RuntimeMetadata {
    type V = RuntimeMetadataView;

    open spec fn view(&self) -> RuntimeMetadataView {
        RuntimeMetadataView {
            display_name: self.display_name@,
            search_paths: self.search_paths@.map_values(|p: String| p@),
        }
    }
}

/// A runtime: its name, which is also the name of its directory, and its metadata.
#[derive(Debug, PartialEq, Eq, Hash)]
pub struct Runtime {
    pub name: String,
    pub metadata: RuntimeMetadata,
}

/// What can go wrong while locating runtimes and their versions.
#[derive(Debug, Clone, PartialEq, Eq)]
pub enum RuntimeError {
    /// The home directory could not be found.
    NoHome,
    /// The metadata of the named runtime could not be read as metadata.
    InvalidMetadata(String),
    /// The directory of a version (first field) of a runtime (second field) is missing.
    VersionNotFound(String, String),
    /// A search path of a version does not exist.
    SearchPathMissing(String),
    /// A configuration file is not a map of strings to strings.
    InvalidConfig,
}

/// `base` with `part` appended as one more path component.
pub open spec fn join_path(base: Seq<char>, part: Seq<char>) -> Seq<char> {
    base + "/"@ + part
}

/// The directory under the home directory that holds every runtime.
pub open spec fn root_path(home: Seq<char>) -> Seq<char> {
    join_path(home, ".ver"@)
}

/// `base` with `part` appended as one more path component.
pub fn join(base: &str, part: &str) -> (r: String)
    ensures
        r@ == join_path(base@, part@),
{
    let mut r = String::from_str(base);
    r.append("/");
    r.append(part);
    r
}

/// `k` is the first index at which `s` holds `false`.
pub open spec fn first_false(s: Seq<bool>, k: int) -> bool {
    &&& 0 <= k < s.len()
    &&& !s[k]
    &&& forall|j: int| 0 <= j < k ==> #[trigger] s[j]
}

/// The result of looking up `paths` under `dir`, where `exists[i]` tells
/// whether the i-th is there: all of them in order if every one is, else
/// the first missing one.
pub open spec fn search_outcome(
    r: Result<Vec<String>, RuntimeError>,
    dir: Seq<char>,
    paths: Seq<Seq<char>>,
    exists: Seq<bool>,
) -> bool {
    if forall|i: int| 0 <= i < exists.len() ==> #[trigger] exists[i] {
        r matches Ok(v) && v@.len() == paths.len() && forall|i: int|
            0 <= i < paths.len() ==> #[trigger] v@[i]@ == join_path(dir, paths[i])
    } else {
        r matches Err(RuntimeError::SearchPathMissing(p)) && exists|k: int|
            #[trigger] first_false(exists, k) && p@ == join_path(dir, paths[k])
    }
}

impl RuntimeError {
    /// The human-readable message of an error.
    pub open spec fn spec_text(self) -> Seq<char> {
        match self {
            RuntimeError::NoHome => "Could not access home directory"@,
            RuntimeError::InvalidMetadata(name) => "Metadata file for runtime \""@ + name@
                + "\" is not valid runtime metadata"@,
            RuntimeError::VersionNotFound(version, name) => "Version "@ + version@
                + " for runtime \""@ + name@ + "\" was not found"@,
            RuntimeError::SearchPathMissing(path) => "Search path \""@ + path@
                + "\" does not exist"@,
            RuntimeError::InvalidConfig => "Configuration file is invalid"@,
        }
    }

    /// The human-readable message of this error.
    pub fn describe(&self) -> (r: String)
        ensures
            r@ == self.spec_text(),
    {
        match self {
            RuntimeError::NoHome => String::from_str("Could not access home directory"),
            RuntimeError::InvalidMetadata(name) => {
                let mut r = String::from_str("Metadata file for runtime \"");
                r.append(name.as_str());
                r.append("\" is not valid runtime metadata");
                r
            },
            RuntimeError::VersionNotFound(version, name) => {
                let mut r = String::from_str("Version ");
                r.append(version.as_str());
                r.append(" for runtime \"");
                r.append(name.as_str());
                r.append("\" was not found");
                r
            },
            RuntimeError::SearchPathMissing(path) => {
                let mut r = String::from_str("Search path \"");
                r.append(path.as_str());
                r.append("\" does not exist");
                r
            },
            RuntimeError::InvalidConfig => String::from_str("Configuration file is invalid"),
        }
    }
}

impl Runtime {
    /// A runtime with the given name and default metadata.
    pub fn unsafe_new(name: &str) -> (r: Runtime)
        ensures
            r.name@ == name@,
            r.metadata@ == (RuntimeMetadataView {
                display_name: Seq::empty(),
                search_paths: Seq::empty(),
            }),
    {
        Runtime { name: String::from_str(name), metadata: RuntimeMetadata::default() }
    }

    /// A runtime from its name and the result of reading its metadata:
    /// `None` where the metadata could not be read as metadata.
    pub fn new(name: &str, metadata: Option<RuntimeMetadata>) -> (r: Result<Runtime, RuntimeError>)
        ensures
            match metadata {
                Some(m) => r matches Ok(rt) && rt.name@ == name@ && rt.metadata == m,
                None => r matches Err(RuntimeError::InvalidMetadata(n)) && n@ == name@,
            },
    {
        match metadata {
            Some(m) => Ok(Runtime { name: String::from_str(name), metadata: m }),
            None => Err(RuntimeError::InvalidMetadata(String::from_str(name))),
        }
    }

    /// `<home>/.ver`, where `home` is the home directory if one was found.
    pub fn get_root(home: Option<&str>) -> (r: Result<String, RuntimeError>)
        ensures
            match home {
                Some(h) => r matches Ok(p) && p@ == root_path(h@),
                None => r == Err::<String, RuntimeError>(RuntimeError::NoHome),
            },
    {
        match home {
            Some(h) => Ok(join(h, ".ver")),
            None => Err(RuntimeError::NoHome),
        }
    }

    /// The directory of the runtime called `name`.
    pub fn get_runtime(home: Option<&str>, name: &str) -> (r: Result<String, RuntimeError>)
        ensures
            match home {
                Some(h) => r matches Ok(p) && p@ == join_path(root_path(h@), name@),
                None => r == Err::<String, RuntimeError>(RuntimeError::NoHome),
            },
    {
        let root = Runtime::get_root(home)?;
        Ok(join(root.as_str(), name))
    }

    /// The directory of a version of this runtime.
    pub fn get_version(&self, home: Option<&str>, version: &str) -> (r: Result<String, RuntimeError>)
        ensures
            match home {
                Some(h) => r matches Ok(p) && p@ == join_path(
                    join_path(root_path(h@), self.name@),
                    version@,
                ),
                None => r == Err::<String, RuntimeError>(RuntimeError::NoHome),
            },
    {
        let dir = Runtime::get_runtime(home, self.name.as_str())?;
        Ok(join(dir.as_str(), version))
    }

    /// The directory of a version of this runtime, where `exists` tells
    /// whether that directory is there.
    pub fn get_safe_version(&self, home: Option<&str>, version: &str, exists: bool) -> (r: Result<
        String,
        RuntimeError,
    >)
        ensures
            match home {
                Some(h) => if exists {
                    r matches Ok(p) && p@ == join_path(
                        join_path(root_path(h@), self.name@),
                        version@,
                    )
                } else {
                    r matches Err(RuntimeError::VersionNotFound(v, n)) && v@ == version@ && n@
                        == self.name@
                },
                None => r == Err::<String, RuntimeError>(RuntimeError::NoHome),
            },
    {
        let path = self.get_version(home, version)?;
        if exists {
            Ok(path)
        } else {
            Err(RuntimeError::VersionNotFound(String::from_str(version), self.name.clone()))
        }
    }

    /// The search paths of this runtime's metadata, each under `version_dir`.
    pub fn search_path_candidates(&self, version_dir: &str) -> (r: Vec<String>)
        ensures
            r@.len() == self.metadata.search_paths@.len(),
            forall|i: int|
                0 <= i < r@.len() ==> #[trigger] r@[i]@ == join_path(
                    version_dir@,
                    self.metadata.search_paths@[i]@,
                ),
    {
        let mut r: Vec<String> = Vec::new();
        let mut i: usize = 0;
        while i < self.metadata.search_paths.len()
            invariant
                i <= self.metadata.search_paths@.len(),
                r@.len() == i,
                forall|j: int|
                    0 <= j < i ==> #[trigger] r@[j]@ == join_path(
                        version_dir@,
                        self.metadata.search_paths@[j]@,
                    ),
            decreases self.metadata.search_paths@.len() - i,
        {
            r.push(join(version_dir, self.metadata.search_paths[i].as_str()));
            i = i + 1;
        }
        r
    }

    /// The search paths of a version of this runtime, each under the
    /// version's directory. `version_exists` tells whether that directory is
    /// there, and `exists[i]` whether the i-th search path is. The first
    /// missing one is reported.
    pub fn get_version_search_paths(
        &self,
        home: Option<&str>,
        version: &str,
        version_exists: bool,
        exists: &Vec<bool>,
    ) -> (r: Result<Vec<String>, RuntimeError>)
        requires
            exists@.len() == self.metadata.search_paths@.len(),
        ensures
            home is None ==> r == Err::<Vec<String>, RuntimeError>(RuntimeError::NoHome),
            home is Some && !version_exists ==> (r matches Err(RuntimeError::VersionNotFound(v, n))
                && v@ == version@ && n@ == self.name@),
            home matches Some(h) ==> (version_exists ==> search_outcome(
                r,
                join_path(join_path(root_path(h@), self.name@), version@),
                self.metadata@.search_paths,
                exists@,
            )),
    {
        let dir = self.get_safe_version(home, version, version_exists)?;
        let candidates = self.search_path_candidates(dir.as_str());
        let mut paths: Vec<String> = Vec::new();
        let mut i: usize = 0;
        while i < candidates.len()
            invariant
                home is Some,
                version_exists,
                home matches Some(h) ==> dir@ == join_path(join_path(root_path(h@), self.name@), version@),
                i <= candidates@.len(),
                candidates@.len() == exists@.len(),
                exists@.len() == self.metadata.search_paths@.len(),
                forall|j: int|
                    0 <= j < candidates@.len() ==> #[trigger] candidates@[j]@ == join_path(
                        dir@,
                        self.metadata.search_paths@[j]@,
                    ),
                paths@.len() == i,
                forall|j: int| 0 <= j < i ==> #[trigger] exists@[j],
                forall|j: int| 0 <= j < i ==> #[trigger] paths@[j]@ == candidates@[j]@,
            decreases candidates@.len() - i,
        {
            if !exists[i] {
                let missing = candidates[i].clone();
                assert(first_false(exists@, i as int));
                return Err(RuntimeError::SearchPathMissing(missing));
            }
            paths.push(candidates[i].clone());
            i = i + 1;
        }
        Ok(paths)
    }
}

} // verus!
