//! Project detection: classifying a scanned directory by its files.
//!
//! The directory walk, and the reading of manifest files, are I/O and live
//! with the caller; this module holds the data model and the pure
//! file-name and extension rules.

use vstd::prelude::*;

verus! {

/// Complete project analysis report.
#[derive(Debug, Clone)]
pub struct ProjectReport {
    pub directory: String,
    pub detected_files: DetectedFiles,
    pub extracted_metadata: ExtractedMetadata,
    pub project_types: Vec<ProjectType>,
    pub summary: String,
    pub git_info: Option<GitInfo>,
}

/// Files and patterns detected during a directory scan. Extension counts
/// are pairs of extension and number of files seen.
#[derive(Debug, Clone)]
pub struct DetectedFiles {
    pub config_files: Vec<String>,
    pub source_extensions: Vec<(String, u32)>,
    pub special_directories: Vec<String>,
    pub documentation_files: Vec<String>,
}

/// Metadata extracted from configuration files.
#[derive(Debug, Clone)]
pub struct ExtractedMetadata {
    pub cargo: Option<CargoMetadata>,
    pub python: Option<PythonMetadata>,
    pub node: Option<NodeMetadata>,
    pub git: Option<GitMetadata>,
    pub readme: Option<ReadmeMetadata>,
}

/// Rust project metadata from its manifest.
#[derive(Debug, Clone)]
pub struct CargoMetadata {
    pub name: String,
    pub description: Option<String>,
    pub version: String,
    pub workspace_members: Vec<String>,
}

/// Python project metadata from its project file.
#[derive(Debug, Clone)]
pub struct PythonMetadata {
    pub name: String,
    pub description: Option<String>,
    pub version: Option<String>,
    pub dependencies: Vec<String>,
}

/// Node project metadata from its package file.
#[derive(Debug, Clone)]
pub struct NodeMetadata {
    pub name: String,
    pub description: Option<String>,
    pub version: String,
    pub dependencies: Vec<String>,
}

/// Repository information.
#[derive(Debug, Clone)]
pub struct GitMetadata {
    pub remote: Option<String>,
    pub branch: Option<String>,
    pub is_dirty: bool,
}

/// Repository information, as reported.
#[derive(Debug, Clone)]
pub struct GitInfo {
    pub remote: Option<String>,
    pub branch: Option<String>,
    pub is_dirty: bool,
}

/// Readme metadata.
#[derive(Debug, Clone)]
pub struct ReadmeMetadata {
    pub title: Option<String>,
    pub description: Option<String>,
}

/// Detected project types.
#[derive(Debug, Clone)]
pub enum ProjectType {
    Rust,
    Python,
    TypeScript,
    JavaScript,
    Go,
    Java,
    Documentation,
    Polyglot(Vec<String>),
}

/// Detection configuration.
#[derive(Debug, Clone)]
pub struct DetectionConfig {
    pub max_depth: usize,
    pub timeout_seconds: u64,
    pub respect_gitignore: bool,
    pub skip_directories: Vec<String>,
}

impl Default for DetectionConfig {
    /// Three levels deep, five seconds, skipping the usual build and cache
    /// directories.
    fn default() -> (r: Self)
        ensures
            r.max_depth == 3,
            r.timeout_seconds == 5,
            r.respect_gitignore,
            r.skip_directories.deep_view() =~= seq![
                ("node_modules")@,
                ("target")@,
                (".venv")@,
                ("venv")@,
                ("__pycache__")@,
                (".git")@,
                (".mypy_cache")@,
                (".pytest_cache")@,
            ],
    {
        let mut skip: Vec<String> = Vec::new();
        skip.push(String::from_str("node_modules"));
        skip.push(String::from_str("target"));
        skip.push(String::from_str(".venv"));
        skip.push(String::from_str("venv"));
        skip.push(String::from_str("__pycache__"));
        skip.push(String::from_str(".git"));
        skip.push(String::from_str(".mypy_cache"));
        skip.push(String::from_str(".pytest_cache"));
        proof {
            assert(skip.deep_view() =~= seq![
                ("node_modules")@,
                ("target")@,
                (".venv")@,
                ("venv")@,
                ("__pycache__")@,
                (".git")@,
                (".mypy_cache")@,
                (".pytest_cache")@,
            ]);
        }
        DetectionConfig {
            max_depth: 3,
            timeout_seconds: 5,
            respect_gitignore: true,
            skip_directories: skip,
        }
    }
}

/// True views equality of two strings.
fn str_eq(a: &str, b: &str) -> (r: bool)
    ensures
        r == (a@ == b@),
{
    let oa = a.to_owned();
    let ob = b.to_owned();
    oa == ob
}

/// The file names recognized as project configuration files.
pub open spec fn is_config_name(n: Seq<char>) -> bool {
    ||| n == ("Cargo.toml")@
    ||| n == ("pyproject.toml")@
    ||| n == ("package.json")@
    ||| n == ("go.mod")@
    ||| n == ("pom.xml")@
    ||| n == ("build.gradle")@
    ||| n == ("composer.json")@
    ||| n == ("Gemfile")@
    ||| n == ("requirements.txt")@
    ||| n == ("setup.py")@
    ||| n == ("book.toml")@
    ||| n == ("mkdocs.yml")@
    ||| n == ("Dockerfile")@
    ||| n == ("docker-compose.yml")@
    ||| n == ("Makefile")@
}

/// The file names recognized as documentation files.
pub open spec fn is_documentation_name(n: Seq<char>) -> bool {
    ||| n == ("README.md")@
    ||| n == ("README.rst")@
    ||| n == ("README.txt")@
    ||| n == ("SUMMARY.md")@
    ||| n == ("CHANGELOG.md")@
    ||| n == ("CONTRIBUTING.md")@
    ||| n == ("LICENSE")@
    ||| n == ("LICENSE.md")@
}

/// The directory names counted as significant.
pub open spec fn is_special_dir_name(n: Seq<char>) -> bool {
    ||| n == ("src")@
    ||| n == ("lib")@
    ||| n == ("bin")@
    ||| n == ("docs")@
    ||| n == ("documentation")@
    ||| n == ("tests")@
    ||| n == ("test")@
    ||| n == ("examples")@
    ||| n == (".git")@
    ||| n == (".github")@
    ||| n == ("target")@
    ||| n == ("__pycache__")@
    ||| n == (".venv")@
    ||| n == ("venv")@
    ||| n == ("node_modules")@
}

/// The extensions counted as source code.
pub open spec fn is_source_ext(n: Seq<char>) -> bool {
    ||| n == (".rs")@
    ||| n == (".py")@
    ||| n == (".ts")@
    ||| n == (".tsx")@
    ||| n == (".js")@
    ||| n == (".jsx")@
    ||| n == (".go")@
    ||| n == (".java")@
    ||| n == (".cpp")@
    ||| n == (".cc")@
    ||| n == (".cxx")@
    ||| n == (".c")@
    ||| n == (".h")@
    ||| n == (".md")@
    ||| n == (".toml")@
    ||| n == (".yaml")@
    ||| n == (".yml")@
    ||| n == (".json")@
}

/// The extensions of primary programming languages.
pub open spec fn is_lang_ext(n: Seq<char>) -> bool {
    ||| n == (".rs")@
    ||| n == (".py")@
    ||| n == (".ts")@
    ||| n == (".tsx")@
    ||| n == (".js")@
    ||| n == (".jsx")@
    ||| n == (".go")@
    ||| n == (".java")@
}


/// The list holds exactly this name.
pub open spec fn seq_contains_str(v: Seq<Seq<char>>, x: Seq<char>) -> bool {
    exists|k: int| 0 <= k < v.len() && v[k] == x
}

/// Some counted extension equals `x`.
pub open spec fn has_ext(exts: Seq<(Seq<char>, u32)>, x: Seq<char>) -> bool {
    exists|k: int| 0 <= k < exts.len() && (#[trigger] exts[k]).0 == x
}

/// The count recorded for `x`: the first matching entry, or zero.
pub open spec fn ext_count(exts: Seq<(Seq<char>, u32)>, x: Seq<char>) -> u32
    decreases exts.len(),
{
    if exts.len() == 0 {
        0
    } else if exts[0].0 == x {
        exts[0].1
    } else {
        ext_count(exts.drop_first(), x)
    }
}

/// A Rust project was detected: manifest metadata or the manifest file.
pub open spec fn rust_flag(files: DetectedFiles, meta: ExtractedMetadata) -> bool {
    meta.cargo is Some || seq_contains_str(files.config_files.deep_view(), ("Cargo.toml")@)
}

/// A Python project was detected.
pub open spec fn python_flag(files: DetectedFiles, meta: ExtractedMetadata) -> bool {
    meta.python is Some || seq_contains_str(files.config_files.deep_view(), ("pyproject.toml")@)
}

/// A Node project was detected.
pub open spec fn node_flag(files: DetectedFiles) -> bool {
    seq_contains_str(files.config_files.deep_view(), ("package.json")@)
}

/// TypeScript sources were seen.
pub open spec fn ts_flag(files: DetectedFiles) -> bool {
    has_ext(files.source_extensions.deep_view(), (".ts")@) || has_ext(
        files.source_extensions.deep_view(),
        (".tsx")@,
    )
}

/// A Go project was detected.
pub open spec fn go_flag(files: DetectedFiles) -> bool {
    seq_contains_str(files.config_files.deep_view(), ("go.mod")@)
}

/// A Java project was detected.
pub open spec fn java_flag(files: DetectedFiles) -> bool {
    seq_contains_str(files.config_files.deep_view(), ("pom.xml")@) || seq_contains_str(
        files.config_files.deep_view(),
        ("build.gradle")@,
    )
}

/// A documentation project was detected.
pub open spec fn doc_flag(files: DetectedFiles) -> bool {
    ||| seq_contains_str(files.config_files.deep_view(), ("book.toml")@)
    ||| seq_contains_str(files.config_files.deep_view(), ("mkdocs.yml")@)
    ||| ext_count(files.source_extensions.deep_view(), (".md")@) > 5
}

/// How many programming languages were detected.
pub open spec fn lang_flag_count(files: DetectedFiles, meta: ExtractedMetadata) -> int {
    (if rust_flag(files, meta) {
        1int
    } else {
        0int
    }) + (if python_flag(files, meta) {
        1int
    } else {
        0int
    }) + (if node_flag(files) {
        1int
    } else {
        0int
    }) + (if go_flag(files) {
        1int
    } else {
        0int
    }) + (if java_flag(files) {
        1int
    } else {
        0int
    })
}

/// The language names of a polyglot classification, in detection order.
pub open spec fn polyglot_names(files: DetectedFiles, meta: ExtractedMetadata) -> Seq<Seq<char>> {
    (if rust_flag(files, meta) {
        seq![("Rust")@]
    } else {
        Seq::empty()
    }) + (if python_flag(files, meta) {
        seq![("Python")@]
    } else {
        Seq::empty()
    }) + (if node_flag(files) {
        if ts_flag(files) {
            seq![("TypeScript")@]
        } else {
            seq![("JavaScript")@]
        }
    } else {
        Seq::empty()
    }) + (if go_flag(files) {
        seq![("Go")@]
    } else {
        Seq::empty()
    }) + (if java_flag(files) {
        seq![("Java")@]
    } else {
        Seq::empty()
    })
}

/// The classification when at most one language was detected: each detected
/// type in order, documentation last.
pub open spec fn base_types(files: DetectedFiles, meta: ExtractedMetadata) -> Seq<ProjectType> {
    (if rust_flag(files, meta) {
        seq![ProjectType::Rust]
    } else {
        Seq::empty()
    }) + (if python_flag(files, meta) {
        seq![ProjectType::Python]
    } else {
        Seq::empty()
    }) + (if node_flag(files) {
        if ts_flag(files) {
            seq![ProjectType::TypeScript]
        } else {
            seq![ProjectType::JavaScript]
        }
    } else {
        Seq::empty()
    }) + (if go_flag(files) {
        seq![ProjectType::Go]
    } else {
        Seq::empty()
    }) + (if java_flag(files) {
        seq![ProjectType::Java]
    } else {
        Seq::empty()
    }) + (if doc_flag(files) {
        seq![ProjectType::Documentation]
    } else {
        Seq::empty()
    })
}

/// The classification a lone primary-language extension yields.
pub open spec fn ext_type(e: Seq<char>) -> Seq<ProjectType> {
    if e == (".rs")@ {
        seq![ProjectType::Rust]
    } else if e == (".py")@ {
        seq![ProjectType::Python]
    } else if e == (".ts")@ || e == (".tsx")@ {
        seq![ProjectType::TypeScript]
    } else if e == (".js")@ || e == (".jsx")@ {
        seq![ProjectType::JavaScript]
    } else if e == (".go")@ {
        seq![ProjectType::Go]
    } else if e == (".java")@ {
        seq![ProjectType::Java]
    } else {
        Seq::empty()
    }
}

/// The list holds exactly this name.
fn list_contains(v: &Vec<String>, x: &str) -> (r: bool)
    ensures
        r == seq_contains_str(v.deep_view(), x@),
{
    let n = v.len();
    let mut k: usize = 0;
    while k < n
        invariant
            k <= n,
            n == v@.len(),
            n == v.deep_view().len(),
            forall|q: int| 0 <= q < k ==> #[trigger] v.deep_view()[q] != x@,
        decreases n - k,
    {
        if str_eq(v[k].as_str(), x) {
            proof {
                assert(v.deep_view()[k as int] == x@);
            }
            return true;
        }
        k = k + 1;
    }
    false
}

/// Some counted extension equals `x`.
fn has_ext_exec(exts: &Vec<(String, u32)>, x: &str) -> (r: bool)
    ensures
        r == has_ext(exts.deep_view(), x@),
{
    let n = exts.len();
    let mut k: usize = 0;
    while k < n
        invariant
            k <= n,
            n == exts@.len(),
            n == exts.deep_view().len(),
            forall|q: int| 0 <= q < k ==> (#[trigger] exts.deep_view()[q]).0 != x@,
        decreases n - k,
    {
        if str_eq(exts[k].0.as_str(), x) {
            proof {
                assert(exts.deep_view()[k as int].0 == x@);
            }
            return true;
        }
        k = k + 1;
    }
    false
}

/// The count recorded for `x`: the first matching entry, or zero.
fn ext_count_exec(exts: &Vec<(String, u32)>, x: &str) -> (r: u32)
    ensures
        r == ext_count(exts.deep_view(), x@),
{
    let ghost dv = exts.deep_view();
    let n = exts.len();
    let mut k: usize = 0;
    proof {
        assert(dv.skip(0) =~= dv);
    }
    while k < n
        invariant
            k <= n,
            n == exts@.len(),
            n == dv.len(),
            dv == exts.deep_view(),
            ext_count(dv, x@) == ext_count(dv.skip(k as int), x@),
        decreases n - k,
    {
        proof {
            assert(dv.skip(k as int)[0] == dv[k as int]);
            assert(dv.skip(k as int).drop_first() =~= dv.skip(k as int + 1));
        }
        if str_eq(exts[k].0.as_str(), x) {
            proof {
                assert(dv[k as int].0 == x@);
                assert(ext_count(dv.skip(k as int), x@) == dv[k as int].1);
            }
            return exts[k].1;
        }
        k = k + 1;
    }
    proof {
        assert(dv.skip(n as int) =~= Seq::<(Seq<char>, u32)>::empty());
    }
    0
}

/// The project detector: the pure classification rules under a
/// configuration.
pub struct ProjectDetector {
    pub config: DetectionConfig,
}

impl ProjectDetector {
    /// A detector under the given configuration.
    pub fn new(config: DetectionConfig) -> (r: Self)
        ensures
            r.config == config,
    {
        ProjectDetector { config }
    }

    /// A detector under the default configuration.
    pub fn with_default_config() -> (r: Self)
        ensures
            r.config.max_depth == 3,
            r.config.timeout_seconds == 5,
            r.config.respect_gitignore,
            r.config.skip_directories.deep_view() =~= seq![
                ("node_modules")@,
                ("target")@,
                (".venv")@,
                ("venv")@,
                ("__pycache__")@,
                (".git")@,
                (".mypy_cache")@,
                (".pytest_cache")@,
            ],
    {
        Self::new(DetectionConfig::default())
    }

    /// The configured scan depth.
    pub fn max_depth(&self) -> (r: usize)
        ensures
            r == self.config.max_depth,
    {
        self.config.max_depth
    }

    /// True for a recognized configuration file name.
    pub fn is_config_file(&self, filename: &str) -> (r: bool)
        ensures
            r == is_config_name(filename@),
    {
        str_eq(filename, "Cargo.toml") || str_eq(filename, "pyproject.toml") || str_eq(
            filename,
            "package.json",
        ) || str_eq(filename, "go.mod") || str_eq(filename, "pom.xml") || str_eq(
            filename,
            "build.gradle",
        ) || str_eq(filename, "composer.json") || str_eq(filename, "Gemfile") || str_eq(
            filename,
            "requirements.txt",
        ) || str_eq(filename, "setup.py") || str_eq(filename, "book.toml") || str_eq(
            filename,
            "mkdocs.yml",
        ) || str_eq(filename, "Dockerfile") || str_eq(filename, "docker-compose.yml") || str_eq(
            filename,
            "Makefile",
        )
    }

    /// True for a recognized documentation file name.
    pub fn is_documentation_file(&self, filename: &str) -> (r: bool)
        ensures
            r == is_documentation_name(filename@),
    {
        str_eq(filename, "README.md") || str_eq(filename, "README.rst") || str_eq(
            filename,
            "README.txt",
        ) || str_eq(filename, "SUMMARY.md") || str_eq(filename, "CHANGELOG.md") || str_eq(
            filename,
            "CONTRIBUTING.md",
        ) || str_eq(filename, "LICENSE") || str_eq(filename, "LICENSE.md")
    }

    /// True for a significant directory name.
    pub fn is_special_directory(&self, dirname: &str) -> (r: bool)
        ensures
            r == is_special_dir_name(dirname@),
    {
        str_eq(dirname, "src") || str_eq(dirname, "lib") || str_eq(dirname, "bin") || str_eq(
            dirname,
            "docs",
        ) || str_eq(dirname, "documentation") || str_eq(dirname, "tests") || str_eq(
            dirname,
            "test",
        ) || str_eq(dirname, "examples") || str_eq(dirname, ".git") || str_eq(dirname, ".github")
            || str_eq(dirname, "target") || str_eq(dirname, "__pycache__") || str_eq(
            dirname,
            ".venv",
        ) || str_eq(dirname, "venv") || str_eq(dirname, "node_modules")
    }

    /// True when the scan skips this directory.
    pub fn should_skip_directory(&self, dirname: &str) -> (r: bool)
        ensures
            r == exists|k: int|
                0 <= k < self.config.skip_directories.deep_view().len()
                    && self.config.skip_directories.deep_view()[k] == dirname@,
    {
        let n = self.config.skip_directories.len();
        let mut k: usize = 0;
        while k < n
            invariant
                k <= n,
                n == self.config.skip_directories@.len(),
                n == self.config.skip_directories.deep_view().len(),
                forall|q: int|
                    0 <= q < k ==> #[trigger] self.config.skip_directories.deep_view()[q]
                        != dirname@,
            decreases n - k,
        {
            if str_eq(self.config.skip_directories[k].as_str(), dirname) {
                proof {
                    assert(self.config.skip_directories.deep_view()[k as int] == dirname@);
                }
                return true;
            }
            k = k + 1;
        }
        false
    }

    /// True for a source-code extension.
    pub fn is_source_extension(&self, extension: &str) -> (r: bool)
        ensures
            r == is_source_ext(extension@),
    {
        str_eq(extension, ".rs") || str_eq(extension, ".py") || str_eq(extension, ".ts") || str_eq(
            extension,
            ".tsx",
        ) || str_eq(extension, ".js") || str_eq(extension, ".jsx") || str_eq(extension, ".go")
            || str_eq(extension, ".java") || str_eq(extension, ".cpp") || str_eq(extension, ".cc")
            || str_eq(extension, ".cxx") || str_eq(extension, ".c") || str_eq(extension, ".h")
            || str_eq(extension, ".md") || str_eq(extension, ".toml") || str_eq(
            extension,
            ".yaml",
        ) || str_eq(extension, ".yml") || str_eq(extension, ".json")
    }

    /// The most common primary-language extension among the counted ones:
    /// the result is a language extension whose count no other language
    /// extension exceeds.
    pub fn get_primary_source_extension(&self, extensions: &Vec<(String, u32)>) -> (r: Option<
        String,
    >)
        ensures
            match r {
                Option::Some(e) => exists|k: int|
                    0 <= k < extensions.deep_view().len() && is_lang_ext(e@) && (
                    #[trigger] extensions.deep_view()[k]).0 == e@ && forall|l: int|
                        0 <= l < extensions.deep_view().len() && is_lang_ext(
                            (#[trigger] extensions.deep_view()[l]).0,
                        ) ==> extensions.deep_view()[l].1 <= extensions.deep_view()[k].1,
                Option::None => forall|l: int|
                    0 <= l < extensions.deep_view().len() ==> !is_lang_ext(
                        (#[trigger] extensions.deep_view()[l]).0,
                    ),
            },
    {
        let n = extensions.len();
        let mut best: Option<usize> = Option::None;
        let mut k: usize = 0;
        while k < n
            invariant
                k <= n,
                n == extensions@.len(),
                n == extensions.deep_view().len(),
                match best {
                    Option::Some(b) => b < k && is_lang_ext(extensions.deep_view()[b as int].0)
                        && forall|l: int|
                        0 <= l < k && is_lang_ext((#[trigger] extensions.deep_view()[l]).0)
                            ==> extensions.deep_view()[l].1 <= extensions.deep_view()[b as int].1,
                    Option::None => forall|l: int|
                        0 <= l < k ==> !is_lang_ext((#[trigger] extensions.deep_view()[l]).0),
                },
            decreases n - k,
        {
            let ext = &extensions[k].0;
            let lang = str_eq(ext.as_str(), ".rs") || str_eq(ext.as_str(), ".py") || str_eq(
                ext.as_str(),
                ".ts",
            ) || str_eq(ext.as_str(), ".tsx") || str_eq(ext.as_str(), ".js") || str_eq(
                ext.as_str(),
                ".jsx",
            ) || str_eq(ext.as_str(), ".go") || str_eq(ext.as_str(), ".java");
            proof {
                assert(extensions.deep_view()[k as int].0 == extensions@[k as int].0@);
                assert(lang == is_lang_ext(extensions.deep_view()[k as int].0));
            }
            if lang {
                match best {
                    Option::None => {
                        best = Option::Some(k);
                    },
                    Option::Some(b) => {
                        if extensions[k].1 > extensions[b].1 {
                            best = Option::Some(k);
                        }
                    },
                }
            }
            k = k + 1;
        }
        match best {
            Option::Some(b) => {
                let e = extensions[b].0.clone();
                proof {
                    assert(e@ =~= extensions@[b as int].0@);
                    assert(extensions.deep_view()[b as int].0 == extensions@[b as int].0@);
                }
                Option::Some(e)
            },
            Option::None => Option::None,
        }
    }

    /// Classifies a scanned directory: one entry per detected language plus
    /// documentation; two or more languages collapse into one polyglot
    /// entry holding their names; with nothing detected, the most common
    /// primary-language extension decides alone.
    pub fn classify_project_types(
        &self,
        detected_files: &DetectedFiles,
        metadata: &ExtractedMetadata,
    ) -> (r: Vec<ProjectType>)
        ensures
            lang_flag_count(*detected_files, *metadata) >= 2 ==> r@.len() == 1 && (r@[0] matches
                ProjectType::Polyglot(ns) && ns.deep_view() == polyglot_names(
                *detected_files,
                *metadata,
            )),
            lang_flag_count(*detected_files, *metadata) < 2 && base_types(
                *detected_files,
                *metadata,
            ).len() > 0 ==> r@ == base_types(*detected_files, *metadata),
            base_types(*detected_files, *metadata).len() == 0 ==> {
                let dv = detected_files.source_extensions.deep_view();
                &&& r@.len() <= 1
                &&& (r@.len() == 0 ==> forall|l: int|
                    0 <= l < dv.len() ==> !is_lang_ext((#[trigger] dv[l]).0))
                &&& (r@.len() == 1 ==> exists|k: int|
                    0 <= k < dv.len() && is_lang_ext((#[trigger] dv[k]).0) && r@ == ext_type(
                        dv[k].0,
                    ) && forall|l: int|
                        0 <= l < dv.len() && is_lang_ext((#[trigger] dv[l]).0) ==> dv[l].1
                            <= dv[k].1)
            },
    {
        let cf = &detected_files.config_files;
        let exts = &detected_files.source_extensions;
        let rust = metadata.cargo.is_some() || list_contains(cf, "Cargo.toml");
        let python = metadata.python.is_some() || list_contains(cf, "pyproject.toml");
        let node = list_contains(cf, "package.json");
        let has_ts = has_ext_exec(exts, ".ts") || has_ext_exec(exts, ".tsx");
        let go = list_contains(cf, "go.mod");
        let java = list_contains(cf, "pom.xml") || list_contains(cf, "build.gradle");
        let doc = list_contains(cf, "book.toml") || list_contains(cf, "mkdocs.yml")
            || ext_count_exec(exts, ".md") > 5;
        let mut lang_count: u32 = 0;
        if rust {
            lang_count = lang_count + 1;
        }
        if python {
            lang_count = lang_count + 1;
        }
        if node {
            lang_count = lang_count + 1;
        }
        if go {
            lang_count = lang_count + 1;
        }
        if java {
            lang_count = lang_count + 1;
        }
        proof {
            assert(lang_count as int == lang_flag_count(*detected_files, *metadata));
        }
        if lang_count >= 2 {
            let mut names: Vec<String> = Vec::new();
            if rust {
                names.push(String::from_str("Rust"));
            }
            if python {
                names.push(String::from_str("Python"));
            }
            if node {
                if has_ts {
                    names.push(String::from_str("TypeScript"));
                } else {
                    names.push(String::from_str("JavaScript"));
                }
            }
            if go {
                names.push(String::from_str("Go"));
            }
            if java {
                names.push(String::from_str("Java"));
            }
            proof {
                assert(names.deep_view() =~= polyglot_names(*detected_files, *metadata));
            }
            let mut r: Vec<ProjectType> = Vec::new();
            r.push(ProjectType::Polyglot(names));
            r
        } else if rust || python || node || go || java || doc {
            let mut r: Vec<ProjectType> = Vec::new();
            if rust {
                r.push(ProjectType::Rust);
            }
            if python {
                r.push(ProjectType::Python);
            }
            if node {
                if has_ts {
                    r.push(ProjectType::TypeScript);
                } else {
                    r.push(ProjectType::JavaScript);
                }
            }
            if go {
                r.push(ProjectType::Go);
            }
            if java {
                r.push(ProjectType::Java);
            }
            if doc {
                r.push(ProjectType::Documentation);
            }
            proof {
                assert(r@ =~= base_types(*detected_files, *metadata));
            }
            r
        } else {
            let mut r: Vec<ProjectType> = Vec::new();
            match self.get_primary_source_extension(exts) {
                Option::None => {
                },
                Option::Some(e) => {
                    if str_eq(e.as_str(), ".rs") {
                        r.push(ProjectType::Rust);
                    } else if str_eq(e.as_str(), ".py") {
                        r.push(ProjectType::Python);
                    } else if str_eq(e.as_str(), ".ts") || str_eq(e.as_str(), ".tsx") {
                        r.push(ProjectType::TypeScript);
                    } else if str_eq(e.as_str(), ".js") || str_eq(e.as_str(), ".jsx") {
                        r.push(ProjectType::JavaScript);
                    } else if str_eq(e.as_str(), ".go") {
                        r.push(ProjectType::Go);
                    } else {
                        r.push(ProjectType::Java);
                    }
                    proof {
                        assert(r@ =~= ext_type(e@));
                    }
                },
            }
            r
        }
    }

    /// A one-line human-readable project summary: the detected types, the
    /// manifest description when one was extracted, and the repository
    /// remote when known.
    pub fn generate_summary(
        &self,
        types: &Vec<ProjectType>,
        metadata: &ExtractedMetadata,
    ) -> (r: String)
        ensures
            r@ == summary_spec(types@, *metadata),
    {
        let mut out: String;
        let n = types.len();
        if n == 0 {
            out = String::from_str("Unknown project type");
        } else {
            out = String::new();
            let mut k: usize = 0;
            while k < n
                invariant
                    k <= n,
                    n == types@.len(),
                    out@ == joined_labels(types@.subrange(0, k as int)),
                decreases n - k,
            {
                if k > 0 {
                    out.append(" and ");
                }
                let lbl = label_string(&types[k]);
                out.append(lbl.as_str());
                proof {
                    lemma_joined_push(types@.subrange(0, k as int), types@[k as int]);
                    assert(types@.subrange(0, k as int + 1) =~= types@.subrange(
                        0,
                        k as int,
                    ).push(types@[k as int]));
                }
                k = k + 1;
            }
            proof {
                assert(types@.subrange(0, n as int) =~= types@);
            }
            out.append(" project");
        }
        match &metadata.cargo {
            Option::Some(c) => {
                match &c.description {
                    Option::Some(d) => {
                        out.append(" (");
                        out.append(d.as_str());
                        out.append(")");
                    },
                    Option::None => {},
                }
            },
            Option::None => {
                match &metadata.python {
                    Option::Some(py) => {
                        match &py.description {
                            Option::Some(d) => {
                                out.append(" (");
                                out.append(d.as_str());
                                out.append(")");
                            },
                            Option::None => {},
                        }
                    },
                    Option::None => {},
                }
            },
        }
        match &metadata.git {
            Option::Some(g) => {
                match &g.remote {
                    Option::Some(rm) => {
                        out.append(" from ");
                        out.append(rm.as_str());
                    },
                    Option::None => {},
                }
            },
            Option::None => {},
        }
        out
    }
}

/// The display label of a project type.
pub open spec fn label_of(t: ProjectType) -> Seq<char> {
    match t {
        ProjectType::Rust => ("Rust")@,
        ProjectType::Python => ("Python")@,
        ProjectType::TypeScript => ("TypeScript")@,
        ProjectType::JavaScript => ("JavaScript")@,
        ProjectType::Go => ("Go")@,
        ProjectType::Java => ("Java")@,
        ProjectType::Documentation => ("Documentation")@,
        ProjectType::Polyglot(_) => ("Polyglot")@,
    }
}

/// The display label of a project type.
fn label_string(t: &ProjectType) -> (r: String)
    ensures
        r@ == label_of(*t),
{
    match t {
        ProjectType::Rust => String::from_str("Rust"),
        ProjectType::Python => String::from_str("Python"),
        ProjectType::TypeScript => String::from_str("TypeScript"),
        ProjectType::JavaScript => String::from_str("JavaScript"),
        ProjectType::Go => String::from_str("Go"),
        ProjectType::Java => String::from_str("Java"),
        ProjectType::Documentation => String::from_str("Documentation"),
        ProjectType::Polyglot(_) => String::from_str("Polyglot"),
    }
}

/// The type labels joined pairwise.
pub open spec fn joined_labels(ts: Seq<ProjectType>) -> Seq<char>
    decreases ts.len(),
{
    if ts.len() == 0 {
        Seq::empty()
    } else if ts.len() == 1 {
        label_of(ts[0])
    } else {
        label_of(ts[0]) + (" and ")@ + joined_labels(ts.drop_first())
    }
}

/// Appending one type extends the joined labels at the back.
proof fn lemma_joined_push(ts: Seq<ProjectType>, t: ProjectType)
    ensures
        joined_labels(ts.push(t)) == if ts.len() == 0 {
            label_of(t)
        } else {
            joined_labels(ts) + (" and ")@ + label_of(t)
        },
    decreases ts.len(),
{
    if ts.len() == 0 {
        assert(ts.push(t).len() == 1);
        assert(ts.push(t)[0] == t);
    } else {
        assert(ts.push(t)[0] == ts[0]);
        assert(ts.push(t).drop_first() =~= ts.drop_first().push(t));
        lemma_joined_push(ts.drop_first(), t);
        if ts.len() == 1 {
            assert(ts.drop_first().len() == 0);
            assert(joined_labels(ts.push(t)) == label_of(ts[0]) + (" and ")@ + label_of(t));
            assert(joined_labels(ts) == label_of(ts[0]));
        } else {
            assert(joined_labels(ts) + (" and ")@ + label_of(t) =~= label_of(ts[0]) + (" and ")@
                + (joined_labels(ts.drop_first()) + (" and ")@ + label_of(t)));
        }
    }
}

/// The headline of a summary: the joined labels, or a fallback.
pub open spec fn type_desc(ts: Seq<ProjectType>) -> Seq<char> {
    if ts.len() == 0 {
        ("Unknown project type")@
    } else {
        joined_labels(ts) + (" project")@
    }
}

/// The whole summary: headline, manifest description, repository remote.
pub open spec fn summary_spec(ts: Seq<ProjectType>, meta: ExtractedMetadata) -> Seq<char> {
    let base = type_desc(ts);
    let with_desc = match meta.cargo {
        Option::Some(c) => match c.description {
            Option::Some(d) => base + (" (")@ + d@ + (")")@,
            Option::None => base,
        },
        Option::None => match meta.python {
            Option::Some(py) => match py.description {
                Option::Some(d) => base + (" (")@ + d@ + (")")@,
                Option::None => base,
            },
            Option::None => base,
        },
    };
    match meta.git {
        Option::Some(g) => match g.remote {
            Option::Some(rm) => with_desc + (" from ")@ + rm@,
            Option::None => with_desc,
        },
        Option::None => with_desc,
    }
}

} // verus!
