//! Tests of the project detection rules.

use hippo::project_detection::{ProjectDetector, DetectionConfig, DetectedFiles, ExtractedMetadata, CargoMetadata, GitMetadata, ProjectType};

#[test]
fn test_config_file_detection() {
    let detector = ProjectDetector::with_default_config();

    assert!(detector.is_config_file("Cargo.toml"));
    assert!(detector.is_config_file("pyproject.toml"));
    assert!(detector.is_config_file("package.json"));
    assert!(!detector.is_config_file("main.rs"));
    assert!(!detector.is_config_file("README.md"));
}

#[test]
fn test_source_extension_detection() {
    let detector = ProjectDetector::with_default_config();

    assert!(detector.is_source_extension(".rs"));
    assert!(detector.is_source_extension(".py"));
    assert!(detector.is_source_extension(".ts"));
    assert!(detector.is_source_extension(".md"));
    assert!(!detector.is_source_extension(".txt"));
    assert!(!detector.is_source_extension(".log"));
}

#[test]
fn test_documentation_and_special_directories() {
    let detector = ProjectDetector::with_default_config();

    assert!(detector.is_documentation_file("README.md"));
    assert!(detector.is_documentation_file("LICENSE"));
    assert!(!detector.is_documentation_file("notes.txt"));

    assert!(detector.is_special_directory("src"));
    assert!(detector.is_special_directory(".git"));
    assert!(!detector.is_special_directory("misc"));

    assert!(detector.should_skip_directory("node_modules"));
    assert!(detector.should_skip_directory("__pycache__"));
    assert!(!detector.should_skip_directory("src"));
}

#[test]
fn test_custom_config() {
    let config = DetectionConfig {
        max_depth: 1,
        timeout_seconds: 2,
        respect_gitignore: false,
        skip_directories: vec!["only".to_string()],
    };
    let detector = ProjectDetector::new(config);
    assert_eq!(detector.max_depth(), 1);
    assert!(detector.should_skip_directory("only"));
    assert!(!detector.should_skip_directory("target"));
}

#[test]
fn test_primary_source_extension() {
    let detector = ProjectDetector::with_default_config();

    let counts = vec![
        (".md".to_string(), 40u32),
        (".rs".to_string(), 12u32),
        (".py".to_string(), 3u32),
    ];
    // markdown is not a language extension, so the most common language wins
    assert_eq!(detector.get_primary_source_extension(&counts), Some(".rs".to_string()));

    let none = vec![(".md".to_string(), 9u32), (".toml".to_string(), 2u32)];
    assert_eq!(detector.get_primary_source_extension(&none), None);
}

#[test]
fn test_classify_project_types() {
    let detector = ProjectDetector::with_default_config();
    let no_meta = ExtractedMetadata {
        cargo: None,
        python: None,
        node: None,
        git: None,
        readme: None,
    };

    // one language plus documentation
    let rust_docs = DetectedFiles {
        config_files: vec!["Cargo.toml".to_string(), "book.toml".to_string()],
        source_extensions: vec![(".rs".to_string(), 10)],
        special_directories: vec![],
        documentation_files: vec![],
    };
    let types = detector.classify_project_types(&rust_docs, &no_meta);
    assert!(matches!(types[0], ProjectType::Rust));
    assert!(matches!(types[1], ProjectType::Documentation));
    assert_eq!(types.len(), 2);

    // two languages collapse into one polyglot entry
    let mixed = DetectedFiles {
        config_files: vec!["Cargo.toml".to_string(), "pyproject.toml".to_string()],
        source_extensions: vec![],
        special_directories: vec![],
        documentation_files: vec![],
    };
    let types = detector.classify_project_types(&mixed, &no_meta);
    assert_eq!(types.len(), 1);
    match &types[0] {
        ProjectType::Polyglot(names) => {
            assert_eq!(names, &vec!["Rust".to_string(), "Python".to_string()]);
        },
        other => panic!("expected a polyglot classification, got {other:?}"),
    }

    // nothing configured: the most common language extension decides
    let plain = DetectedFiles {
        config_files: vec![],
        source_extensions: vec![(".md".to_string(), 3), (".py".to_string(), 7)],
        special_directories: vec![],
        documentation_files: vec![],
    };
    let types = detector.classify_project_types(&plain, &no_meta);
    assert_eq!(types.len(), 1);
    assert!(matches!(types[0], ProjectType::Python));

    // nothing at all
    let empty = DetectedFiles {
        config_files: vec![],
        source_extensions: vec![],
        special_directories: vec![],
        documentation_files: vec![],
    };
    assert!(detector.classify_project_types(&empty, &no_meta).is_empty());
}

#[test]
fn test_generate_summary() {
    let detector = ProjectDetector::with_default_config();
    let mut meta = ExtractedMetadata {
        cargo: None,
        python: None,
        node: None,
        git: None,
        readme: None,
    };

    assert_eq!(detector.generate_summary(&vec![], &meta), "Unknown project type");

    let types = vec![ProjectType::Rust, ProjectType::Documentation];
    assert_eq!(detector.generate_summary(&types, &meta), "Rust and Documentation project");

    meta.cargo = Some(CargoMetadata {
        name: "engine".to_string(),
        description: Some("stores insights".to_string()),
        version: "0.1.0".to_string(),
        workspace_members: vec![],
    });
    meta.git = Some(GitMetadata {
        remote: Some("ssh://host/repo".to_string()),
        branch: None,
        is_dirty: false,
    });
    assert_eq!(
        detector.generate_summary(&vec![ProjectType::Rust], &meta),
        "Rust project (stores insights) from ssh://host/repo"
    );
}
