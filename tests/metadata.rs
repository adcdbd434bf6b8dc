use system_deps_binary::artifact::{read_artifacts, read_config, toml_err};
use system_deps_binary::config::{merge, ConfigValue};
use system_deps_binary::error::ConfigError;
use system_deps_binary::graph::{walk, Dependency, DependencyKind, Metadata, Package};
use system_deps_binary::resolve::read_metadata;

fn text(s: &str) -> ConfigValue {
    ConfigValue::Text(s.to_string())
}

fn integer(s: &str) -> ConfigValue {
    ConfigValue::Integer(s.to_string())
}

fn table(entries: Vec<(&str, ConfigValue)>) -> ConfigValue {
    ConfigValue::Table(entries.into_iter().map(|(k, v)| (k.to_string(), v)).collect())
}

fn dep(name: &str, kind: DependencyKind) -> Dependency {
    Dependency { name: name.to_string(), kind }
}

fn package(name: &str, metadata: ConfigValue, dependencies: Vec<Dependency>) -> Package {
    Package { name: name.to_string(), metadata, dependencies }
}

/// A graph whose root declares `section` under `key`.
fn single(key: &str, section: ConfigValue) -> Metadata {
    Metadata {
        packages: vec![package("testlib", table(vec![(key, section)]), vec![])],
        root: Some(0),
        workspace_members: vec![],
        workspace_metadata: ConfigValue::Null,
    }
}

fn lookup<'a>(entries: &'a [(String, ConfigValue)], key: &str) -> Option<&'a ConfigValue> {
    entries.iter().find(|(k, _)| k == key).map(|(_, v)| v)
}

#[test]
fn not_table() {
    let m = single("pkg-config", text("oops"));
    assert!(toml_err(&m, "pkg-config", "package.metadata.pkg-config not a table in"));
    assert!(toml_err(&m, "pkg-config", "package.metadata.pkg-config not a table in testlib"));
}

#[test]
fn missing_source() {
    let m = single("pkg-config", table(vec![("testlib", table(vec![("checksum", text("abc"))]))]));
    assert!(toml_err(&m, "pkg-config", "No source in package.metadata.pkg-config.testlib"));
}

#[test]
fn entry_not_table() {
    let m = single("pkg-config", table(vec![("testlib", text("1.2.3"))]));
    assert!(toml_err(&m, "pkg-config", "package.metadata.pkg-config.testlib not a table"));
}

#[test]
fn source_not_string() {
    let m = single("pkg-config", table(vec![("testlib", table(vec![("source", integer("5"))]))]));
    assert!(toml_err(
        &m,
        "pkg-config",
        "Unexpected key package.metadata.pkg-config.testlib.source type integer"
    ));
}

#[test]
fn checksum_not_string() {
    let m = single(
        "pkg-config",
        table(vec![(
            "testlib",
            table(vec![("source", text("https://example.test/a.zip")), ("checksum", integer("5"))]),
        )]),
    );
    assert!(toml_err(
        &m,
        "pkg-config",
        "Unexpected key package.metadata.pkg-config.testlib.checksum type integer"
    ));
}

#[test]
fn unexpected_key() {
    // a key that no field reads is left alone
    let ok = single(
        "pkg-config",
        table(vec![(
            "testlib",
            table(vec![("source", text("https://example.test/a.zip")), ("color", text("blue"))]),
        )]),
    );
    assert!(!toml_err(&ok, "pkg-config", ""));
    assert_eq!(read_config(&ok, "pkg-config").unwrap()[0].source, "https://example.test/a.zip");
    // a field that holds a value of the wrong kind is reported under its key
    let m = single(
        "pkg-config",
        table(vec![(
            "testlib",
            table(vec![("source", text("https://example.test/a.zip")), ("subPaths", text("lib"))]),
        )]),
    );
    assert!(toml_err(
        &m,
        "pkg-config",
        "Unexpected key package.metadata.pkg-config.testlib.subPaths type string"
    ));
    assert!(!toml_err(&m, "pkg-config", "No source"));
}

#[test]
fn sub_path_item_not_string() {
    let m = single(
        "system-deps",
        table(vec![(
            "libfoo",
            table(vec![
                ("source", text("https://example.test/a.zip")),
                ("subPaths", ConfigValue::List(vec![text("lib"), ConfigValue::Bool(true)])),
            ]),
        )]),
    );
    assert!(toml_err(
        &m,
        "system-deps",
        "Unexpected key package.metadata.system-deps.libfoo.subPaths type boolean"
    ));
}

#[test]
fn workspace_section_not_table() {
    let m = Metadata {
        packages: vec![package("a", ConfigValue::Null, vec![])],
        root: Some(0),
        workspace_members: vec![],
        workspace_metadata: table(vec![("system-deps", ConfigValue::List(vec![]))]),
    };
    assert_eq!(
        read_metadata(&m, "system-deps").unwrap_err().description(),
        "workspace.metadata.system-deps not a table"
    );
}

#[test]
fn valid_config_is_no_error() {
    let m = single(
        "system-deps",
        table(vec![("libfoo", table(vec![("source", text("https://example.test/libfoo.tar.gz"))]))]),
    );
    assert!(!toml_err(&m, "system-deps", ""));
    let specs = read_config(&m, "system-deps").unwrap();
    assert_eq!(specs.len(), 1);
    assert_eq!(specs[0].name, "libfoo");
    assert_eq!(specs[0].source, "https://example.test/libfoo.tar.gz");
    assert_eq!(specs[0].checksum, None);
    assert!(specs[0].sub_paths.is_empty());
}

#[test]
fn closer_package_wins_scalar() {
    // root -> a -> b; both a and b declare libfoo.source
    let m = Metadata {
        packages: vec![
            package("root", ConfigValue::Null, vec![dep("a", DependencyKind::Normal)]),
            package(
                "a",
                table(vec![("system-deps", table(vec![("libfoo", table(vec![("source", text("A"))]))]))]),
                vec![dep("b", DependencyKind::Build)],
            ),
            package(
                "b",
                table(vec![(
                    "system-deps",
                    table(vec![
                        ("libfoo", table(vec![("source", text("B")), ("checksum", text("cb"))])),
                        ("libbar", table(vec![("source", text("C"))])),
                    ]),
                )]),
                vec![],
            ),
        ],
        root: Some(0),
        workspace_members: vec![],
        workspace_metadata: ConfigValue::Null,
    };
    let merged = read_metadata(&m, "system-deps").unwrap();
    assert_eq!(merged.len(), 2);
    assert_eq!(merged[0].0, "libfoo");
    assert_eq!(
        merged[0].1,
        table(vec![("source", text("A")), ("checksum", text("cb"))])
    );
    assert_eq!(lookup(&merged, "libbar"), Some(&table(vec![("source", text("C"))])));
    let specs = read_artifacts("system-deps", &merged).unwrap();
    assert_eq!(specs[0].source, "A");
    assert_eq!(specs[0].checksum, Some("cb".to_string()));
    assert_eq!(specs[1].name, "libbar");
}

#[test]
fn workspace_section_comes_first() {
    let m = Metadata {
        packages: vec![package(
            "root",
            table(vec![("system-deps", table(vec![("libfoo", table(vec![("source", text("pkg"))]))]))]),
            vec![],
        )],
        root: None,
        workspace_members: vec![0],
        workspace_metadata: table(vec![(
            "system-deps",
            table(vec![("libfoo", table(vec![("source", text("ws"))]))]),
        )]),
    };
    let merged = read_metadata(&m, "system-deps").unwrap();
    assert_eq!(merged, vec![("libfoo".to_string(), table(vec![("source", text("ws"))]))]);
}

#[test]
fn merge_keeps_first_and_merges_tables() {
    let a = table(vec![("x", integer("1")), ("t", table(vec![("p", text("a"))]))]);
    let b = table(vec![
        ("x", integer("2")),
        ("t", table(vec![("p", text("b")), ("q", text("b"))])),
        ("y", ConfigValue::Bool(false)),
    ]);
    let m = merge(a, b);
    assert_eq!(
        m,
        table(vec![
            ("x", integer("1")),
            ("t", table(vec![("p", text("a")), ("q", text("b"))])),
            ("y", ConfigValue::Bool(false)),
        ])
    );
}

#[test]
fn missing_key() {
    // no package declares a section under the key: nothing to provision, no error
    let m = single("other", table(vec![("testlib", table(vec![("source", text("x.zip"))]))]));
    assert!(!toml_err(&m, "pkg-config", ""));
    assert!(read_config(&m, "pkg-config").unwrap().is_empty());
    assert!(read_metadata(&m, "pkg-config").unwrap().is_empty());
}

#[test]
fn merge_into_null_takes_contribution() {
    let b = table(vec![("x", integer("1")), ("t", table(vec![]))]);
    assert_eq!(merge(ConfigValue::Null, b.duplicate()), b);
    assert_eq!(merge(ConfigValue::Null, text("s")), text("s"));
    assert_eq!(merge(ConfigValue::Null, table(vec![])), table(vec![]));
}

#[test]
fn merge_keeps_non_table() {
    let m = merge(integer("3"), table(vec![("x", integer("1"))]));
    assert_eq!(m, integer("3"));
    let m = merge(table(vec![("x", table(vec![]))]), table(vec![("x", text("s"))]));
    assert_eq!(m, table(vec![("x", table(vec![]))]));
}

#[test]
fn walk_visits_once_and_follows_normal_and_build() {
    // diamond root -> a, b; a -> c; b -> c; c -> root (cycle); root -dev-> d; a -> missing
    let m = Metadata {
        packages: vec![
            package(
                "root",
                ConfigValue::Null,
                vec![
                    dep("a", DependencyKind::Normal),
                    dep("b", DependencyKind::Build),
                    dep("d", DependencyKind::Other),
                ],
            ),
            package("a", ConfigValue::Null, vec![dep("c", DependencyKind::Normal), dep("missing", DependencyKind::Normal)]),
            package("b", ConfigValue::Null, vec![dep("c", DependencyKind::Normal)]),
            package("c", ConfigValue::Null, vec![dep("root", DependencyKind::Normal)]),
            package("d", ConfigValue::Null, vec![]),
        ],
        root: Some(0),
        workspace_members: vec![],
        workspace_metadata: ConfigValue::Null,
    };
    assert_eq!(walk(&m), vec![0, 1, 2, 3]);
}

#[test]
fn walk_from_workspace_members() {
    let m = Metadata {
        packages: vec![
            package("w1", ConfigValue::Null, vec![dep("shared", DependencyKind::Normal)]),
            package("w2", ConfigValue::Null, vec![dep("shared", DependencyKind::Normal)]),
            package("shared", ConfigValue::Null, vec![]),
        ],
        root: None,
        workspace_members: vec![0, 1],
        workspace_metadata: ConfigValue::Null,
    };
    assert_eq!(walk(&m), vec![0, 1, 2]);
}

#[test]
fn duplicate_copies_value() {
    let v = table(vec![("l", ConfigValue::List(vec![integer("1"), ConfigValue::Float("1.5".to_string())]))]);
    assert_eq!(v.duplicate(), v);
}

#[test]
fn config_error_descriptions() {
    let e = ConfigError::MissingSource { key: "k".to_string(), name: "n".to_string() };
    assert_eq!(e.description(), "No source in package.metadata.k.n");
    let e = ConfigError::EntryNotTable { key: "k".to_string(), name: "n".to_string() };
    assert_eq!(e.description(), "package.metadata.k.n not a table");
}
