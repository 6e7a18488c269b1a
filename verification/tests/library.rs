use std::io::{Cursor, Write};

use jarindex::cache::{
    file_name_of, first_jar, group_artifact_from_path, is_jar, resolve_artifact, version_dir_path,
    GroupArtifact,
};
use jarindex::coord::{CoordParseError, Coordinate};
use jarindex::index::{ClassRecord, Index};
use jarindex::scanner::{scan_archive, ScanError};
use jarindex::versions::semver_greatest_first;

fn strings(items: &[&str]) -> Vec<String> {
    items.iter().map(|s| s.to_string()).collect()
}

fn coordinate(group: &str, name: &str, version: &str) -> Coordinate {
    Coordinate::new(group.to_string(), name.to_string(), version.to_string())
}

/// Builds an in-memory archive holding the given entry names.
fn archive_with(entries: &[&str]) -> Vec<u8> {
    let mut buf = Cursor::new(Vec::new());
    {
        let mut writer = zip::ZipWriter::new(&mut buf);
        let options = zip::write::SimpleFileOptions::default()
            .compression_method(zip::CompressionMethod::Stored);
        for entry in entries {
            writer.start_file(*entry, options).unwrap();
            writer.write_all(b"payload").unwrap();
        }
        writer.finish().unwrap();
    }
    buf.into_inner()
}

#[test]
fn sort_newest_first() {
    let vec = vec![
        "1.0.0".to_string(),
        "2.0.0".to_string(),
        "3.0.0".to_string(),
        "5.3.4.Final".to_string(),
    ];

    let (orderable, non_orderable) = semver_greatest_first(vec);

    assert_eq!(orderable, vec!["3.0.0", "2.0.0", "1.0.0"]);
    assert_eq!(non_orderable, vec!["5.3.4.Final"]);
}

#[test]
fn serde_for_gavs() -> Result<(), std::io::Error> {
    let version = coordinate("com.google.guava", "guava", "23.6-jre");
    let result = serde_json::to_string(&version.canonical_string())?;

    assert_eq!(result, "\"com.google.guava:guava:23.6-jre\"");

    let raw: String = serde_json::from_str("\"com.google.guava:guava:23.6-jre\"")?;
    let deserialized = Coordinate::parse(&raw).unwrap();

    assert_eq!(deserialized, version);

    Ok(())
}

#[test]
fn canonical_round_trip() {
    let c = coordinate("com.google.guava", "guava", "23.6-jre");
    let rendered = c.canonical_string();
    assert_eq!(rendered, "com.google.guava:guava:23.6-jre");
    let parsed = Coordinate::parse(&rendered).unwrap();
    assert_eq!(parsed, c);
    assert_eq!(parsed.canonical_string(), rendered);
}

#[test]
fn parse_rejects_wrong_field_count() {
    let zero = Coordinate::parse("no-separators-here");
    match zero {
        Err(CoordParseError::FieldCount { colons }) => assert_eq!(colons, 0),
        _ => panic!("a string without separators must be rejected"),
    }
    let one = Coordinate::parse("group:name");
    match one {
        Err(CoordParseError::FieldCount { colons }) => assert_eq!(colons, 1),
        _ => panic!("two fields must be rejected"),
    }
    let three = Coordinate::parse("a:b:c:d");
    match three {
        Err(CoordParseError::FieldCount { colons }) => assert_eq!(colons, 3),
        _ => panic!("four fields must be rejected"),
    }
}

#[test]
fn distinct_strings_parse_to_distinct_triples() {
    let a = Coordinate::parse("com.foo:bar:1.2.3").unwrap();
    let b = Coordinate::parse("com.foo:bar:1.2.4").unwrap();
    assert_ne!(a, b);
}

#[test]
fn scan_is_deterministic() {
    let bytes = archive_with(&[
        "com/google/common/collect/ImmutableList.class",
        "com/google/common/collect/ImmutableList$Builder.class",
        "META-INF/MANIFEST.MF",
    ]);
    let first = scan_archive(bytes.clone()).unwrap();
    let second = scan_archive(bytes).unwrap();
    assert_eq!(first, second);
}

#[test]
fn scan_keeps_only_plain_class_entries() {
    let bytes = archive_with(&[
        "com/google/common/collect/ImmutableList.class",
        "com/google/common/collect/ImmutableList$Builder.class",
        "com/google/common/collect/CacheKey$1.class",
        "META-INF/MANIFEST.MF",
        "com/google/common/collect/package-info.class",
    ]);
    let classes = scan_archive(bytes).unwrap();
    assert_eq!(
        classes,
        vec![
            "com/google/common/collect/ImmutableList",
            "com/google/common/collect/package-info",
        ]
    );
}

#[test]
fn scan_of_empty_archive_is_empty() {
    let bytes = archive_with(&[]);
    let classes = scan_archive(bytes).unwrap();
    assert!(classes.is_empty());
}

#[test]
fn scan_rejects_corrupt_archive() {
    let result = scan_archive(b"this is not an archive".to_vec());
    assert!(matches!(result, Err(ScanError::Archive)));
}

#[test]
fn empty_index_from_no_records() {
    let index = Index::build(Vec::new());
    assert_eq!(index.len(), 0);
}

#[test]
fn index_retains_shadowing_coordinates_sorted() {
    let records = vec![
        ClassRecord {
            class: "org/slf4j/Logger".to_string(),
            coord: coordinate("org.slf4j", "slf4j-api", "1.7.25"),
        },
        ClassRecord {
            class: "org/slf4j/Logger".to_string(),
            coord: coordinate("ch.qos.logback", "logback-classic", "1.2.3"),
        },
    ];
    let index = Index::build(records);
    assert_eq!(index.len(), 1);
    let coords = index.lookup(&"org/slf4j/Logger".to_string());
    assert_eq!(coords.len(), 2);
    // both owners are retained, sorted by (group, name, version)
    assert_eq!(coords[0], coordinate("ch.qos.logback", "logback-classic", "1.2.3"));
    assert_eq!(coords[1], coordinate("org.slf4j", "slf4j-api", "1.7.25"));
}

#[test]
fn merge_order_does_not_matter() {
    let mut forward = Vec::new();
    let mut backward = Vec::new();
    let raw = [
        ("a/One", "g1", "a1", "1.0.0"),
        ("b/Two", "g2", "a2", "2.0.0"),
        ("a/One", "g3", "a3", "3.0.0"),
        ("c/Three", "g1", "a1", "1.0.0"),
    ];
    for (class, g, n, v) in raw.iter() {
        forward.push(ClassRecord { class: class.to_string(), coord: coordinate(g, n, v) });
    }
    for (class, g, n, v) in raw.iter().rev() {
        backward.push(ClassRecord { class: class.to_string(), coord: coordinate(g, n, v) });
    }
    let one = Index::build(forward);
    let two = Index::build(backward);
    assert_eq!(one.len(), two.len());
    for i in 0..one.len() {
        assert_eq!(one.class_at(i), two.class_at(i));
        let c1 = one.lookup(one.class_at(i));
        let c2 = two.lookup(two.class_at(i));
        assert_eq!(c1, c2);
    }
}

#[test]
fn index_keys_are_sorted_and_displayed_dotted() {
    let records = vec![
        ClassRecord {
            class: "org/slf4j/Logger".to_string(),
            coord: coordinate("org.slf4j", "slf4j-api", "1.7.25"),
        },
        ClassRecord {
            class: "com/google/common/collect/ImmutableList".to_string(),
            coord: coordinate("com.google.guava", "guava", "27.1-jre"),
        },
    ];
    let index = Index::build(records);
    let keys = index.display_keys();
    assert_eq!(
        keys,
        vec!["com.google.common.collect.ImmutableList", "org.slf4j.Logger"]
    );
}

#[test]
fn lookup_of_missing_class_is_empty() {
    let index = Index::build(Vec::new());
    let coords = index.lookup(&"does/not/Exist".to_string());
    assert!(coords.is_empty());
}

#[test]
fn cancelled_selection_yields_empty_result() {
    let records = vec![ClassRecord {
        class: "a/B".to_string(),
        coord: coordinate("g", "a", "1.0.0"),
    }];
    let index = Index::build(records);
    let cancelled = index.resolve_selection(None);
    assert!(cancelled.is_empty());
    let chosen = index.resolve_selection(Some(0));
    assert_eq!(chosen, vec![coordinate("g", "a", "1.0.0")]);
}

#[test]
fn is_jar_excludes_sources_variant() {
    assert!(is_jar("guava-27.1-jre.jar"));
    assert!(!is_jar("guava-27.1-jre-sources.jar"));
    assert!(!is_jar("guava-27.1-jre.pom"));
    assert!(!is_jar("guava.jar.txt"));
}

#[test]
fn first_jar_takes_first_qualifying_file() {
    let paths = strings(&[
        "resources/g/a/1.0.0/hash/a-1.0.0.pom",
        "resources/g/a/1.0.0/hash/a-1.0.0-sources.jar",
        "resources/g/a/1.0.0/hash/a-1.0.0.jar",
        "resources/g/a/1.0.0/hash2/a-1.0.0.jar",
    ]);
    assert_eq!(
        first_jar(&paths),
        Some("resources/g/a/1.0.0/hash/a-1.0.0.jar".to_string())
    );
    let none = strings(&["resources/g/a/1.0.0/hash/a-1.0.0.pom"]);
    assert_eq!(first_jar(&none), None);
}

#[test]
fn file_name_of_takes_last_segment() {
    assert_eq!(file_name_of("a/b/c.jar"), "c.jar");
    assert_eq!(file_name_of("c.jar"), "c.jar");
}

#[test]
fn artifact_dirs_sit_two_segments_below_root() {
    let found = group_artifact_from_path("resources", "resources/com.google.guava/guava");
    let ga = found.unwrap();
    assert_eq!(ga.group, "com.google.guava");
    assert_eq!(ga.name, "guava");
    assert_eq!(ga.path, "resources/com.google.guava/guava");

    assert!(group_artifact_from_path("resources", "resources/onesegment").is_none());
    assert!(group_artifact_from_path("resources", "resources/a/b/c").is_none());
    assert!(group_artifact_from_path("resources", "elsewhere/a/b").is_none());
    assert!(group_artifact_from_path("resources", "resources//b").is_none());
}

#[test]
fn resolve_artifact_picks_greatest_orderable_version() {
    let ga = GroupArtifact {
        group: "com.google.guava".to_string(),
        name: "guava".to_string(),
        path: "resources/com.google.guava/guava".to_string(),
    };
    let versions = strings(&["1.0.0", "3.0.0", "2.0.0", "5.3.4.Final"]);
    let resolved = resolve_artifact(&ga, versions).unwrap();
    assert_eq!(resolved, coordinate("com.google.guava", "guava", "3.0.0"));

    let opaque_only = strings(&["5.3.4.Final", "RELEASE"]);
    assert!(resolve_artifact(&ga, opaque_only).is_none());
}

#[test]
fn version_dir_path_joins_segments() {
    let ga = GroupArtifact {
        group: "com.google.guava".to_string(),
        name: "guava".to_string(),
        path: "resources/com.google.guava/guava".to_string(),
    };
    assert_eq!(
        version_dir_path(&ga, "27.1-jre"),
        "resources/com.google.guava/guava/27.1-jre"
    );
}
