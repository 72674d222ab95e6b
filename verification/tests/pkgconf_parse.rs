use pkgconf::CompilerFlag;
use pkgconf::LinkKind;
use pkgconf::LinkerFlag;
use pkgconf::PkgConfigParser;

#[test]
fn test_parse_given_static_detection() {
    // A directory listed by -L holds libfoo.a but not libpthread.a or
    // libnuma.a, and no system root covers it.
    let parser = PkgConfigParser::new();
    let available = vec!["foo".to_string()];

    let flags = parser.parse_given("-L/opt/vendor/lib -lfoo -lpthread -lnuma", &available);

    assert_eq!(flags.len(), 4);
    assert!(matches!(&flags[0], LinkerFlag::SearchPath(p) if p == "/opt/vendor/lib"));
    assert!(
        matches!(&flags[1], LinkerFlag::Library { name, kind } if name == "foo" && *kind == LinkKind::Static)
    );
    assert!(
        matches!(&flags[2], LinkerFlag::Library { name, kind } if name == "pthread" && *kind == LinkKind::Default)
    );
    assert!(
        matches!(&flags[3], LinkerFlag::Library { name, kind } if name == "numa" && *kind == LinkKind::Default)
    );
}

#[test]
fn test_parse_given_upgrade_on_duplicate() {
    // The same library is mentioned plainly and again inside the retain-all
    // region: one entry, upgraded.
    let parser = PkgConfigParser::new();
    let available = vec!["foo".to_string()];

    let flags = parser.parse_given(
        "-lfoo -Wl,--whole-archive -l:libfoo.a -Wl,--no-whole-archive",
        &available,
    );

    assert_eq!(flags.len(), 1);
    assert!(
        matches!(&flags[0], LinkerFlag::Library { name, kind } if name == "foo" && *kind == LinkKind::WholeArchive)
    );
}

#[test]
fn test_parse_given_no_downgrade() {
    // A library first resolved to WholeArchive keeps it across later
    // mentions outside the region.
    let parser = PkgConfigParser::new();
    let available = vec!["foo".to_string()];

    let flags = parser.parse_given(
        "-Wl,--whole-archive -lfoo -Wl,--no-whole-archive -lfoo",
        &available,
    );

    assert_eq!(flags.len(), 1);
    assert!(
        matches!(&flags[0], LinkerFlag::Library { name, kind } if name == "foo" && *kind == LinkKind::WholeArchive)
    );
}

#[test]
fn test_parse_given_unavailable_never_upgraded() {
    // A library with no static archive resolves to Default and is never
    // upgraded, even when re-mentioned inside the retain-all region.
    let parser = PkgConfigParser::new();
    let available: Vec<String> = Vec::new();

    let flags = parser.parse_given(
        "-lbar -Wl,--whole-archive -lbar -Wl,--no-whole-archive",
        &available,
    );

    assert_eq!(flags.len(), 1);
    assert!(
        matches!(&flags[0], LinkerFlag::Library { name, kind } if name == "bar" && *kind == LinkKind::Default)
    );
}

#[test]
fn test_parse_given_force_whole_archive() {
    // A policy-forced library resolves to WholeArchive outside any region,
    // as long as its archive is available.
    let parser = PkgConfigParser::new().force_whole_archive(vec!["fw".to_string()]);
    let available = vec!["fw".to_string()];

    let flags = parser.parse_given("-lfw", &available);

    assert_eq!(flags.len(), 1);
    assert!(
        matches!(&flags[0], LinkerFlag::Library { name, kind } if name == "fw" && *kind == LinkKind::WholeArchive)
    );
}

#[test]
fn test_parse_given_explicit_archive_name() {
    let parser = PkgConfigParser::new();
    let available = vec!["rte_mempool_ring".to_string()];

    let flags = parser.parse_given("-l:librte_mempool_ring.a", &available);

    assert_eq!(flags.len(), 1);
    assert!(
        matches!(&flags[0], LinkerFlag::Library { name, kind } if name == "rte_mempool_ring" && *kind == LinkKind::Static)
    );
}

#[test]
fn test_parse_given_passthrough_args() {
    // Only allow-listed -Wl arguments survive; the region markers are never
    // emitted.
    let parser = PkgConfigParser::new();
    let available: Vec<String> = Vec::new();

    let flags = parser.parse_given(
        "-Wl,--export-dynamic -Wl,--whole-archive -Wl,--no-whole-archive -Wl,--as-needed",
        &available,
    );

    assert_eq!(flags.len(), 2);
    assert!(matches!(&flags[0], LinkerFlag::LinkerArg(a) if a == "-Wl,--export-dynamic"));
    assert!(matches!(&flags[1], LinkerFlag::LinkerArg(a) if a == "-Wl,--as-needed"));
}

#[test]
fn test_parse_given_pthread_token() {
    // The bare -pthread token emits one Default entry and marks the name
    // seen, so a later -lpthread adds nothing.
    let parser = PkgConfigParser::new();
    let available: Vec<String> = Vec::new();

    let flags = parser.parse_given("-pthread -lpthread", &available);

    assert_eq!(flags.len(), 1);
    assert!(
        matches!(&flags[0], LinkerFlag::Library { name, kind } if name == "pthread" && *kind == LinkKind::Default)
    );
}

#[test]
fn test_parse_probes_missing_archive() {
    // A full parse with a search directory that does not hold the archive:
    // the library defers to the system linker.
    let parser = PkgConfigParser::new();

    let flags = parser.parse("-L/nonexistent_pkgconf_test_dir -lfoo");

    assert_eq!(flags.len(), 2);
    assert!(matches!(&flags[0], LinkerFlag::SearchPath(p) if p == "/nonexistent_pkgconf_test_dir"));
    assert!(
        matches!(&flags[1], LinkerFlag::Library { name, kind } if name == "foo" && *kind == LinkKind::Default)
    );
}

#[test]
fn test_static_available_given_system_root() {
    // The archive exists only under a configured system root: not available.
    let parser = PkgConfigParser::new(); // system root: /usr
    let present = vec![true];
    let dirs = vec!["/usr/lib".to_string()];
    assert!(!parser.static_available_given(&present, &dirs));

    // The same archive outside every system root is available; a string
    // prefix such as /usrlocal is not containment.
    let dirs = vec!["/usrlocal/lib".to_string()];
    assert!(parser.static_available_given(&present, &dirs));

    // An absent archive is not available wherever the directory lies.
    let present = vec![false];
    let dirs = vec!["/opt/vendor/lib".to_string()];
    assert!(!parser.static_available_given(&present, &dirs));
}

#[test]
fn test_static_available_given_custom_roots() {
    let parser =
        PkgConfigParser::new().system_roots(vec!["/usr".to_string(), "/opt/sys".to_string()]);
    let present = vec![true, true];
    let dirs = vec!["/opt/sys/lib".to_string(), "/usr/local/lib".to_string()];
    assert!(!parser.static_available_given(&present, &dirs));

    let dirs = vec!["/opt/sys/lib".to_string(), "/home/build/lib".to_string()];
    assert!(parser.static_available_given(&present, &dirs));
}

#[test]
fn test_probe_classifies_both_outputs() {
    let parser = PkgConfigParser::new();
    let pkg = parser.probe(
        "-L/nonexistent_pkgconf_test_dir -lfoo -pthread",
        "-I/opt/spdk/include -DFOO=1 -O2",
    );

    assert_eq!(pkg.libs.len(), 3);
    assert!(
        matches!(&pkg.libs[0], LinkerFlag::SearchPath(p) if p == "/nonexistent_pkgconf_test_dir")
    );
    assert_eq!(pkg.cflags.len(), 2);
    assert_eq!(
        pkg.cflags[0],
        CompilerFlag::IncludePath("/opt/spdk/include".to_string())
    );
    assert_eq!(
        pkg.cflags[1],
        CompilerFlag::Define {
            key: "FOO".to_string(),
            value: Some("1".to_string())
        }
    );
}

#[test]
fn test_scenario_cflags_classification() {
    // Recognized tokens survive in order, everything else is dropped.
    let parser = PkgConfigParser::new();
    let flags = parser.parse_cflags("-I/a -std=c11 -DX -Wall -I/b");

    assert_eq!(
        flags,
        vec![
            CompilerFlag::IncludePath("/a".to_string()),
            CompilerFlag::Define {
                key: "X".to_string(),
                value: None
            },
            CompilerFlag::IncludePath("/b".to_string()),
        ]
    );
}

#[test]
fn test_cflags_distinct_define_tokens() {
    // -DFOO and -DFOO=1 are different tokens: both survive deduplication.
    let parser = PkgConfigParser::new();
    let flags = parser.parse_cflags("-DFOO -DFOO=1 -DFOO -DFOO=1");

    assert_eq!(flags.len(), 2);
    assert_eq!(
        flags[0],
        CompilerFlag::Define {
            key: "FOO".to_string(),
            value: None
        }
    );
    assert_eq!(
        flags[1],
        CompilerFlag::Define {
            key: "FOO".to_string(),
            value: Some("1".to_string())
        }
    );
}
