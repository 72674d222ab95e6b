use pkgconf::buildflags::LinkKind;
use pkgconf::buildflags::LinkerFlag;
use pkgconf::buildflags::PkgConfigParser;

#[test]
fn test_parse_simple_no_whole_archive_region() {
    let parser =
        PkgConfigParser::new().system_libs(vec!["pthread".to_string(), "numa".to_string()]);

    let output = "-L/opt/spdk/lib -lspdk_env -lpthread -lnuma";
    let flags = parser.parse(output);

    assert_eq!(flags.len(), 4);
    assert!(matches!(&flags[0], LinkerFlag::SearchPath(p) if p == "/opt/spdk/lib"));
    // Not in --whole-archive region -> Static
    assert!(
        matches!(&flags[1], LinkerFlag::Library { name, kind } if name == "spdk_env" && *kind == LinkKind::Static)
    );
    assert!(
        matches!(&flags[2], LinkerFlag::Library { name, kind } if name == "pthread" && *kind == LinkKind::Dynamic)
    );
    assert!(
        matches!(&flags[3], LinkerFlag::Library { name, kind } if name == "numa" && *kind == LinkKind::Dynamic)
    );
}

#[test]
fn test_parse_explicit_archive() {
    let parser = PkgConfigParser::new();

    // -l:libfoo.a without --whole-archive region -> Static
    let output = "-l:librte_mempool_ring.a";
    let flags = parser.parse(output);

    assert_eq!(flags.len(), 1);
    assert!(
        matches!(&flags[0], LinkerFlag::Library { name, kind } if name == "rte_mempool_ring" && *kind == LinkKind::Static)
    );
}

#[test]
fn test_dedup_libs() {
    let parser = PkgConfigParser::new();

    let output = "-lspdk_log -l:libspdk_log.a -lspdk_log";
    let flags = parser.parse(output);

    // Should only have one entry
    assert_eq!(flags.len(), 1);
}

#[test]
fn test_whole_archive_region_from_pkgconfig() {
    // Only libs within --whole-archive region get WholeArchive
    let parser = PkgConfigParser::new();

    let output = "-lspdk_log -Wl,--whole-archive -lrte_mempool_ring -lrte_eal -Wl,--no-whole-archive -lspdk_util";
    let flags = parser.parse(output);

    assert_eq!(flags.len(), 4);
    // spdk_log before --whole-archive -> Static
    assert!(
        matches!(&flags[0], LinkerFlag::Library { name, kind } if name == "spdk_log" && *kind == LinkKind::Static)
    );
    // rte_mempool_ring inside --whole-archive region -> WholeArchive
    assert!(
        matches!(&flags[1], LinkerFlag::Library { name, kind } if name == "rte_mempool_ring" && *kind == LinkKind::WholeArchive)
    );
    // rte_eal inside --whole-archive region -> WholeArchive
    assert!(
        matches!(&flags[2], LinkerFlag::Library { name, kind } if name == "rte_eal" && *kind == LinkKind::WholeArchive)
    );
    // spdk_util after --no-whole-archive -> Static
    assert!(
        matches!(&flags[3], LinkerFlag::Library { name, kind } if name == "spdk_util" && *kind == LinkKind::Static)
    );
}

#[test]
fn test_system_libs_always_dynamic() {
    let parser = PkgConfigParser::new().system_libs(vec!["pthread".to_string()]);

    // Even inside --whole-archive region, system libs remain Dynamic
    let output = "-Wl,--whole-archive -lrte_mempool_ring -lpthread -Wl,--no-whole-archive";
    let flags = parser.parse(output);

    assert_eq!(flags.len(), 2);
    assert!(
        matches!(&flags[0], LinkerFlag::Library { name, kind } if name == "rte_mempool_ring" && *kind == LinkKind::WholeArchive)
    );
    // System lib is Dynamic even inside --whole-archive region
    assert!(
        matches!(&flags[1], LinkerFlag::Library { name, kind } if name == "pthread" && *kind == LinkKind::Dynamic)
    );
}

#[test]
fn test_upgrade_to_whole_archive_on_duplicate() {
    // If a lib appears first outside whole-archive, then again inside,
    // it should be upgraded to WholeArchive
    let parser = PkgConfigParser::new();

    let output = "-lrte_mempool_ring -Wl,--whole-archive -l:librte_mempool_ring.a -Wl,--no-whole-archive";
    let flags = parser.parse(output);

    // Should only have one entry, but upgraded to WholeArchive
    assert_eq!(flags.len(), 1);
    assert!(
        matches!(&flags[0], LinkerFlag::Library { name, kind } if name == "rte_mempool_ring" && *kind == LinkKind::WholeArchive)
    );
}

#[test]
fn test_system_lib_never_upgraded() {
    // A system library mentioned again inside the region keeps Dynamic.
    let parser = PkgConfigParser::new().system_lib("pthread");

    let output = "-lpthread -Wl,--whole-archive -lpthread -Wl,--no-whole-archive";
    let flags = parser.parse(output);

    assert_eq!(flags.len(), 1);
    assert!(
        matches!(&flags[0], LinkerFlag::Library { name, kind } if name == "pthread" && *kind == LinkKind::Dynamic)
    );
}

#[test]
fn test_is_system_lib_membership() {
    let parser = PkgConfigParser::new().system_libs(vec!["m".to_string(), "dl".to_string()]);
    assert!(parser.is_system_lib("m"));
    assert!(parser.is_system_lib("dl"));
    assert!(!parser.is_system_lib("spdk_env"));
}

#[test]
fn test_pthread_bare_token_dynamic() {
    let parser = PkgConfigParser::new();
    let flags = parser.parse("-pthread -lpthread");

    assert_eq!(flags.len(), 1);
    assert!(
        matches!(&flags[0], LinkerFlag::Library { name, kind } if name == "pthread" && *kind == LinkKind::Dynamic)
    );
}

#[test]
fn test_cargo_directives_rendering() {
    let parser = PkgConfigParser::new();
    let flags = vec![
        LinkerFlag::SearchPath("/opt/spdk/lib".to_string()),
        LinkerFlag::Library {
            name: "pthread".to_string(),
            kind: LinkKind::Dynamic,
        },
        LinkerFlag::Library {
            name: "spdk_log".to_string(),
            kind: LinkKind::Static,
        },
        LinkerFlag::Library {
            name: "rte_eal".to_string(),
            kind: LinkKind::WholeArchive,
        },
        LinkerFlag::LinkerArg("-Wl,--export-dynamic".to_string()),
    ];
    let lines = parser.cargo_directives(&flags);
    assert_eq!(
        lines,
        vec![
            "cargo:rustc-link-search=native=/opt/spdk/lib",
            "cargo:rustc-link-lib=pthread",
            "cargo:rustc-link-lib=static:-bundle=spdk_log",
            "cargo:rustc-link-lib=static:+whole-archive,-bundle=rte_eal",
            "cargo:rustc-link-arg=-Wl,--export-dynamic",
        ]
    );
}

#[test]
fn test_cargo_directives_without_bundle() {
    let parser = PkgConfigParser::new().no_bundle(false);
    let flags = vec![
        LinkerFlag::Library {
            name: "spdk_log".to_string(),
            kind: LinkKind::Static,
        },
        LinkerFlag::Library {
            name: "rte_eal".to_string(),
            kind: LinkKind::WholeArchive,
        },
    ];
    let lines = parser.cargo_directives(&flags);
    assert_eq!(
        lines,
        vec![
            "cargo:rustc-link-lib=static=spdk_log",
            "cargo:rustc-link-lib=static:+whole-archive=rte_eal",
        ]
    );
}

#[test]
fn test_lib_directive_extra_lib() {
    let parser = PkgConfigParser::new();
    assert_eq!(
        parser.lib_directive("uuid", LinkKind::Dynamic),
        "cargo:rustc-link-lib=uuid"
    );
    assert_eq!(
        parser.lib_directive("spdk_util", LinkKind::Static),
        "cargo:rustc-link-lib=static:-bundle=spdk_util"
    );
    assert_eq!(
        parser.lib_directive("rte_bus_pci", LinkKind::WholeArchive),
        "cargo:rustc-link-lib=static:+whole-archive,-bundle=rte_bus_pci"
    );
}
