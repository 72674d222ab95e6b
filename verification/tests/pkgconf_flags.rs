use pkgconf::CompilerFlag;
use pkgconf::LinkKind;
use pkgconf::LinkerFlag;
use pkgconf::PkgConfigParser;
use pkgconf::to_cargo_directives;
use pkgconf::to_clang_args;

#[test]
fn test_parse_cflags_include_paths() {
    let parser = PkgConfigParser::new();
    let output = "-I/opt/spdk/include -I/usr/include/dpdk";
    let flags = parser.parse_cflags(output);

    assert_eq!(flags.len(), 2);
    assert_eq!(
        flags[0],
        CompilerFlag::IncludePath("/opt/spdk/include".to_string())
    );
    assert_eq!(
        flags[1],
        CompilerFlag::IncludePath("/usr/include/dpdk".to_string())
    );
}

#[test]
fn test_parse_cflags_defines() {
    let parser = PkgConfigParser::new();
    let output = "-DFOO -DBAR=1 -DBAZ=hello";
    let flags = parser.parse_cflags(output);

    assert_eq!(flags.len(), 3);
    assert_eq!(
        flags[0],
        CompilerFlag::Define {
            key: "FOO".to_string(),
            value: None
        }
    );
    assert_eq!(
        flags[1],
        CompilerFlag::Define {
            key: "BAR".to_string(),
            value: Some("1".to_string())
        }
    );
    assert_eq!(
        flags[2],
        CompilerFlag::Define {
            key: "BAZ".to_string(),
            value: Some("hello".to_string())
        }
    );
}

#[test]
fn test_parse_cflags_mixed_with_unknown() {
    let parser = PkgConfigParser::new();
    let output = "-I/opt/spdk/include -std=c11 -DFOO -Wall -I/usr/include/dpdk";
    let flags = parser.parse_cflags(output);

    // Unknown flags (-std=c11, -Wall) are silently ignored
    assert_eq!(flags.len(), 3);
    assert_eq!(
        flags[0],
        CompilerFlag::IncludePath("/opt/spdk/include".to_string())
    );
    assert_eq!(
        flags[1],
        CompilerFlag::Define {
            key: "FOO".to_string(),
            value: None
        }
    );
    assert_eq!(
        flags[2],
        CompilerFlag::IncludePath("/usr/include/dpdk".to_string())
    );
}

#[test]
fn test_parse_cflags_dedup() {
    let parser = PkgConfigParser::new();
    let output = "-I/opt/spdk/include -I/opt/spdk/include -DFOO -DFOO";
    let flags = parser.parse_cflags(output);

    assert_eq!(flags.len(), 2);
}

#[test]
fn test_to_clang_arg() {
    assert_eq!(
        CompilerFlag::IncludePath("/opt/spdk/include".to_string()).to_clang_arg(),
        "-I/opt/spdk/include"
    );
    assert_eq!(
        CompilerFlag::Define {
            key: "FOO".to_string(),
            value: None
        }
        .to_clang_arg(),
        "-DFOO"
    );
    assert_eq!(
        CompilerFlag::Define {
            key: "FOO".to_string(),
            value: Some("1".to_string())
        }
        .to_clang_arg(),
        "-DFOO=1"
    );
}

#[test]
fn test_to_clang_args() {
    let flags = vec![
        CompilerFlag::IncludePath("/opt/spdk/include".to_string()),
        CompilerFlag::Define {
            key: "FOO".to_string(),
            value: None,
        },
    ];
    let args = to_clang_args(&flags);
    assert_eq!(args, vec!["-I/opt/spdk/include", "-DFOO"]);
}

#[test]
fn test_to_cargo_directive_search_path() {
    let flag = LinkerFlag::SearchPath("/opt/spdk/lib".to_string());
    assert_eq!(
        flag.to_cargo_directive(true),
        "cargo:rustc-link-search=native=/opt/spdk/lib"
    );
    assert_eq!(
        flag.to_cargo_directive(false),
        "cargo:rustc-link-search=native=/opt/spdk/lib"
    );
}

#[test]
fn test_to_cargo_directive_default_lib() {
    let flag = LinkerFlag::Library {
        name: "pthread".to_string(),
        kind: LinkKind::Default,
    };
    assert_eq!(
        flag.to_cargo_directive(true),
        "cargo:rustc-link-lib=pthread"
    );
    assert_eq!(
        flag.to_cargo_directive(false),
        "cargo:rustc-link-lib=pthread"
    );
}

#[test]
fn test_to_cargo_directive_static_lib() {
    let flag = LinkerFlag::Library {
        name: "spdk_log".to_string(),
        kind: LinkKind::Static,
    };
    assert_eq!(
        flag.to_cargo_directive(true),
        "cargo:rustc-link-lib=static:-bundle=spdk_log"
    );
    assert_eq!(
        flag.to_cargo_directive(false),
        "cargo:rustc-link-lib=static=spdk_log"
    );
}

#[test]
fn test_to_cargo_directive_whole_archive() {
    let flag = LinkerFlag::Library {
        name: "rte_eal".to_string(),
        kind: LinkKind::WholeArchive,
    };
    assert_eq!(
        flag.to_cargo_directive(true),
        "cargo:rustc-link-lib=static:+whole-archive,-bundle=rte_eal"
    );
    assert_eq!(
        flag.to_cargo_directive(false),
        "cargo:rustc-link-lib=static:+whole-archive=rte_eal"
    );
}

#[test]
fn test_to_cargo_directive_linker_arg() {
    let flag = LinkerFlag::LinkerArg("-Wl,--export-dynamic".to_string());
    assert_eq!(
        flag.to_cargo_directive(true),
        "cargo:rustc-link-arg=-Wl,--export-dynamic"
    );
}

#[test]
fn test_to_cargo_directives_list() {
    let flags = vec![
        LinkerFlag::SearchPath("/opt/lib".to_string()),
        LinkerFlag::Library {
            name: "foo".to_string(),
            kind: LinkKind::Static,
        },
    ];
    let lines = to_cargo_directives(&flags, true);
    assert_eq!(
        lines,
        vec![
            "cargo:rustc-link-search=native=/opt/lib",
            "cargo:rustc-link-lib=static:-bundle=foo",
        ]
    );
    let lines = to_cargo_directives(&flags, false);
    assert_eq!(
        lines,
        vec![
            "cargo:rustc-link-search=native=/opt/lib",
            "cargo:rustc-link-lib=static=foo",
        ]
    );
}
