//! A second linker-flag classifier with a name-list policy instead of a
//! filesystem probe: library names registered as system libraries always
//! link dynamically, every other library links statically, upgraded to
//! whole-archive by the region markers.  Because no filesystem is consulted,
//! classification here is a total function of the input text and the
//! configuration, and its contract pins the result exactly.

use vstd::prelude::*;
use vstd::string::StrSliceExecFns;
use vstd::string::StringExecFns;

use crate::text::contains_str;
use crate::text::ends_with_str;
use crate::text::has_prefix;
use crate::text::has_sub;
use crate::text::has_suffix;
use crate::text::head_to;
use crate::text::split_tokens;
use crate::text::starts_with_str;
use crate::text::str_eq;
use crate::text::tail_from;
use crate::text::tokens_of;

verus! {

/// How one library must be linked.
#[derive(Debug, Clone, Copy, PartialEq, Eq, Structural)]
pub enum LinkKind {
    /// Let the system linker resolve the library dynamically.
    Dynamic,
    /// Link the static archive, unused symbols pruned.
    Static,
    /// Link the static archive with every symbol retained.
    WholeArchive,
}

/// The mathematical value of a [`LinkerFlag`].
pub enum LinkerFlagView {
    SearchPath(Seq<char>),
    Library { name: Seq<char>, kind: LinkKind },
    LinkerArg(Seq<char>),
}

/// One structured entry parsed from static-link-flags output.
#[derive(Debug, Clone)]
pub enum LinkerFlag {
    /// A directory to add to the library search path (`-L<dir>`).
    SearchPath(String),
    /// A library to link (`-l<name>` or `-l:lib<name>.a`).
    Library { name: String, kind: LinkKind },
    /// An opaque linker argument preserved verbatim (`-Wl,...`).
    LinkerArg(String),
}

impl View for LinkerFlag {
    type V = LinkerFlagView;

    open spec fn view(&self) -> LinkerFlagView {
        match self {
            LinkerFlag::SearchPath(p) => LinkerFlagView::SearchPath(p@),
            LinkerFlag::Library { name, kind } => LinkerFlagView::Library {
                name: name@,
                kind: *kind,
            },
            LinkerFlag::LinkerArg(a) => LinkerFlagView::LinkerArg(a@),
        }
    }
}

impl DeepView for LinkerFlag {
    type V = LinkerFlagView;

    open spec fn deep_view(&self) -> LinkerFlagView {
        self.view()
    }
}

// ---------------------------------------------------------------------------
// The scanning state and its transition function.
// ---------------------------------------------------------------------------

/// The running state of the scan.
pub struct ScanState {
    pub entries: Seq<LinkerFlagView>,
    pub in_whole_archive: bool,
}

/// The state before any token has been consumed.
pub open spec fn scan_start() -> ScanState {
    ScanState { entries: Seq::empty(), in_whole_archive: false }
}

/// Whether `f` is a library entry named `name`.
pub open spec fn entry_is_lib(f: LinkerFlagView, name: Seq<char>) -> bool {
    f matches LinkerFlagView::Library { name: n, kind: _ } && n == name
}

/// The link kind of a library entry (`Dynamic` for the other entry forms).
pub open spec fn entry_kind(f: LinkerFlagView) -> LinkKind {
    match f {
        LinkerFlagView::Library { name: _, kind } => kind,
        _ => LinkKind::Dynamic,
    }
}

/// The index of the first library entry named `name`, or `-1` when there is
/// none.
pub open spec fn first_lib_index(entries: Seq<LinkerFlagView>, name: Seq<char>) -> int
    decreases entries.len(),
{
    if entries.len() == 0 {
        -1
    } else if entry_is_lib(entries[0], name) {
        0
    } else {
        let r = first_lib_index(entries.skip(1), name);
        if r == -1 {
            -1
        } else {
            r + 1
        }
    }
}

/// Whether some library entry named `name` has already been emitted.
pub open spec fn lib_seen(entries: Seq<LinkerFlagView>, name: Seq<char>) -> bool {
    first_lib_index(entries, name) != -1
}

/// `first_lib_index` finds the first matching entry.
pub proof fn lemma_first_lib_index(entries: Seq<LinkerFlagView>, name: Seq<char>)
    ensures
        first_lib_index(entries, name) == -1 ==> forall|j: int|
            0 <= j < entries.len() ==> !entry_is_lib(entries[j], name),
        first_lib_index(entries, name) != -1 ==> 0 <= first_lib_index(entries, name)
            < entries.len() && entry_is_lib(entries[first_lib_index(entries, name)], name),
        first_lib_index(entries, name) != -1 ==> forall|j: int|
            0 <= j < first_lib_index(entries, name) ==> !entry_is_lib(entries[j], name),
    decreases entries.len(),
{
    if entries.len() == 0 {
    } else if entry_is_lib(entries[0], name) {
    } else {
        let rest = entries.skip(1);
        lemma_first_lib_index(rest, name);
        let r = first_lib_index(rest, name);
        if r == -1 {
            assert forall|j: int| 0 <= j < entries.len() implies !entry_is_lib(
                entries[j],
                name,
            ) by {
                if j > 0 {
                    assert(entries[j] == rest[j - 1]);
                }
            }
        } else {
            assert(entries[r + 1] == rest[r]);
            assert forall|j: int| 0 <= j < r + 1 implies !entry_is_lib(entries[j], name) by {
                if j > 0 {
                    assert(entries[j] == rest[j - 1]);
                }
            }
        }
    }
}

/// The link kind a freshly mentioned library resolves to: registered system
/// libraries are dynamic, everything else is static, whole-archive inside a
/// retain-all region.
pub open spec fn resolve_kind(sys: Seq<Seq<char>>, in_region: bool, name: Seq<char>) -> LinkKind {
    if sys.contains(name) {
        LinkKind::Dynamic
    } else if in_region {
        LinkKind::WholeArchive
    } else {
        LinkKind::Static
    }
}

/// One library mention: a duplicate mention inside a retain-all region
/// upgrades a previously `Static`, non-system entry in place to
/// `WholeArchive` and is otherwise dropped; a fresh mention appends one
/// entry.
pub open spec fn step_library(sys: Seq<Seq<char>>, st: ScanState, name: Seq<char>) -> ScanState {
    let i = first_lib_index(st.entries, name);
    if i != -1 {
        if st.in_whole_archive && !sys.contains(name) && entry_kind(st.entries[i])
            == LinkKind::Static {
            ScanState {
                entries: st.entries.update(
                    i,
                    LinkerFlagView::Library { name, kind: LinkKind::WholeArchive },
                ),
                in_whole_archive: st.in_whole_archive,
            }
        } else {
            st
        }
    } else {
        ScanState {
            entries: st.entries.push(
                LinkerFlagView::Library {
                    name,
                    kind: resolve_kind(sys, st.in_whole_archive, name),
                },
            ),
            in_whole_archive: st.in_whole_archive,
        }
    }
}

/// The bare library name of an explicit-archive token body: `lib<name>.a`
/// yields `<name>`; when the `.a` suffix is missing after stripping, the
/// whole body is kept unchanged.
pub open spec fn archive_token_name(rest: Seq<char>) -> Seq<char> {
    let stripped = if has_prefix(rest, "lib"@) {
        rest.skip("lib"@.len() as int)
    } else {
        rest
    };
    if has_suffix(stripped, ".a"@) {
        stripped.take(stripped.len() - ".a"@.len())
    } else {
        rest
    }
}

/// One token of the static-link-flags text.
pub open spec fn step_token(sys: Seq<Seq<char>>, st: ScanState, tok: Seq<char>) -> ScanState {
    if has_prefix(tok, "-L"@) {
        ScanState {
            entries: st.entries.push(LinkerFlagView::SearchPath(tok.skip("-L"@.len() as int))),
            in_whole_archive: st.in_whole_archive,
        }
    } else if has_prefix(tok, "-Wl,"@) {
        let sub = tok.skip("-Wl,"@.len() as int);
        let region = if has_sub(sub, "--whole-archive"@) && !has_sub(sub, "--no-whole-archive"@) {
            true
        } else if has_sub(sub, "--no-whole-archive"@) {
            false
        } else {
            st.in_whole_archive
        };
        let entries = if has_sub(sub, "export-dynamic"@) || has_sub(sub, "as-needed"@) {
            st.entries.push(LinkerFlagView::LinkerArg(tok))
        } else {
            st.entries
        };
        ScanState { entries, in_whole_archive: region }
    } else if has_prefix(tok, "-l:"@) {
        step_library(sys, st, archive_token_name(tok.skip("-l:"@.len() as int)))
    } else if has_prefix(tok, "-l"@) {
        step_library(sys, st, tok.skip("-l"@.len() as int))
    } else if tok == "-pthread"@ {
        if lib_seen(st.entries, "pthread"@) {
            st
        } else {
            ScanState {
                entries: st.entries.push(
                    LinkerFlagView::Library { name: "pthread"@, kind: LinkKind::Dynamic },
                ),
                in_whole_archive: st.in_whole_archive,
            }
        }
    } else {
        st
    }
}

/// The scan folded over a token sequence.
pub open spec fn scan_link_tokens(
    sys: Seq<Seq<char>>,
    st: ScanState,
    toks: Seq<Seq<char>>,
) -> ScanState
    decreases toks.len(),
{
    if toks.len() == 0 {
        st
    } else {
        scan_link_tokens(sys, step_token(sys, st, toks[0]), toks.skip(1))
    }
}

/// The classification of the whole static-link-flags text under a system
/// library name list.
pub open spec fn spec_parse_libs(sys: Seq<Seq<char>>, input: Seq<char>) -> Seq<LinkerFlagView> {
    scan_link_tokens(sys, scan_start(), tokens_of(input)).entries
}

/// Scanning one more token steps the state once.
pub proof fn lemma_scan_snoc(
    sys: Seq<Seq<char>>,
    st: ScanState,
    toks: Seq<Seq<char>>,
    tok: Seq<char>,
)
    ensures
        scan_link_tokens(sys, st, toks.push(tok)) == step_token(
            sys,
            scan_link_tokens(sys, st, toks),
            tok,
        ),
    decreases toks.len(),
{
    let snoc = toks.push(tok);
    if toks.len() == 0 {
        assert(snoc[0] == tok);
        assert(snoc.skip(1) =~= Seq::<Seq<char>>::empty());
        assert(scan_link_tokens(sys, st, snoc) == scan_link_tokens(
            sys,
            step_token(sys, st, tok),
            snoc.skip(1),
        ));
        assert(scan_link_tokens(sys, st, toks) == st);
    } else {
        assert(snoc[0] == toks[0]);
        assert(snoc.skip(1) =~= toks.skip(1).push(tok));
        let stepped = step_token(sys, st, toks[0]);
        assert(scan_link_tokens(sys, st, snoc) == scan_link_tokens(sys, stepped, snoc.skip(1)));
        lemma_scan_snoc(sys, stepped, toks.skip(1), tok);
        assert(scan_link_tokens(sys, st, toks) == scan_link_tokens(sys, stepped, toks.skip(1)));
    }
}

// ---------------------------------------------------------------------------
// The parser configuration and the verified pass.
// ---------------------------------------------------------------------------

/// Classifier configuration: the names always linked dynamically, and
/// whether emitted static libraries carry the `-bundle` modifier.
#[derive(Debug, Clone)]
pub struct PkgConfigParser {
    /// Libraries that always link dynamically.
    system_libs: Vec<String>,
    /// Whether to add the `-bundle` modifier on static libraries.
    no_bundle: bool,
}

impl PkgConfigParser {
    /// The registered system library names.
    pub closed spec fn sys_libs(&self) -> Seq<Seq<char>> {
        self.system_libs.deep_view()
    }

    /// Whether static libraries are emitted with the `-bundle` modifier.
    pub closed spec fn no_bundle_set(&self) -> bool {
        self.no_bundle
    }

    /// Creates a parser with no registered system libraries and the
    /// `-bundle` modifier switched on.
    pub fn new() -> (r: Self)
        ensures
            r.sys_libs() == Seq::<Seq<char>>::empty(),
            r.no_bundle_set(),
    {
        let r = PkgConfigParser { system_libs: Vec::new(), no_bundle: true };
        proof {
            assert(r.sys_libs() =~= Seq::<Seq<char>>::empty());
        }
        r
    }

    /// Registers one library name as a system library.
    pub fn system_lib(self, name: &str) -> (r: Self)
        ensures
            r.sys_libs() == self.sys_libs().push(name@),
            r.no_bundle_set() == self.no_bundle_set(),
    {
        let mut system_libs = self.system_libs;
        let ghost old_dv = system_libs.deep_view();
        system_libs.push(String::from_str(name));
        proof {
            assert(system_libs.deep_view() =~= old_dv.push(name@));
        }
        PkgConfigParser { system_libs, no_bundle: self.no_bundle }
    }

    /// Registers several library names as system libraries.
    pub fn system_libs(self, names: Vec<String>) -> (r: Self)
        ensures
            r.sys_libs() == self.sys_libs() + names.deep_view(),
            r.no_bundle_set() == self.no_bundle_set(),
    {
        let mut system_libs = self.system_libs;
        let ghost old_dv = system_libs.deep_view();
        let ghost names_dv = names.deep_view();
        let mut names = names;
        let n = names.len();
        let mut i: usize = 0;
        while i < n
            invariant
                n == names@.len(),
                names_dv == names.deep_view(),
                i <= n,
                system_libs.deep_view() == old_dv + names_dv.subrange(0, i as int),
            decreases n - i,
        {
            let ghost before = system_libs.deep_view();
            system_libs.push(names[i].clone());
            proof {
                assert(system_libs.deep_view() =~= before.push(names_dv[i as int]));
                assert(before.push(names_dv[i as int]) =~= old_dv + names_dv.subrange(
                    0,
                    i + 1,
                ));
            }
            i += 1;
        }
        proof {
            assert(names_dv.subrange(0, n as int) =~= names_dv);
        }
        PkgConfigParser { system_libs, no_bundle: self.no_bundle }
    }

    /// Switches the `-bundle` modifier on or off.
    pub fn no_bundle(self, enabled: bool) -> (r: Self)
        ensures
            r.no_bundle_set() == enabled,
            r.sys_libs() == self.sys_libs(),
    {
        PkgConfigParser { system_libs: self.system_libs, no_bundle: enabled }
    }

    /// Whether `name` is registered as a system library.
    pub fn is_system_lib(&self, name: &str) -> (r: bool)
        ensures
            r == self.sys_libs().contains(name@),
    {
        let mut i: usize = 0;
        while i < self.system_libs.len()
            invariant
                i <= self.system_libs@.len(),
                forall|j: int| 0 <= j < i ==> self.sys_libs()[j] != name@,
            decreases self.system_libs@.len() - i,
        {
            if str_eq(self.system_libs[i].as_str(), name) {
                proof {
                    assert(self.sys_libs()[i as int] == name@);
                }
                return true;
            }
            i += 1;
        }
        false
    }

    /// The link kind for a freshly mentioned library.
    fn determine_link_kind(&self, lib_name: &str, in_whole_archive_region: bool) -> (r: LinkKind)
        ensures
            r == resolve_kind(self.sys_libs(), in_whole_archive_region, lib_name@),
    {
        if self.is_system_lib(lib_name) {
            LinkKind::Dynamic
        } else if in_whole_archive_region {
            LinkKind::WholeArchive
        } else {
            LinkKind::Static
        }
    }

    /// Routes one bare library name through the deduplication and upgrade
    /// rule.
    fn handle_library(&self, entries: &mut Vec<LinkerFlag>, in_region: bool, name: &str)
        ensures
            final(entries).deep_view() == step_library(
                self.sys_libs(),
                ScanState { entries: old(entries).deep_view(), in_whole_archive: in_region },
                name@,
            ).entries,
    {
        match find_library(entries, name) {
            Some(idx) => {
                let do_upgrade = in_region && !self.is_system_lib(name) && match &entries[idx] {
                    LinkerFlag::Library { name: _, kind } => *kind == LinkKind::Static,
                    _ => false,
                };
                if do_upgrade {
                    let ghost old_dv = entries.deep_view();
                    entries[idx] = LinkerFlag::Library {
                        name: String::from_str(name),
                        kind: LinkKind::WholeArchive,
                    };
                    proof {
                        assert(entries.deep_view() =~= old_dv.update(
                            idx as int,
                            LinkerFlagView::Library { name: name@, kind: LinkKind::WholeArchive },
                        ));
                    }
                }
            },
            None => {
                let kind = self.determine_link_kind(name, in_region);
                let ghost old_dv = entries.deep_view();
                entries.push(LinkerFlag::Library { name: String::from_str(name), kind });
                proof {
                    assert(entries.deep_view() =~= old_dv.push(
                        LinkerFlagView::Library {
                            name: name@,
                            kind: resolve_kind(self.sys_libs(), in_region, name@),
                        },
                    ));
                }
            },
        }
    }

    /// Classifies the static-link-flags text.  No filesystem is consulted,
    /// so the result is exactly the specified scan of the token stream under
    /// the configured system library names.
    pub fn parse(&self, pkg_config_output: &str) -> (r: Vec<LinkerFlag>)
        ensures
            r.deep_view() == spec_parse_libs(self.sys_libs(), pkg_config_output@),
            unique_lib_names(r.deep_view()),
    {
        proof {
            lemma_parse_dedup(self.sys_libs(), pkg_config_output@);
        }
        let toks = split_tokens(pkg_config_output);
        let ghost sys = self.sys_libs();
        let ghost tv = toks.deep_view();
        let mut entries: Vec<LinkerFlag> = Vec::new();
        let mut in_region: bool = false;
        proof {
            assert(tv.subrange(0, 0) =~= Seq::<Seq<char>>::empty());
            assert(entries.deep_view() =~= Seq::<LinkerFlagView>::empty());
        }
        let n = toks.len();
        let mut i: usize = 0;
        while i < n
            invariant
                n == toks@.len(),
                tv == toks.deep_view(),
                sys == self.sys_libs(),
                i <= n,
                (ScanState { entries: entries.deep_view(), in_whole_archive: in_region })
                    == scan_link_tokens(sys, scan_start(), tv.subrange(0, i as int)),
            decreases n - i,
        {
            let ghost st = ScanState { entries: entries.deep_view(), in_whole_archive: in_region };
            let tok = toks[i].as_str();
            proof {
                assert(tok@ == tv[i as int]);
                reveal_strlit("-L");
                reveal_strlit("-Wl,");
                reveal_strlit("-l:");
                reveal_strlit("-l");
            }
            if starts_with_str(tok, "-L") {
                let dir = tail_from(tok, 2);
                let ghost old_dv = entries.deep_view();
                entries.push(LinkerFlag::SearchPath(String::from_str(dir)));
                proof {
                    assert(entries.deep_view() =~= old_dv.push(
                        LinkerFlagView::SearchPath(tok@.skip(2)),
                    ));
                    assert(tok@.skip("-L"@.len() as int) == tok@.skip(2));
                }
            } else if starts_with_str(tok, "-Wl,") {
                let sub = tail_from(tok, 4);
                proof {
                    assert(sub@ == tok@.skip("-Wl,"@.len() as int));
                }
                if contains_str(sub, "--whole-archive") && !contains_str(sub, "--no-whole-archive")
                    {
                    in_region = true;
                } else if contains_str(sub, "--no-whole-archive") {
                    in_region = false;
                }
                if contains_str(sub, "export-dynamic") || contains_str(sub, "as-needed") {
                    let ghost old_dv = entries.deep_view();
                    entries.push(LinkerFlag::LinkerArg(String::from_str(tok)));
                    proof {
                        assert(entries.deep_view() =~= old_dv.push(
                            LinkerFlagView::LinkerArg(tok@),
                        ));
                    }
                }
            } else if starts_with_str(tok, "-l:") {
                let rest = tail_from(tok, 3);
                proof {
                    assert(rest@ == tok@.skip("-l:"@.len() as int));
                    reveal_strlit("lib");
                    reveal_strlit(".a");
                }
                let stripped = if starts_with_str(rest, "lib") {
                    tail_from(rest, 3)
                } else {
                    rest
                };
                let m = stripped.unicode_len();
                let name = if ends_with_str(stripped, ".a") {
                    head_to(stripped, m - 2)
                } else {
                    rest
                };
                proof {
                    assert(name@ == archive_token_name(rest@));
                }
                self.handle_library(&mut entries, in_region, name);
            } else if starts_with_str(tok, "-l") {
                let name = tail_from(tok, 2);
                proof {
                    assert(name@ == tok@.skip("-l"@.len() as int));
                }
                self.handle_library(&mut entries, in_region, name);
            } else if str_eq(tok, "-pthread") {
                if find_library(&entries, "pthread").is_none() {
                    let ghost old_dv = entries.deep_view();
                    entries.push(
                        LinkerFlag::Library {
                            name: String::from_str("pthread"),
                            kind: LinkKind::Dynamic,
                        },
                    );
                    proof {
                        assert(entries.deep_view() =~= old_dv.push(
                            LinkerFlagView::Library { name: "pthread"@, kind: LinkKind::Dynamic },
                        ));
                    }
                }
            }
            proof {
                assert(tv.subrange(0, i + 1) =~= tv.subrange(0, i as int).push(tv[i as int]));
                lemma_scan_snoc(sys, scan_start(), tv.subrange(0, i as int), tv[i as int]);
                assert((ScanState { entries: entries.deep_view(), in_whole_archive: in_region })
                    == step_token(sys, st, tv[i as int]));
            }
            i += 1;
        }
        proof {
            assert(tv.subrange(0, n as int) =~= tv);
        }
        entries
    }
}

impl Default for PkgConfigParser {
    fn default() -> (r: Self)
        ensures
            r.sys_libs() == Seq::<Seq<char>>::empty(),
            r.no_bundle_set(),
    {
        PkgConfigParser::new()
    }
}

/// Finds the first library entry named `name`.
fn find_library(entries: &Vec<LinkerFlag>, name: &str) -> (r: Option<usize>)
    ensures
        match r {
            Some(i) => i < entries@.len() && first_lib_index(entries.deep_view(), name@) == i as int,
            None => first_lib_index(entries.deep_view(), name@) == -1,
        },
{
    let mut i: usize = 0;
    while i < entries.len()
        invariant
            i <= entries@.len(),
            forall|j: int| 0 <= j < i ==> !entry_is_lib(entries.deep_view()[j], name@),
        decreases entries@.len() - i,
    {
        let hit = match &entries[i] {
            LinkerFlag::Library { name: n, kind: _ } => str_eq(n.as_str(), name),
            _ => false,
        };
        if hit {
            proof {
                assert(entry_is_lib(entries.deep_view()[i as int], name@));
                lemma_first_lib_index(entries.deep_view(), name@);
            }
            return Some(i);
        }
        i += 1;
    }
    proof {
        lemma_first_lib_index(entries.deep_view(), name@);
    }
    None
}

// ---------------------------------------------------------------------------
// Rendering into cargo metadata directives.
// ---------------------------------------------------------------------------

/// The cargo metadata directive line for one library, given its name, kind
/// and the `-bundle` setting.
pub open spec fn spec_lib_directive(name: Seq<char>, kind: LinkKind, no_bundle: bool) -> Seq<
    char,
> {
    match kind {
        LinkKind::Dynamic => "cargo:rustc-link-lib="@ + name,
        LinkKind::Static => if no_bundle {
            "cargo:rustc-link-lib=static:-bundle="@ + name
        } else {
            "cargo:rustc-link-lib=static="@ + name
        },
        LinkKind::WholeArchive => if no_bundle {
            "cargo:rustc-link-lib=static:+whole-archive,-bundle="@ + name
        } else {
            "cargo:rustc-link-lib=static:+whole-archive="@ + name
        },
    }
}

/// The cargo metadata directive line for one linker flag.
pub open spec fn spec_directive(f: LinkerFlagView, no_bundle: bool) -> Seq<char> {
    match f {
        LinkerFlagView::SearchPath(p) => "cargo:rustc-link-search=native="@ + p,
        LinkerFlagView::Library { name, kind } => spec_lib_directive(name, kind, no_bundle),
        LinkerFlagView::LinkerArg(a) => "cargo:rustc-link-arg="@ + a,
    }
}

/// The directive lines for a flag sequence, in order.
pub open spec fn directives_view(fs: Seq<LinkerFlagView>, no_bundle: bool) -> Seq<Seq<char>> {
    fs.map_values(|f: LinkerFlagView| spec_directive(f, no_bundle))
}

impl PkgConfigParser {
    /// The cargo metadata directive line for one extra library added after
    /// parsing, under the configured `-bundle` setting.
    pub fn lib_directive(&self, name: &str, kind: LinkKind) -> (r: String)
        ensures
            r@ == spec_lib_directive(name@, kind, self.no_bundle_set()),
    {
        match kind {
            LinkKind::Dynamic => String::from_str("cargo:rustc-link-lib=").concat(name),
            LinkKind::Static => if self.no_bundle {
                String::from_str("cargo:rustc-link-lib=static:-bundle=").concat(name)
            } else {
                String::from_str("cargo:rustc-link-lib=static=").concat(name)
            },
            LinkKind::WholeArchive => if self.no_bundle {
                String::from_str("cargo:rustc-link-lib=static:+whole-archive,-bundle=").concat(
                    name,
                )
            } else {
                String::from_str("cargo:rustc-link-lib=static:+whole-archive=").concat(name)
            },
        }
    }

    /// The cargo metadata directive lines for the parsed flags, in order,
    /// under the configured `-bundle` setting.
    pub fn cargo_directives(&self, flags: &[LinkerFlag]) -> (r: Vec<String>)
        ensures
            r.deep_view() == directives_view(flags.deep_view(), self.no_bundle_set()),
    {
        let mut out: Vec<String> = Vec::new();
        let mut i: usize = 0;
        while i < flags.len()
            invariant
                i <= flags@.len(),
                out.deep_view().len() == i,
                forall|j: int| 0 <= j < i ==> out.deep_view()[j] == spec_directive(
                    flags.deep_view()[j],
                    self.no_bundle_set(),
                ),
            decreases flags@.len() - i,
        {
            let line = match &flags[i] {
                LinkerFlag::SearchPath(path) => String::from_str(
                    "cargo:rustc-link-search=native=",
                ).concat(path.as_str()),
                LinkerFlag::Library { name, kind } => self.lib_directive(name.as_str(), *kind),
                LinkerFlag::LinkerArg(arg) => String::from_str("cargo:rustc-link-arg=").concat(
                    arg.as_str(),
                ),
            };
            let ghost old_dv = out.deep_view();
            let ghost line_view = line@;
            out.push(line);
            proof {
                assert(out.deep_view() =~= old_dv.push(line_view));
            }
            i += 1;
        }
        proof {
            assert(out.deep_view() =~= directives_view(flags.deep_view(), self.no_bundle_set()));
        }
        out
    }
}

// ---------------------------------------------------------------------------
// Laws of the scan.
// ---------------------------------------------------------------------------

/// No two library entries of the sequence share a name.
pub open spec fn unique_lib_names(entries: Seq<LinkerFlagView>) -> bool {
    forall|i: int, j: int, n: Seq<char>|
        #![trigger entry_is_lib(entries[i], n), entry_is_lib(entries[j], n)]
        0 <= i < j < entries.len() && entry_is_lib(entries[i], n) ==> !entry_is_lib(entries[j], n)
}

/// One library mention preserves name uniqueness.
proof fn lemma_step_library_unique(sys: Seq<Seq<char>>, st: ScanState, name: Seq<char>)
    requires
        unique_lib_names(st.entries),
    ensures
        unique_lib_names(step_library(sys, st, name).entries),
{
    let e1 = st.entries;
    let e2 = step_library(sys, st, name).entries;
    let i0 = first_lib_index(e1, name);
    lemma_first_lib_index(e1, name);
    if i0 != -1 {
        if st.in_whole_archive && !sys.contains(name) && entry_kind(e1[i0]) == LinkKind::Static {
            assert(entry_is_lib(e1[i0], name));
            assert forall|k: int, n2: Seq<char>|
                #![trigger entry_is_lib(e2[k], n2)]
                0 <= k < e2.len() implies entry_is_lib(e2[k], n2) == entry_is_lib(e1[k], n2) by {
                if k != i0 {
                    assert(e2[k] == e1[k]);
                }
            }
            assert forall|i: int, j: int, n: Seq<char>|
                #![trigger entry_is_lib(e2[i], n), entry_is_lib(e2[j], n)]
                0 <= i < j < e2.len() && entry_is_lib(e2[i], n) implies !entry_is_lib(
                e2[j],
                n,
            ) by {
                assert(entry_is_lib(e1[i], n) == entry_is_lib(e2[i], n));
                assert(entry_is_lib(e1[j], n) == entry_is_lib(e2[j], n));
            }
        }
    } else {
        assert forall|i: int, j: int, n: Seq<char>|
            #![trigger entry_is_lib(e2[i], n), entry_is_lib(e2[j], n)]
            0 <= i < j < e2.len() && entry_is_lib(e2[i], n) implies !entry_is_lib(e2[j], n) by {
            if j == e1.len() {
                if entry_is_lib(e2[j], n) {
                    assert(n == name);
                    assert(e2[i] == e1[i]);
                    assert(!entry_is_lib(e1[i], name));
                }
            } else {
                assert(e2[i] == e1[i]);
                assert(e2[j] == e1[j]);
            }
        }
    }
}

/// One token preserves name uniqueness.
proof fn lemma_step_token_unique(sys: Seq<Seq<char>>, st: ScanState, tok: Seq<char>)
    requires
        unique_lib_names(st.entries),
    ensures
        unique_lib_names(step_token(sys, st, tok).entries),
{
    let e1 = st.entries;
    let e2 = step_token(sys, st, tok).entries;
    if has_prefix(tok, "-L"@) || has_prefix(tok, "-Wl,"@) {
        assert forall|i: int, j: int, n: Seq<char>|
            #![trigger entry_is_lib(e2[i], n), entry_is_lib(e2[j], n)]
            0 <= i < j < e2.len() && entry_is_lib(e2[i], n) implies !entry_is_lib(e2[j], n) by {
            if j < e1.len() {
                assert(e2[i] == e1[i]);
                assert(e2[j] == e1[j]);
            } else {
                assert(!entry_is_lib(e2[j], n));
            }
        }
    } else if has_prefix(tok, "-l:"@) {
        lemma_step_library_unique(sys, st, archive_token_name(tok.skip("-l:"@.len() as int)));
    } else if has_prefix(tok, "-l"@) {
        lemma_step_library_unique(sys, st, tok.skip("-l"@.len() as int));
    } else if tok == "-pthread"@ && !lib_seen(e1, "pthread"@) {
        lemma_first_lib_index(e1, "pthread"@);
        assert forall|i: int, j: int, n: Seq<char>|
            #![trigger entry_is_lib(e2[i], n), entry_is_lib(e2[j], n)]
            0 <= i < j < e2.len() && entry_is_lib(e2[i], n) implies !entry_is_lib(e2[j], n) by {
            if j == e1.len() {
                if entry_is_lib(e2[j], n) {
                    assert(n == "pthread"@);
                    assert(e2[i] == e1[i]);
                    assert(!entry_is_lib(e1[i], "pthread"@));
                }
            } else {
                assert(e2[i] == e1[i]);
                assert(e2[j] == e1[j]);
            }
        }
    }
}

/// The whole scan preserves name uniqueness.
proof fn lemma_scan_unique(sys: Seq<Seq<char>>, st: ScanState, toks: Seq<Seq<char>>)
    requires
        unique_lib_names(st.entries),
    ensures
        unique_lib_names(scan_link_tokens(sys, st, toks).entries),
    decreases toks.len(),
{
    if toks.len() > 0 {
        lemma_step_token_unique(sys, st, toks[0]);
        lemma_scan_unique(sys, step_token(sys, st, toks[0]), toks.skip(1));
    }
}

/// Deduplication is idempotent: however often a library name is mentioned in
/// the input, the classified output never holds two library entries with
/// that name.
pub proof fn lemma_parse_dedup(sys: Seq<Seq<char>>, input: Seq<char>)
    ensures
        unique_lib_names(spec_parse_libs(sys, input)),
{
    assert(unique_lib_names(scan_start().entries));
    lemma_scan_unique(sys, scan_start(), tokens_of(input));
}

/// The only transition a recorded link kind may take: staying put, or the
/// upgrade from `Static` to `WholeArchive`.
pub open spec fn kind_upgrade_ok(k1: LinkKind, k2: LinkKind) -> bool {
    k2 == k1 || (k1 == LinkKind::Static && k2 == LinkKind::WholeArchive)
}

/// Appending an entry leaves the first index of an already-present library
/// name unchanged.
proof fn lemma_first_index_push(entries: Seq<LinkerFlagView>, name: Seq<char>, x: LinkerFlagView)
    requires
        first_lib_index(entries, name) != -1,
    ensures
        first_lib_index(entries.push(x), name) == first_lib_index(entries, name),
    decreases entries.len(),
{
    let p = entries.push(x);
    assert(p.len() == entries.len() + 1);
    if entries.len() > 0 {
        assert(p[0] == entries[0]);
        if !entry_is_lib(entries[0], name) {
            assert(p.skip(1) =~= entries.skip(1).push(x));
            lemma_first_index_push(entries.skip(1), name, x);
        }
    }
}

/// Two entry sequences on which every position carries the same library
/// names have the same first index for every name.
proof fn lemma_first_index_entrywise(
    e1: Seq<LinkerFlagView>,
    e2: Seq<LinkerFlagView>,
    name: Seq<char>,
)
    requires
        e1.len() == e2.len(),
        forall|k: int, n: Seq<char>|
            #![trigger entry_is_lib(e1[k], n), entry_is_lib(e2[k], n)]
            0 <= k < e1.len() ==> entry_is_lib(e1[k], n) == entry_is_lib(e2[k], n),
    ensures
        first_lib_index(e1, name) == first_lib_index(e2, name),
    decreases e1.len(),
{
    if e1.len() > 0 {
        assert(entry_is_lib(e1[0], name) == entry_is_lib(e2[0], name));
        if !entry_is_lib(e1[0], name) {
            let r1 = e1.skip(1);
            let r2 = e2.skip(1);
            assert forall|k: int, n: Seq<char>|
                #![trigger entry_is_lib(r1[k], n), entry_is_lib(r2[k], n)]
                0 <= k < r1.len() implies entry_is_lib(r1[k], n) == entry_is_lib(r2[k], n) by {
                assert(r1[k] == e1[k + 1]);
                assert(r2[k] == e2[k + 1]);
            }
            lemma_first_index_entrywise(r1, r2, name);
        }
    }
}

/// One library mention keeps a recorded library at its index and moves its
/// kind only along `kind_upgrade_ok`.
proof fn lemma_step_library_tracks(
    sys: Seq<Seq<char>>,
    st: ScanState,
    name2: Seq<char>,
    name: Seq<char>,
)
    requires
        first_lib_index(st.entries, name) != -1,
    ensures
        ({
            let i = first_lib_index(st.entries, name);
            let e2 = step_library(sys, st, name2).entries;
            first_lib_index(e2, name) == i && entry_is_lib(e2[i], name) && kind_upgrade_ok(
                entry_kind(st.entries[i]),
                entry_kind(e2[i]),
            )
        }),
{
    let e1 = st.entries;
    let i = first_lib_index(e1, name);
    let e2 = step_library(sys, st, name2).entries;
    lemma_first_lib_index(e1, name);
    let i2 = first_lib_index(e1, name2);
    lemma_first_lib_index(e1, name2);
    if i2 != -1 {
        if st.in_whole_archive && !sys.contains(name2) && entry_kind(e1[i2]) == LinkKind::Static {
            assert(e2 == e1.update(i2, LinkerFlagView::Library {
                name: name2,
                kind: LinkKind::WholeArchive,
            }));
            assert forall|k: int, n: Seq<char>|
                #![trigger entry_is_lib(e1[k], n), entry_is_lib(e2[k], n)]
                0 <= k < e1.len() implies entry_is_lib(e1[k], n) == entry_is_lib(e2[k], n) by {
                if k != i2 {
                    assert(e2[k] == e1[k]);
                } else {
                    assert(entry_is_lib(e1[i2], name2));
                }
            }
            lemma_first_index_entrywise(e1, e2, name);
            if name2 == name {
                assert(i2 == i);
                assert(entry_kind(e1[i]) == LinkKind::Static);
                assert(entry_kind(e2[i]) == LinkKind::WholeArchive);
            } else {
                assert(entry_is_lib(e1[i], name));
                assert(i != i2);
                assert(e2[i] == e1[i]);
            }
        }
    } else {
        assert(name2 != name);
        lemma_first_index_push(e1, name, e2[e1.len() as int]);
        assert(e2[i] == e1[i]);
    }
}

/// One token keeps a recorded library at its index and moves its kind only
/// along `kind_upgrade_ok`.
proof fn lemma_step_token_tracks(
    sys: Seq<Seq<char>>,
    st: ScanState,
    tok: Seq<char>,
    name: Seq<char>,
)
    requires
        first_lib_index(st.entries, name) != -1,
    ensures
        ({
            let i = first_lib_index(st.entries, name);
            let e2 = step_token(sys, st, tok).entries;
            first_lib_index(e2, name) == i && entry_is_lib(e2[i], name) && kind_upgrade_ok(
                entry_kind(st.entries[i]),
                entry_kind(e2[i]),
            )
        }),
{
    let e1 = st.entries;
    let i = first_lib_index(e1, name);
    let e2 = step_token(sys, st, tok).entries;
    lemma_first_lib_index(e1, name);
    if has_prefix(tok, "-L"@) {
        lemma_first_index_push(
            e1,
            name,
            LinkerFlagView::SearchPath(tok.skip("-L"@.len() as int)),
        );
    } else if has_prefix(tok, "-Wl,"@) {
        let sub = tok.skip("-Wl,"@.len() as int);
        if has_sub(sub, "export-dynamic"@) || has_sub(sub, "as-needed"@) {
            lemma_first_index_push(e1, name, LinkerFlagView::LinkerArg(tok));
        }
    } else if has_prefix(tok, "-l:"@) {
        lemma_step_library_tracks(sys, st, archive_token_name(tok.skip("-l:"@.len() as int)), name);
    } else if has_prefix(tok, "-l"@) {
        lemma_step_library_tracks(sys, st, tok.skip("-l"@.len() as int), name);
    } else if tok == "-pthread"@ && !lib_seen(e1, "pthread"@) {
        lemma_first_index_push(
            e1,
            name,
            LinkerFlagView::Library { name: "pthread"@, kind: LinkKind::Dynamic },
        );
    }
}

/// The scan of any token sequence keeps a recorded library at its index and
/// moves its kind only along `kind_upgrade_ok`.
proof fn lemma_scan_tracks(
    sys: Seq<Seq<char>>,
    st: ScanState,
    toks: Seq<Seq<char>>,
    name: Seq<char>,
)
    requires
        first_lib_index(st.entries, name) != -1,
    ensures
        ({
            let i = first_lib_index(st.entries, name);
            let e2 = scan_link_tokens(sys, st, toks).entries;
            first_lib_index(e2, name) == i && entry_is_lib(e2[i], name) && kind_upgrade_ok(
                entry_kind(st.entries[i]),
                entry_kind(e2[i]),
            )
        }),
    decreases toks.len(),
{
    lemma_first_lib_index(st.entries, name);
    if toks.len() > 0 {
        lemma_step_token_tracks(sys, st, toks[0], name);
        lemma_scan_tracks(sys, step_token(sys, st, toks[0]), toks.skip(1), name);
    }
}

/// Scanning a concatenation scans the parts in turn.
proof fn lemma_scan_append(
    sys: Seq<Seq<char>>,
    st: ScanState,
    a: Seq<Seq<char>>,
    b: Seq<Seq<char>>,
)
    ensures
        scan_link_tokens(sys, st, a + b) == scan_link_tokens(
            sys,
            scan_link_tokens(sys, st, a),
            b,
        ),
    decreases a.len(),
{
    if a.len() == 0 {
        assert(a + b =~= b);
    } else {
        assert((a + b)[0] == a[0]);
        assert((a + b).skip(1) =~= a.skip(1) + b);
        lemma_scan_append(sys, step_token(sys, st, a[0]), a.skip(1), b);
    }
}

/// Upgrade monotonicity: once the scan of a token sequence has recorded a
/// library, scanning any further tokens keeps its entry at the same position
/// and moves its kind only along `kind_upgrade_ok` — `Static` may become
/// `WholeArchive`, the reverse transition never happens, and a
/// `WholeArchive` or `Dynamic` entry keeps its kind.
pub proof fn lemma_kind_monotonic(
    sys: Seq<Seq<char>>,
    toks: Seq<Seq<char>>,
    more: Seq<Seq<char>>,
    name: Seq<char>,
)
    requires
        lib_seen(scan_link_tokens(sys, scan_start(), toks).entries, name),
    ensures
        ({
            let e1 = scan_link_tokens(sys, scan_start(), toks).entries;
            let e2 = scan_link_tokens(sys, scan_start(), toks + more).entries;
            let i = first_lib_index(e1, name);
            first_lib_index(e2, name) == i && entry_is_lib(e2[i], name) && kind_upgrade_ok(
                entry_kind(e1[i]),
                entry_kind(e2[i]),
            )
        }),
{
    lemma_scan_append(sys, scan_start(), toks, more);
    lemma_scan_tracks(sys, scan_link_tokens(sys, scan_start(), toks), more, name);
}

/// A duplicate mention never adds an entry: inside a retain-all region it
/// upgrades a previously `Static` entry of a non-system library in place to
/// `WholeArchive`, and in every other case it leaves the state untouched.
pub proof fn lemma_duplicate_mention(sys: Seq<Seq<char>>, st: ScanState, name: Seq<char>)
    requires
        lib_seen(st.entries, name),
    ensures
        step_library(sys, st, name).entries.len() == st.entries.len(),
        st.in_whole_archive && !sys.contains(name) && entry_kind(
            st.entries[first_lib_index(st.entries, name)],
        ) == LinkKind::Static ==> step_library(sys, st, name).entries[first_lib_index(
            st.entries,
            name,
        )] == (LinkerFlagView::Library { name, kind: LinkKind::WholeArchive }),
        !(st.in_whole_archive && !sys.contains(name) && entry_kind(
            st.entries[first_lib_index(st.entries, name)],
        ) == LinkKind::Static) ==> step_library(sys, st, name) == st,
{
    lemma_first_lib_index(st.entries, name);
}

/// A registered system library resolves to `Dynamic` even inside a
/// retain-all region, and a duplicate mention never upgrades it.
pub proof fn lemma_system_lib_dynamic(sys: Seq<Seq<char>>, in_region: bool, name: Seq<char>)
    requires
        sys.contains(name),
    ensures
        resolve_kind(sys, in_region, name) == LinkKind::Dynamic,
{
}

} // verus!
