//! The linker-flag and compiler-flag classifiers.
//!
//! The linker-flag classifier consumes the static-link-flags text of a
//! discovery query as one whitespace-separated token stream, tracks the
//! `--whole-archive` region markers, and produces an ordered sequence of
//! [`LinkerFlag`] entries in which every library name appears at most once.
//! A repeated mention of a library never adds an entry; it may only upgrade
//! the recorded link kind from `Static` to `WholeArchive` when the mention
//! falls inside a retain-all region.
//!
//! Whether a local static archive is available for a library is a filesystem
//! question.  The classification logic is therefore specified and verified
//! against an explicit availability list ([`PkgConfigParser::parse_given`]);
//! [`PkgConfigParser::parse`] probes the filesystem to build that list and
//! then runs the same verified pass.

use vstd::prelude::*;
use vstd::string::StrSliceExecFns;
use vstd::string::StringExecFns;

use crate::flags::CompilerFlag;
use crate::flags::CompilerFlagView;
use crate::flags::LinkKind;
use crate::flags::LinkerFlag;
use crate::flags::LinkerFlagView;
use crate::paths::under_any_root;
use crate::paths::under_some_root;
use crate::text::contains_str;
use crate::text::ends_with_str;
use crate::text::has_prefix;
use crate::text::has_sub;
use crate::text::has_suffix;
use crate::text::head_to;
use crate::text::split_tokens;
use crate::text::starts_with_str;
use crate::text::str_eq;
use crate::text::tail_from;
use crate::text::tokens_of;

verus! {

// ---------------------------------------------------------------------------
// The scanning state and its transition function.
// ---------------------------------------------------------------------------

/// The running state of the linker-flag scan: the entries emitted so far and
/// whether the scan stands inside a `--whole-archive` region.
pub struct ScanState {
    pub entries: Seq<LinkerFlagView>,
    pub in_whole_archive: bool,
}

/// The state before any token has been consumed.
pub open spec fn scan_start() -> ScanState {
    ScanState { entries: Seq::empty(), in_whole_archive: false }
}

/// Whether `f` is a library entry named `name`.
pub open spec fn entry_is_lib(f: LinkerFlagView, name: Seq<char>) -> bool {
    f matches LinkerFlagView::Library { name: n, kind: _ } && n == name
}

/// The link kind of a library entry (`Default` for the other entry forms).
pub open spec fn entry_kind(f: LinkerFlagView) -> LinkKind {
    match f {
        LinkerFlagView::Library { name: _, kind } => kind,
        _ => LinkKind::Default,
    }
}

/// The index of the first library entry named `name`, or `-1` when there is
/// none.
pub open spec fn first_lib_index(entries: Seq<LinkerFlagView>, name: Seq<char>) -> int
    decreases entries.len(),
{
    if entries.len() == 0 {
        -1
    } else if entry_is_lib(entries[0], name) {
        0
    } else {
        let r = first_lib_index(entries.skip(1), name);
        if r == -1 {
            -1
        } else {
            r + 1
        }
    }
}

/// Whether some library entry named `name` has already been emitted.
pub open spec fn lib_seen(entries: Seq<LinkerFlagView>, name: Seq<char>) -> bool {
    first_lib_index(entries, name) != -1
}

/// `first_lib_index` finds the first matching entry: the index it returns
/// carries a matching entry, everything before it does not match, and `-1`
/// means nothing matches.
pub proof fn lemma_first_lib_index(entries: Seq<LinkerFlagView>, name: Seq<char>)
    ensures
        first_lib_index(entries, name) == -1 ==> forall|j: int|
            0 <= j < entries.len() ==> !entry_is_lib(entries[j], name),
        first_lib_index(entries, name) != -1 ==> 0 <= first_lib_index(entries, name)
            < entries.len() && entry_is_lib(entries[first_lib_index(entries, name)], name),
        first_lib_index(entries, name) != -1 ==> forall|j: int|
            0 <= j < first_lib_index(entries, name) ==> !entry_is_lib(entries[j], name),
    decreases entries.len(),
{
    if entries.len() == 0 {
    } else if entry_is_lib(entries[0], name) {
    } else {
        let rest = entries.skip(1);
        lemma_first_lib_index(rest, name);
        let r = first_lib_index(rest, name);
        if r == -1 {
            assert(first_lib_index(entries, name) == -1);
            assert forall|j: int| 0 <= j < entries.len() implies !entry_is_lib(
                entries[j],
                name,
            ) by {
                if j > 0 {
                    assert(entries[j] == rest[j - 1]);
                }
            }
        } else {
            assert(first_lib_index(entries, name) == r + 1);
            assert(entries[r + 1] == rest[r]);
            assert forall|j: int| 0 <= j < r + 1 implies !entry_is_lib(entries[j], name) by {
                if j > 0 {
                    assert(entries[j] == rest[j - 1]);
                }
            }
        }
    }
}

/// The link kind a freshly mentioned library resolves to: a retain-all region
/// or the force-whole-archive policy yields `WholeArchive` when a static
/// archive is available, an available archive alone yields `Static`, and
/// everything else defers to the system linker.
pub open spec fn resolve_new_kind(
    forced: Seq<Seq<char>>,
    avail: Seq<Seq<char>>,
    in_region: bool,
    name: Seq<char>,
) -> LinkKind {
    if (in_region || forced.contains(name)) && avail.contains(name) {
        LinkKind::WholeArchive
    } else if avail.contains(name) {
        LinkKind::Static
    } else {
        LinkKind::Default
    }
}

/// One library mention: a duplicate mention inside a retain-all region
/// upgrades a previously `Static` entry in place to `WholeArchive` and is
/// otherwise dropped; a fresh mention appends one entry with its resolved
/// kind.
pub open spec fn step_library(
    forced: Seq<Seq<char>>,
    avail: Seq<Seq<char>>,
    st: ScanState,
    name: Seq<char>,
) -> ScanState {
    let i = first_lib_index(st.entries, name);
    if i != -1 {
        if st.in_whole_archive && entry_kind(st.entries[i]) == LinkKind::Static {
            ScanState {
                entries: st.entries.update(
                    i,
                    LinkerFlagView::Library { name, kind: LinkKind::WholeArchive },
                ),
                in_whole_archive: st.in_whole_archive,
            }
        } else {
            st
        }
    } else {
        ScanState {
            entries: st.entries.push(
                LinkerFlagView::Library {
                    name,
                    kind: resolve_new_kind(forced, avail, st.in_whole_archive, name),
                },
            ),
            in_whole_archive: st.in_whole_archive,
        }
    }
}

/// The bare library name of an explicit-archive token body: `lib<name>.a`
/// yields `<name>`; when the `.a` suffix is missing after stripping, the
/// whole body is kept unchanged.
pub open spec fn archive_token_name(rest: Seq<char>) -> Seq<char> {
    let stripped = if has_prefix(rest, "lib"@) {
        rest.skip("lib"@.len() as int)
    } else {
        rest
    };
    if has_suffix(stripped, ".a"@) {
        stripped.take(stripped.len() - ".a"@.len())
    } else {
        rest
    }
}

/// One token of the static-link-flags text.
pub open spec fn step_token(
    forced: Seq<Seq<char>>,
    avail: Seq<Seq<char>>,
    st: ScanState,
    tok: Seq<char>,
) -> ScanState {
    if has_prefix(tok, "-L"@) {
        ScanState {
            entries: st.entries.push(LinkerFlagView::SearchPath(tok.skip("-L"@.len() as int))),
            in_whole_archive: st.in_whole_archive,
        }
    } else if has_prefix(tok, "-Wl,"@) {
        let sub = tok.skip("-Wl,"@.len() as int);
        let region = if has_sub(sub, "--whole-archive"@) && !has_sub(sub, "--no-whole-archive"@) {
            true
        } else if has_sub(sub, "--no-whole-archive"@) {
            false
        } else {
            st.in_whole_archive
        };
        let entries = if has_sub(sub, "export-dynamic"@) || has_sub(sub, "as-needed"@) {
            st.entries.push(LinkerFlagView::LinkerArg(tok))
        } else {
            st.entries
        };
        ScanState { entries, in_whole_archive: region }
    } else if has_prefix(tok, "-l:"@) {
        step_library(forced, avail, st, archive_token_name(tok.skip("-l:"@.len() as int)))
    } else if has_prefix(tok, "-l"@) {
        step_library(forced, avail, st, tok.skip("-l"@.len() as int))
    } else if tok == "-pthread"@ {
        if lib_seen(st.entries, "pthread"@) {
            st
        } else {
            ScanState {
                entries: st.entries.push(
                    LinkerFlagView::Library { name: "pthread"@, kind: LinkKind::Default },
                ),
                in_whole_archive: st.in_whole_archive,
            }
        }
    } else {
        st
    }
}

/// The scan folded over a token sequence.
pub open spec fn scan_link_tokens(
    forced: Seq<Seq<char>>,
    avail: Seq<Seq<char>>,
    st: ScanState,
    toks: Seq<Seq<char>>,
) -> ScanState
    decreases toks.len(),
{
    if toks.len() == 0 {
        st
    } else {
        scan_link_tokens(forced, avail, step_token(forced, avail, st, toks[0]), toks.skip(1))
    }
}

/// The classification of the whole static-link-flags text, given the
/// force-whole-archive policy and the set of library names for which a local
/// static archive is available.
pub open spec fn spec_parse_libs(
    forced: Seq<Seq<char>>,
    avail: Seq<Seq<char>>,
    input: Seq<char>,
) -> Seq<LinkerFlagView> {
    scan_link_tokens(forced, avail, scan_start(), tokens_of(input)).entries
}

/// Scanning one more token steps the state once.
pub proof fn lemma_scan_snoc(
    forced: Seq<Seq<char>>,
    avail: Seq<Seq<char>>,
    st: ScanState,
    toks: Seq<Seq<char>>,
    tok: Seq<char>,
)
    ensures
        scan_link_tokens(forced, avail, st, toks.push(tok)) == step_token(
            forced,
            avail,
            scan_link_tokens(forced, avail, st, toks),
            tok,
        ),
    decreases toks.len(),
{
    let snoc = toks.push(tok);
    assert(snoc.len() == toks.len() + 1);
    if toks.len() == 0 {
        assert(snoc[0] == tok);
        assert(snoc.skip(1) =~= Seq::<Seq<char>>::empty());
        assert(scan_link_tokens(forced, avail, st, snoc) == scan_link_tokens(
            forced,
            avail,
            step_token(forced, avail, st, tok),
            snoc.skip(1),
        ));
        assert(scan_link_tokens(forced, avail, st, toks) == st);
    } else {
        assert(snoc[0] == toks[0]);
        assert(snoc.skip(1) =~= toks.skip(1).push(tok));
        let stepped = step_token(forced, avail, st, toks[0]);
        assert(scan_link_tokens(forced, avail, st, snoc) == scan_link_tokens(
            forced,
            avail,
            stepped,
            snoc.skip(1),
        ));
        lemma_scan_snoc(forced, avail, stepped, toks.skip(1), tok);
        assert(scan_link_tokens(forced, avail, st, toks) == scan_link_tokens(
            forced,
            avail,
            stepped,
            toks.skip(1),
        ));
    }
}

// ---------------------------------------------------------------------------
// The availability decision.
// ---------------------------------------------------------------------------

/// Whether a static archive counts as available: it is present in some
/// candidate directory that no configured system root contains.
pub open spec fn spec_static_available(
    present: Seq<bool>,
    dirs: Seq<Seq<char>>,
    roots: Seq<Seq<char>>,
) -> bool {
    exists|i: int| 0 <= i < dirs.len() && present[i] && !under_some_root(roots, dirs[i])
}

// ---------------------------------------------------------------------------
// The parser configuration and the verified passes.
// ---------------------------------------------------------------------------

/// Classifier configuration: the filesystem roots considered system
/// directories, and the library names always linked with every symbol
/// retained.
#[derive(Debug, Clone)]
pub struct PkgConfigParser {
    /// Directories whose static archives are ignored in favour of dynamic
    /// linking.
    system_roots: Vec<String>,
    /// Libraries forced to `WholeArchive` regardless of region markers.
    force_whole_archive: Vec<String>,
}

impl PkgConfigParser {
    /// The configured system roots.
    pub closed spec fn roots(&self) -> Seq<Seq<char>> {
        self.system_roots.deep_view()
    }

    /// The configured force-whole-archive library names.
    pub closed spec fn forced(&self) -> Seq<Seq<char>> {
        self.force_whole_archive.deep_view()
    }

    /// Creates a parser with the default policy: `/usr` is the only system
    /// root and no library is forced to whole-archive.
    pub fn new() -> (r: Self)
        ensures
            r.roots() == seq!["/usr"@],
            r.forced() == Seq::<Seq<char>>::empty(),
    {
        let mut system_roots: Vec<String> = Vec::new();
        system_roots.push(String::from_str("/usr"));
        let r = PkgConfigParser { system_roots, force_whole_archive: Vec::new() };
        proof {
            assert(r.roots() =~= seq!["/usr"@]);
            assert(r.forced() =~= Seq::<Seq<char>>::empty());
        }
        r
    }

    /// Replaces the system roots.
    pub fn system_roots(self, roots: Vec<String>) -> (r: Self)
        ensures
            r.roots() == roots.deep_view(),
            r.forced() == self.forced(),
    {
        PkgConfigParser { system_roots: roots, force_whole_archive: self.force_whole_archive }
    }

    /// Replaces the set of libraries always linked with every symbol
    /// retained.
    pub fn force_whole_archive(self, libs: Vec<String>) -> (r: Self)
        ensures
            r.forced() == libs.deep_view(),
            r.roots() == self.roots(),
    {
        PkgConfigParser { system_roots: self.system_roots, force_whole_archive: libs }
    }
}

impl Default for PkgConfigParser {
    fn default() -> (r: Self)
        ensures
            r.roots() == seq!["/usr"@],
            r.forced() == Seq::<Seq<char>>::empty(),
    {
        PkgConfigParser::new()
    }
}

/// Whether one of the strings in `v` holds exactly the characters of `name`.
fn contains_name(v: &Vec<String>, name: &str) -> (r: bool)
    ensures
        r == v.deep_view().contains(name@),
{
    let mut i: usize = 0;
    while i < v.len()
        invariant
            i <= v@.len(),
            forall|j: int| 0 <= j < i ==> v.deep_view()[j] != name@,
        decreases v@.len() - i,
    {
        if str_eq(v[i].as_str(), name) {
            proof {
                assert(v.deep_view()[i as int] == name@);
            }
            return true;
        }
        i += 1;
    }
    false
}

/// Finds the first library entry named `name`.
fn find_library(entries: &Vec<LinkerFlag>, name: &str) -> (r: Option<usize>)
    ensures
        match r {
            Some(i) => i < entries@.len() && first_lib_index(entries.deep_view(), name@) == i as int,
            None => first_lib_index(entries.deep_view(), name@) == -1,
        },
{
    let mut i: usize = 0;
    while i < entries.len()
        invariant
            i <= entries@.len(),
            forall|j: int| 0 <= j < i ==> !entry_is_lib(entries.deep_view()[j], name@),
        decreases entries@.len() - i,
    {
        let hit = match &entries[i] {
            LinkerFlag::Library { name: n, kind: _ } => str_eq(n.as_str(), name),
            _ => false,
        };
        if hit {
            proof {
                assert(entry_is_lib(entries.deep_view()[i as int], name@));
                lemma_first_lib_index(entries.deep_view(), name@);
            }
            return Some(i);
        }
        i += 1;
    }
    proof {
        lemma_first_lib_index(entries.deep_view(), name@);
    }
    None
}

impl PkgConfigParser {
    /// Routes one bare library name through the deduplication and upgrade
    /// rule, mutating the output built so far.
    fn handle_library(
        &self,
        entries: &mut Vec<LinkerFlag>,
        in_region: bool,
        available: &Vec<String>,
        name: &str,
    )
        ensures
            final(entries).deep_view() == step_library(
                self.forced(),
                available.deep_view(),
                ScanState { entries: old(entries).deep_view(), in_whole_archive: in_region },
                name@,
            ).entries,
    {
        match find_library(entries, name) {
            Some(idx) => {
                let do_upgrade = in_region && match &entries[idx] {
                    LinkerFlag::Library { name: _, kind } => *kind == LinkKind::Static,
                    _ => false,
                };
                if do_upgrade {
                    let ghost old_dv = entries.deep_view();
                    entries[idx] = LinkerFlag::Library {
                        name: String::from_str(name),
                        kind: LinkKind::WholeArchive,
                    };
                    proof {
                        assert(entries.deep_view() =~= old_dv.update(
                            idx as int,
                            LinkerFlagView::Library { name: name@, kind: LinkKind::WholeArchive },
                        ));
                    }
                }
            },
            None => {
                let forced_hit = contains_name(&self.force_whole_archive, name);
                let avail_hit = contains_name(available, name);
                let kind = if (in_region || forced_hit) && avail_hit {
                    LinkKind::WholeArchive
                } else if avail_hit {
                    LinkKind::Static
                } else {
                    LinkKind::Default
                };
                let ghost old_dv = entries.deep_view();
                entries.push(LinkerFlag::Library { name: String::from_str(name), kind });
                proof {
                    assert(entries.deep_view() =~= old_dv.push(
                        LinkerFlagView::Library {
                            name: name@,
                            kind: resolve_new_kind(
                                self.forced(),
                                available.deep_view(),
                                in_region,
                                name@,
                            ),
                        },
                    ));
                }
            },
        }
    }

    /// Classifies the static-link-flags text against an explicit list of
    /// library names for which a local static archive is available.  This is
    /// the whole classification logic with the filesystem factored out: the
    /// result is exactly the specified scan for every availability list.
    pub fn parse_given(&self, pkg_config_output: &str, available: &Vec<String>) -> (r: Vec<
        LinkerFlag,
    >)
        ensures
            r.deep_view() == spec_parse_libs(
                self.forced(),
                available.deep_view(),
                pkg_config_output@,
            ),
            unique_lib_names(r.deep_view()),
    {
        proof {
            lemma_parse_dedup(self.forced(), available.deep_view(), pkg_config_output@);
        }
        let toks = split_tokens(pkg_config_output);
        let ghost forced = self.forced();
        let ghost avail = available.deep_view();
        let ghost tv = toks.deep_view();
        let mut entries: Vec<LinkerFlag> = Vec::new();
        let mut in_region: bool = false;
        proof {
            assert(tv.subrange(0, 0) =~= Seq::<Seq<char>>::empty());
            assert(entries.deep_view() =~= Seq::<LinkerFlagView>::empty());
        }
        let n = toks.len();
        let mut i: usize = 0;
        while i < n
            invariant
                n == toks@.len(),
                tv == toks.deep_view(),
                forced == self.forced(),
                avail == available.deep_view(),
                i <= n,
                (ScanState { entries: entries.deep_view(), in_whole_archive: in_region })
                    == scan_link_tokens(forced, avail, scan_start(), tv.subrange(0, i as int)),
            decreases n - i,
        {
            let ghost st = ScanState { entries: entries.deep_view(), in_whole_archive: in_region };
            let tok = toks[i].as_str();
            proof {
                assert(tok@ == tv[i as int]);
                reveal_strlit("-L");
                reveal_strlit("-Wl,");
                reveal_strlit("-l:");
                reveal_strlit("-l");
            }
            if starts_with_str(tok, "-L") {
                let dir = tail_from(tok, 2);
                let ghost old_dv = entries.deep_view();
                entries.push(LinkerFlag::SearchPath(String::from_str(dir)));
                proof {
                    assert(entries.deep_view() =~= old_dv.push(
                        LinkerFlagView::SearchPath(tok@.skip(2)),
                    ));
                    assert(tok@.skip("-L"@.len() as int) == tok@.skip(2));
                }
            } else if starts_with_str(tok, "-Wl,") {
                let sub = tail_from(tok, 4);
                proof {
                    assert(sub@ == tok@.skip("-Wl,"@.len() as int));
                }
                if contains_str(sub, "--whole-archive") && !contains_str(sub, "--no-whole-archive")
                    {
                    in_region = true;
                } else if contains_str(sub, "--no-whole-archive") {
                    in_region = false;
                }
                if contains_str(sub, "export-dynamic") || contains_str(sub, "as-needed") {
                    let ghost old_dv = entries.deep_view();
                    entries.push(LinkerFlag::LinkerArg(String::from_str(tok)));
                    proof {
                        assert(entries.deep_view() =~= old_dv.push(
                            LinkerFlagView::LinkerArg(tok@),
                        ));
                    }
                }
            } else if starts_with_str(tok, "-l:") {
                let rest = tail_from(tok, 3);
                proof {
                    assert(rest@ == tok@.skip("-l:"@.len() as int));
                    reveal_strlit("lib");
                    reveal_strlit(".a");
                }
                let stripped = if starts_with_str(rest, "lib") {
                    tail_from(rest, 3)
                } else {
                    rest
                };
                let m = stripped.unicode_len();
                let name = if ends_with_str(stripped, ".a") {
                    head_to(stripped, m - 2)
                } else {
                    rest
                };
                proof {
                    assert(name@ == archive_token_name(rest@));
                }
                self.handle_library(&mut entries, in_region, available, name);
            } else if starts_with_str(tok, "-l") {
                let name = tail_from(tok, 2);
                proof {
                    assert(name@ == tok@.skip("-l"@.len() as int));
                }
                self.handle_library(&mut entries, in_region, available, name);
            } else if str_eq(tok, "-pthread") {
                if find_library(&entries, "pthread").is_none() {
                    let ghost old_dv = entries.deep_view();
                    entries.push(
                        LinkerFlag::Library {
                            name: String::from_str("pthread"),
                            kind: LinkKind::Default,
                        },
                    );
                    proof {
                        assert(entries.deep_view() =~= old_dv.push(
                            LinkerFlagView::Library { name: "pthread"@, kind: LinkKind::Default },
                        ));
                    }
                }
            }
            proof {
                assert(tv.subrange(0, i + 1) =~= tv.subrange(0, i as int).push(tv[i as int]));
                lemma_scan_snoc(forced, avail, scan_start(), tv.subrange(0, i as int), tv[i as int]);
                assert(ScanState { entries: entries.deep_view(), in_whole_archive: in_region }
                    == step_token(forced, avail, st, tv[i as int]));
            }
            i += 1;
        }
        proof {
            assert(tv.subrange(0, n as int) =~= tv);
        }
        entries
    }
}

// ---------------------------------------------------------------------------
// The static-availability probe.
// ---------------------------------------------------------------------------

/// Relies on `std::path::Path::join` and `std::path::Path::exists`: whether
/// the directory holds an entry with the given file name.  The answer depends
/// on the state of the filesystem, so nothing is promised of it.
#[verifier::external_body]
fn dir_holds_file(dir: &str, file: &str) -> bool {
    std::path::Path::new(dir).join(file).exists()
}

impl PkgConfigParser {
    /// The pure availability decision: given, for each candidate directory,
    /// whether it holds the archive, an archive counts as available exactly
    /// when some directory holds it and no configured system root contains
    /// that directory.
    pub fn static_available_given(&self, present: &Vec<bool>, dirs: &Vec<String>) -> (r: bool)
        requires
            present@.len() == dirs@.len(),
        ensures
            r == spec_static_available(present@, dirs.deep_view(), self.roots()),
    {
        let mut i: usize = 0;
        while i < dirs.len()
            invariant
                present@.len() == dirs@.len(),
                i <= dirs@.len(),
                forall|t: int|
                    0 <= t < i ==> !(present@[t] && !under_some_root(
                        self.roots(),
                        dirs.deep_view()[t],
                    )),
            decreases dirs@.len() - i,
        {
            if present[i] && !under_any_root(dirs[i].as_str(), &self.system_roots) {
                proof {
                    assert(present@[i as int] && !under_some_root(
                        self.roots(),
                        dirs.deep_view()[i as int],
                    ));
                }
                return true;
            }
            i += 1;
        }
        false
    }

    /// Whether a static archive `lib<name>.a` is available for `name` in one
    /// of `dirs`, outside every configured system root.  The filesystem
    /// answers which directories hold the archive; whatever it answers, the
    /// result is the specified decision for that answer.
    pub fn is_static_available(&self, name: &str, dirs: &Vec<String>) -> (r: bool)
        ensures
            exists|present: Seq<bool>|
                present.len() == dirs.deep_view().len() && r == spec_static_available(
                    present,
                    dirs.deep_view(),
                    self.roots(),
                ),
    {
        let file = String::from_str("lib").concat(name).concat(".a");
        let mut present: Vec<bool> = Vec::new();
        let mut i: usize = 0;
        while i < dirs.len()
            invariant
                present@.len() == i,
                i <= dirs@.len(),
            decreases dirs@.len() - i,
        {
            present.push(dir_holds_file(dirs[i].as_str(), file.as_str()));
            i += 1;
        }
        let r = self.static_available_given(&present, dirs);
        proof {
            assert(present@.len() == dirs.deep_view().len() && r == spec_static_available(
                present@,
                dirs.deep_view(),
                self.roots(),
            ));
        }
        r
    }

    /// Classifies the static-link-flags text, probing the filesystem for
    /// static-archive availability.  Search directories are collected from
    /// every `-L` token before any probing, so a `-l` token may precede its
    /// `-L` token.  The result is the specified scan under some availability
    /// list; [`Self::parse_given`] pins the scan exactly for a given list.
    pub fn parse(&self, pkg_config_output: &str) -> (r: Vec<LinkerFlag>)
        ensures
            exists|avail: Seq<Seq<char>>|
                r.deep_view() == spec_parse_libs(self.forced(), avail, pkg_config_output@),
            unique_lib_names(r.deep_view()),
    {
        let toks = split_tokens(pkg_config_output);
        let mut dirs: Vec<String> = Vec::new();
        let mut i: usize = 0;
        while i < toks.len()
            decreases toks@.len() - i,
        {
            let tok = toks[i].as_str();
            proof {
                reveal_strlit("-L");
            }
            if starts_with_str(tok, "-L") {
                dirs.push(String::from_str(tail_from(tok, 2)));
            }
            i += 1;
        }
        let mut available: Vec<String> = Vec::new();
        let mut probed: Vec<String> = Vec::new();
        let mut k: usize = 0;
        while k < toks.len()
            decreases toks@.len() - k,
        {
            let tok = toks[k].as_str();
            proof {
                reveal_strlit("-l:");
                reveal_strlit("-l");
                reveal_strlit("lib");
                reveal_strlit(".a");
            }
            if starts_with_str(tok, "-l:") {
                let rest = tail_from(tok, 3);
                let stripped = if starts_with_str(rest, "lib") {
                    tail_from(rest, 3)
                } else {
                    rest
                };
                let m = stripped.unicode_len();
                let name = if ends_with_str(stripped, ".a") {
                    head_to(stripped, m - 2)
                } else {
                    rest
                };
                if !contains_name(&probed, name) {
                    probed.push(String::from_str(name));
                    if self.is_static_available(name, &dirs) {
                        available.push(String::from_str(name));
                    }
                }
            } else if starts_with_str(tok, "-l") {
                let name = tail_from(tok, 2);
                if !contains_name(&probed, name) {
                    probed.push(String::from_str(name));
                    if self.is_static_available(name, &dirs) {
                        available.push(String::from_str(name));
                    }
                }
            }
            k += 1;
        }
        let r = self.parse_given(pkg_config_output, &available);
        proof {
            assert(r.deep_view() == spec_parse_libs(
                self.forced(),
                available.deep_view(),
                pkg_config_output@,
            ));
        }
        r
    }
}

// ---------------------------------------------------------------------------
// The compiler-flag classifier.
// ---------------------------------------------------------------------------

/// The running state of the compile-flag scan: the entries emitted so far and
/// the original token texts already consumed (for deduplication).
pub struct CflagScan {
    pub entries: Seq<CompilerFlagView>,
    pub seen: Seq<Seq<char>>,
}

/// The state before any token has been consumed.
pub open spec fn cflag_start() -> CflagScan {
    CflagScan { entries: Seq::empty(), seen: Seq::empty() }
}

/// The index of the first `=` in `s`, or `-1` when there is none.
pub open spec fn first_eq_index(s: Seq<char>) -> int
    decreases s.len(),
{
    if s.len() == 0 {
        -1
    } else if s[0] == '=' {
        0
    } else {
        let r = first_eq_index(s.skip(1));
        if r == -1 {
            -1
        } else {
            r + 1
        }
    }
}

/// `first_eq_index` finds the first `=`.
pub proof fn lemma_first_eq_index(s: Seq<char>)
    ensures
        first_eq_index(s) == -1 ==> forall|j: int| 0 <= j < s.len() ==> s[j] != '=',
        first_eq_index(s) != -1 ==> 0 <= first_eq_index(s) < s.len() && s[first_eq_index(s)]
            == '=',
        first_eq_index(s) != -1 ==> forall|j: int| 0 <= j < first_eq_index(s) ==> s[j] != '=',
    decreases s.len(),
{
    if s.len() == 0 {
    } else if s[0] == '=' {
    } else {
        let rest = s.skip(1);
        lemma_first_eq_index(rest);
        let r = first_eq_index(rest);
        if r == -1 {
            assert forall|j: int| 0 <= j < s.len() implies s[j] != '=' by {
                if j > 0 {
                    assert(s[j] == rest[j - 1]);
                }
            }
        } else {
            assert(s[r + 1] == rest[r]);
            assert forall|j: int| 0 <= j < r + 1 implies s[j] != '=' by {
                if j > 0 {
                    assert(s[j] == rest[j - 1]);
                }
            }
        }
    }
}

/// The macro definition carried by the body of a `-D` token: the part before
/// the first `=` is the key, the part after it the value; without `=` the
/// whole body is the key.
pub open spec fn define_of(body: Seq<char>) -> CompilerFlagView {
    let i = first_eq_index(body);
    if i == -1 {
        CompilerFlagView::Define { key: body, value: None }
    } else {
        CompilerFlagView::Define { key: body.take(i), value: Some(body.skip(i + 1)) }
    }
}

/// One token of the compile-flags text: `-I` and `-D` tokens not yet seen
/// verbatim are classified and appended, every other token is dropped.
pub open spec fn step_cflag(st: CflagScan, tok: Seq<char>) -> CflagScan {
    if has_prefix(tok, "-I"@) {
        if st.seen.contains(tok) {
            st
        } else {
            CflagScan {
                entries: st.entries.push(
                    CompilerFlagView::IncludePath(tok.skip("-I"@.len() as int)),
                ),
                seen: st.seen.push(tok),
            }
        }
    } else if has_prefix(tok, "-D"@) {
        if st.seen.contains(tok) {
            st
        } else {
            CflagScan {
                entries: st.entries.push(define_of(tok.skip("-D"@.len() as int))),
                seen: st.seen.push(tok),
            }
        }
    } else {
        st
    }
}

/// The compile-flag scan folded over a token sequence.
pub open spec fn scan_cflag_tokens(st: CflagScan, toks: Seq<Seq<char>>) -> CflagScan
    decreases toks.len(),
{
    if toks.len() == 0 {
        st
    } else {
        scan_cflag_tokens(step_cflag(st, toks[0]), toks.skip(1))
    }
}

/// The classification of the whole compile-flags text.
pub open spec fn spec_parse_cflags(input: Seq<char>) -> Seq<CompilerFlagView> {
    scan_cflag_tokens(cflag_start(), tokens_of(input)).entries
}

/// Scanning one more compile-flag token steps the state once.
pub proof fn lemma_cflag_scan_snoc(st: CflagScan, toks: Seq<Seq<char>>, tok: Seq<char>)
    ensures
        scan_cflag_tokens(st, toks.push(tok)) == step_cflag(scan_cflag_tokens(st, toks), tok),
    decreases toks.len(),
{
    let snoc = toks.push(tok);
    if toks.len() == 0 {
        assert(snoc[0] == tok);
        assert(snoc.skip(1) =~= Seq::<Seq<char>>::empty());
        assert(scan_cflag_tokens(st, snoc) == scan_cflag_tokens(
            step_cflag(st, tok),
            snoc.skip(1),
        ));
        assert(scan_cflag_tokens(st, toks) == st);
    } else {
        assert(snoc[0] == toks[0]);
        assert(snoc.skip(1) =~= toks.skip(1).push(tok));
        let stepped = step_cflag(st, toks[0]);
        assert(scan_cflag_tokens(st, snoc) == scan_cflag_tokens(stepped, snoc.skip(1)));
        lemma_cflag_scan_snoc(stepped, toks.skip(1), tok);
        assert(scan_cflag_tokens(st, toks) == scan_cflag_tokens(stepped, toks.skip(1)));
    }
}

/// Finds the first `=` in `s`.
fn find_eq(s: &str) -> (r: Option<usize>)
    ensures
        s@.len() <= usize::MAX,
        match r {
            Some(i) => i < s@.len() && first_eq_index(s@) == i as int,
            None => first_eq_index(s@) == -1,
        },
{
    let n = s.unicode_len();
    let mut i: usize = 0;
    while i < n
        invariant
            n == s@.len(),
            i <= n,
            forall|j: int| 0 <= j < i ==> s@[j] != '=',
        decreases n - i,
    {
        if s.get_char(i) == '=' {
            proof {
                lemma_first_eq_index(s@);
            }
            return Some(i);
        }
        i += 1;
    }
    proof {
        lemma_first_eq_index(s@);
    }
    None
}

impl PkgConfigParser {
    /// Classifies the compile-flags text: `-I<path>` and `-D<key>[=<value>]`
    /// tokens become entries, everything else is dropped, and a token text
    /// already emitted is dropped, so first occurrences survive in order.
    pub fn parse_cflags(&self, output: &str) -> (r: Vec<CompilerFlag>)
        ensures
            r.deep_view() == spec_parse_cflags(output@),
    {
        let toks = split_tokens(output);
        let ghost tv = toks.deep_view();
        let mut entries: Vec<CompilerFlag> = Vec::new();
        let mut seen: Vec<String> = Vec::new();
        proof {
            assert(tv.subrange(0, 0) =~= Seq::<Seq<char>>::empty());
            assert(entries.deep_view() =~= Seq::<CompilerFlagView>::empty());
            assert(seen.deep_view() =~= Seq::<Seq<char>>::empty());
        }
        let n = toks.len();
        let mut i: usize = 0;
        while i < n
            invariant
                n == toks@.len(),
                tv == toks.deep_view(),
                i <= n,
                (CflagScan { entries: entries.deep_view(), seen: seen.deep_view() })
                    == scan_cflag_tokens(cflag_start(), tv.subrange(0, i as int)),
            decreases n - i,
        {
            let ghost st = CflagScan { entries: entries.deep_view(), seen: seen.deep_view() };
            let tok = toks[i].as_str();
            proof {
                assert(tok@ == tv[i as int]);
                reveal_strlit("-I");
                reveal_strlit("-D");
            }
            if starts_with_str(tok, "-I") {
                if !contains_name(&seen, tok) {
                    let path = tail_from(tok, 2);
                    let ghost old_entries = entries.deep_view();
                    let ghost old_seen = seen.deep_view();
                    entries.push(CompilerFlag::IncludePath(String::from_str(path)));
                    seen.push(String::from_str(tok));
                    proof {
                        assert(entries.deep_view() =~= old_entries.push(
                            CompilerFlagView::IncludePath(tok@.skip("-I"@.len() as int)),
                        ));
                        assert(seen.deep_view() =~= old_seen.push(tok@));
                    }
                }
            } else if starts_with_str(tok, "-D") {
                if !contains_name(&seen, tok) {
                    let body = tail_from(tok, 2);
                    let ghost old_entries = entries.deep_view();
                    let ghost old_seen = seen.deep_view();
                    match find_eq(body) {
                        Some(p) => {
                            let key = head_to(body, p);
                            let val = tail_from(body, p + 1);
                            entries.push(
                                CompilerFlag::Define {
                                    key: String::from_str(key),
                                    value: Some(String::from_str(val)),
                                },
                            );
                        },
                        None => {
                            entries.push(
                                CompilerFlag::Define {
                                    key: String::from_str(body),
                                    value: None,
                                },
                            );
                        },
                    }
                    seen.push(String::from_str(tok));
                    proof {
                        assert(entries.deep_view() =~= old_entries.push(
                            define_of(tok@.skip("-D"@.len() as int)),
                        ));
                        assert(seen.deep_view() =~= old_seen.push(tok@));
                    }
                }
            }
            proof {
                assert(tv.subrange(0, i + 1) =~= tv.subrange(0, i as int).push(tv[i as int]));
                lemma_cflag_scan_snoc(cflag_start(), tv.subrange(0, i as int), tv[i as int]);
                assert((CflagScan { entries: entries.deep_view(), seen: seen.deep_view() })
                    == step_cflag(st, tv[i as int]));
            }
            i += 1;
        }
        proof {
            assert(tv.subrange(0, n as int) =~= tv);
        }
        entries
    }
}

// ---------------------------------------------------------------------------
// Combined classification of both query outputs.
// ---------------------------------------------------------------------------

/// The structured result of classifying both discovery queries for a package
/// set: linker flags from the static-link-flags text and compiler flags from
/// the compile-flags text.
#[derive(Debug, Clone)]
pub struct PkgConfig {
    /// Ordered linker directives.
    pub libs: Vec<LinkerFlag>,
    /// Ordered, deduplicated compiler flags.
    pub cflags: Vec<CompilerFlag>,
}

impl PkgConfigParser {
    /// Classifies the raw texts of the two discovery queries — the
    /// static-link-flags output and the compile-flags output — into one
    /// structured result.
    pub fn probe(&self, libs_output: &str, cflags_output: &str) -> (r: PkgConfig)
        ensures
            exists|avail: Seq<Seq<char>>|
                r.libs.deep_view() == spec_parse_libs(self.forced(), avail, libs_output@),
            r.cflags.deep_view() == spec_parse_cflags(cflags_output@),
    {
        PkgConfig { libs: self.parse(libs_output), cflags: self.parse_cflags(cflags_output) }
    }
}

// ---------------------------------------------------------------------------
// Laws of the linker-flag scan.
// ---------------------------------------------------------------------------

/// No two library entries of the sequence share a name.
pub open spec fn unique_lib_names(entries: Seq<LinkerFlagView>) -> bool {
    forall|i: int, j: int, n: Seq<char>|
        #![trigger entry_is_lib(entries[i], n), entry_is_lib(entries[j], n)]
        0 <= i < j < entries.len() && entry_is_lib(entries[i], n) ==> !entry_is_lib(entries[j], n)
}

/// One library mention preserves name uniqueness.
proof fn lemma_step_library_unique(
    forced: Seq<Seq<char>>,
    avail: Seq<Seq<char>>,
    st: ScanState,
    name: Seq<char>,
)
    requires
        unique_lib_names(st.entries),
    ensures
        unique_lib_names(step_library(forced, avail, st, name).entries),
{
    let e1 = st.entries;
    let e2 = step_library(forced, avail, st, name).entries;
    let i0 = first_lib_index(e1, name);
    lemma_first_lib_index(e1, name);
    if i0 != -1 {
        if st.in_whole_archive && entry_kind(e1[i0]) == LinkKind::Static {
            assert(entry_is_lib(e1[i0], name));
            assert forall|k: int, n2: Seq<char>|
                #![trigger entry_is_lib(e2[k], n2)]
                0 <= k < e2.len() implies entry_is_lib(e2[k], n2) == entry_is_lib(e1[k], n2) by {
                if k != i0 {
                    assert(e2[k] == e1[k]);
                }
            }
            assert forall|i: int, j: int, n: Seq<char>|
                #![trigger entry_is_lib(e2[i], n), entry_is_lib(e2[j], n)]
                0 <= i < j < e2.len() && entry_is_lib(e2[i], n) implies !entry_is_lib(
                e2[j],
                n,
            ) by {
                assert(entry_is_lib(e1[i], n) == entry_is_lib(e2[i], n));
                assert(entry_is_lib(e1[j], n) == entry_is_lib(e2[j], n));
            }
        }
    } else {
        assert forall|i: int, j: int, n: Seq<char>|
            #![trigger entry_is_lib(e2[i], n), entry_is_lib(e2[j], n)]
            0 <= i < j < e2.len() && entry_is_lib(e2[i], n) implies !entry_is_lib(e2[j], n) by {
            if j == e1.len() {
                if entry_is_lib(e2[j], n) {
                    assert(n == name);
                    assert(e2[i] == e1[i]);
                    assert(!entry_is_lib(e1[i], name));
                }
            } else {
                assert(e2[i] == e1[i]);
                assert(e2[j] == e1[j]);
            }
        }
    }
}

/// One token preserves name uniqueness.
proof fn lemma_step_token_unique(
    forced: Seq<Seq<char>>,
    avail: Seq<Seq<char>>,
    st: ScanState,
    tok: Seq<char>,
)
    requires
        unique_lib_names(st.entries),
    ensures
        unique_lib_names(step_token(forced, avail, st, tok).entries),
{
    let e1 = st.entries;
    let e2 = step_token(forced, avail, st, tok).entries;
    if has_prefix(tok, "-L"@) || has_prefix(tok, "-Wl,"@) {
        assert forall|i: int, j: int, n: Seq<char>|
            #![trigger entry_is_lib(e2[i], n), entry_is_lib(e2[j], n)]
            0 <= i < j < e2.len() && entry_is_lib(e2[i], n) implies !entry_is_lib(e2[j], n) by {
            if j < e1.len() {
                assert(e2[i] == e1[i]);
                assert(e2[j] == e1[j]);
            } else {
                assert(!entry_is_lib(e2[j], n));
            }
        }
    } else if has_prefix(tok, "-l:"@) {
        lemma_step_library_unique(
            forced,
            avail,
            st,
            archive_token_name(tok.skip("-l:"@.len() as int)),
        );
    } else if has_prefix(tok, "-l"@) {
        lemma_step_library_unique(forced, avail, st, tok.skip("-l"@.len() as int));
    } else if tok == "-pthread"@ && !lib_seen(e1, "pthread"@) {
        lemma_first_lib_index(e1, "pthread"@);
        assert forall|i: int, j: int, n: Seq<char>|
            #![trigger entry_is_lib(e2[i], n), entry_is_lib(e2[j], n)]
            0 <= i < j < e2.len() && entry_is_lib(e2[i], n) implies !entry_is_lib(e2[j], n) by {
            if j == e1.len() {
                if entry_is_lib(e2[j], n) {
                    assert(n == "pthread"@);
                    assert(e2[i] == e1[i]);
                    assert(!entry_is_lib(e1[i], "pthread"@));
                }
            } else {
                assert(e2[i] == e1[i]);
                assert(e2[j] == e1[j]);
            }
        }
    }
}

/// The whole scan preserves name uniqueness.
proof fn lemma_scan_unique(
    forced: Seq<Seq<char>>,
    avail: Seq<Seq<char>>,
    st: ScanState,
    toks: Seq<Seq<char>>,
)
    requires
        unique_lib_names(st.entries),
    ensures
        unique_lib_names(scan_link_tokens(forced, avail, st, toks).entries),
    decreases toks.len(),
{
    if toks.len() > 0 {
        lemma_step_token_unique(forced, avail, st, toks[0]);
        lemma_scan_unique(forced, avail, step_token(forced, avail, st, toks[0]), toks.skip(1));
    }
}

/// Deduplication is idempotent: however often a library name is mentioned in
/// the input, the classified output never holds two library entries with that
/// name.
pub proof fn lemma_parse_dedup(forced: Seq<Seq<char>>, avail: Seq<Seq<char>>, input: Seq<char>)
    ensures
        unique_lib_names(spec_parse_libs(forced, avail, input)),
{
    assert(unique_lib_names(scan_start().entries));
    lemma_scan_unique(forced, avail, scan_start(), tokens_of(input));
}

/// The only transition a recorded link kind may take: staying put, or the
/// upgrade from `Static` to `WholeArchive`.
pub open spec fn kind_upgrade_ok(k1: LinkKind, k2: LinkKind) -> bool {
    k2 == k1 || (k1 == LinkKind::Static && k2 == LinkKind::WholeArchive)
}

/// Appending an entry leaves the first index of an already-present library
/// name unchanged.
proof fn lemma_first_index_push(entries: Seq<LinkerFlagView>, name: Seq<char>, x: LinkerFlagView)
    requires
        first_lib_index(entries, name) != -1,
    ensures
        first_lib_index(entries.push(x), name) == first_lib_index(entries, name),
    decreases entries.len(),
{
    let p = entries.push(x);
    assert(p.len() == entries.len() + 1);
    if entries.len() > 0 {
        assert(p[0] == entries[0]);
        if !entry_is_lib(entries[0], name) {
            assert(p.skip(1) =~= entries.skip(1).push(x));
            lemma_first_index_push(entries.skip(1), name, x);
        }
    }
}

/// Two entry sequences on which every position carries the same library
/// names have the same first index for every name.
proof fn lemma_first_index_entrywise(
    e1: Seq<LinkerFlagView>,
    e2: Seq<LinkerFlagView>,
    name: Seq<char>,
)
    requires
        e1.len() == e2.len(),
        forall|k: int, n: Seq<char>|
            #![trigger entry_is_lib(e1[k], n), entry_is_lib(e2[k], n)]
            0 <= k < e1.len() ==> entry_is_lib(e1[k], n) == entry_is_lib(e2[k], n),
    ensures
        first_lib_index(e1, name) == first_lib_index(e2, name),
    decreases e1.len(),
{
    if e1.len() > 0 {
        assert(entry_is_lib(e1[0], name) == entry_is_lib(e2[0], name));
        if !entry_is_lib(e1[0], name) {
            let r1 = e1.skip(1);
            let r2 = e2.skip(1);
            assert forall|k: int, n: Seq<char>|
                #![trigger entry_is_lib(r1[k], n), entry_is_lib(r2[k], n)]
                0 <= k < r1.len() implies entry_is_lib(r1[k], n) == entry_is_lib(r2[k], n) by {
                assert(r1[k] == e1[k + 1]);
                assert(r2[k] == e2[k + 1]);
            }
            lemma_first_index_entrywise(r1, r2, name);
        }
    }
}

/// One library mention keeps a recorded library at its index and moves its
/// kind only along `kind_upgrade_ok`.
proof fn lemma_step_library_tracks(
    forced: Seq<Seq<char>>,
    avail: Seq<Seq<char>>,
    st: ScanState,
    name2: Seq<char>,
    name: Seq<char>,
)
    requires
        first_lib_index(st.entries, name) != -1,
    ensures
        ({
            let i = first_lib_index(st.entries, name);
            let e2 = step_library(forced, avail, st, name2).entries;
            first_lib_index(e2, name) == i && entry_is_lib(e2[i], name) && kind_upgrade_ok(
                entry_kind(st.entries[i]),
                entry_kind(e2[i]),
            )
        }),
{
    let e1 = st.entries;
    let i = first_lib_index(e1, name);
    let e2 = step_library(forced, avail, st, name2).entries;
    lemma_first_lib_index(e1, name);
    let i2 = first_lib_index(e1, name2);
    lemma_first_lib_index(e1, name2);
    if i2 != -1 {
        if st.in_whole_archive && entry_kind(e1[i2]) == LinkKind::Static {
            assert(e2 == e1.update(i2, LinkerFlagView::Library {
                name: name2,
                kind: LinkKind::WholeArchive,
            }));
            assert forall|k: int, n: Seq<char>|
                #![trigger entry_is_lib(e1[k], n), entry_is_lib(e2[k], n)]
                0 <= k < e1.len() implies entry_is_lib(e1[k], n) == entry_is_lib(e2[k], n) by {
                if k != i2 {
                    assert(e2[k] == e1[k]);
                } else {
                    assert(entry_is_lib(e1[i2], name2));
                }
            }
            lemma_first_index_entrywise(e1, e2, name);
            if name2 == name {
                assert(i2 == i);
                assert(entry_kind(e1[i]) == LinkKind::Static);
                assert(entry_kind(e2[i]) == LinkKind::WholeArchive);
            } else {
                assert(entry_is_lib(e1[i], name));
                assert(i != i2);
                assert(e2[i] == e1[i]);
            }
        }
    } else {
        assert(name2 != name);
        lemma_first_index_push(e1, name, e2[e1.len() as int]);
        assert(e2[i] == e1[i]);
    }
}

/// One token keeps a recorded library at its index and moves its kind only
/// along `kind_upgrade_ok`.
proof fn lemma_step_token_tracks(
    forced: Seq<Seq<char>>,
    avail: Seq<Seq<char>>,
    st: ScanState,
    tok: Seq<char>,
    name: Seq<char>,
)
    requires
        first_lib_index(st.entries, name) != -1,
    ensures
        ({
            let i = first_lib_index(st.entries, name);
            let e2 = step_token(forced, avail, st, tok).entries;
            first_lib_index(e2, name) == i && entry_is_lib(e2[i], name) && kind_upgrade_ok(
                entry_kind(st.entries[i]),
                entry_kind(e2[i]),
            )
        }),
{
    let e1 = st.entries;
    let i = first_lib_index(e1, name);
    let e2 = step_token(forced, avail, st, tok).entries;
    lemma_first_lib_index(e1, name);
    if has_prefix(tok, "-L"@) {
        lemma_first_index_push(
            e1,
            name,
            LinkerFlagView::SearchPath(tok.skip("-L"@.len() as int)),
        );
    } else if has_prefix(tok, "-Wl,"@) {
        let sub = tok.skip("-Wl,"@.len() as int);
        if has_sub(sub, "export-dynamic"@) || has_sub(sub, "as-needed"@) {
            lemma_first_index_push(e1, name, LinkerFlagView::LinkerArg(tok));
        }
    } else if has_prefix(tok, "-l:"@) {
        lemma_step_library_tracks(
            forced,
            avail,
            st,
            archive_token_name(tok.skip("-l:"@.len() as int)),
            name,
        );
    } else if has_prefix(tok, "-l"@) {
        lemma_step_library_tracks(forced, avail, st, tok.skip("-l"@.len() as int), name);
    } else if tok == "-pthread"@ && !lib_seen(e1, "pthread"@) {
        lemma_first_index_push(
            e1,
            name,
            LinkerFlagView::Library { name: "pthread"@, kind: LinkKind::Default },
        );
    }
}

/// The scan of any token sequence keeps a recorded library at its index and
/// moves its kind only along `kind_upgrade_ok`.
proof fn lemma_scan_tracks(
    forced: Seq<Seq<char>>,
    avail: Seq<Seq<char>>,
    st: ScanState,
    toks: Seq<Seq<char>>,
    name: Seq<char>,
)
    requires
        first_lib_index(st.entries, name) != -1,
    ensures
        ({
            let i = first_lib_index(st.entries, name);
            let e2 = scan_link_tokens(forced, avail, st, toks).entries;
            first_lib_index(e2, name) == i && entry_is_lib(e2[i], name) && kind_upgrade_ok(
                entry_kind(st.entries[i]),
                entry_kind(e2[i]),
            )
        }),
    decreases toks.len(),
{
    lemma_first_lib_index(st.entries, name);
    if toks.len() > 0 {
        lemma_step_token_tracks(forced, avail, st, toks[0], name);
        lemma_scan_tracks(forced, avail, step_token(forced, avail, st, toks[0]), toks.skip(1), name);
    }
}

/// Scanning a concatenation scans the parts in turn.
proof fn lemma_scan_append(
    forced: Seq<Seq<char>>,
    avail: Seq<Seq<char>>,
    st: ScanState,
    a: Seq<Seq<char>>,
    b: Seq<Seq<char>>,
)
    ensures
        scan_link_tokens(forced, avail, st, a + b) == scan_link_tokens(
            forced,
            avail,
            scan_link_tokens(forced, avail, st, a),
            b,
        ),
    decreases a.len(),
{
    if a.len() == 0 {
        assert(a + b =~= b);
    } else {
        assert((a + b)[0] == a[0]);
        assert((a + b).skip(1) =~= a.skip(1) + b);
        lemma_scan_append(forced, avail, step_token(forced, avail, st, a[0]), a.skip(1), b);
    }
}

/// Upgrade monotonicity: once the scan of a token sequence has recorded a
/// library, scanning any further tokens keeps its entry at the same position
/// and moves its kind only along `kind_upgrade_ok` — `Static` may become
/// `WholeArchive`, the reverse transition never happens, and a
/// `WholeArchive` or `Default` entry keeps its kind.
pub proof fn lemma_kind_monotonic(
    forced: Seq<Seq<char>>,
    avail: Seq<Seq<char>>,
    toks: Seq<Seq<char>>,
    more: Seq<Seq<char>>,
    name: Seq<char>,
)
    requires
        lib_seen(scan_link_tokens(forced, avail, scan_start(), toks).entries, name),
    ensures
        ({
            let e1 = scan_link_tokens(forced, avail, scan_start(), toks).entries;
            let e2 = scan_link_tokens(forced, avail, scan_start(), toks + more).entries;
            let i = first_lib_index(e1, name);
            first_lib_index(e2, name) == i && entry_is_lib(e2[i], name) && kind_upgrade_ok(
                entry_kind(e1[i]),
                entry_kind(e2[i]),
            )
        }),
{
    lemma_scan_append(forced, avail, scan_start(), toks, more);
    lemma_scan_tracks(
        forced,
        avail,
        scan_link_tokens(forced, avail, scan_start(), toks),
        more,
        name,
    );
}

/// A duplicate mention never adds an entry: inside a retain-all region it
/// upgrades a previously `Static` entry in place to `WholeArchive`, and in
/// every other case it leaves the state untouched.
pub proof fn lemma_duplicate_mention(
    forced: Seq<Seq<char>>,
    avail: Seq<Seq<char>>,
    st: ScanState,
    name: Seq<char>,
)
    requires
        lib_seen(st.entries, name),
    ensures
        step_library(forced, avail, st, name).entries.len() == st.entries.len(),
        st.in_whole_archive && entry_kind(st.entries[first_lib_index(st.entries, name)])
            == LinkKind::Static ==> step_library(forced, avail, st, name).entries[first_lib_index(
            st.entries,
            name,
        )] == (LinkerFlagView::Library { name, kind: LinkKind::WholeArchive }),
        !(st.in_whole_archive && entry_kind(st.entries[first_lib_index(st.entries, name)])
            == LinkKind::Static) ==> step_library(forced, avail, st, name) == st,
{
    lemma_first_lib_index(st.entries, name);
}

// ---------------------------------------------------------------------------
// Laws of the compile-flag scan.
// ---------------------------------------------------------------------------

/// Whether a compile-flag token is recognized at all.
pub open spec fn cflag_recognized(tok: Seq<char>) -> bool {
    has_prefix(tok, "-I"@) || has_prefix(tok, "-D"@)
}

/// The classification of one recognized compile-flag token.
pub open spec fn classify_cflag(tok: Seq<char>) -> CompilerFlagView {
    if has_prefix(tok, "-I"@) {
        CompilerFlagView::IncludePath(tok.skip("-I"@.len() as int))
    } else {
        define_of(tok.skip("-D"@.len() as int))
    }
}

/// The classification of each token of a sequence, in order.
pub open spec fn classified(toks: Seq<Seq<char>>) -> Seq<CompilerFlagView> {
    toks.map_values(|t: Seq<char>| classify_cflag(t))
}

/// The first occurrences of the recognized tokens of `toks`, in input order,
/// skipping the token texts in `seen`.
pub open spec fn first_occurrences(toks: Seq<Seq<char>>, seen: Seq<Seq<char>>) -> Seq<Seq<char>>
    decreases toks.len(),
{
    if toks.len() == 0 {
        Seq::empty()
    } else if cflag_recognized(toks[0]) && !seen.contains(toks[0]) {
        seq![toks[0]] + first_occurrences(toks.skip(1), seen.push(toks[0]))
    } else {
        first_occurrences(toks.skip(1), seen)
    }
}

/// The compile-flag scan emits exactly the classification of the first
/// occurrences of the recognized tokens, and records exactly those token
/// texts as seen.
proof fn lemma_scan_first_occurrences(st: CflagScan, toks: Seq<Seq<char>>)
    ensures
        scan_cflag_tokens(st, toks).entries == st.entries + classified(
            first_occurrences(toks, st.seen),
        ),
        scan_cflag_tokens(st, toks).seen == st.seen + first_occurrences(toks, st.seen),
    decreases toks.len(),
{
    if toks.len() == 0 {
        assert(first_occurrences(toks, st.seen) =~= Seq::<Seq<char>>::empty());
        assert(classified(Seq::empty()) =~= Seq::<CompilerFlagView>::empty());
        assert(st.entries + Seq::<CompilerFlagView>::empty() =~= st.entries);
        assert(st.seen + Seq::<Seq<char>>::empty() =~= st.seen);
    } else {
        let t = toks[0];
        let rest = toks.skip(1);
        let st2 = step_cflag(st, t);
        lemma_scan_first_occurrences(st2, rest);
        if cflag_recognized(t) && !st.seen.contains(t) {
            assert(st2.entries == st.entries.push(classify_cflag(t)));
            assert(st2.seen == st.seen.push(t));
            let fo = first_occurrences(rest, st.seen.push(t));
            assert(first_occurrences(toks, st.seen) == seq![t] + fo);
            assert(classified(seq![t] + fo) =~= seq![classify_cflag(t)] + classified(fo));
            assert(st.entries.push(classify_cflag(t)) + classified(fo) =~= st.entries + (seq![
                classify_cflag(t),
            ] + classified(fo)));
            assert(st.seen.push(t) + fo =~= st.seen + (seq![t] + fo));
        } else {
            assert(st2 == st);
            assert(first_occurrences(toks, st.seen) == first_occurrences(rest, st.seen));
        }
    }
}

/// What is absent from a sequence extended by one element is absent from the
/// sequence and differs from that element.
proof fn lemma_not_contains_push(s: Seq<Seq<char>>, x: Seq<char>, y: Seq<char>)
    requires
        !s.push(x).contains(y),
    ensures
        !s.contains(y),
        y != x,
{
    if s.contains(y) {
        let k = choose|k: int| 0 <= k < s.len() && s[k] == y;
        assert(s.push(x)[k] == y);
    }
    assert(s.push(x)[s.len() as int] == x);
}

/// The first occurrences are pairwise distinct token texts, each recognized
/// and not previously seen.
proof fn lemma_first_occurrences_unique(toks: Seq<Seq<char>>, seen: Seq<Seq<char>>)
    ensures
        forall|i: int, j: int|
            0 <= i < j < first_occurrences(toks, seen).len() ==> first_occurrences(toks, seen)[i]
                != first_occurrences(toks, seen)[j],
        forall|i: int|
            0 <= i < first_occurrences(toks, seen).len() ==> !seen.contains(
                first_occurrences(toks, seen)[i],
            ) && cflag_recognized(first_occurrences(toks, seen)[i]),
    decreases toks.len(),
{
    if toks.len() == 0 {
    } else {
        let t = toks[0];
        let rest = toks.skip(1);
        if cflag_recognized(t) && !seen.contains(t) {
            lemma_first_occurrences_unique(rest, seen.push(t));
            assert(first_occurrences(toks, seen) == seq![t] + first_occurrences(
                rest,
                seen.push(t),
            ));
            assert forall|i: int|
                0 <= i < first_occurrences(toks, seen).len() implies !seen.contains(
                first_occurrences(toks, seen)[i],
            ) && cflag_recognized(first_occurrences(toks, seen)[i]) by {
                if i == 0 {
                    assert(first_occurrences(toks, seen)[0] == t);
                } else {
                    assert(first_occurrences(toks, seen)[i] == first_occurrences(
                        rest,
                        seen.push(t),
                    )[i - 1]);
                    assert(!seen.push(t).contains(first_occurrences(rest, seen.push(t))[i - 1]));
                    lemma_not_contains_push(
                        seen,
                        t,
                        first_occurrences(rest, seen.push(t))[i - 1],
                    );
                }
            }
            assert forall|i: int, j: int|
                0 <= i < j < first_occurrences(toks, seen).len() implies first_occurrences(
                toks,
                seen,
            )[i] != first_occurrences(toks, seen)[j] by {
                assert(first_occurrences(toks, seen)[j] == first_occurrences(
                    rest,
                    seen.push(t),
                )[j - 1]);
                assert(!seen.push(t).contains(first_occurrences(rest, seen.push(t))[j - 1]));
                lemma_not_contains_push(seen, t, first_occurrences(rest, seen.push(t))[j - 1]);
                if i == 0 {
                    assert(first_occurrences(toks, seen)[i] == t);
                } else {
                    assert(first_occurrences(toks, seen)[i] == first_occurrences(
                        rest,
                        seen.push(t),
                    )[i - 1]);
                }
            }
        } else {
            lemma_first_occurrences_unique(rest, seen);
            assert(first_occurrences(toks, seen) == first_occurrences(rest, seen));
            assert forall|i: int|
                0 <= i < first_occurrences(toks, seen).len() implies !seen.contains(
                first_occurrences(toks, seen)[i],
            ) && cflag_recognized(first_occurrences(toks, seen)[i]) by {
                assert(first_occurrences(toks, seen)[i] == first_occurrences(rest, seen)[i]);
            }
            assert forall|i: int, j: int|
                0 <= i < j < first_occurrences(toks, seen).len() implies first_occurrences(
                toks,
                seen,
            )[i] != first_occurrences(toks, seen)[j] by {
                assert(first_occurrences(toks, seen)[i] == first_occurrences(rest, seen)[i]);
                assert(first_occurrences(toks, seen)[j] == first_occurrences(rest, seen)[j]);
            }
        }
    }
}

/// Compile-flag deduplication keeps the first occurrence of every recognized
/// token and preserves first-seen order: the classified output is exactly
/// the classification of the first occurrences of the `-I` and `-D` tokens,
/// in input order.
pub proof fn lemma_cflags_first_seen(input: Seq<char>)
    ensures
        spec_parse_cflags(input) == classified(
            first_occurrences(tokens_of(input), Seq::empty()),
        ),
{
    lemma_scan_first_occurrences(cflag_start(), tokens_of(input));
    assert(Seq::<CompilerFlagView>::empty() + classified(
        first_occurrences(tokens_of(input), Seq::empty()),
    ) =~= classified(first_occurrences(tokens_of(input), Seq::empty())));
}

/// Deduplication is on the original token text: the first occurrences are
/// pairwise distinct texts, so two tokens that differ anywhere — such as a
/// macro defined once without and once with a value — classify separately.
pub proof fn lemma_cflags_distinct_tokens(input: Seq<char>)
    ensures
        spec_parse_cflags(input) == classified(
            first_occurrences(tokens_of(input), Seq::empty()),
        ),
        forall|i: int, j: int|
            0 <= i < j < first_occurrences(tokens_of(input), Seq::empty()).len()
                ==> first_occurrences(tokens_of(input), Seq::empty())[i] != first_occurrences(
                tokens_of(input),
                Seq::empty(),
            )[j],
{
    lemma_cflags_first_seen(input);
    lemma_first_occurrences_unique(tokens_of(input), Seq::empty());
}

/// System-root exclusion: when every directory that holds the archive lies
/// under a configured system root, the archive does not count as available.
pub proof fn lemma_system_root_exclusion(
    present: Seq<bool>,
    dirs: Seq<Seq<char>>,
    roots: Seq<Seq<char>>,
)
    requires
        present.len() == dirs.len(),
        forall|i: int| 0 <= i < dirs.len() && present[i] ==> under_some_root(roots, dirs[i]),
    ensures
        !spec_static_available(present, dirs, roots),
{
}

/// A library with no available static archive resolves to `Default` — it is
/// handed to the system linker — even inside a retain-all region and even
/// when the policy forces whole-archive linking.
pub proof fn lemma_unavailable_defaults(
    forced: Seq<Seq<char>>,
    avail: Seq<Seq<char>>,
    in_region: bool,
    name: Seq<char>,
)
    requires
        !avail.contains(name),
    ensures
        resolve_new_kind(forced, avail, in_region, name) == LinkKind::Default,
{
}

} // verus!
