//! The structured output entries of the two classifiers — linker flags and
//! compiler flags — together with their rendering into cargo metadata
//! directives and clang argument strings.

use vstd::prelude::*;
use vstd::string::StringExecFns;

verus! {

/// How one library must be linked.
#[derive(Debug, Clone, Copy, PartialEq, Eq, Structural)]
pub enum LinkKind {
    /// Let the system linker resolve the library (shared object or unknown);
    /// used when no usable static archive was found.
    Default,
    /// Link the local static archive, unused symbols pruned.
    Static,
    /// Link the local static archive with every symbol retained; required for
    /// archives whose only references come from constructor-style
    /// self-registration.
    WholeArchive,
}

/// The mathematical value of a [`LinkerFlag`]: the same shape over character
/// sequences.
pub enum LinkerFlagView {
    SearchPath(Seq<char>),
    Library { name: Seq<char>, kind: LinkKind },
    LinkerArg(Seq<char>),
}

/// One structured entry parsed from static-link-flags output.
#[derive(Debug, Clone)]
pub enum LinkerFlag {
    /// A directory to add to the library search path (`-L<dir>`).
    SearchPath(String),
    /// A library to link (`-l<name>` or `-l:lib<name>.a`), with its resolved
    /// link kind.
    Library { name: String, kind: LinkKind },
    /// An opaque linker argument preserved verbatim (`-Wl,...`); only an
    /// allow-listed few survive classification.
    LinkerArg(String),
}

impl View for LinkerFlag {
    type V = LinkerFlagView;

    open spec fn view(&self) -> LinkerFlagView {
        match self {
            LinkerFlag::SearchPath(p) => LinkerFlagView::SearchPath(p@),
            LinkerFlag::Library { name, kind } => LinkerFlagView::Library {
                name: name@,
                kind: *kind,
            },
            LinkerFlag::LinkerArg(a) => LinkerFlagView::LinkerArg(a@),
        }
    }
}

impl DeepView for LinkerFlag {
    type V = LinkerFlagView;

    open spec fn deep_view(&self) -> LinkerFlagView {
        self.view()
    }
}

/// The mathematical value of a [`CompilerFlag`].
pub enum CompilerFlagView {
    IncludePath(Seq<char>),
    Define { key: Seq<char>, value: Option<Seq<char>> },
}

/// One structured entry parsed from compile-flags output.
#[derive(Debug, Clone, PartialEq, Eq)]
pub enum CompilerFlag {
    /// A header search path (`-I<path>`).
    IncludePath(String),
    /// A preprocessor definition (`-D<key>` or `-D<key>=<value>`).
    Define { key: String, value: Option<String> },
}

impl View for CompilerFlag {
    type V = CompilerFlagView;

    open spec fn view(&self) -> CompilerFlagView {
        match self {
            CompilerFlag::IncludePath(p) => CompilerFlagView::IncludePath(p@),
            CompilerFlag::Define { key, value } => CompilerFlagView::Define {
                key: key@,
                value: match value {
                    Some(v) => Some(v@),
                    None => None,
                },
            },
        }
    }
}

impl DeepView for CompilerFlag {
    type V = CompilerFlagView;

    open spec fn deep_view(&self) -> CompilerFlagView {
        self.view()
    }
}

/// The cargo metadata directive line for one linker flag.
pub open spec fn spec_cargo_directive(f: LinkerFlagView, no_bundle: bool) -> Seq<char> {
    match f {
        LinkerFlagView::SearchPath(p) => "cargo:rustc-link-search=native="@ + p,
        LinkerFlagView::Library { name, kind } => match kind {
            LinkKind::Default => "cargo:rustc-link-lib="@ + name,
            LinkKind::Static => if no_bundle {
                "cargo:rustc-link-lib=static:-bundle="@ + name
            } else {
                "cargo:rustc-link-lib=static="@ + name
            },
            LinkKind::WholeArchive => if no_bundle {
                "cargo:rustc-link-lib=static:+whole-archive,-bundle="@ + name
            } else {
                "cargo:rustc-link-lib=static:+whole-archive="@ + name
            },
        },
        LinkerFlagView::LinkerArg(a) => "cargo:rustc-link-arg="@ + a,
    }
}

/// The clang argument string for one compiler flag.
pub open spec fn spec_clang_arg(f: CompilerFlagView) -> Seq<char> {
    match f {
        CompilerFlagView::IncludePath(p) => "-I"@ + p,
        CompilerFlagView::Define { key, value: None } => "-D"@ + key,
        CompilerFlagView::Define { key, value: Some(v) } => "-D"@ + key + "="@ + v,
    }
}

impl LinkerFlag {
    /// Renders this flag as a cargo metadata directive.  `no_bundle` controls
    /// whether static libraries carry the `-bundle` modifier, which prevents
    /// re-exporting the archive through an rlib.
    pub fn to_cargo_directive(&self, no_bundle: bool) -> (r: String)
        ensures
            r@ == spec_cargo_directive(self@, no_bundle),
    {
        match self {
            LinkerFlag::SearchPath(path) => String::from_str(
                "cargo:rustc-link-search=native=",
            ).concat(path.as_str()),
            LinkerFlag::Library { name, kind } => match kind {
                LinkKind::Default => String::from_str("cargo:rustc-link-lib=").concat(
                    name.as_str(),
                ),
                LinkKind::Static => if no_bundle {
                    String::from_str("cargo:rustc-link-lib=static:-bundle=").concat(name.as_str())
                } else {
                    String::from_str("cargo:rustc-link-lib=static=").concat(name.as_str())
                },
                LinkKind::WholeArchive => if no_bundle {
                    String::from_str("cargo:rustc-link-lib=static:+whole-archive,-bundle=").concat(
                        name.as_str(),
                    )
                } else {
                    String::from_str("cargo:rustc-link-lib=static:+whole-archive=").concat(
                        name.as_str(),
                    )
                },
            },
            LinkerFlag::LinkerArg(arg) => String::from_str("cargo:rustc-link-arg=").concat(
                arg.as_str(),
            ),
        }
    }
}

impl CompilerFlag {
    /// Renders this flag as a clang argument string for a header-binding
    /// generator.
    pub fn to_clang_arg(&self) -> (r: String)
        ensures
            r@ == spec_clang_arg(self@),
    {
        match self {
            CompilerFlag::IncludePath(path) => String::from_str("-I").concat(path.as_str()),
            CompilerFlag::Define { key, value } => match value {
                None => String::from_str("-D").concat(key.as_str()),
                Some(v) => String::from_str("-D").concat(key.as_str()).concat("=").concat(
                    v.as_str(),
                ),
            },
        }
    }
}

/// The clang argument strings for a sequence of compiler flags, in order.
pub open spec fn clang_args_view(fs: Seq<CompilerFlagView>) -> Seq<Seq<char>> {
    fs.map_values(|f: CompilerFlagView| spec_clang_arg(f))
}

/// The cargo metadata directive lines for a sequence of linker flags, in
/// order.
pub open spec fn cargo_directives_view(fs: Seq<LinkerFlagView>, no_bundle: bool) -> Seq<Seq<char>> {
    fs.map_values(|f: LinkerFlagView| spec_cargo_directive(f, no_bundle))
}

/// Renders every compiler flag as a clang argument string, preserving order.
pub fn to_clang_args(flags: &[CompilerFlag]) -> (r: Vec<String>)
    ensures
        r.deep_view() == clang_args_view(flags.deep_view()),
{
    let mut out: Vec<String> = Vec::new();
    let mut i: usize = 0;
    while i < flags.len()
        invariant
            i <= flags@.len(),
            out.deep_view().len() == i,
            forall|j: int| 0 <= j < i ==> out.deep_view()[j] == spec_clang_arg(
                flags.deep_view()[j],
            ),
        decreases flags@.len() - i,
    {
        let arg = flags[i].to_clang_arg();
        let ghost old_dv = out.deep_view();
        let ghost arg_view = arg@;
        out.push(arg);
        proof {
            assert(out.deep_view() =~= old_dv.push(arg_view));
        }
        i += 1;
    }
    proof {
        assert(out.deep_view() =~= clang_args_view(flags.deep_view()));
    }
    out
}

/// Renders every linker flag as a cargo metadata directive, preserving order.
/// `no_bundle` controls the `-bundle` modifier on static libraries.
pub fn to_cargo_directives(flags: &[LinkerFlag], no_bundle: bool) -> (r: Vec<String>)
    ensures
        r.deep_view() == cargo_directives_view(flags.deep_view(), no_bundle),
{
    let mut out: Vec<String> = Vec::new();
    let mut i: usize = 0;
    while i < flags.len()
        invariant
            i <= flags@.len(),
            out.deep_view().len() == i,
            forall|j: int| 0 <= j < i ==> out.deep_view()[j] == spec_cargo_directive(
                flags.deep_view()[j],
                no_bundle,
            ),
        decreases flags@.len() - i,
    {
        let d = flags[i].to_cargo_directive(no_bundle);
        let ghost old_dv = out.deep_view();
        let ghost d_view = d@;
        out.push(d);
        proof {
            assert(out.deep_view() =~= old_dv.push(d_view));
        }
        i += 1;
    }
    proof {
        assert(out.deep_view() =~= cargo_directives_view(flags.deep_view(), no_bundle));
    }
    out
}

} // verus!
