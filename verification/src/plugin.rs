//! What a plugin is, and how one is obtained from a module.

use vstd::prelude::*;
use std::io::Write;

verus! {

/// An error of the module loader, carried through unread.
#[verifier::external_type_specification]
#[verifier::external_body]
pub struct ExLibraryError(libloading::Error);

/// Where the last segment of `s` starts, for a reader that stands at `i` and has seen the
/// last separator `::` end at `cut`: separators are taken from the left and do not overlap.
pub open spec fn segment_start(s: Seq<char>, i: int, cut: int) -> int
    decreases s.len() - i,
{
    if i < 0 || i + 1 >= s.len() {
        cut
    } else if s[i] == ':' && s[i + 1] == ':' {
        segment_start(s, i + 2, i + 2)
    } else {
        segment_start(s, i + 1, cut)
    }
}

/// What stands behind the last `::` of `s`; all of `s` where it holds none.
pub open spec fn last_segment_of(s: Seq<char>) -> Seq<char> {
    s.subrange(segment_start(s, 0, 0), s.len() as int)
}

/// The last segment of a path whose segments are separated by `::`.
pub fn last_segment(path: &str) -> (r: String)
    ensures
        r@ == last_segment_of(path@),
{
    let n: usize = path.unicode_len();
    let mut i: usize = 0;
    let mut cut: usize = 0;
    while n - i > 1
        invariant
            n == path@.len(),
            cut <= i <= n,
            segment_start(path@, 0, 0) == segment_start(path@, i as int, cut as int),
        decreases n - i,
    {
        if path.get_char(i) == ':' && path.get_char(i + 1) == ':' {
            i = i + 2;
            cut = i;
        } else {
            i = i + 1;
        }
    }
    path.substring_char(cut, n).to_owned()
}

/// A named, dependency-aware, runnable unit of behaviour.
pub trait Plugin: Send + Sync {
    /// The identifier under which the plugin is indexed. A plugin without a name of its
    /// own choosing gives the last segment of the path of its type: see `last_segment`.
    fn name(&self) -> String;

    /// The names of the plugins that must have run before this one; none unless the
    /// plugin says otherwise.
    fn dependencies(&self) -> (names: Vec<String>)
        default_ensures
            names@ == Seq::<String>::empty(),
    {
        Vec::new()
    }

    /// The plugin's action, performed once per dispatch.
    fn run(&self);
}

/// Why a module did not yield a plugin.
#[derive(Debug)]
pub enum PluginLoadError {
    /// The module could not be turned into a usable handle.
    Library(libloading::Error),
    /// The handle was obtained, but it holds no plugin entry point.
    Plugin(libloading::Error),
}

/// Turns a module reference into a module handle and one plugin instance.
pub trait Loader {
    /// The handle of a loaded module; it must outlive the plugin it produced.
    type Library;

    /// Loads the module named by `filename`: both a handle and an instance, or neither.
    fn load(filename: &str) -> Result<(Self::Library, Box<dyn Plugin>), PluginLoadError>;
}

/// `writeln!` on the standard output: one line of text.
#[verifier::external_body]
fn print_line(text: &str) {
    let _ = writeln!(std::io::stdout(), "{}", text);
}

/// The plugin that greets.
#[derive(Default)]
pub struct Hello {}

impl Hello {
    /// What the plugin says when it runs.
    pub fn greeting() -> (text: &'static str)
        ensures
            text@ == "Hello, World!"@,
    {
        "Hello, World!"
    }
}

impl Plugin for Hello {
    fn name(&self) -> (name: String)
        ensures
            name@ == last_segment_of("sora::plugin::Hello"@),
    {
        last_segment("sora::plugin::Hello")
    }

    fn run(&self) {
        print_line(Hello::greeting());
    }
}

} // verus!
