use vstd::prelude::*;

verus! {

/// Key by which the children of one directory are ordered.
#[derive(Copy, Clone, PartialEq, Eq, Structural, PartialOrd, Ord, Debug)]
pub enum Sort {
    Name,
    Version,
    Size,
    Mtime,
    Ctime,
}

/// The resolved options of one listing.
#[derive(Clone, Debug)]
pub struct Args {
    /// The directory to display.
    pub path: String,
    /// List hidden files too.
    pub all: bool,
    /// List directories only.
    pub directories: bool,
    /// Descend into the targets of symbolic links.
    pub follow_links: bool,
    /// Print the full path of each entry instead of its base name.
    pub full_path: bool,
    /// Stay on the current filesystem.
    pub stay_on_fs: bool,
    /// Descend at most this many levels.
    pub level: Option<usize>,
    /// Rerun when the maximum level is reached.
    pub rerun: bool,
    /// List only the files whose name holds this pattern.
    pub pattern: Option<String>,
    /// Leave out the files whose name holds this pattern.
    pub ignore: Option<String>,
    /// Match patterns without regard to case.
    pub ignore_case: bool,
    /// Apply the patterns to directory names too.
    pub matchdirs: bool,
    /// Leave out the closing report.
    pub noreport: bool,
    /// Character set of the indentation lines.
    pub charset: Option<char>,
    /// Do not descend into directories with more entries than this.
    pub filelimit: Option<usize>,
    /// Format of printed times.
    pub timefmt: Option<String>,
    /// File to write the listing to instead of standard output.
    pub output: Option<String>,
    /// Print non-printable characters as '?'.
    pub question: bool,
    /// Print non-printable characters as they are.
    pub n: bool,
    /// Put each name in double quotes.
    pub quote: bool,
    /// Print the protections of each file.
    pub protections: bool,
    /// Print the owner of each file.
    pub user: bool,
    /// Print the group of each file.
    pub group: bool,
    /// Print the size of each file in bytes.
    pub size: bool,
    /// Print the size of each file scaled by powers of 1024.
    pub human_size: bool,
    /// Scale sizes by powers of 1000.
    pub si: bool,
    /// Print the modification date.
    pub date: bool,
    /// Append a type indicator as `ls -F` does.
    pub file_type: bool,
    /// Print the inode number.
    pub inodes: bool,
    /// Print the device number.
    pub device: bool,
    /// Sort by version.
    pub version: bool,
    /// Sort by modification time.
    pub time: bool,
    /// Sort by status change time.
    pub change: bool,
    /// Leave the entries in the order they were read.
    pub unsorted: bool,
    /// Reverse the order.
    pub reverse: bool,
    /// List directories before other entries.
    pub dirsfirst: bool,
    /// The sort key.
    pub sort: Option<Sort>,
    /// Print no indentation lines.
    pub indentation: bool,
    /// Draw indentation lines with ANSI graphics.
    pub ansi: bool,
    /// Draw indentation lines with CP437 graphics.
    pub cp437: bool,
    /// Never colorize.
    pub no_color: bool,
    /// Always colorize.
    pub color: bool,
    /// Print XML.
    pub xml: bool,
    /// Print JSON.
    pub json: bool,
    /// Print HTML with this base address.
    pub html: Option<String>,
    /// Title of the HTML page.
    pub title: Option<String>,
    /// No hyperlinks in HTML.
    pub nolinks: bool,
    /// Read the paths from this file.
    pub fromfile: Option<String>,
}

/// The sort key in force once the single-letter sort flags are applied:
/// each of `version`, `time`, `change` overrides the ones before it, and
/// `unsorted` overrides them all.
pub open spec fn effective_sort(a: Args) -> Option<Sort> {
    if a.unsorted {
        None
    } else if a.change {
        Some(Sort::Ctime)
    } else if a.time {
        Some(Sort::Mtime)
    } else if a.version {
        Some(Sort::Version)
    } else {
        a.sort
    }
}

/// Whether the options describe a listing that can be produced.
pub open spec fn supported(a: Args) -> bool {
    a.sort != Some(Sort::Version)
}

/// The sort key in force under the options `a`.
pub fn resolve_sort(a: &Args) -> (r: Option<Sort>)
    ensures
        r == effective_sort(*a),
{
    if a.unsorted {
        None
    } else if a.change {
        Some(Sort::Ctime)
    } else if a.time {
        Some(Sort::Mtime)
    } else if a.version {
        Some(Sort::Version)
    } else {
        a.sort
    }
}

/// A listing: the options it runs with.
pub struct Tree {
    pub config: Args,
}

/// Sets the sort key of `a`, leaving its other options as they are.
fn set_sort_of(a: &mut Args, s: Option<Sort>)
    ensures
        *final(a) == (Args { sort: s, ..*old(a) }),
{
    a.sort = s;
}

impl Tree {
    pub fn new(config: Args) -> (r: Tree)
        ensures
            r.config == config,
    {
        Tree { config }
    }

    /// Folds the sort flags into `config.sort` and refuses a sort by version,
    /// which is not supported.
    pub fn validate(&mut self) -> (r: Result<(), String>)
        ensures
            final(self).config == (Args { sort: effective_sort(old(self).config), ..old(self).config }),
            r.is_ok() <==> supported(final(self).config),
    {
        let sort = resolve_sort(&self.config);
        set_sort_of(&mut self.config, sort);
        match sort {
            Some(Sort::Version) => Err(String::from_str("Sorting by version is not supported yet.")),
            _ => Ok(()),
        }
    }
}

} // verus!
