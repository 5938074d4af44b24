//! The selector-process bridge: display projection of the MRU list, the
//! candidate set offered to the external fuzzy selector, the tokenization of
//! its command line, and the mapping of its answer back to a path.

use vstd::prelude::*;

use crate::mru::{contains_string, distinct_seq, lemma_distinct_push, MruList};
use crate::util::{trim_line_end, trimmed_line};
use crate::Error;

verus! {

/// The working directory as a path prefix: itself if it already ends with a
/// separator, else with one appended.
pub open spec fn dir_prefix(cwd: Seq<char>) -> Seq<char> {
    if cwd.len() > 0 && cwd.last() == '/' {
        cwd
    } else {
        cwd.push('/')
    }
}

/// Whether a path lies below the working directory.
pub open spec fn is_descendant(cwd: Seq<char>, path: Seq<char>) -> bool {
    path.len() > dir_prefix(cwd).len() && path.take(dir_prefix(cwd).len() as int) == dir_prefix(
        cwd,
    )
}

/// The display name of a stored path: relative to the working directory when
/// the path lies below it, else the path unchanged.
pub open spec fn display_of(cwd: Seq<char>, path: Seq<char>) -> Seq<char> {
    if is_descendant(cwd, path) {
        path.skip(dir_prefix(cwd).len() as int)
    } else {
        path
    }
}

/// The display names of a sequence of paths, in the same order.
pub open spec fn display_names(paths: Seq<Seq<char>>, cwd: Seq<char>) -> Seq<Seq<char>> {
    paths.map_values(|p: Seq<char>| display_of(cwd, p))
}

/// The candidate paths offered to the selector: the entries in MRU order,
/// without the excluded file, and without any later entry whose display name
/// repeats an earlier candidate's (the first occurrence wins).
pub open spec fn candidate_paths(
    entries: Seq<Seq<char>>,
    exclude: Seq<char>,
    cwd: Seq<char>,
) -> Seq<Seq<char>>
    decreases entries.len(),
{
    if entries.len() == 0 {
        Seq::empty()
    } else {
        let prev = candidate_paths(entries.drop_last(), exclude, cwd);
        let e = entries.last();
        if e == exclude {
            prev
        } else if display_names(prev, cwd).contains(display_of(cwd, e)) {
            prev
        } else {
            prev.push(e)
        }
    }
}

/// Display projection preserves order: the kept paths' names stand in the
/// same relative order as the paths themselves, one name per path.
pub proof fn lemma_projection_order_preserving(paths: Seq<Seq<char>>, cwd: Seq<char>)
    ensures
        display_names(paths, cwd).len() == paths.len(),
        forall|i: int|
            0 <= i < paths.len() ==> display_names(paths, cwd)[i] == display_of(cwd, paths[i]),
{
}

/// The display name of one path, computed against a working directory.
pub fn display_name(cwd: &str, path: &str) -> (r: String)
    ensures
        r@ == display_of(cwd@, path@),
{
    let mut pre = cwd.to_owned();
    let cl: usize = cwd.unicode_len();
    if !(cl > 0 && cwd.get_char(cl - 1) == '/') {
        crate::util::push_char(&mut pre, '/');
    }
    proof {
        assert(pre@ == dir_prefix(cwd@));
    }
    let pl: usize = pre.as_str().unicode_len();
    let n: usize = path.unicode_len();
    if n > pl {
        let head = path.substring_char(0, pl);
        if head.to_owned().eq(&pre) {
            proof {
                assert(path@.take(pl as int) == pre@);
                assert(path@.subrange(pl as int, n as int) =~= path@.skip(pl as int));
            }
            return path.substring_char(pl, n).to_owned();
        }
        proof {
            assert(path@.take(pl as int) != pre@);
        }
    }
    path.to_owned()
}

/// The MRU list as offered to the selector: parallel display names and
/// source paths, names distinct, in MRU order.
pub struct RecentFiles {
    cwd: String,
    names: Vec<String>,
    paths: Vec<String>,
}

impl RecentFiles {
    /// The working directory the projection was computed against.
    pub closed spec fn spec_cwd(&self) -> Seq<char> {
        self.cwd@
    }

    /// The display names, in MRU order.
    pub closed spec fn spec_names(&self) -> Seq<Seq<char>> {
        self.names.deep_view()
    }

    /// The candidate paths, in MRU order.
    pub closed spec fn spec_paths(&self) -> Seq<Seq<char>> {
        self.paths.deep_view()
    }

    /// Names and paths run in parallel, each name is its path's display
    /// name, and no name repeats.
    pub open spec fn wf(&self) -> bool {
        &&& self.spec_names().len() == self.spec_paths().len()
        &&& self.spec_names() == display_names(self.spec_paths(), self.spec_cwd())
        &&& distinct_seq(self.spec_names())
    }

    /// Project a loaded list for the selector, leaving out the excluded
    /// file (the currently open one) and any entry whose display name
    /// repeats an earlier candidate's.
    pub fn from_list(list: &MruList, excluding: &str, cwd: &str) -> (r: RecentFiles)
        ensures
            r.wf(),
            r.spec_cwd() == cwd@,
            r.spec_paths() == candidate_paths(list@, excluding@, cwd@),
            r.spec_names() == display_names(candidate_paths(list@, excluding@, cwd@), cwd@),
    {
        let ex = excluding.to_owned();
        let mut names: Vec<String> = Vec::new();
        let mut paths: Vec<String> = Vec::new();
        let entries = list.entries();
        let n = entries.len();
        let mut i: usize = 0;
        proof {
            assert(paths.deep_view() =~= candidate_paths(list@.take(0), excluding@, cwd@));
            assert(names.deep_view() =~= display_names(paths.deep_view(), cwd@));
        }
        while i < n
            invariant
                n == entries.len(),
                entries.deep_view() == list@,
                0 <= i <= n,
                ex@ == excluding@,
                paths.deep_view() == candidate_paths(list@.take(i as int), excluding@, cwd@),
                names.deep_view() == display_names(paths.deep_view(), cwd@),
                distinct_seq(names.deep_view()),
            decreases n - i,
        {
            proof {
                assert(list@.take(i as int + 1).drop_last() =~= list@.take(i as int));
                assert(list@.take(i as int + 1).last() == list@[i as int]);
            }
            if !entries[i].eq(&ex) {
                let name = display_name(cwd, entries[i].as_str());
                if !contains_string(&names, &name) {
                    let ghost pre_names = names.deep_view();
                    let ghost pre_paths = paths.deep_view();
                    proof {
                        lemma_distinct_push(pre_names, name@);
                    }
                    names.push(name);
                    paths.push(entries[i].clone());
                    proof {
                        assert(paths.deep_view() =~= pre_paths.push(list@[i as int]));
                        assert(names.deep_view() =~= pre_names.push(
                            display_of(cwd@, list@[i as int]),
                        ));
                        assert(display_names(pre_paths.push(list@[i as int]), cwd@)
                            =~= display_names(pre_paths, cwd@).push(
                            display_of(cwd@, list@[i as int]),
                        ));
                    }
                }
            }
            i = i + 1;
        }
        proof {
            assert(list@.take(n as int) =~= list@);
        }
        RecentFiles { cwd: cwd.to_owned(), names, paths }
    }

    /// The display names to offer the selector, in order.
    pub fn names(&self) -> (r: &Vec<String>)
        ensures
            r.deep_view() == self.spec_names(),
    {
        &self.names
    }

    /// The path a display name stands for, or nothing when the name was
    /// never offered.
    pub fn path_from_name(&self, name: &str) -> (r: Option<String>)
        requires
            self.wf(),
        ensures
            match r {
                Some(p) => exists|i: int|
                    0 <= i < self.spec_names().len() && self.spec_names()[i] == name@
                        && self.spec_paths()[i] == p@,
                None => !self.spec_names().contains(name@),
            },
    {
        let nm = name.to_owned();
        let n = self.names.len();
        let mut i: usize = 0;
        while i < n
            invariant
                self.wf(),
                n == self.names.len(),
                0 <= i <= n,
                nm@ == name@,
                forall|k: int| 0 <= k < i ==> self.spec_names()[k] != name@,
            decreases n - i,
        {
            if self.names[i].eq(&nm) {
                proof {
                    assert(self.spec_names()[i as int] == name@);
                }
                return Some(self.paths[i].clone());
            }
            i = i + 1;
        }
        proof {
            if self.spec_names().contains(name@) {
                let k = choose|k: int|
                    0 <= k < self.spec_names().len() && self.spec_names()[k] == name@;
            }
        }
        None
    }
}

#[verifier::external_type_specification]
#[verifier::external_body]
pub struct ExMismatchedQuotes(shellwords::MismatchedQuotes);

/// What Bourne-shell word splitting makes of a command string: its words,
/// or nothing when the quoting is unbalanced.
pub uninterp spec fn shell_split(s: Seq<char>) -> Option<Seq<Seq<char>>>;

/// Relies on shellwords::split: Bourne-shell word splitting, a pure function
/// of the input string; it returns `Err(MismatchedQuotes)` exactly when a
/// quoted word is missing its closing quote.
#[verifier::external_body]
fn shell_words(s: &str) -> (r: Result<Vec<String>, shellwords::MismatchedQuotes>)
    ensures
        match r {
            Ok(ws) => shell_split(s@) == Some(ws.deep_view()),
            Err(_) => shell_split(s@) is None,
        },
{
    shellwords::split(s)
}

/// Tokenize the configured selector command. The tokens are returned when
/// shell splitting succeeds and yields at least one word; an unparseable or
/// empty command is rejected.
pub fn parse_menu_command(menu_command: &str) -> (r: Result<Vec<String>, Error>)
    ensures
        match r {
            Ok(ws) => ws.deep_view().len() > 0 && shell_split(menu_command@) == Some(
                ws.deep_view(),
            ),
            Err(e) => e == Error::InvalidMenuCommand && (shell_split(menu_command@) is None
                || shell_split(menu_command@) == Some(Seq::<Seq<char>>::empty())),
        },
{
    match shell_words(menu_command) {
        Ok(ws) => {
            if ws.len() > 0 {
                Ok(ws)
            } else {
                proof {
                    assert(ws.deep_view() =~= Seq::<Seq<char>>::empty());
                }
                Err(Error::InvalidMenuCommand)
            }
        },
        Err(_) => Err(Error::InvalidMenuCommand),
    }
}

/// Interpret the selector's entire output: trailing line ends are trimmed;
/// empty output means the user chose nothing; otherwise the output must be
/// one of the offered display names and resolves to that candidate's path,
/// and anything else convicts the selector of returning an unexpected name.
pub fn ask_for_path_to_open(files: &RecentFiles, selector_output: &str) -> (r: Result<
    Option<String>,
    Error,
>)
    requires
        files.wf(),
    ensures
        ({
            let t = trimmed_line(selector_output@);
            &&& t.len() == 0 ==> r == Ok::<Option<String>, Error>(None)
            &&& t.len() > 0 && files.spec_names().contains(t) ==> (r matches Ok(op) && op matches
                Some(p) && exists|i: int|
                0 <= i < files.spec_names().len() && files.spec_names()[i] == t
                    && files.spec_paths()[i] == p@)
            &&& t.len() > 0 && !files.spec_names().contains(t) ==> r == Err::<
                Option<String>,
                Error,
            >(Error::SelectorIntegrityViolation)
        }),
{
    let trimmed = trim_line_end(selector_output);
    if trimmed.as_str().is_empty() {
        Ok(None)
    } else {
        match files.path_from_name(trimmed.as_str()) {
            Some(p) => Ok(Some(p)),
            None => Err(Error::SelectorIntegrityViolation),
        }
    }
}

} // verus!
