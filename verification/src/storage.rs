//! The storage backend: temporary (editor-variable) versus permanent (file)
//! session state, and the per-invocation transactions over a loaded list.

use vstd::prelude::*;

use crate::mru::{
    insert_front_spec, parse_spec, remove_both, serialize_spec, wf_path, MruList,
};
use crate::scan::{initial_list_spec, initial_session_population, ScanEntry};
use crate::util::{editor_quote, quoted, trim_line_end, trimmed_line};
use crate::Error;

verus! {

/// The common command-line options every invocation carries.
pub struct CommonOps {
    /// The session identifier: which persisted list is used.
    pub session: String,
    /// Whether state lives only in editor-side variables.
    pub use_temp_storage: bool,
    /// For temporary mode, the state the editor handed back, if any.
    pub temp_storage: Option<String>,
}

/// Where one session's state lives.
pub enum StorageState {
    /// No file backing: state is exchanged with the editor.
    Temp,
    /// State backed by the file at the given path.
    Permanent(String),
}

/// What a mutating operation asks the surrounding process to do with the
/// new serialized state.
pub enum PersistAction {
    /// Overwrite the backing file entirely with the given content.
    WriteFile { path: String, content: String },
    /// Print one line of editor-command output.
    EmitCommand { line: String },
}

/// Parse the textual values of the boolean command-line flag.
pub fn bool_value_names(v: &str) -> (r: Result<bool, String>)
    ensures
        v@ == "true"@ ==> r == Ok::<bool, String>(true),
        v@ == "false"@ ==> r == Ok::<bool, String>(false),
        v@ != "true"@ && v@ != "false"@ ==> (r matches Err(m) && m@ == "unknown boolean value "@
            + v@),
{
    proof {
        reveal_strlit("true");
        reveal_strlit("false");
        assert("true"@.len() == 4);
        assert("false"@.len() == 5);
    }
    let vs = v.to_owned();
    if vs.eq(&String::from_str("true")) {
        Ok(true)
    } else if vs.eq(&String::from_str("false")) {
        Ok(false)
    } else {
        Err(String::from_str("unknown boolean value ").concat(v))
    }
}

/// The backing path of a session: the per-user data directory, the
/// application's own directory, then the session identifier.
pub open spec fn session_path_spec(data_dir: Seq<char>, session: Seq<char>) -> Seq<char> {
    data_dir + "/kak-recent-files/"@ + session
}

/// The backing path of a session under a given data directory.
pub fn session_path(data_dir: &str, session: &str) -> (r: String)
    ensures
        r@ == session_path_spec(data_dir@, session@),
{
    let mut out = data_dir.to_owned();
    out.append("/kak-recent-files/");
    out.append(session);
    proof {
        assert(out@ =~= session_path_spec(data_dir@, session@));
    }
    out
}

/// Relies on dirs::data_dir: the per-user data directory, if the host
/// defines one; a non-UTF-8 path counts as absent.
#[verifier::external_body]
fn user_data_dir() -> (r: Option<String>) {
    dirs::data_dir().and_then(|p| p.into_os_string().into_string().ok())
}

/// The backing file path for a session, under the host's per-user data
/// directory; fails when the host has none.
pub fn session_file(session: &str) -> (r: Result<String, Error>)
    ensures
        match r {
            Ok(p) => exists|d: Seq<char>| p@ == session_path_spec(d, session@),
            Err(e) => e == Error::NoDataDirectory,
        },
{
    match user_data_dir() {
        None => Err(Error::NoDataDirectory),
        Some(d) => {
            let p = session_path(d.as_str(), session);
            proof {
                assert(p@ == session_path_spec(d@, session@));
            }
            Ok(p)
        },
    }
}

impl StorageState {
    /// Decide where this invocation's state lives: temporary mode needs no
    /// backing, permanent mode derives a file path from the session name.
    pub fn new(ops: &CommonOps) -> (r: Result<StorageState, Error>)
        ensures
            ops.use_temp_storage ==> r == Ok::<StorageState, Error>(StorageState::Temp),
            !ops.use_temp_storage ==> match r {
                Ok(st) => st matches StorageState::Permanent(p) && (exists|d: Seq<char>|
                    p@ == session_path_spec(d, ops.session@)),
                Err(e) => e == Error::NoDataDirectory,
            },
    {
        if ops.use_temp_storage {
            Ok(StorageState::Temp)
        } else {
            match session_file(ops.session.as_str()) {
                Ok(p) => Ok(StorageState::Permanent(p)),
                Err(e) => Err(e),
            }
        }
    }
}

/// A space, tab, carriage return or line feed.
pub open spec fn is_space(c: char) -> bool {
    c == ' ' || c == '\t' || c == '\r' || c == '\n'
}

/// A buffer that holds nothing but whitespace, and so counts as absent.
pub open spec fn is_blank(s: Seq<char>) -> bool {
    forall|i: int| 0 <= i < s.len() ==> is_space(#[trigger] s[i])
}

/// Whether a loaded buffer is blank: empty or whitespace only.
pub fn is_blank_content(s: &str) -> (r: bool)
    ensures
        r == is_blank(s@),
{
    let n: usize = s.unicode_len();
    let mut i: usize = 0;
    while i < n
        invariant
            n == s@.len(),
            0 <= i <= n,
            forall|k: int| 0 <= k < i ==> is_space(#[trigger] s@[k]),
        decreases n - i,
    {
        let c = s.get_char(i);
        if !(c == ' ' || c == '\t' || c == '\r' || c == '\n') {
            proof {
                assert(!is_space(s@[i as int]));
            }
            return false;
        }
        i = i + 1;
    }
    true
}

/// What loading produced: a list ready to use, or the request to seed a
/// permanent session whose backing file is missing or blank.
pub enum LoadOutcome {
    /// The list the session holds.
    Loaded(MruList),
    /// No usable prior state: run the initial population scan.
    SeedRequired,
}

/// Decide what the current invocation starts from. Temporary sessions use
/// the inline blob the editor handed back, or start empty — they are never
/// seeded. Permanent sessions use the backing file's content unless it is
/// missing or blank, in which case seeding is required.
pub fn load_session_storage(state: &StorageState, ops: &CommonOps, file_content: Option<&str>) -> (r:
    LoadOutcome)
    ensures
        state matches StorageState::Temp ==> (r matches LoadOutcome::Loaded(l) && l.wf() && l@
            == match ops.temp_storage {
            Some(b) => if is_blank(b@) {
                Seq::<Seq<char>>::empty()
            } else {
                parse_spec(b@)
            },
            None => Seq::<Seq<char>>::empty(),
        }),
        state matches StorageState::Permanent(_) ==> match file_content {
            Some(c) => if is_blank(c@) {
                r matches LoadOutcome::SeedRequired
            } else {
                r matches LoadOutcome::Loaded(l) && l.wf() && l@ == parse_spec(c@)
            },
            None => r matches LoadOutcome::SeedRequired,
        },
{
    match state {
        StorageState::Temp => match &ops.temp_storage {
            Some(blob) => {
                if !is_blank_content(blob.as_str()) {
                    LoadOutcome::Loaded(MruList::deserialize(blob.as_str()))
                } else {
                    LoadOutcome::Loaded(MruList::empty())
                }
            },
            None => LoadOutcome::Loaded(MruList::empty()),
        },
        StorageState::Permanent(_) => match file_content {
            Some(c) => {
                if !is_blank_content(c) {
                    LoadOutcome::Loaded(MruList::deserialize(c))
                } else {
                    LoadOutcome::SeedRequired
                }
            },
            None => LoadOutcome::SeedRequired,
        },
    }
}

/// Complete a required seeding: the initial list is built from the scanned
/// files and, unless the caller will persist afterwards anyway, is to be
/// persisted at once.
pub fn seed_session(state: &StorageState, files: &Vec<ScanEntry>, will_save: bool) -> (r: (
    MruList,
    Option<PersistAction>,
))
    ensures
        r.0@ == initial_list_spec(files@),
        r.0.wf(),
        will_save ==> r.1 is None,
        !will_save ==> match r.1 {
            Some(a) => match state {
                StorageState::Temp => a matches PersistAction::EmitCommand { line } && line@
                    == export_command_spec(serialize_spec(initial_list_spec(files@))),
                StorageState::Permanent(p) => a matches PersistAction::WriteFile { path, content }
                    && path@ == p@ && content@ == serialize_spec(initial_list_spec(files@)),
            },
            None => false,
        },
{
    let list = initial_session_population(files);
    if will_save {
        (list, None)
    } else {
        let serialized = list.serialize();
        let action = save_session_storage(state, serialized.as_str());
        (list, Some(action))
    }
}

/// The editor command that exports temporary-mode state back to the editor.
pub open spec fn export_command_spec(v: Seq<char>) -> Seq<char> {
    "set-option global krf_temp_storage "@ + quoted(v)
}

/// Build the editor command that stores the serialized state in an
/// editor-side variable, for re-injection on the next invocation.
pub fn export_temp_session_storage(value: &str) -> (r: String)
    ensures
        r@ == export_command_spec(value@),
{
    let mut out = String::from_str("set-option global krf_temp_storage ");
    let q = editor_quote(value);
    out.append(q.as_str());
    proof {
        assert(out@ =~= export_command_spec(value@));
    }
    out
}

/// How the new serialized state is to be persisted: a full overwrite of the
/// backing file in permanent mode, one line of editor-command output in
/// temporary mode.
pub fn save_session_storage(state: &StorageState, buf: &str) -> (r: PersistAction)
    ensures
        match state {
            StorageState::Temp => r matches PersistAction::EmitCommand { line } && line@
                == export_command_spec(buf@),
            StorageState::Permanent(p) => r matches PersistAction::WriteFile { path, content }
                && path@ == p@ && content@ == buf@,
        },
{
    match state {
        StorageState::Temp => PersistAction::EmitCommand {
            line: export_temp_session_storage(buf),
        },
        StorageState::Permanent(p) => PersistAction::WriteFile {
            path: p.clone(),
            content: buf.to_owned(),
        },
    }
}

/// Clear the session unconditionally: persist the empty list.
pub fn reset_storage(state: &StorageState) -> (r: PersistAction)
    ensures
        match state {
            StorageState::Temp => r matches PersistAction::EmitCommand { line } && line@
                == export_command_spec(Seq::<char>::empty()),
            StorageState::Permanent(p) => r matches PersistAction::WriteFile { path, content }
                && path@ == p@ && content@ == Seq::<char>::empty(),
        },
{
    let r = save_session_storage(state, "");
    proof {
        reveal_strlit("");
        assert(""@ =~= Seq::<char>::empty());
    }
    r
}

/// Record a file open against a loaded list: the path moves to the front,
/// and the new state is handed back together with how to persist it.
pub fn opened_file(state: &StorageState, list: &MruList, opened: &str) -> (r: (
    MruList,
    PersistAction,
))
    requires
        list.wf(),
        wf_path(opened@),
    ensures
        r.0@ == insert_front_spec(list@, opened@),
        r.0.wf(),
        match state {
            StorageState::Temp => r.1 matches PersistAction::EmitCommand { line } && line@
                == export_command_spec(serialize_spec(insert_front_spec(list@, opened@))),
            StorageState::Permanent(p) => r.1 matches PersistAction::WriteFile { path, content }
                && path@ == p@ && content@ == serialize_spec(insert_front_spec(list@, opened@)),
        },
{
    let updated = list.insert_front(opened);
    let serialized = updated.serialize();
    let action = save_session_storage(state, serialized.as_str());
    (updated, action)
}

/// Record a removal request against a loaded list: entries equal to the
/// request as given, or to its absolute form, disappear; the new state is
/// handed back together with how to persist it.
pub fn remove_file(state: &StorageState, list: &MruList, file: &str, file_abs: &str) -> (r: (
    MruList,
    PersistAction,
))
    requires
        list.wf(),
    ensures
        r.0@ == remove_both(list@, file@, file_abs@),
        r.0.wf(),
        match state {
            StorageState::Temp => r.1 matches PersistAction::EmitCommand { line } && line@
                == export_command_spec(serialize_spec(remove_both(list@, file@, file_abs@))),
            StorageState::Permanent(p) => r.1 matches PersistAction::WriteFile { path, content }
                && path@ == p@ && content@ == serialize_spec(
                remove_both(list@, file@, file_abs@),
            ),
        },
{
    let updated = list.remove(file, file_abs);
    let serialized = updated.serialize();
    let action = save_session_storage(state, serialized.as_str());
    (updated, action)
}

/// The first line of a buffer: everything before the first line feed.
pub open spec fn first_line(s: Seq<char>) -> Seq<char>
    decreases s.len(),
{
    if s.len() == 0 {
        s
    } else if s[0] == '\n' {
        Seq::empty()
    } else {
        seq![s[0]] + first_line(s.drop_first())
    }
}

proof fn lemma_first_line_take(s: Seq<char>, j: int)
    requires
        0 <= j <= s.len(),
        forall|k: int| 0 <= k < j ==> s[k] != '\n',
        j < s.len() ==> s[j] == '\n',
    ensures
        first_line(s) == s.take(j),
    decreases j,
{
    if j == 0 {
        assert(s.take(0) =~= Seq::<char>::empty());
        if s.len() > 0 {
            assert(s[0] == '\n');
        } else {
            assert(first_line(s) =~= s.take(0));
        }
    } else {
        assert(s[0] != '\n');
        let t = s.drop_first();
        assert(forall|k: int| 0 <= k < j - 1 ==> t[k] == s[k + 1]);
        lemma_first_line_take(t, j - 1);
        assert(seq![s[0]] + t.take(j - 1) =~= s.take(j));
    }
}

/// The most recent file of a permanent session, read from the backing
/// file's first line with its line ending trimmed; temporary sessions and
/// missing or empty files yield nothing.
pub fn most_recent_file_if_exists(use_temp: bool, file_content: Option<&str>) -> (r: Option<
    String,
>)
    ensures
        use_temp ==> r is None,
        !use_temp ==> match file_content {
            Some(c) => {
                let line = trimmed_line(first_line(c@));
                if line.len() == 0 {
                    r is None
                } else {
                    r matches Some(p) && p@ == line
                }
            },
            None => r is None,
        },
{
    if use_temp {
        return None;
    }
    match file_content {
        None => None,
        Some(c) => {
            let n: usize = c.unicode_len();
            let mut j: usize = 0;
            while j < n && c.get_char(j) != '\n'
                invariant
                    n == c@.len(),
                    0 <= j <= n,
                    forall|k: int| 0 <= k < j ==> c@[k] != '\n',
                decreases n - j,
            {
                j = j + 1;
            }
            proof {
                lemma_first_line_take(c@, j as int);
            }
            let head = c.substring_char(0, j);
            let line = trim_line_end(head);
            if line.as_str().is_empty() {
                None
            } else {
                Some(line)
            }
        },
    }
}

} // verus!
