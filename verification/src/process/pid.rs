//! Finding the game: the processes that Wine hosts, without Wine's own services.

use crate::text;
use crate::text::{
    contains, ends, from_chars, is, last_piece, parse_number, split_all, to_chars, to_lower, trim,
    Separator,
};
use vstd::prelude::*;

verus! {

/// A game process.
#[derive(Clone, Debug)]
pub struct ProcessInfo {
    /// Process identifier.
    pub pid: u32,
    /// File name of the program.
    pub name: String,
    /// The command line.
    pub exe_path: String,
}

/// A [`ProcessInfo`] as a mathematical value.
pub struct ProcessView {
    /// Process identifier.
    pub pid: u32,
    /// File name of the program.
    pub name: Seq<char>,
    /// The command line.
    pub exe_path: Seq<char>,
}

impl View for ProcessInfo {
    type V = ProcessView;

    open spec fn view(&self) -> ProcessView {
        ProcessView { pid: self.pid, name: self.name@, exe_path: self.exe_path@ }
    }
}

/// The mathematical values of a list of processes.
pub open spec fn process_views(v: Seq<ProcessInfo>) -> Seq<ProcessView> {
    Seq::new(v.len(), |i: int| v[i]@)
}

impl ProcessInfo {
    /// A copy.
    pub fn copy(&self) -> (r: ProcessInfo)
        ensures
            r@ == self@,
    {
        ProcessInfo { pid: self.pid, name: self.name.clone(), exe_path: self.exe_path.clone() }
    }
}

/// What the process file system shows of one of its directories. What could not be read is
/// missing.
#[derive(Clone, Debug)]
pub struct ProcEntry {
    /// Name of the directory.
    pub name: String,
    /// Where the link to the executable leads.
    pub exe: Option<String>,
    /// The command line, its arguments parted by NUL.
    pub cmdline: Option<String>,
}

/// A [`ProcEntry`] as a mathematical value.
pub struct EntryView {
    /// Name of the directory.
    pub name: Seq<char>,
    /// Where the link to the executable leads.
    pub exe: Option<Seq<char>>,
    /// The command line, its arguments parted by NUL.
    pub cmdline: Option<Seq<char>>,
}

impl View for ProcEntry {
    type V = EntryView;

    open spec fn view(&self) -> EntryView {
        EntryView {
            name: self.name@,
            exe: text::optional(self.exe),
            cmdline: text::optional(self.cmdline),
        }
    }
}

/// The mathematical values of a list of directories.
pub open spec fn entry_views(v: Seq<ProcEntry>) -> Seq<EntryView> {
    Seq::new(v.len(), |i: int| v[i]@)
}

// ─── Names ──────────────────────────────────────────────────────────────────

/// A file name, in lower case, is that of one of Wine's services.
pub open spec fn wine_service(file: Seq<char>) -> bool {
    ||| file == "services.exe"@
    ||| file == "winedevice.exe"@
    ||| file == "explorer.exe"@
    ||| file == "plugplay.exe"@
    ||| file == "svchost.exe"@
    ||| file == "conhost.exe"@
    ||| file == "rpcss.exe"@
    ||| file == "tabtip.exe"@
    ||| file == "start.exe"@
    ||| file == "winedbg.exe"@
    ||| file == "winemenubuilder.exe"@
}

/// A file name, in lower case, is that of one of the helpers that Steam and Proton run.
pub open spec fn proton_helper(file: Seq<char>) -> bool {
    ||| file == "steam.exe"@
    ||| file == "xalia.exe"@
    ||| file == "crashpad_handler.exe"@
    ||| file == "steamwebhelper.exe"@
}

/// The last piece of a name, in lower case.
pub open spec fn plain_name(name: Seq<char>) -> Seq<char> {
    file_name(text::lower_all(name))
}

/// A name, or the last piece of a path, is that of a service or a helper, in upper or lower
/// case.
pub open spec fn infrastructure(name: Seq<char>) -> bool {
    wine_service(plain_name(name)) || proton_helper(plain_name(name))
}

/// Whether a file name is that of one of Wine's services.
pub fn is_wine_service(file: &[char]) -> (r: bool)
    ensures
        r == wine_service(file@),
{
    is(file, "services.exe") || is(file, "winedevice.exe") || is(file, "explorer.exe") || is(
        file,
        "plugplay.exe",
    ) || is(file, "svchost.exe") || is(file, "conhost.exe") || is(file, "rpcss.exe") || is(
        file,
        "tabtip.exe",
    ) || is(file, "start.exe") || is(file, "winedbg.exe") || is(file, "winemenubuilder.exe")
}

fn is_proton_helper(file: &[char]) -> (r: bool)
    ensures
        r == proton_helper(file@),
{
    is(file, "steam.exe") || is(file, "xalia.exe") || is(file, "crashpad_handler.exe") || is(
        file,
        "steamwebhelper.exe",
    )
}

/// The last piece of a name, in lower case.
pub fn to_plain_name(name: &str) -> (r: Vec<char>)
    ensures
        r@ == plain_name(name@),
{
    let lower = to_lower(to_chars(name).as_slice());
    last_piece(lower.as_slice(), Separator::Either('/', '\\'))
}

/// Whether a process of this name belongs to Wine or Proton itself. The name is compared as a
/// whole, so that `QuickStart.exe` is not taken for `start.exe`.
#[must_use]
pub fn is_wine_infrastructure(name: &str) -> (r: bool)
    ensures
        r == infrastructure(name@),
{
    let file = to_plain_name(name);
    is_wine_service(file.as_slice()) || is_proton_helper(file.as_slice())
}

/// A path leads to a program that hosts Windows programs.
pub open spec fn wine_loader(path: Seq<char>) -> bool {
    let file = text::after_last(path, Separator::One('/'));
    file == "wine"@ || file == "wine64"@ || file == "wine-preloader"@ || file
        == "wine64-preloader"@
}

/// Whether a path leads to a program that hosts Windows programs. Programs that merely have an
/// `.exe` among their arguments are told apart by this.
#[must_use]
pub fn is_wine_binary(exe_path: &str) -> (r: bool)
    ensures
        r == wine_loader(exe_path@),
{
    let path = to_chars(exe_path);
    let file = last_piece(path.as_slice(), Separator::One('/'));
    is(file.as_slice(), "wine") || is(file.as_slice(), "wine64") || is(
        file.as_slice(),
        "wine-preloader",
    ) || is(file.as_slice(), "wine64-preloader")
}

/// A text ends with `.exe`, in upper or lower case.
pub open spec fn ends_in_exe(s: Seq<char>) -> bool {
    ".exe"@.is_suffix_of(text::lower_all(s))
}

/// What follows the last separator of a Unix or Windows path.
pub open spec fn file_name(path: Seq<char>) -> Seq<char> {
    text::after_last(path, Separator::Either('/', '\\'))
}

/// The file name of the program that a command line runs, where it is an `.exe`. Only the
/// first argument counts.
pub open spec fn program(cmdline: Seq<char>) -> Option<Seq<char>> {
    let first = text::split(cmdline, Separator::One('\0'))[0];
    if ends_in_exe(first) {
        Some(file_name(first))
    } else {
        None
    }
}

/// The file name of the program that a command line runs, where it is an `.exe`. Only the
/// first argument counts, so that an `.exe` among the arguments of a launcher does not.
#[must_use]
pub fn extract_exe_name(cmdline: &str) -> (r: Option<String>)
    ensures
        text::optional(r) == program(cmdline@),
{
    let line = to_chars(cmdline);
    let pieces = split_all(line.as_slice(), Separator::One('\0'));
    proof {
        text::split_is_never_empty(line@, Separator::One('\0'));
        assert(text::views(pieces@)[0] == pieces@[0]@);
    }
    let first = &pieces[0];
    let lower = to_lower(first.as_slice());
    if ends(lower.as_slice(), ".exe") {
        let name = last_piece(first.as_slice(), Separator::Either('/', '\\'));
        Some(from_chars(name.as_slice()))
    } else {
        None
    }
}

// ─── The search ─────────────────────────────────────────────────────────────

/// A command line with spaces between its arguments and none around it.
pub open spec fn spaced(cmdline: Seq<char>) -> Seq<char> {
    text::trimmed(
        Seq::new(
            cmdline.len(),
            |i: int|
                if cmdline[i] == '\0' {
                    ' '
                } else {
                    cmdline[i]
                },
        ),
    )
}

/// A command line with spaces between its arguments and none around it.
pub fn space_out(cmdline: &str) -> (r: String)
    ensures
        r@ == spaced(cmdline@),
{
    let line = to_chars(cmdline);
    let ghost whole = Seq::new(
        line@.len(),
        |i: int|
            if line@[i] == '\0' {
                ' '
            } else {
                line@[i]
            },
    );
    let mut out: Vec<char> = Vec::new();
    let mut i: usize = 0;
    while i < line.len()
        invariant
            i <= line@.len(),
            out@.len() == i,
            whole.len() == line@.len(),
            forall|k: int|
                0 <= k < line@.len() ==> (#[trigger] whole[k]) == if line@[k] == '\0' {
                    ' '
                } else {
                    line@[k]
                },
            forall|k: int| 0 <= k < i ==> out@[k] == #[trigger] whole[k],
        decreases line@.len() - i,
    {
        assert(whole[i as int] == if line@[i as int] == '\0' {
            ' '
        } else {
            line@[i as int]
        });
        if line[i] == '\0' {
            out.push(' ');
        } else {
            out.push(line[i]);
        }
        i += 1;
    }
    assert(out@ =~= whole);
    from_chars(trim(out.as_slice()).as_slice())
}

/// The game that a directory stands for, where it stands for one: the directory is that of a
/// process, the process is hosted by Wine, it runs an `.exe`, and that is none of Wine's own.
pub open spec fn game(e: EntryView) -> Option<ProcessView> {
    match (text::number(e.name, 10, u32::MAX as nat), e.exe, e.cmdline) {
        (Ok(pid), Some(exe), Some(cmdline)) => match program(cmdline) {
            Some(name) => if wine_loader(exe) && !infrastructure(name) {
                Some(ProcessView { pid: pid as u32, name, exe_path: spaced(cmdline) })
            } else {
                None
            },
            None => None,
        },
        _ => None,
    }
}

/// The games among the directories, in order.
pub open spec fn games(entries: Seq<EntryView>) -> Seq<ProcessView>
    decreases entries.len(),
{
    if entries.len() == 0 {
        Seq::empty()
    } else {
        match game(entries.last()) {
            Some(p) => games(entries.drop_last()).push(p),
            None => games(entries.drop_last()),
        }
    }
}

fn game_of(e: &ProcEntry) -> (r: Option<ProcessInfo>)
    ensures
        match r {
            Some(p) => game(e@) == Some(p@),
            None => game(e@) is None,
        },
{
    let name = to_chars(e.name.as_str());
    let pid: u32 = match parse_number(name.as_slice(), 10, u32::MAX as u64) {
        Ok(n) => n as u32,
        Err(_) => return None,
    };
    let exe = match &e.exe {
        Some(s) => s,
        None => return None,
    };
    let cmdline = match &e.cmdline {
        Some(s) => s,
        None => return None,
    };
    if !is_wine_binary(exe.as_str()) {
        return None;
    }
    match extract_exe_name(cmdline.as_str()) {
        None => None,
        Some(program) => {
            if is_wine_infrastructure(program.as_str()) {
                None
            } else {
                Some(ProcessInfo { pid, name: program, exe_path: space_out(cmdline.as_str()) })
            }
        },
    }
}

/// The games among the directories of the process file system.
pub fn list_wine_processes(entries: &Vec<ProcEntry>) -> (r: Vec<ProcessInfo>)
    ensures
        process_views(r@) == games(entry_views(entries@)),
{
    let ghost views = entry_views(entries@);
    let mut out: Vec<ProcessInfo> = Vec::new();
    let mut i: usize = 0;
    assert(process_views(out@) =~= games(views.take(0)));
    while i < entries.len()
        invariant
            i <= entries@.len(),
            views == entry_views(entries@),
            process_views(out@) == games(views.take(i as int)),
        decreases entries@.len() - i,
    {
        let ghost before = process_views(out@);
        proof {
            assert(views.take(i + 1).drop_last() =~= views.take(i as int));
            assert(views.take(i + 1).last() == entries@[i as int]@);
        }
        if let Some(p) = game_of(&entries[i]) {
            out.push(p);
            assert(process_views(out@) =~= before.push(p@));
        }
        i += 1;
    }
    assert(views.take(entries@.len() as int) =~= views);
    out
}

/// The processes whose name holds a text, in upper or lower case.
pub open spec fn named(processes: Seq<ProcessView>, name: Seq<char>) -> Seq<ProcessView> {
    processes.filter(
        |p: ProcessView| text::occurs(text::lower_all(p.name), text::lower_all(name)),
    )
}

/// Keeps the processes whose name holds a text, in upper or lower case.
pub fn keep_named(processes: Vec<ProcessInfo>, name_substr: &str) -> (r: Vec<ProcessInfo>)
    ensures
        process_views(r@) == named(process_views(processes@), name_substr@),
{
    let lower = to_lower(to_chars(name_substr).as_slice());
    let ghost views = process_views(processes@);
    let ghost keep = |p: ProcessView|
        text::occurs(text::lower_all(p.name), text::lower_all(name_substr@));
    let mut out: Vec<ProcessInfo> = Vec::new();
    let mut i: usize = 0;
    proof {
        reveal(Seq::filter);
        assert(process_views(out@) =~= views.take(0).filter(keep));
    }
    while i < processes.len()
        invariant
            i <= processes@.len(),
            views == process_views(processes@),
            lower@ == text::lower_all(name_substr@),
            keep == (|p: ProcessView|
                text::occurs(text::lower_all(p.name), text::lower_all(name_substr@))),
            process_views(out@) == views.take(i as int).filter(keep),
        decreases processes@.len() - i,
    {
        let ghost before = process_views(out@);
        proof {
            reveal(Seq::filter);
            assert(views.take(i + 1).drop_last() =~= views.take(i as int));
            assert(views.take(i + 1).last() == processes@[i as int]@);
        }
        let name = to_lower(to_chars(processes[i].name.as_str()).as_slice());
        if contains(name.as_slice(), lower.as_slice()) {
            let p = processes[i].copy();
            out.push(p);
            assert(process_views(out@) =~= before.push(p@));
        }
        i += 1;
    }
    assert(views.take(processes@.len() as int) =~= views);
    out
}

/// The games among the directories whose name holds a text, in upper or lower case.
pub fn find_process(name_substr: &str, entries: &Vec<ProcEntry>) -> (r: Vec<ProcessInfo>)
    ensures
        process_views(r@) == named(games(entry_views(entries@)), name_substr@),
{
    keep_named(list_wine_processes(entries), name_substr)
}

/// Only processes that Wine hosts are listed, and none of Wine's own services: each comes from
/// a directory whose executable is a loader, and has the name of no service or helper.
pub proof fn only_hosted_games(entries: Seq<EntryView>)
    ensures
        forall|i: int|
            0 <= i < games(entries).len() ==> !infrastructure((#[trigger] games(entries)[i]).name)
                && exists|k: int| #[trigger] hosts(entries, k, games(entries)[i]),
    decreases entries.len(),
{
    if entries.len() > 0 {
        let rest = entries.drop_last();
        only_hosted_games(rest);
        assert forall|i: int| 0 <= i < games(entries).len() implies !infrastructure(
            (#[trigger] games(entries)[i]).name,
        ) && exists|k: int| #[trigger] hosts(entries, k, games(entries)[i]) by {
            let p = games(entries)[i];
            if i < games(rest).len() {
                assert(p == games(rest)[i]);
                let k = choose|k: int| #[trigger] hosts(rest, k, p);
                assert(hosts(entries, k, p));
            } else {
                assert(hosts(entries, entries.len() - 1, p));
            }
        }
    }
}

/// The process is that of a directory whose executable is a loader.
pub open spec fn hosts(entries: Seq<EntryView>, k: int, p: ProcessView) -> bool {
    &&& 0 <= k < entries.len()
    &&& game(entries[k]) == Some(p)
    &&& entries[k].exe matches Some(exe) && wine_loader(exe)
}

/// Only the first argument of a command line says what it runs: whatever follows, an `.exe`
/// among the arguments of a launcher included, changes nothing.
pub proof fn later_arguments_do_not_count(first: Seq<char>, rest: Seq<char>)
    requires
        !first.contains('\0'),
    ensures
        program(first.push('\0') + rest) == program(first),
{
    text::first_piece_stands_alone(first, '\0', rest);
}

// ─── Names and paths ────────────────────────────────────────────────────────

/// A text without a separator of Unix or Windows paths.
pub open spec fn unparted(s: Seq<char>) -> bool {
    forall|i: int| 0 <= i < s.len() ==> #[trigger] s[i] != '/' && s[i] != '\\'
}

/// The file name is what follows the last slash or backslash, and a path without one is a file
/// name itself.
pub proof fn file_names_follow_the_last_separator(dir: Seq<char>, c: char, file: Seq<char>)
    requires
        unparted(file),
        c == '/' || c == '\\',
    ensures
        file_name(dir.push(c) + file) == file,
        file_name(file) == file,
{
    let sep = Separator::Either('/', '\\');
    assert forall|i: int| 0 <= i < file.len() implies !sep.parts(#[trigger] file[i]) by {}
    text::last_piece_follows_the_separator(dir, c, file, sep);
}

/// A command line runs the file that its first argument leads to, where that ends in `.exe` in
/// any case, and no `.exe` at all otherwise.
pub proof fn first_argument_is_the_program(
    dir: Seq<char>,
    c: char,
    file: Seq<char>,
    rest: Seq<char>,
)
    requires
        unparted(file),
        c == '/' || c == '\\',
        !dir.contains('\0'),
        !file.contains('\0'),
        file.len() >= 4,
    ensures
        text::lower_all(file).skip(file.len() - 4) == ".exe"@ ==> program(
            (dir.push(c) + file).push('\0') + rest,
        ) == Some(file) && program(file.push('\0') + rest) == Some(file),
        text::lower_all(file).skip(file.len() - 4) != ".exe"@ ==> program(
            (dir.push(c) + file).push('\0') + rest,
        ) is None && program(file.push('\0') + rest) is None,
{
    reveal_strlit(".exe");
    let path = dir.push(c) + file;
    assert(!path.contains('\0')) by {
        assert forall|i: int| 0 <= i < path.len() implies path[i] != '\0' by {
            if i < dir.len() {
                assert(path[i] == dir[i]);
                assert(dir.contains(dir[i]));
            } else if i > dir.len() {
                assert(path[i] == file[i - dir.len() - 1]);
                assert(file.contains(file[i - dir.len() - 1]));
            }
        }
    }
    text::first_piece_stands_alone(path, '\0', rest);
    text::first_piece_stands_alone(file, '\0', rest);
    file_names_follow_the_last_separator(dir, c, file);
    let end = text::lower_all(file).skip(file.len() - 4);
    assert(text::lower_all(path).skip(path.len() - 4) =~= end);
    assert(text::lower_all(path).subrange(path.len() - 4, path.len() as int) =~= end);
    assert(text::lower_all(file).subrange(file.len() - 4, file.len() as int) =~= end);
}

/// A name without a separator is its own last piece.
pub proof fn lemma_name_is_plain(name: Seq<char>)
    requires
        unparted(name),
    ensures
        plain_name(name) == text::lower_all(name),
{
    let lower = text::lower_all(name);
    assert forall|i: int| 0 <= i < lower.len() implies #[trigger] lower[i] != '/' && lower[i]
        != '\\' by {
        assert(name[i] != '/' && name[i] != '\\');
    }
    file_names_follow_the_last_separator(Seq::empty(), '/', lower);
}

/// Wine's services and the helpers of Steam and Proton are told by their names, in any case, and
/// nothing else is taken for one.
pub proof fn infrastructure_is_told_by_name(name: Seq<char>)
    requires
        unparted(name),
    ensures
        infrastructure(name) <==> {
            let word = text::lower_all(name);
            ||| word == "services.exe"@
            ||| word == "winedevice.exe"@
            ||| word == "explorer.exe"@
            ||| word == "plugplay.exe"@
            ||| word == "svchost.exe"@
            ||| word == "conhost.exe"@
            ||| word == "rpcss.exe"@
            ||| word == "tabtip.exe"@
            ||| word == "start.exe"@
            ||| word == "winedbg.exe"@
            ||| word == "winemenubuilder.exe"@
            ||| word == "steam.exe"@
            ||| word == "xalia.exe"@
            ||| word == "crashpad_handler.exe"@
            ||| word == "steamwebhelper.exe"@
        },
{
    lemma_name_is_plain(name);
}

/// An executable is a loader exactly where its file name is one of Wine's four.
pub proof fn loaders_are_told_by_name(dir: Seq<char>, file: Seq<char>)
    requires
        !file.contains('/'),
    ensures
        wine_loader(dir.push('/') + file) <==> {
            ||| file == "wine"@
            ||| file == "wine64"@
            ||| file == "wine-preloader"@
            ||| file == "wine64-preloader"@
        },
{
    let sep = Separator::One('/');
    assert forall|i: int| 0 <= i < file.len() implies !sep.parts(#[trigger] file[i]) by {
        assert(file.contains(file[i]));
    }
    text::last_piece_follows_the_separator(dir, '/', file, sep);
}

/// A process is listed exactly where its directory has a decimal name, its executable is a
/// loader, and its command line runs an `.exe` that is none of Wine's own; then with that
/// number, the name of the `.exe`, and the command line.
pub proof fn games_are_hosted_programs(e: EntryView, pid: u32)
    requires
        e.name == text::numeral(pid as nat, 10),
    ensures
        game(e) == if e.exe is Some && wine_loader(e.exe->0) && e.cmdline is Some && program(
            e.cmdline->0,
        ) is Some && !infrastructure(program(e.cmdline->0)->0) {
            Some(
                ProcessView {
                    pid,
                    name: program(e.cmdline->0)->0,
                    exe_path: spaced(e.cmdline->0),
                },
            )
        } else {
            None
        },
{
    text::numerals_are_read_back(pid as nat, 10, u32::MAX as nat);
}

/// A directory whose name is no decimal number is no process.
pub proof fn other_directories_are_no_processes(e: EntryView)
    requires
        text::number(e.name, 10, 0xffff_ffff) is Err,
    ensures
        game(e) is None,
{
}

/// The command line is shown with a space for each NUL between its arguments, and without the
/// one behind the last.
pub proof fn arguments_are_spaced_out(body: Seq<char>)
    requires
        body.len() > 0,
        body[0] != '\0' && !text::is_space(body[0]),
        body.last() != '\0' && !text::is_space(body.last()),
    ensures
        spaced(body.push('\0')) == Seq::new(
            body.len(),
            |i: int| if body[i] == '\0' { ' ' } else { body[i] },
        ),
{
    let shown = Seq::new(body.len(), |i: int| if body[i] == '\0' { ' ' } else { body[i] });
    let whole = body.push('\0');
    let none = Seq::<char>::empty();
    text::trimming_takes_the_space_around(none, shown, seq![' ']);
    assert(Seq::new(
        whole.len(),
        |i: int|
            if whole[i] == '\0' {
                ' '
            } else {
                whole[i]
            },
    ) =~= none + shown + seq![' ']);
}

/// The games of two lists of directories are those of the first and then those of the second.
pub proof fn games_are_listed_part_by_part(a: Seq<EntryView>, b: Seq<EntryView>)
    ensures
        games(a + b) == games(a) + games(b),
    decreases b.len(),
{
    if b.len() == 0 {
        assert(a + b =~= a);
        assert(games(a) + games(b) =~= games(a));
    } else {
        games_are_listed_part_by_part(a, b.drop_last());
        assert((a + b).drop_last() =~= a + b.drop_last());
        assert((a + b).last() == b.last());
        assert(games(a + b) =~= games(a) + games(b));
    }
}

/// One directory gives its game, where it stands for one, and nothing otherwise.
pub proof fn one_directory_gives_its_game(e: EntryView)
    ensures
        games(seq![e]) == match game(e) {
            Some(p) => seq![p],
            None => Seq::empty(),
        },
{
    assert(seq![e].drop_last() =~= Seq::empty());
    assert(games(seq![e].drop_last()) =~= Seq::empty());
    assert(games(seq![e]) =~= match game(e) {
        Some(p) => seq![p],
        None => Seq::empty(),
    });
}

/// A search by name keeps exactly the processes whose name holds the text, whatever the case of
/// either.
pub proof fn names_are_searched_in_any_case(processes: Seq<ProcessView>, name: Seq<char>, p: ProcessView)
    ensures
        named(processes, name).contains(p) <==> processes.contains(p) && text::occurs(
            text::lower_all(p.name),
            text::lower_all(name),
        ),
{
    let keep = |q: ProcessView|
        text::occurs(text::lower_all(q.name), text::lower_all(name));
    crate::scan::engine::lemma_filter_all(processes, keep);
    crate::scan::engine::lemma_filter_from(processes, keep);
    if named(processes, name).contains(p) {
        let i = choose|i: int| 0 <= i < named(processes, name).len() && named(processes, name)[i] == p;
        assert(keep(processes.filter(keep)[i]));
        assert(processes.contains(processes.filter(keep)[i]));
    }
    if processes.contains(p) && keep(p) {
        let i = choose|i: int| 0 <= i < processes.len() && processes[i] == p;
        crate::scan::engine::lemma_filter_has(processes, keep, i);
    }
}

} // verus!
