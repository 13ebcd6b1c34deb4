//! Finding game processes by their command lines alone, where the link to an executable cannot
//! be read. Any argument that is an `.exe` counts.

use crate::process::pid;
use crate::process::pid::{
    is_wine_service, keep_named, space_out, to_plain_name, ProcEntry, ProcessInfo,
};
use crate::text;
use crate::text::{
    ends, from_chars, last_piece, parse_number, split_all, to_chars, to_lower, trim, Separator,
};
use vstd::prelude::*;

verus! {

/// Whether a process of this name is one of Wine's services.
#[must_use]
pub fn is_wine_infrastructure(name: &str) -> (r: bool)
    ensures
        r == pid::wine_service(pid::plain_name(name@)),
{
    let file = to_plain_name(name);
    is_wine_service(file.as_slice())
}

/// The file name of the first of the pieces, without the white space around it, that is an
/// `.exe`.
pub open spec fn first_exe(pieces: Seq<Seq<char>>) -> Option<Seq<char>>
    decreases pieces.len(),
{
    if pieces.len() == 0 {
        None
    } else if pid::ends_in_exe(text::trimmed(pieces[0])) {
        Some(pid::file_name(text::trimmed(pieces[0])))
    } else {
        first_exe(pieces.drop_first())
    }
}

/// The file name of the first `.exe` in a command line, whose arguments are parted by NUL or
/// by spaces.
pub open spec fn mentioned(cmdline: Seq<char>) -> Option<Seq<char>> {
    first_exe(text::split(cmdline, Separator::Either('\0', ' ')))
}

/// The file name of the first `.exe` in a command line.
#[must_use]
pub fn extract_exe_name(cmdline: &str) -> (r: Option<String>)
    ensures
        text::optional(r) == mentioned(cmdline@),
{
    let line = to_chars(cmdline);
    let pieces = split_all(line.as_slice(), Separator::Either('\0', ' '));
    let ghost views = text::views(pieces@);
    let mut i: usize = 0;
    assert(views.skip(0) =~= views);
    while i < pieces.len()
        invariant
            i <= pieces@.len(),
            views == text::views(pieces@),
            views == text::split(cmdline@, Separator::Either('\0', ' ')),
            first_exe(views) == first_exe(views.skip(i as int)),
        decreases pieces@.len() - i,
    {
        let piece = trim(pieces[i].as_slice());
        proof {
            assert(views.skip(i as int)[0] == pieces@[i as int]@);
            assert(views.skip(i as int).drop_first() =~= views.skip(i + 1));
        }
        let lower = to_lower(piece.as_slice());
        if ends(lower.as_slice(), ".exe") {
            let name = last_piece(piece.as_slice(), Separator::Either('/', '\\'));
            return Some(from_chars(name.as_slice()));
        }
        i += 1;
    }
    assert(views.skip(i as int).len() == 0);
    None
}

/// The game that a directory stands for, where it stands for one: the directory is that of a
/// process whose command line mentions an `.exe` that is none of Wine's services.
pub open spec fn game(e: pid::EntryView) -> Option<pid::ProcessView> {
    match (text::number(e.name, 10, u32::MAX as nat), e.cmdline) {
        (Ok(n), Some(cmdline)) => match mentioned(cmdline) {
            Some(name) => if pid::wine_service(pid::plain_name(name)) {
                None
            } else {
                Some(pid::ProcessView { pid: n as u32, name, exe_path: pid::spaced(cmdline) })
            },
            None => None,
        },
        _ => None,
    }
}

/// The games among the directories, in order.
pub open spec fn games(entries: Seq<pid::EntryView>) -> Seq<pid::ProcessView>
    decreases entries.len(),
{
    if entries.len() == 0 {
        Seq::empty()
    } else {
        match game(entries.last()) {
            Some(p) => games(entries.drop_last()).push(p),
            None => games(entries.drop_last()),
        }
    }
}

fn game_of(e: &ProcEntry) -> (r: Option<ProcessInfo>)
    ensures
        match r {
            Some(p) => game(e@) == Some(p@),
            None => game(e@) is None,
        },
{
    let name = to_chars(e.name.as_str());
    let pid: u32 = match parse_number(name.as_slice(), 10, u32::MAX as u64) {
        Ok(n) => n as u32,
        Err(_) => return None,
    };
    let cmdline = match &e.cmdline {
        Some(s) => s,
        None => return None,
    };
    match extract_exe_name(cmdline.as_str()) {
        None => None,
        Some(program) => {
            if is_wine_infrastructure(program.as_str()) {
                None
            } else {
                Some(ProcessInfo { pid, name: program, exe_path: space_out(cmdline.as_str()) })
            }
        },
    }
}

/// The games among the directories of the process file system.
pub fn list_wine_processes(entries: &Vec<ProcEntry>) -> (r: Vec<ProcessInfo>)
    ensures
        pid::process_views(r@) == games(pid::entry_views(entries@)),
{
    let ghost views = pid::entry_views(entries@);
    let mut out: Vec<ProcessInfo> = Vec::new();
    let mut i: usize = 0;
    assert(pid::process_views(out@) =~= games(views.take(0)));
    while i < entries.len()
        invariant
            i <= entries@.len(),
            views == pid::entry_views(entries@),
            pid::process_views(out@) == games(views.take(i as int)),
        decreases entries@.len() - i,
    {
        let ghost before = pid::process_views(out@);
        proof {
            assert(views.take(i + 1).drop_last() =~= views.take(i as int));
            assert(views.take(i + 1).last() == entries@[i as int]@);
        }
        if let Some(p) = game_of(&entries[i]) {
            out.push(p);
            assert(pid::process_views(out@) =~= before.push(p@));
        }
        i += 1;
    }
    assert(views.take(entries@.len() as int) =~= views);
    out
}

/// The games among the directories whose name holds a text, in upper or lower case.
pub fn find_process(name_substr: &str, entries: &Vec<ProcEntry>) -> (r: Vec<ProcessInfo>)
    ensures
        pid::process_views(r@) == pid::named(games(pid::entry_views(entries@)), name_substr@),
{
    keep_named(list_wine_processes(entries), name_substr)
}

/// None of Wine's services is taken for a game, whatever the case of its name; any other `.exe`
/// that a command line mentions is.
pub proof fn services_are_no_games(e: pid::EntryView, id: u32, name: Seq<char>)
    requires
        e.name == text::numeral(id as nat, 10),
        e.cmdline is Some,
        mentioned(e.cmdline->0) == Some(name),
        pid::unparted(name),
    ensures
        ({
            let word = text::lower_all(name);
            let service = {
                ||| word == "services.exe"@
                ||| word == "winedevice.exe"@
                ||| word == "explorer.exe"@
                ||| word == "plugplay.exe"@
                ||| word == "svchost.exe"@
                ||| word == "conhost.exe"@
                ||| word == "rpcss.exe"@
                ||| word == "tabtip.exe"@
                ||| word == "start.exe"@
                ||| word == "winedbg.exe"@
                ||| word == "winemenubuilder.exe"@
            };
            game(e) == if service {
                None
            } else {
                Some(
                    pid::ProcessView { pid: id, name, exe_path: pid::spaced(e.cmdline->0) },
                )
            }
        }),
{
    text::numerals_are_read_back(id as nat, 10, u32::MAX as nat);
    pid::lemma_name_is_plain(name);
}

/// The first argument that ends in `.exe` counts, with the white space around it taken away:
/// those before it do not, whatever follows.
pub proof fn the_first_exe_counts(before: Seq<Seq<char>>, piece: Seq<char>, after: Seq<Seq<char>>)
    requires
        forall|i: int|
            0 <= i < before.len() ==> !pid::ends_in_exe(text::trimmed(#[trigger] before[i])),
        pid::ends_in_exe(text::trimmed(piece)),
    ensures
        first_exe(before.push(piece) + after) == Some(pid::file_name(text::trimmed(piece))),
        first_exe(before) is None,
    decreases before.len(),
{
    let whole = before.push(piece) + after;
    if before.len() > 0 {
        let rest = before.drop_first();
        assert forall|i: int| 0 <= i < rest.len() implies !pid::ends_in_exe(
            text::trimmed(#[trigger] rest[i]),
        ) by {
            assert(rest[i] == before[i + 1]);
        }
        the_first_exe_counts(rest, piece, after);
        assert(whole.drop_first() =~= rest.push(piece) + after);
        assert(whole[0] == before[0]);
    } else {
        assert(whole[0] == piece);
    }
}

} // verus!
