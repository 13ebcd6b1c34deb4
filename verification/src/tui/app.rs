//! What the terminal interface shows.

use crate::process::pid;
use crate::process::pid::ProcessInfo;
use crate::scan::candidate::Candidate;
use crate::text;
use crate::text::push_decimal;
use vstd::prelude::*;

verus! {

/// The state of the interface.
#[derive(Debug)]
pub struct App {
    /// The interface is to close.
    pub should_quit: bool,
    /// The process that was chosen.
    pub selected_process: Option<ProcessInfo>,
    /// The game processes.
    pub processes: Vec<ProcessInfo>,
    /// The candidates of the scan.
    pub candidates: Vec<Candidate>,
    /// The message in the bottom bar.
    pub status: String,
    /// The scan session.
    pub session_id: Option<String>,
}

impl App {
    /// Nothing was chosen, found or scanned yet, and a message is shown.
    pub open spec fn idle(self, status: Seq<char>) -> bool {
        &&& !self.should_quit
        &&& self.selected_process is None
        &&& self.processes@.len() == 0
        &&& self.candidates@.len() == 0
        &&& self.status@ == status
        &&& self.session_id is None
    }

    /// The interface at its start.
    #[must_use]
    pub fn new() -> (r: App)
        ensures
            r.idle("Ready"@),
    {
        App {
            should_quit: false,
            selected_process: None,
            processes: Vec::new(),
            candidates: Vec::new(),
            status: "Ready".to_string(),
            session_id: None,
        }
    }

    /// What the main panel says.
    pub open spec fn headline_text(self) -> Seq<char> {
        match self.selected_process {
            Some(p) => attached(p@),
            None => "No process selected. Use 'pika ps' to list processes."@,
        }
    }

    /// What the main panel says.
    pub fn headline(&self) -> (r: String)
        ensures
            r@ == self.headline_text(),
    {
        match &self.selected_process {
            Some(p) => {
                let mut r = "Attached to: ".to_string();
                r.append(p.name.as_str());
                r.append(" (PID ");
                push_decimal(&mut r, p.pid as u64);
                r.append(")");
                r
            },
            None => "No process selected. Use 'pika ps' to list processes.".to_string(),
        }
    }

    /// What the bottom bar says.
    pub fn status_line(&self) -> (r: String)
        ensures
            r@ == " "@ + self.status@,
    {
        let mut r = " ".to_string();
        r.append(self.status.as_str());
        r
    }
}

/// What is said of a process that was chosen.
pub open spec fn attached(p: pid::ProcessView) -> Seq<char> {
    "Attached to: "@ + p.name + " (PID "@ + text::decimal(p.pid as nat) + ")"@
}

impl Default for App {
    fn default() -> (r: App)
        ensures
            r.idle(Seq::empty()),
    {
        let status = String::new();
        assert(status@ =~= Seq::empty());
        App {
            should_quit: false,
            selected_process: None,
            processes: Vec::new(),
            candidates: Vec::new(),
            status,
            session_id: None,
        }
    }
}

} // verus!
