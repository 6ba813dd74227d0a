//! The profiling run: what to do next, given what the last step brought.
//!
//! The run itself starts the editor and touches the trace file; neither can
//! be done here. `Step` says which of them is due, and `Step::next` takes the
//! outcome and decides how the run goes on.

use vstd::prelude::*;
use vstd::string::StringExecFns;
use crate::accumulator::{accumulate, gathered, merged};
use crate::command::Command;
use crate::error::Error;
use crate::plugin::Plugin;
use crate::timing::Share;
use crate::trace::{extract, extraction, infer_root, inferred_root, shares_view};

verus! {

/// The file that the editor writes its trace to.
pub const TRACE_FILE: &'static str = "vim.log";

/// A profiling job: which editor to start, how often, whether system scripts
/// count, and the file to open in the editor.
#[derive(Debug)]
pub struct Worker {
    pub command: Command,
    pub iter: i64,
    pub sys: bool,
    pub file: Option<String>,
}

/// A run between two launches: the launches still to come after the one in
/// hand, and the samples gathered so far.
#[derive(Debug)]
pub struct Progress {
    pub left: u64,
    pub sys: bool,
    pub plugins: Vec<Plugin>,
}

/// What the run waits for, or how it ended.
#[derive(Debug)]
pub enum Step {
    /// Start the editor, wait for it to exit and report `Event::Exited`.
    Launch(Progress),
    /// Read the trace file and report `Event::TraceRead`.
    Read(Progress),
    /// Remove the trace file and report `Event::TraceRemoved`.
    Remove(Progress),
    /// The run is over: these are its plugins, in no particular order.
    Finish(Vec<Plugin>),
    /// The run was given up.
    Fail(Error),
}

/// What a step brought.
#[derive(Debug)]
pub enum Event {
    /// The editor was started and has exited; `success` is false where it
    /// could not be started or exited with a failure.
    Exited { success: bool },
    /// The trace file was read, or could not be.
    TraceRead { content: Option<String> },
    /// The trace file was removed, or could not be.
    TraceRemoved { success: bool },
}

/// `outcome` is what reading a whole trace yields: the root is inferred and
/// the timings below it are extracted.
pub open spec fn parsed(text: Seq<char>, include_system: bool, outcome: Result<Seq<Share>, Error>)
    -> bool {
    match inferred_root(text) {
        Err(e) => outcome == Err::<Seq<Share>, Error>(e),
        Ok(root) => extraction(text, root, include_system, outcome),
    }
}

impl Progress {
    /// The samples gathered so far stand under distinct names, and every
    /// name has one at least.
    pub open spec fn well_formed(self) -> bool {
        gathered(self.plugins.deep_view())
    }

    /// The same run, told by its values.
    pub open spec fn same(self, other: Progress) -> bool {
        &&& self.left == other.left
        &&& self.sys == other.sys
        &&& self.plugins.deep_view() == other.plugins.deep_view()
    }
}

impl Step {
    /// The run that the step belongs to is well formed.
    pub open spec fn well_formed(self) -> bool {
        match self {
            Step::Launch(p) => p.well_formed(),
            Step::Read(p) => p.well_formed(),
            Step::Remove(p) => p.well_formed(),
            Step::Finish(plugins) => gathered(plugins.deep_view()),
            Step::Fail(_) => true,
        }
    }

    /// The same step, told by its values.
    pub open spec fn same(self, other: Step) -> bool {
        match (self, other) {
            (Step::Launch(p), Step::Launch(q)) => p.same(q),
            (Step::Read(p), Step::Read(q)) => p.same(q),
            (Step::Remove(p), Step::Remove(q)) => p.same(q),
            (Step::Finish(v), Step::Finish(w)) => v.deep_view() == w.deep_view(),
            (Step::Fail(e), Step::Fail(f)) => e == f,
            _ => false,
        }
    }

    /// The step that follows the editor's exit.
    pub open spec fn after_exit(p: Progress, success: bool, post: Step) -> bool {
        if success {
            post is Read && post->Read_0.same(p)
        } else {
            post == Step::Fail(Error::StartupTime)
        }
    }

    /// The step that follows the reading of the trace: the run fails where
    /// the trace could not be read or parsed, else its shares become samples.
    pub open spec fn after_read(p: Progress, content: Option<String>, post: Step) -> bool {
        match content {
            None => post == Step::Fail(Error::ReadLog),
            Some(text) => exists|outcome: Result<Seq<Share>, Error>|
                #![trigger parsed(text@, p.sys, outcome)]
                parsed(text@, p.sys, outcome) && match outcome {
                    Err(e) => post == Step::Fail(e),
                    Ok(shares) => {
                        &&& post is Remove
                        &&& post->Remove_0.left == p.left
                        &&& post->Remove_0.sys == p.sys
                        &&& merged(
                            p.plugins.deep_view(),
                            shares,
                            post->Remove_0.plugins.deep_view(),
                        )
                    },
                },
        }
    }

    /// The step that follows the removal of the trace: the next launch, or
    /// the end of the run after the last one.
    pub open spec fn after_removal(p: Progress, success: bool, post: Step) -> bool {
        if !success {
            post == Step::Fail(Error::RemoveLog)
        } else if p.left > 0 {
            &&& post is Launch
            &&& post->Launch_0.left == p.left - 1
            &&& post->Launch_0.sys == p.sys
            &&& post->Launch_0.plugins.deep_view() == p.plugins.deep_view()
        } else {
            post is Finish && post->Finish_0.deep_view() == p.plugins.deep_view()
        }
    }

    /// `post` follows `self` on `event`. An event that the step does not wait
    /// for changes nothing, and nothing follows the end of a run.
    pub open spec fn leads_to(self, event: Event, post: Step) -> bool {
        match (self, event) {
            (Step::Launch(p), Event::Exited { success }) => Self::after_exit(p, success, post),
            (Step::Read(p), Event::TraceRead { content }) => Self::after_read(p, content, post),
            (Step::Remove(p), Event::TraceRemoved { success }) => Self::after_removal(
                p,
                success,
                post,
            ),
            _ => post.same(self),
        }
    }

    /// Decides how the run goes on after `event`.
    pub fn next(self, event: Event) -> (post: Step)
        requires
            self.well_formed(),
        ensures
            post.well_formed(),
            self.leads_to(event, post),
    {
        match (self, event) {
            (Step::Launch(p), Event::Exited { success }) => {
                if success {
                    Step::Read(p)
                } else {
                    Step::Fail(Error::StartupTime)
                }
            },
            (Step::Read(p), Event::TraceRead { content }) => {
                let text = match content {
                    Some(text) => text,
                    None => {
                        return Step::Fail(Error::ReadLog);
                    },
                };
                let mut p = p;
                let ghost before = p;
                match read_trace(text.as_str(), p.sys) {
                    Ok(shares) => {
                        accumulate(&mut p.plugins, &shares);
                        let post = Step::Remove(p);
                        assert(parsed(text@, before.sys, Ok(shares.deep_view())));
                        post
                    },
                    Err(e) => {
                        assert(parsed(text@, before.sys, Err(e)));
                        Step::Fail(e)
                    },
                }
            },
            (Step::Remove(p), Event::TraceRemoved { success }) => {
                if !success {
                    Step::Fail(Error::RemoveLog)
                } else if p.left > 0 {
                    Step::Launch(Progress { left: p.left - 1, sys: p.sys, plugins: p.plugins })
                } else {
                    Step::Finish(p.plugins)
                }
            },
            (step, _) => step,
        }
    }
}

/// Reads a whole trace: infers the plugin root and extracts the timings below it.
pub fn read_trace(content: &str, include_system: bool) -> (r: Result<Vec<(String, u64)>, Error>)
    ensures
        parsed(content@, include_system, shares_view(r)),
        r matches Ok(shares) ==> crate::timing::distinct_names(shares.deep_view()),
{
    match infer_root(content) {
        Ok(root) => extract(content, &root, include_system),
        Err(e) => Err(e),
    }
}

impl Worker {
    /// A job that starts `command` `iter` times with `file` to open, and
    /// counts system scripts where `sys` is set.
    pub fn new(command: Command, iter: i64, sys: bool, file: Option<String>) -> (w: Worker)
        ensures
            w.command == command,
            w.iter == iter,
            w.sys == sys,
            w.file == file,
    {
        Worker { command, iter, sys, file }
    }

    /// The arguments that the editor is started with: the file to open (empty
    /// where none was given), the request for a trace, and what makes the
    /// editor stay in the foreground and quit at once.
    pub open spec fn argument_texts(self) -> Seq<Seq<char>> {
        seq![
            match self.file {
                Some(file) => file@,
                None => Seq::empty(),
            },
            "--startuptime"@,
            TRACE_FILE@,
            "-f"@,
            "-c"@,
            "q"@,
        ]
    }

    /// The arguments that the editor is started with.
    pub fn arguments(&self) -> (args: Vec<String>)
        ensures
            args.deep_view() == self.argument_texts(),
    {
        let mut args: Vec<String> = Vec::new();
        args.push(
            match &self.file {
                Some(file) => file.clone(),
                None => String::new(),
            },
        );
        args.push(String::from_str("--startuptime"));
        args.push(String::from_str(TRACE_FILE));
        args.push(String::from_str("-f"));
        args.push(String::from_str("-c"));
        args.push(String::from_str("q"));
        assert(args.deep_view() =~= self.argument_texts());
        args
    }

    /// The first step of the run: a launch, or the end at once where no
    /// launch is asked for.
    pub fn start(&self) -> (first: Step)
        ensures
            first.well_formed(),
            self.iter <= 0 ==> first is Finish && first->Finish_0.deep_view().len() == 0,
            self.iter > 0 ==> {
                &&& first is Launch
                &&& first->Launch_0.left == self.iter - 1
                &&& first->Launch_0.sys == self.sys
                &&& first->Launch_0.plugins.deep_view().len() == 0
            },
    {
        if self.iter <= 0 {
            Step::Finish(Vec::new())
        } else {
            Step::Launch(Progress { left: (self.iter - 1) as u64, sys: self.sys, plugins: Vec::new() })
        }
    }

    /// Grabs the plugin directory from the contents of a trace: the directory
    /// that most timing lines place a plugin in, system directories aside.
    pub fn plugin_directory(&self, content: &str) -> (r: Result<Option<String>, Error>)
        ensures
            match r {
                Ok(root) => inferred_root(content@) == Ok::<Option<Seq<char>>, Error>(
                    root.deep_view(),
                ),
                Err(e) => inferred_root(content@) == Err::<Option<Seq<char>>, Error>(e),
            },
    {
        infer_root(content)
    }

    /// Parses the contents of a trace into the time of each plugin.
    pub fn parse(&self, content: &str) -> (r: Result<Vec<(String, u64)>, Error>)
        ensures
            parsed(content@, self.sys, shares_view(r)),
    {
        read_trace(content, self.sys)
    }
}

} // verus!
