//! Routing a board with an outside router: what is done next, given what came of the
//! step before.

use crate::scripts::{
    describe_routing, export_script, import_script, last_progress, route_export_script,
    route_import_script, route_summary, unrouted, unrouted_text,
};
use crate::strings::{decimal, lines_of, number, strings};
use crate::sync::debug_text;
use crate::text::{extend_str, to_chars, to_text};
use crate::traces::trim;
use vstd::prelude::*;

verus! {

/// A board to be routed, and the files that are used on the way.
#[derive(Debug)]
pub struct Job {
    pub path: String,
    /// The program of the router.
    pub jar: String,
    /// How often the router goes over the board.
    pub passes: u32,
    /// Whether the board itself is written.
    pub saves: bool,
    /// What goes to the router, and what comes from it.
    pub dsn: String,
    pub ses: String,
    /// Where the board goes if it is not to be written itself.
    pub copy: String,
    /// Where faults are reported.
    pub report: String,
}

/// What is done next.
#[derive(Debug)]
pub enum Action {
    /// A script is run in Python.
    RunScript(String),
    /// The router is run with arguments.
    RunRouter(Vec<String>),
    /// The board is checked for faults with arguments.
    Check(Vec<String>),
    /// The board is shown, with a summary.
    Show { board: String, summary: String },
    /// It is told why there is no result.
    Fail(String),
}

/// What is done next, in texts.
#[verifier::ext_equal]
pub enum ActionModel {
    RunScript(Seq<char>),
    RunRouter(Seq<Seq<char>>),
    Check(Seq<Seq<char>>),
    Show { board: Seq<char>, summary: Seq<char> },
    Fail(Seq<char>),
}

pub open spec fn action_model(a: Action) -> ActionModel {
    match a {
        Action::RunScript(t) => ActionModel::RunScript(t@),
        Action::RunRouter(args) => ActionModel::RunRouter(strings(args@)),
        Action::Check(args) => ActionModel::Check(strings(args@)),
        Action::Show { board, summary } => ActionModel::Show { board: board@, summary: summary@ },
        Action::Fail(t) => ActionModel::Fail(t@),
    }
}

/// Said where the router is not there.
pub open spec fn jar_missing(jar: Seq<char>) -> Seq<char> {
    "FreeRouting JAR not found at "@ + jar
        + ".\nDownload it from https://github.com/freerouting/freerouting/releases/latest\nand place it at ~/.local/share/freerouting.jar"@
}

fn write_jar_missing(jar: &str) -> (out: String)
    ensures
        out@ == jar_missing(jar@),
{
    let mut out = to_chars("FreeRouting JAR not found at ");
    extend_str(&mut out, jar);
    extend_str(&mut out, ".\nDownload it from https://github.com/freerouting/freerouting/releases/latest\nand place it at ~/.local/share/freerouting.jar");
    proof {
        assert(out@ =~= jar_missing(jar@));
    }
    to_text(out.as_slice())
}

/// Said where nothing went out to the router.
pub open spec fn export_failed(why: Seq<char>) -> Seq<char> {
    "DSN export failed:\n"@ + why
}

fn write_export_failed(why: &str) -> (out: String)
    ensures
        out@ == export_failed(why@),
{
    let mut out = to_chars("DSN export failed:\n");
    extend_str(&mut out, why);
    proof {
        assert(out@ =~= export_failed(why@));
    }
    to_text(out.as_slice())
}

/// Said where nothing came from the router.
pub open spec fn router_failed(log: Seq<char>) -> Seq<char> {
    "FreeRouting did not produce a SES file.\nLog:\n"@ + log
}

fn write_router_failed(log: &str) -> (out: String)
    ensures
        out@ == router_failed(log@),
{
    let mut out = to_chars("FreeRouting did not produce a SES file.\nLog:\n");
    extend_str(&mut out, log);
    proof {
        assert(out@ =~= router_failed(log@));
    }
    to_text(out.as_slice())
}

/// Said where the routes were not taken in.
pub open spec fn import_failed(why: Seq<char>) -> Seq<char> {
    "SES import failed:\n"@ + why
}

fn write_import_failed(why: &str) -> (out: String)
    ensures
        out@ == import_failed(why@),
{
    let mut out = to_chars("SES import failed:\n");
    extend_str(&mut out, why);
    proof {
        assert(out@ =~= import_failed(why@));
    }
    to_text(out.as_slice())
}

/// The arguments of the router.
pub open spec fn router_args(job: Job) -> Seq<Seq<char>> {
    seq![
        "-jar"@,
        job.jar@,
        "--gui.enabled=false"@,
        "-de"@,
        job.dsn@,
        "-do"@,
        job.ses@,
        "-mp"@,
        decimal(job.passes as nat),
    ]
}

/// The arguments of the check for faults.
pub open spec fn check_args(job: Job) -> Seq<Seq<char>> {
    seq![
        "pcb"@,
        "drc"@,
        "--output"@,
        job.report@,
        "--format"@,
        "json"@,
        "--severity-error"@,
        target(job),
    ]
}

/// The file that the routed board goes to.
pub open spec fn target(job: Job) -> Seq<char> {
    if job.saves {
        job.path@
    } else {
        job.copy@
    }
}

impl Job {
    /// The file that the routed board goes to.
    pub fn target(&self) -> (path: &String)
        ensures
            path@ == target(*self),
    {
        if self.saves {
            &self.path
        } else {
            &self.copy
        }
    }

    /// The first step: the board goes out to the router, if that is there.
    pub fn begin(&self, has_router: bool) -> (action: Action)
        ensures
            action_model(action) == (if has_router {
                ActionModel::RunScript(export_script(debug_text(self.path@), debug_text(self.dsn@)))
            } else {
                ActionModel::Fail(jar_missing(self.jar@))
            }),
    {
        if has_router {
            Action::RunScript(route_export_script(self.path.as_str(), self.dsn.as_str()))
        } else {
            Action::Fail(write_jar_missing(self.jar.as_str()))
        }
    }

    /// The step after the board went out, by the exit code of the script, whether there
    /// is a file for the router, and what the script complained of.
    pub fn after_export(&self, code: i64, made: bool, stderr: &str) -> (action: Action)
        ensures
            action_model(action) == (if code == 0 && made {
                ActionModel::RunRouter(router_args(*self))
            } else {
                ActionModel::Fail(export_failed(stderr@))
            }),
    {
        if !(code == 0 && made) {
            return Action::Fail(write_export_failed(stderr));
        }
        let digits = number(self.passes as usize);
        let passes = to_text(digits.as_slice());
        let args: Vec<String> = vec![
            "-jar".to_string(),
            self.jar.clone(),
            "--gui.enabled=false".to_string(),
            "-de".to_string(),
            self.dsn.clone(),
            "-do".to_string(),
            self.ses.clone(),
            "-mp".to_string(),
            passes,
        ];
        proof {
            assert(strings(args@) =~= router_args(*self));
        }
        Action::RunRouter(args)
    }

    /// The step after the router ran, by whether there is a file from it, and its log.
    pub fn after_routing(&self, made: bool, log: &str) -> (action: Action)
        ensures
            action_model(action) == (if made {
                ActionModel::RunScript(
                    import_script(debug_text(self.path@), debug_text(self.ses@), debug_text(target(*self))),
                )
            } else {
                ActionModel::Fail(router_failed(log@))
            }),
    {
        if made {
            Action::RunScript(
                route_import_script(
                    self.path.as_str(),
                    self.ses.as_str(),
                    self.target().as_str(),
                ),
            )
        } else {
            Action::Fail(write_router_failed(log))
        }
    }

    /// The step after the routes were taken in, by the exit code of the script and what
    /// it complained of.
    pub fn after_import(&self, code: i64, stderr: &str) -> (action: Action)
        ensures
            action_model(action) == (if code == 0 {
                ActionModel::Check(check_args(*self))
            } else {
                ActionModel::Fail(import_failed(stderr@))
            }),
    {
        if code != 0 {
            return Action::Fail(write_import_failed(stderr));
        }
        let args: Vec<String> = vec![
            "pcb".to_string(),
            "drc".to_string(),
            "--output".to_string(),
            self.report.clone(),
            "--format".to_string(),
            "json".to_string(),
            "--severity-error".to_string(),
            self.target().clone(),
        ];
        proof {
            assert(strings(args@) =~= check_args(*self));
        }
        Action::Check(args)
    }

    /// The last step: the board is shown with what came of it all. `info` is what the
    /// second script said, `log` what the router said, and `report` the report of
    /// faults, if there is one.
    pub fn end(&self, info: &str, log: &str, report: Option<&str>) -> (action: Action)
        ensures
            action_model(action) == (ActionModel::Show {
                board: target(*self),
                summary: route_summary(
                    trim(info@),
                    last_progress(lines_of(log@)),
                    target(*self),
                    match report {
                        Some(r) => unrouted_text(unrouted(r@)),
                        None => Seq::empty(),
                    },
                ),
            }),
    {
        Action::Show {
            board: self.target().clone(),
            summary: describe_routing(info, log, self.target().as_str(), report),
        }
    }
}

} // verus!
