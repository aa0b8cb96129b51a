//! Design connectivity: what drives a signal and what reads it, as an
//! elaborated design database tells it.

use vstd::prelude::*;

use crate::condition::str_view;
use crate::path::{last_component, last_name};
use crate::text::{pieces, same, trim, trimmed, views};

verus! {

/// What kind of construct drives or reads a signal.
#[derive(Debug, Clone, Copy, PartialEq, Eq, Structural)]
pub enum HopKind {
    /// A continuous assignment.
    ContAssign,
    /// An assignment in a procedural block.
    Procedural,
    /// A port that the signal passes through.
    Port,
    /// An enclosing branch or clock edge.
    Control,
    /// A literal or a parameter.
    Constant,
    Other,
}

pub open spec fn hop_tag(k: HopKind) -> Seq<char> {
    match k {
        HopKind::ContAssign => "assign"@,
        HopKind::Procedural => "procedural"@,
        HopKind::Port => "port"@,
        HopKind::Control => "control"@,
        HopKind::Constant => "constant"@,
        HopKind::Other => "other"@,
    }
}

impl HopKind {
    pub fn tag(&self) -> (s: &'static str)
        ensures
            s@ == hop_tag(*self),
    {
        match self {
            HopKind::ContAssign => "assign",
            HopKind::Procedural => "procedural",
            HopKind::Port => "port",
            HopKind::Control => "control",
            HopKind::Constant => "constant",
            HopKind::Other => "other",
        }
    }
}

/// A statement that drives or reads a signal, with the signals it touches.
#[derive(Debug)]
pub struct Hop {
    /// Hops with the same number have a common source.
    pub group: usize,
    pub kind: HopKind,
    /// The type of the statement as the database names it.
    pub npi_type: String,
    /// The source text of the statement.
    pub statement: String,
    /// The scope that the statement is in.
    pub scope: String,
    pub file: Option<String>,
    pub line: Option<u32>,
    /// Was a hierarchy port crossed to get here?
    pub boundary: bool,
    /// The paths of the signals that the statement touches.
    pub signals: Vec<String>,
}

pub struct HopView {
    pub group: nat,
    pub kind: HopKind,
    pub npi_type: Seq<char>,
    pub statement: Seq<char>,
    pub scope: Seq<char>,
    pub file: Option<Seq<char>>,
    pub line: Option<int>,
    pub boundary: bool,
    pub signals: Seq<Seq<char>>,
}

pub open spec fn line_view(n: Option<u32>) -> Option<int> {
    match n {
        Some(v) => Some(v as int),
        None => None,
    }
}

impl View for Hop {
    type V = HopView;

    open spec fn view(&self) -> HopView {
        HopView {
            group: self.group as nat,
            kind: self.kind,
            npi_type: self.npi_type@,
            statement: self.statement@,
            scope: self.scope@,
            file: crate::text::opt_view(self.file),
            line: line_view(self.line),
            boundary: self.boundary,
            signals: views(self.signals@),
        }
    }
}

pub open spec fn hop_views(v: Seq<Hop>) -> Seq<HopView> {
    v.map_values(|h: Hop| h@)
}

/// What came of a query.
#[derive(Debug, Clone, Copy, PartialEq, Eq, Structural)]
pub enum TraceStatus {
    /// Drivers or loads were found.
    Resolved,
    NotFound,
    /// Only ports were found: the signal is driven from outside.
    BoundaryOnly,
}

pub open spec fn status_tag(s: TraceStatus) -> Seq<char> {
    match s {
        TraceStatus::Resolved => "resolved"@,
        TraceStatus::NotFound => "no_driver_found"@,
        TraceStatus::BoundaryOnly => "boundary_only"@,
    }
}

impl TraceStatus {
    pub fn tag(&self) -> (s: &'static str)
        ensures
            s@ == status_tag(*self),
    {
        match self {
            TraceStatus::Resolved => "resolved",
            TraceStatus::NotFound => "no_driver_found",
            TraceStatus::BoundaryOnly => "boundary_only",
        }
    }
}

/// Everything that a query found.
#[derive(Debug)]
pub struct TraceOutcome {
    pub hops: Vec<Hop>,
    pub status: TraceStatus,
}

/// Which way to walk.
#[derive(Debug, Clone, Copy, PartialEq, Eq, Structural)]
pub enum Direction {
    Driver,
    Load,
}

pub open spec fn direction_tag(d: Direction) -> Seq<char> {
    match d {
        Direction::Driver => "driver"@,
        Direction::Load => "load"@,
    }
}

impl Direction {
    pub fn tag(&self) -> (s: &'static str)
        ensures
            s@ == direction_tag(*self),
    {
        match self {
            Direction::Driver => "driver",
            Direction::Load => "load",
        }
    }
}

/// Connectivity queries against an elaborated design database.
pub trait DesignQuery: Sized {
    /// Load the database at `kdb`. A failure leaves the session usable.
    fn ensure_design(&mut self, kdb: &str, top: Option<&str>) -> Result<(), String>;

    /// The design directory that the waveform records.
    fn recorded_design_dir(&mut self) -> Option<String>;

    /// Walk from a signal; `control` takes in control dependencies.
    fn trace(&mut self, signal: &str, dir: Direction, control: bool) -> Result<TraceOutcome, String>;
}

/// Why there is no design database.
#[derive(Debug)]
pub enum KdbMiss {
    /// The waveform records none, and none was given.
    NotRecorded,
    /// The recorded one is not there.
    RecordedGone(String),
    /// The given one is not there.
    ExplicitMissing(String),
    /// A library that was never elaborated.
    NotElaborated(String),
}

pub enum MissView {
    NotRecorded,
    RecordedGone(Seq<char>),
    ExplicitMissing(Seq<char>),
    NotElaborated(Seq<char>),
}

impl View for KdbMiss {
    type V = MissView;

    open spec fn view(&self) -> MissView {
        match self {
            KdbMiss::NotRecorded => MissView::NotRecorded,
            KdbMiss::RecordedGone(p) => MissView::RecordedGone(p@),
            KdbMiss::ExplicitMissing(p) => MissView::ExplicitMissing(p@),
            KdbMiss::NotElaborated(p) => MissView::NotElaborated(p@),
        }
    }
}

pub open spec fn miss_text(m: MissView) -> Seq<char> {
    match m {
        MissView::NotRecorded =>
            "this waveform records no design library. Pass --kdb <simv.daidir>, or build one with vcs -kdb."@,
        MissView::RecordedGone(p) =>
            "the design library recorded in this waveform is not accessible: "@ + p
                + ". Pass --kdb <simv.daidir>."@,
        MissView::ExplicitMissing(p) => "--kdb "@ + p + " holds no kdb.elab++."@,
        MissView::NotElaborated(p) => p
            + " is not elaborated: it holds work.lib++ but no kdb.elab++. Run elabcom -elab kdb."@,
    }
}

impl KdbMiss {
    /// The message for the user.
    pub fn into_error(self) -> (s: String)
        ensures
            s@ == miss_text(self@),
    {
        match self {
            KdbMiss::NotRecorded =>
                "this waveform records no design library. Pass --kdb <simv.daidir>, or build one with vcs -kdb.".to_owned(),
            KdbMiss::RecordedGone(p) => {
                let mut m: String =
                    "the design library recorded in this waveform is not accessible: ".to_owned();
                m.push_str(p.as_str());
                m.push_str(". Pass --kdb <simv.daidir>.");
                m
            },
            KdbMiss::ExplicitMissing(p) => {
                let mut m: String = "--kdb ".to_owned();
                m.push_str(p.as_str());
                m.push_str(" holds no kdb.elab++.");
                m
            },
            KdbMiss::NotElaborated(p) => {
                let mut m: String = p.clone();
                m.push_str(
                    " is not elaborated: it holds work.lib++ but no kdb.elab++. Run elabcom -elab kdb.",
                );
                m
            },
        }
    }
}

/// What is on disk at a place where a design database may be.
#[derive(Debug, Clone, Copy)]
pub struct KdbFacts {
    /// Is the path itself there?
    pub exists: bool,
    /// Is there a `kdb.elab++` in it?
    pub elab_inside: bool,
    /// Is there a `work.lib++` in it?
    pub work_inside: bool,
}

/// A name in a directory.
pub open spec fn inside(dir: Seq<char>, name: Seq<char>) -> Seq<char> {
    if dir.len() == 0 {
        name
    } else if dir.last() == '/' {
        dir + name
    } else {
        dir + "/"@ + name
    }
}

/// The path of a name in a directory.
pub fn path_inside(dir: &str, name: &str) -> (r: String)
    ensures
        r@ == inside(dir@, name@),
{
    if dir.is_empty() {
        return name.to_owned();
    }
    let n: usize = dir.unicode_len();
    let mut r: String = dir.to_owned();
    if dir.get_char(n - 1) != '/' {
        r.push_str("/");
    }
    r.push_str(name);
    r
}

/// The elaborated database at a place: the place itself or what is in it.
pub open spec fn database_at(p: Seq<char>, seen: KdbFacts, missing: MissView) -> Result<
    Seq<char>,
    MissView,
> {
    if last_component(pieces(p, '/')) == Some("kdb.elab++"@) && seen.exists {
        Ok(p)
    } else if seen.elab_inside {
        Ok(inside(p, "kdb.elab++"@))
    } else if seen.work_inside {
        Err(MissView::NotElaborated(p))
    } else {
        Err(missing)
    }
}

/// The place to look at: the one given, or else the recorded one.
pub open spec fn place_to_look(given: Option<Seq<char>>, recorded: Option<Seq<char>>) -> Option<
    Seq<char>,
> {
    match given {
        Some(k) => if trimmed(k).len() > 0 {
            Some(trimmed(k))
        } else {
            recorded
        },
        None => recorded,
    }
}

pub open spec fn is_explicit(given: Option<Seq<char>>) -> bool {
    match given {
        Some(k) => trimmed(k).len() > 0,
        None => false,
    }
}

/// The design database, given what is on disk at the place to look at. A
/// place that was given is taken as it is, with nothing to fall back on.
pub open spec fn database_of(
    given: Option<Seq<char>>,
    recorded: Option<Seq<char>>,
    seen: KdbFacts,
) -> Result<Seq<char>, MissView> {
    match place_to_look(given, recorded) {
        None => Err(MissView::NotRecorded),
        Some(p) => database_at(
            p,
            seen,
            if is_explicit(given) {
                MissView::ExplicitMissing(p)
            } else {
                MissView::RecordedGone(p)
            },
        ),
    }
}

/// A database that is given never falls back on the recorded one.
pub proof fn given_database_ignores_recorded(
    given: Seq<char>,
    a: Option<Seq<char>>,
    b: Option<Seq<char>>,
    seen: KdbFacts,
)
    requires
        trimmed(given).len() > 0,
    ensures
        database_of(Some(given), a, seen) == database_of(Some(given), b, seen),
{
}

/// The place to look for a design database.
pub fn kdb_place(given: Option<&str>, recorded: Option<&str>) -> (r: Option<String>)
    ensures
        crate::text::opt_view(r) == place_to_look(str_view(given), str_view(recorded)),
{
    match given {
        Some(k) => {
            let t: &str = trim(k);
            if !t.is_empty() {
                return Some(t.to_owned());
            }
        },
        None => {},
    }
    match recorded {
        Some(r) => Some(r.to_owned()),
        None => None,
    }
}

/// Find the design database, given what is on disk at
/// [the place to look](kdb_place).
pub fn probe_kdb(cli_kdb: Option<&str>, recorded: Option<&str>, seen: KdbFacts) -> (r: Result<
    String,
    KdbMiss,
>)
    ensures
        match r {
            Ok(p) => database_of(str_view(cli_kdb), str_view(recorded), seen) == Ok::<
                Seq<char>,
                MissView,
            >(p@),
            Err(m) => database_of(str_view(cli_kdb), str_view(recorded), seen) == Err::<
                Seq<char>,
                MissView,
            >(m@),
        },
{
    let p: String = match kdb_place(cli_kdb, recorded) {
        None => {
            return Err(KdbMiss::NotRecorded);
        },
        Some(p) => p,
    };
    if seen.exists {
        match last_name(p.as_str()) {
            Some(n) => {
                if same(n.as_str(), "kdb.elab++") {
                    return Ok(p);
                }
            },
            None => {},
        }
    }
    if seen.elab_inside {
        return Ok(path_inside(p.as_str(), "kdb.elab++"));
    }
    if seen.work_inside {
        return Err(KdbMiss::NotElaborated(p));
    }
    let explicit: bool = match cli_kdb {
        Some(k) => !trim(k).is_empty(),
        None => false,
    };
    if explicit {
        Err(KdbMiss::ExplicitMissing(p))
    } else {
        Err(KdbMiss::RecordedGone(p))
    }
}

} // verus!
