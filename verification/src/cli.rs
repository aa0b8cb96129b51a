//! The command line: options, sub-commands and batch lines.

use vstd::prelude::*;

use crate::number::{dec_int, i64_text, is_i64_literal, literal_value, parse_i64, usize_text};
use crate::text::{
    chars_of, clone_opt, clone_strings, has_prefix, index_from, join, joined, opt_view, same,
    starts_with, string_of, trim, trimmed, views,
};
use crate::VERSION;

verus! {

/// The most rows shown when neither `--limit` nor `--verbose` is given.
pub const DEFAULT_LIMIT: usize = 500;

/// A sub-command.
#[derive(Clone, Copy, Debug, PartialEq, Eq, Structural)]
pub enum Command {
    Info,
    List,
    Dump,
    Summary,
    Snapshot,
    Compare,
    Search,
    Tree,
    Trace,
}

/// The command with the given name.
pub open spec fn command_of(s: Seq<char>) -> Option<Command> {
    if s == "info"@ {
        Some(Command::Info)
    } else if s == "list"@ {
        Some(Command::List)
    } else if s == "dump"@ {
        Some(Command::Dump)
    } else if s == "summary"@ {
        Some(Command::Summary)
    } else if s == "snapshot"@ {
        Some(Command::Snapshot)
    } else if s == "compare"@ {
        Some(Command::Compare)
    } else if s == "search"@ {
        Some(Command::Search)
    } else if s == "tree"@ {
        Some(Command::Tree)
    } else if s == "trace"@ {
        Some(Command::Trace)
    } else {
        None
    }
}

/// The name of a command.
pub open spec fn command_name(c: Command) -> Seq<char> {
    match c {
        Command::Info => "info"@,
        Command::List => "list"@,
        Command::Dump => "dump"@,
        Command::Summary => "summary"@,
        Command::Snapshot => "snapshot"@,
        Command::Compare => "compare"@,
        Command::Search => "search"@,
        Command::Tree => "tree"@,
        Command::Trace => "trace"@,
    }
}

impl Command {
    /// The command with the given name.
    pub fn from_str(s: &str) -> (r: Option<Command>)
        ensures
            r == command_of(s@),
    {
        if same(s, "info") {
            Some(Command::Info)
        } else if same(s, "list") {
            Some(Command::List)
        } else if same(s, "dump") {
            Some(Command::Dump)
        } else if same(s, "summary") {
            Some(Command::Summary)
        } else if same(s, "snapshot") {
            Some(Command::Snapshot)
        } else if same(s, "compare") {
            Some(Command::Compare)
        } else if same(s, "search") {
            Some(Command::Search)
        } else if same(s, "tree") {
            Some(Command::Tree)
        } else if same(s, "trace") {
            Some(Command::Trace)
        } else {
            None
        }
    }
}

/// The name of a command.
pub fn cmd_name(c: &Command) -> (s: &'static str)
    ensures
        s@ == command_name(*c),
{
    match c {
        Command::Info => "info",
        Command::List => "list",
        Command::Dump => "dump",
        Command::Summary => "summary",
        Command::Snapshot => "snapshot",
        Command::Compare => "compare",
        Command::Search => "search",
        Command::Tree => "tree",
        Command::Trace => "trace",
    }
}

/// One invocation.
#[derive(Debug)]
pub struct Args {
    pub command: Command,
    pub file: String,
    pub json: bool,
    /// `None` when not given.
    pub limit: Option<i64>,
    pub verbose: bool,
    /// Match patterns as a whole rather than as substrings.
    pub exact: bool,
    pub begin: Option<String>,
    pub end: Option<String>,
    /// The hierarchy subtrees to look in.
    pub scope: Option<String>,
    /// The most levels below the root of the subtree.
    pub depth: Option<i64>,
    pub filter: Option<String>,
    pub exclude: Option<String>,
    pub at: Option<String>,
    /// One clause each; a clause is a comma-separated list of terms.
    pub condition: Vec<String>,
    pub show: Option<String>,
    /// The signal whose ancestors `tree` lists.
    pub of: Option<String>,
    /// The signal of `trace`, or the root scope of `tree`.
    pub target: Option<String>,
    /// Follow loads rather than drivers.
    pub load: bool,
    /// Take in control dependencies.
    pub control: bool,
    pub kdb: Option<String>,
    pub top: Option<String>,
}

pub struct ArgsView {
    pub command: Command,
    pub file: Seq<char>,
    pub json: bool,
    pub limit: Option<int>,
    pub verbose: bool,
    pub exact: bool,
    pub begin: Option<Seq<char>>,
    pub end: Option<Seq<char>>,
    pub scope: Option<Seq<char>>,
    pub depth: Option<int>,
    pub filter: Option<Seq<char>>,
    pub exclude: Option<Seq<char>>,
    pub at: Option<Seq<char>>,
    pub condition: Seq<Seq<char>>,
    pub show: Option<Seq<char>>,
    pub of: Option<Seq<char>>,
    pub kdb: Option<Seq<char>>,
    pub top: Option<Seq<char>>,
    pub target: Option<Seq<char>>,
    pub load: bool,
    pub control: bool,
}

pub open spec fn opt_int_view(n: Option<i64>) -> Option<int> {
    match n {
        Some(v) => Some(v as int),
        None => None,
    }
}

impl View for Args {
    type V = ArgsView;

    open spec fn view(&self) -> ArgsView {
        ArgsView {
            command: self.command,
            file: self.file@,
            json: self.json,
            limit: opt_int_view(self.limit),
            verbose: self.verbose,
            exact: self.exact,
            begin: opt_view(self.begin),
            end: opt_view(self.end),
            scope: opt_view(self.scope),
            depth: opt_int_view(self.depth),
            filter: opt_view(self.filter),
            exclude: opt_view(self.exclude),
            at: opt_view(self.at),
            condition: views(self.condition@),
            show: opt_view(self.show),
            of: opt_view(self.of),
            kdb: opt_view(self.kdb),
            top: opt_view(self.top),
            target: opt_view(self.target),
            load: self.load,
            control: self.control,
        }
    }
}

/// The options of a batch run that every line takes over unless it gives the
/// same option itself.
#[derive(Debug)]
pub struct Defaults {
    pub limit: Option<i64>,
    pub verbose: bool,
    pub exact: bool,
    pub begin: Option<String>,
    pub end: Option<String>,
    pub scope: Option<String>,
    pub depth: Option<i64>,
    pub filter: Option<String>,
    pub exclude: Option<String>,
    pub at: Option<String>,
    pub condition: Vec<String>,
    pub show: Option<String>,
    pub of: Option<String>,
    pub load: bool,
    pub control: bool,
    pub kdb: Option<String>,
    pub top: Option<String>,
}

pub struct DefaultsView {
    pub limit: Option<int>,
    pub verbose: bool,
    pub exact: bool,
    pub begin: Option<Seq<char>>,
    pub end: Option<Seq<char>>,
    pub scope: Option<Seq<char>>,
    pub depth: Option<int>,
    pub filter: Option<Seq<char>>,
    pub exclude: Option<Seq<char>>,
    pub at: Option<Seq<char>>,
    pub condition: Seq<Seq<char>>,
    pub show: Option<Seq<char>>,
    pub of: Option<Seq<char>>,
    pub kdb: Option<Seq<char>>,
    pub top: Option<Seq<char>>,
    pub load: bool,
    pub control: bool,
}

impl View for Defaults {
    type V = DefaultsView;

    open spec fn view(&self) -> DefaultsView {
        DefaultsView {
            limit: opt_int_view(self.limit),
            verbose: self.verbose,
            exact: self.exact,
            begin: opt_view(self.begin),
            end: opt_view(self.end),
            scope: opt_view(self.scope),
            depth: opt_int_view(self.depth),
            filter: opt_view(self.filter),
            exclude: opt_view(self.exclude),
            at: opt_view(self.at),
            condition: views(self.condition@),
            show: opt_view(self.show),
            of: opt_view(self.of),
            kdb: opt_view(self.kdb),
            top: opt_view(self.top),
            load: self.load,
            control: self.control,
        }
    }
}

/// No options at all.
pub open spec fn no_defaults() -> DefaultsView {
    DefaultsView {
        limit: None,
        verbose: false,
        exact: false,
        begin: None,
        end: None,
        scope: None,
        depth: None,
        filter: None,
        exclude: None,
        at: None,
        condition: Seq::empty(),
        show: None,
        of: None,
        kdb: None,
        top: None,
        load: false,
        control: false,
    }
}

impl Default for Defaults {
    fn default() -> (d: Defaults)
        ensures
            d@ == no_defaults(),
    {
        let d = Defaults {
            limit: None,
            verbose: false,
            exact: false,
            begin: None,
            end: None,
            scope: None,
            depth: None,
            filter: None,
            exclude: None,
            at: None,
            condition: Vec::new(),
            show: None,
            of: None,
            kdb: None,
            top: None,
            load: false,
            control: false,
        };
        assert(views(d.condition@) =~= Seq::empty());
        d
    }
}

/// A batch run: the file, whether results are JSON, and the defaults.
#[derive(Debug)]
pub struct BatchInvocation {
    pub file: String,
    pub json: bool,
    pub defaults: Defaults,
}

pub struct BatchView {
    pub file: Seq<char>,
    pub json: bool,
    pub defaults: DefaultsView,
}

impl View for BatchInvocation {
    type V = BatchView;

    open spec fn view(&self) -> BatchView {
        BatchView { file: self.file@, json: self.json, defaults: self.defaults@ }
    }
}

/// What a command line asks for.
pub enum ParseOutcome {
    Run(Args),
    Batch(BatchInvocation),
    /// Print this text and stop.
    Print(String),
    /// A usage error.
    Error(String),
}

pub enum OutcomeView {
    Run(ArgsView),
    Batch(BatchView),
    Print(Seq<char>),
    Error(Seq<char>),
}

impl View for ParseOutcome {
    type V = OutcomeView;

    open spec fn view(&self) -> OutcomeView {
        match self {
            ParseOutcome::Run(a) => OutcomeView::Run(a@),
            ParseOutcome::Batch(b) => OutcomeView::Batch(b@),
            ParseOutcome::Print(s) => OutcomeView::Print(s@),
            ParseOutcome::Error(s) => OutcomeView::Error(s@),
        }
    }
}

/// Options read so far.
struct Acc {
    json: bool,
    batch: bool,
    limit: Option<i64>,
    verbose: bool,
    exact: bool,
    begin: Option<String>,
    end: Option<String>,
    scope: Option<String>,
    depth: Option<i64>,
    filter: Option<String>,
    exclude: Option<String>,
    at: Option<String>,
    condition: Vec<String>,
    show: Option<String>,
    of: Option<String>,
    kdb: Option<String>,
    top: Option<String>,
    load: bool,
    control: bool,
    command: Option<Command>,
    positionals: Vec<String>,
}

/// Options read so far.
pub struct OptionsView {
    pub json: bool,
    pub batch: bool,
    pub given: DefaultsView,
    pub command: Option<Command>,
    pub positionals: Seq<Seq<char>>,
}

impl View for Acc {
    type V = OptionsView;

    closed spec fn view(&self) -> OptionsView {
        OptionsView {
            json: self.json,
            batch: self.batch,
            given: DefaultsView {
                limit: opt_int_view(self.limit),
                verbose: self.verbose,
                exact: self.exact,
                begin: opt_view(self.begin),
                end: opt_view(self.end),
                scope: opt_view(self.scope),
                depth: opt_int_view(self.depth),
                filter: opt_view(self.filter),
                exclude: opt_view(self.exclude),
                at: opt_view(self.at),
                condition: views(self.condition@),
                show: opt_view(self.show),
                of: opt_view(self.of),
                kdb: opt_view(self.kdb),
                top: opt_view(self.top),
                load: self.load,
                control: self.control,
            },
            command: self.command,
            positionals: views(self.positionals@),
        }
    }
}

/// Nothing read yet.
pub open spec fn no_options() -> OptionsView {
    OptionsView {
        json: false,
        batch: false,
        given: no_defaults(),
        command: None,
        positionals: Seq::empty(),
    }
}

/// An option that takes a text.
#[derive(Clone, Copy, Debug, PartialEq, Eq, Structural)]
pub enum TextFlag {
    Begin,
    End,
    Scope,
    Filter,
    Exclude,
    At,
    Condition,
    Show,
    Of,
    Kdb,
    Top,
}

pub open spec fn text_flag_of(tok: Seq<char>) -> Option<TextFlag> {
    if tok == "--begin"@ {
        Some(TextFlag::Begin)
    } else if tok == "--end"@ {
        Some(TextFlag::End)
    } else if tok == "--scope"@ {
        Some(TextFlag::Scope)
    } else if tok == "--filter"@ {
        Some(TextFlag::Filter)
    } else if tok == "--exclude"@ {
        Some(TextFlag::Exclude)
    } else if tok == "--at"@ {
        Some(TextFlag::At)
    } else if tok == "--condition"@ {
        Some(TextFlag::Condition)
    } else if tok == "--show"@ {
        Some(TextFlag::Show)
    } else if tok == "--of"@ {
        Some(TextFlag::Of)
    } else if tok == "--kdb"@ {
        Some(TextFlag::Kdb)
    } else if tok == "--top"@ {
        Some(TextFlag::Top)
    } else {
        None
    }
}

fn text_flag(tok: &str) -> (r: Option<TextFlag>)
    ensures
        r == text_flag_of(tok@),
{
    if same(tok, "--begin") {
        Some(TextFlag::Begin)
    } else if same(tok, "--end") {
        Some(TextFlag::End)
    } else if same(tok, "--scope") {
        Some(TextFlag::Scope)
    } else if same(tok, "--filter") {
        Some(TextFlag::Filter)
    } else if same(tok, "--exclude") {
        Some(TextFlag::Exclude)
    } else if same(tok, "--at") {
        Some(TextFlag::At)
    } else if same(tok, "--condition") {
        Some(TextFlag::Condition)
    } else if same(tok, "--show") {
        Some(TextFlag::Show)
    } else if same(tok, "--of") {
        Some(TextFlag::Of)
    } else if same(tok, "--kdb") {
        Some(TextFlag::Kdb)
    } else if same(tok, "--top") {
        Some(TextFlag::Top)
    } else {
        None
    }
}

/// Does the option take the next word as its value?
pub open spec fn takes_value(tok: Seq<char>) -> bool {
    tok == "--limit"@ || tok == "--depth"@ || text_flag_of(tok) is Some
}

/// The options with one more text.
pub open spec fn with_text(g: DefaultsView, f: TextFlag, v: Seq<char>) -> DefaultsView {
    match f {
        TextFlag::Begin => DefaultsView { begin: Some(v), ..g },
        TextFlag::End => DefaultsView { end: Some(v), ..g },
        TextFlag::Scope => DefaultsView { scope: Some(v), ..g },
        TextFlag::Filter => DefaultsView { filter: Some(v), ..g },
        TextFlag::Exclude => DefaultsView { exclude: Some(v), ..g },
        TextFlag::At => DefaultsView { at: Some(v), ..g },
        TextFlag::Condition => DefaultsView { condition: g.condition.push(v), ..g },
        TextFlag::Show => DefaultsView { show: Some(v), ..g },
        TextFlag::Of => DefaultsView { of: Some(v), ..g },
        TextFlag::Kdb => DefaultsView { kdb: Some(v), ..g },
        TextFlag::Top => DefaultsView { top: Some(v), ..g },
    }
}

pub open spec fn needs_value(tok: Seq<char>) -> Seq<char> {
    tok + " requires a value"@
}

pub open spec fn bad_int(tok: Seq<char>, v: Seq<char>) -> Seq<char> {
    "argument "@ + tok + ": invalid int value: '"@ + v + "'"@
}

pub open spec fn unrecognized(tok: Seq<char>) -> Seq<char> {
    "unrecognized argument: "@ + tok
}

pub open spec fn bad_command(tok: Seq<char>) -> Seq<char> {
    "invalid command: '"@ + tok
        + "' (choose from info, list, dump, summary, snapshot, compare, search, tree, trace)"@
}

/// The options after a word that stands alone.
pub open spec fn with_switch(acc: OptionsView, tok: Seq<char>) -> Option<OptionsView> {
    if tok == "--json"@ {
        Some(OptionsView { json: true, ..acc })
    } else if tok == "--batch"@ {
        Some(OptionsView { batch: true, ..acc })
    } else if tok == "--verbose"@ {
        Some(OptionsView { given: DefaultsView { verbose: true, ..acc.given }, ..acc })
    } else if tok == "--exact"@ {
        Some(OptionsView { given: DefaultsView { exact: true, ..acc.given }, ..acc })
    } else if tok == "--load"@ {
        Some(OptionsView { given: DefaultsView { load: true, ..acc.given }, ..acc })
    } else if tok == "--control"@ {
        Some(OptionsView { given: DefaultsView { control: true, ..acc.given }, ..acc })
    } else {
        None
    }
}

/// The options after an option that takes a number.
pub open spec fn with_number(g: DefaultsView, tok: Seq<char>, n: int) -> DefaultsView {
    if tok == "--limit"@ {
        DefaultsView { limit: Some(n), ..g }
    } else {
        DefaultsView { depth: Some(n), ..g }
    }
}

/// The options after a word that is no option. In a batch invocation there is
/// no sub-command.
pub open spec fn with_word(acc: OptionsView, tok: Seq<char>, batch: bool) -> Result<
    OptionsView,
    Seq<char>,
> {
    if tok == "--changed"@ {
        Err("--changed is not available; did you mean --condition \"changed(SIG)\"?"@)
    } else if has_prefix(tok, "--"@) {
        Err(unrecognized(tok))
    } else if has_prefix(tok, "-"@) && tok.len() > 1 && acc.command is Some {
        Err(unrecognized(tok))
    } else if batch || acc.command is Some {
        Ok(OptionsView { positionals: acc.positionals.push(tok), ..acc })
    } else {
        match command_of(tok) {
            Some(c) => Ok(OptionsView { command: Some(c), ..acc }),
            None => Err(bad_command(tok)),
        }
    }
}

/// The options after the first option of a list of words, and the number of
/// words it takes.
pub open spec fn option_step(tokens: Seq<Seq<char>>, acc: OptionsView, batch: bool) -> Result<
    (int, OptionsView),
    Seq<char>,
> {
    let tok = tokens[0];
    match with_switch(acc, tok) {
        Some(next) => Ok((1, next)),
        None => if takes_value(tok) {
            if tokens.len() < 2 {
                Err(needs_value(tok))
            } else {
                let v = tokens[1];
                match text_flag_of(tok) {
                    Some(f) => Ok(
                        (2, OptionsView { given: with_text(acc.given, f, v), ..acc }),
                    ),
                    None => if is_i64_literal(v) {
                        Ok(
                            (
                                2,
                                OptionsView {
                                    given: with_number(acc.given, tok, literal_value(v)),
                                    ..acc
                                },
                            ),
                        )
                    } else {
                        Err(bad_int(tok, v))
                    },
                }
            }
        } else {
            match with_word(acc, tok, batch) {
                Ok(next) => Ok((1, next)),
                Err(e) => Err(e),
            }
        },
    }
}

/// What a list of words means, on top of the options read before it.
pub open spec fn options_of(tokens: Seq<Seq<char>>, acc: OptionsView, batch: bool) -> Result<
    OptionsView,
    Seq<char>,
>
    decreases tokens.len(),
{
    if tokens.len() == 0 {
        Ok(acc)
    } else {
        match option_step(tokens, acc, batch) {
            Err(e) => Err(e),
            Ok((n, next)) => if 0 < n <= tokens.len() {
                options_of(tokens.skip(n), next, batch)
            } else {
                Ok(next)
            },
        }
    }
}

fn fresh() -> (a: Acc)
    ensures
        a@ == no_options(),
{
    let a = Acc {
        json: false,
        batch: false,
        limit: None,
        verbose: false,
        exact: false,
        begin: None,
        end: None,
        scope: None,
        depth: None,
        filter: None,
        exclude: None,
        at: None,
        condition: Vec::new(),
        show: None,
        of: None,
        kdb: None,
        top: None,
        load: false,
        control: false,
        command: None,
        positionals: Vec::new(),
    };
    assert(views(a.condition@) =~= Seq::empty());
    assert(views(a.positionals@) =~= Seq::empty());
    a
}

fn set_text(acc: &mut Acc, f: TextFlag, v: String)
    ensures
        final(acc)@ == (OptionsView { given: with_text(old(acc)@.given, f, v@), ..old(acc)@ }),
{
    match f {
        TextFlag::Begin => {
            acc.begin = Some(v);
        },
        TextFlag::End => {
            acc.end = Some(v);
        },
        TextFlag::Scope => {
            acc.scope = Some(v);
        },
        TextFlag::Filter => {
            acc.filter = Some(v);
        },
        TextFlag::Exclude => {
            acc.exclude = Some(v);
        },
        TextFlag::At => {
            acc.at = Some(v);
        },
        TextFlag::Condition => {
            let ghost before = views(acc.condition@);
            acc.condition.push(v);
            assert(views(acc.condition@) =~= before.push(v@));
        },
        TextFlag::Show => {
            acc.show = Some(v);
        },
        TextFlag::Of => {
            acc.of = Some(v);
        },
        TextFlag::Kdb => {
            acc.kdb = Some(v);
        },
        TextFlag::Top => {
            acc.top = Some(v);
        },
    }
}

fn needs_value_text(tok: &str) -> (s: String)
    ensures
        s@ == needs_value(tok@),
{
    let mut m: String = tok.to_owned();
    m.push_str(" requires a value");
    m
}

fn bad_int_text(tok: &str, v: &str) -> (s: String)
    ensures
        s@ == bad_int(tok@, v@),
{
    let mut m: String = "argument ".to_owned();
    m.push_str(tok);
    m.push_str(": invalid int value: '");
    m.push_str(v);
    m.push_str("'");
    m
}

fn set_switch(acc: &mut Acc, tok: &str) -> (r: bool)
    ensures
        match with_switch(old(acc)@, tok@) {
            Some(next) => r && final(acc)@ == next,
            None => !r && final(acc)@ == old(acc)@,
        },
{
    if same(tok, "--json") {
        acc.json = true;
    } else if same(tok, "--batch") {
        acc.batch = true;
    } else if same(tok, "--verbose") {
        acc.verbose = true;
    } else if same(tok, "--exact") {
        acc.exact = true;
    } else if same(tok, "--load") {
        acc.load = true;
    } else if same(tok, "--control") {
        acc.control = true;
    } else {
        return false;
    }
    true
}

fn take_word(acc: &mut Acc, tok: &str, batch_mode: bool) -> (r: Result<(), String>)
    ensures
        match r {
            Ok(_) => with_word(old(acc)@, tok@, batch_mode) == Ok::<OptionsView, Seq<char>>(
                final(acc)@,
            ),
            Err(e) => with_word(old(acc)@, tok@, batch_mode) == Err::<OptionsView, Seq<char>>(e@),
        },
{
    if same(tok, "--changed") {
        return Err(
            "--changed is not available; did you mean --condition \"changed(SIG)\"?".to_owned(),
        );
    }
    let v: Vec<char> = chars_of(tok);
    if starts_with(tok, "--") || (starts_with(tok, "-") && v.len() > 1 && acc.command.is_some()) {
        let mut m: String = "unrecognized argument: ".to_owned();
        m.push_str(tok);
        return Err(m);
    }
    if batch_mode || acc.command.is_some() {
        let ghost before = views(acc.positionals@);
        acc.positionals.push(tok.to_owned());
        assert(views(acc.positionals@) =~= before.push(tok@));
        return Ok(());
    }
    match Command::from_str(tok) {
        Some(c) => {
            acc.command = Some(c);
            Ok(())
        },
        None => {
            let mut m: String = "invalid command: '".to_owned();
            m.push_str(tok);
            m.push_str(
                "' (choose from info, list, dump, summary, snapshot, compare, search, tree, trace)",
            );
            Err(m)
        },
    }
}

/// Read the option at word `i`; the number of words it takes.
fn read_option(argv: &Vec<String>, i: usize, acc: &mut Acc, batch_mode: bool) -> (r: Result<
    usize,
    String,
>)
    requires
        i < argv.len(),
    ensures
        match r {
            Ok(n) => 0 < n <= argv.len() - i && option_step(
                views(argv@).skip(i as int),
                old(acc)@,
                batch_mode,
            ) == Ok::<(int, OptionsView), Seq<char>>((n as int, final(acc)@)),
            Err(e) => option_step(views(argv@).skip(i as int), old(acc)@, batch_mode) == Err::<
                (int, OptionsView),
                Seq<char>,
            >(e@),
        },
{
    let tok: &str = argv[i].as_str();
    let ghost here = views(argv@).skip(i as int);
    assert(here[0] == tok@);
    if set_switch(acc, tok) {
        return Ok(1);
    }
    let flag: Option<TextFlag> = text_flag(tok);
    if flag.is_some() || same(tok, "--limit") || same(tok, "--depth") {
        if i + 1 >= argv.len() {
            return Err(needs_value_text(tok));
        }
        assert(here[1] == argv@[i + 1]@);
        match flag {
            Some(f) => {
                set_text(acc, f, argv[i + 1].clone());
            },
            None => match parse_i64(argv[i + 1].as_str()) {
                Some(n) => {
                    if same(tok, "--limit") {
                        acc.limit = Some(n);
                    } else {
                        acc.depth = Some(n);
                    }
                },
                None => {
                    return Err(bad_int_text(tok, argv[i + 1].as_str()));
                },
            },
        }
        return Ok(2);
    }
    match take_word(acc, tok, batch_mode) {
        Ok(_) => Ok(1),
        Err(e) => Err(e),
    }
}

/// Read a list of words.
fn accumulate(argv: &Vec<String>, batch_mode: bool) -> (r: Result<Acc, String>)
    ensures
        match r {
            Ok(a) => options_of(views(argv@), no_options(), batch_mode) == Ok::<
                OptionsView,
                Seq<char>,
            >(a@),
            Err(e) => options_of(views(argv@), no_options(), batch_mode) == Err::<
                OptionsView,
                Seq<char>,
            >(e@),
        },
{
    let mut acc: Acc = fresh();
    let ghost all = views(argv@);
    let mut i: usize = 0;
    assert(all.skip(0) =~= all);
    while i < argv.len()
        invariant
            i <= argv.len(),
            all == views(argv@),
            options_of(all, no_options(), batch_mode) == options_of(
                all.skip(i as int),
                acc@,
                batch_mode,
            ),
        decreases argv.len() - i,
    {
        match read_option(argv, i, &mut acc, batch_mode) {
            Err(e) => {
                return Err(e);
            },
            Ok(n) => {
                assert(all.skip(i as int).skip(n as int) =~= all.skip(i + n));
                i += n;
            },
        }
    }
    assert(all.skip(i as int) =~= Seq::empty());
    Ok(acc)
}

/// Is there something other than blanks?
pub open spec fn is_given(s: Option<Seq<char>>) -> bool {
    match s {
        Some(t) => trimmed(t).len() > 0,
        None => false,
    }
}

pub fn given(s: &Option<String>) -> (r: bool)
    ensures
        r == is_given(opt_view(*s)),
{
    match s {
        Some(t) => !trim(t.as_str()).is_empty(),
        None => false,
    }
}

/// Why the options do not go with the command, if they do not.
pub open spec fn objection(c: Command, g: DefaultsView) -> Option<Seq<char>> {
    if (c == Command::Snapshot || c == Command::Compare) && g.at is None {
        Some("the following arguments are required: --at"@)
    } else if c == Command::Search && g.condition.len() == 0 {
        Some("the following arguments are required: --condition"@)
    } else if g.limit is Some && g.limit->0 < 0 {
        Some("limit must be non-negative; got "@ + dec_int(g.limit->0))
    } else if g.depth is Some && g.depth->0 <= 0 {
        Some("depth must be positive; got "@ + dec_int(g.depth->0))
    } else if g.depth is Some && c != Command::Tree && !is_given(g.scope) {
        Some("--depth requires --scope (depth is counted from the scope root)"@)
    } else {
        None
    }
}

fn limit_objection(limit: Option<i64>) -> (r: Option<String>)
    ensures
        opt_view(r) == (if limit is Some && limit->0 < 0 {
            Some("limit must be non-negative; got "@ + dec_int(limit->0 as int))
        } else {
            None
        }),
{
    match limit {
        Some(n) => if n < 0 {
            let mut m: String = "limit must be non-negative; got ".to_owned();
            m.push_str(i64_text(n).as_str());
            Some(m)
        } else {
            None
        },
        None => None,
    }
}

fn depth_objection(depth: Option<i64>) -> (r: Option<String>)
    ensures
        opt_view(r) == (if depth is Some && depth->0 <= 0 {
            Some("depth must be positive; got "@ + dec_int(depth->0 as int))
        } else {
            None
        }),
{
    match depth {
        Some(n) => if n <= 0 {
            let mut m: String = "depth must be positive; got ".to_owned();
            m.push_str(i64_text(n).as_str());
            Some(m)
        } else {
            None
        },
        None => None,
    }
}

fn check_options(c: Command, g: &Defaults) -> (r: Option<String>)
    ensures
        opt_view(r) == objection(c, g@),
{
    if (c == Command::Snapshot || c == Command::Compare) && g.at.is_none() {
        return Some("the following arguments are required: --at".to_owned());
    }
    if c == Command::Search && g.condition.len() == 0 {
        return Some("the following arguments are required: --condition".to_owned());
    }
    match limit_objection(g.limit) {
        Some(m) => {
            return Some(m);
        },
        None => {},
    }
    match depth_objection(g.depth) {
        Some(m) => {
            return Some(m);
        },
        None => {},
    }
    if g.depth.is_some() && c != Command::Tree && !given(&g.scope) {
        return Some(
            "--depth requires --scope (depth is counted from the scope root)".to_owned(),
        );
    }
    None
}

/// The invocation with the given options.
pub open spec fn args_of(
    c: Command,
    file: Seq<char>,
    target: Option<Seq<char>>,
    json: bool,
    g: DefaultsView,
) -> ArgsView {
    ArgsView {
        command: c,
        file,
        json,
        limit: g.limit,
        verbose: g.verbose,
        exact: g.exact,
        begin: g.begin,
        end: g.end,
        scope: g.scope,
        depth: g.depth,
        filter: g.filter,
        exclude: g.exclude,
        at: g.at,
        condition: g.condition,
        show: g.show,
        of: g.of,
        kdb: g.kdb,
        top: g.top,
        target,
        load: g.load,
        control: g.control,
    }
}

fn make_args(c: Command, file: String, target: Option<String>, json: bool, g: Defaults) -> (a: Args)
    ensures
        a@ == args_of(c, file@, opt_view(target), json, g@),
{
    Args {
        command: c,
        file,
        json,
        limit: g.limit,
        verbose: g.verbose,
        exact: g.exact,
        begin: g.begin,
        end: g.end,
        scope: g.scope,
        depth: g.depth,
        filter: g.filter,
        exclude: g.exclude,
        at: g.at,
        condition: g.condition,
        show: g.show,
        of: g.of,
        kdb: g.kdb,
        top: g.top,
        target,
        load: g.load,
        control: g.control,
    }
}

/// Does the command take a word besides the file?
pub open spec fn has_target(c: Command) -> bool {
    c == Command::Tree || c == Command::Trace
}

pub open spec fn extra_words(words: Seq<Seq<char>>, keep: int) -> Seq<char> {
    "unexpected extra arguments: "@ + joined(words.skip(keep), " "@)
}

fn extra_words_text(words: &Vec<String>, keep: usize) -> (m: String)
    requires
        keep <= words.len(),
    ensures
        m@ == extra_words(views(words@), keep as int),
{
    let mut rest: Vec<String> = Vec::new();
    let mut i: usize = keep;
    while i < words.len()
        invariant
            keep <= i <= words.len(),
            rest.len() == i - keep,
            forall|k: int| 0 <= k < rest.len() ==> (#[trigger] rest@[k])@ == words@[keep + k]@,
        decreases words.len() - i,
    {
        rest.push(words[i].clone());
        i += 1;
    }
    assert(views(rest@) =~= views(words@).skip(keep as int));
    let mut m: String = "unexpected extra arguments: ".to_owned();
    m.push_str(join(&rest, " ").as_str());
    m
}

/// What an invocation without `--batch` means.
pub open spec fn single_of(o: OptionsView) -> OutcomeView {
    match o.command {
        None => OutcomeView::Print(help_view()),
        Some(c) => {
            let keep: int = if has_target(c) {
                2
            } else {
                1
            };
            if o.positionals.len() == 0 {
                OutcomeView::Error(
                    "the following arguments are required: <file> (for '"@ + command_name(c)
                        + "')"@,
                )
            } else if o.positionals.len() > keep {
                OutcomeView::Error(extra_words(o.positionals, keep))
            } else {
                let target = if o.positionals.len() > 1 {
                    Some(o.positionals[1])
                } else {
                    None
                };
                match objection(c, o.given) {
                    Some(e) => OutcomeView::Error(e),
                    None => OutcomeView::Run(
                        args_of(c, o.positionals[0], target, o.json, o.given),
                    ),
                }
            }
        },
    }
}

/// What a `--batch` invocation means.
pub open spec fn batch_of(o: OptionsView) -> OutcomeView {
    if exists|i: int|
        0 <= i < o.positionals.len() && command_of(#[trigger] o.positionals[i]) is Some {
        OutcomeView::Error(
            "--batch cannot be combined with a subcommand; commands are read from stdin"@,
        )
    } else if o.positionals.len() == 0 {
        OutcomeView::Error("the following arguments are required: <file>"@)
    } else if o.positionals.len() > 1 {
        OutcomeView::Error(extra_words(o.positionals, 1))
    } else if o.given.limit is Some && o.given.limit->0 < 0 {
        OutcomeView::Error("limit must be non-negative; got "@ + dec_int(o.given.limit->0))
    } else if o.given.depth is Some && o.given.depth->0 <= 0 {
        OutcomeView::Error("depth must be positive; got "@ + dec_int(o.given.depth->0))
    } else {
        OutcomeView::Batch(
            BatchView { file: o.positionals[0], json: o.json, defaults: o.given },
        )
    }
}

impl Acc {
    fn into_parts(self) -> (r: (Defaults, Vec<String>))
        ensures
            r.0@ == self@.given,
            views(r.1@) == self@.positionals,
    {
        (
            Defaults {
                limit: self.limit,
                verbose: self.verbose,
                exact: self.exact,
                begin: self.begin,
                end: self.end,
                scope: self.scope,
                depth: self.depth,
                filter: self.filter,
                exclude: self.exclude,
                at: self.at,
                condition: self.condition,
                show: self.show,
                of: self.of,
                kdb: self.kdb,
                top: self.top,
                load: self.load,
                control: self.control,
            },
            self.positionals,
        )
    }
}

fn resolve_single(acc: Acc) -> (r: ParseOutcome)
    ensures
        r@ == single_of(acc@),
{
    let json: bool = acc.json;
    let command: Option<Command> = acc.command;
    let ghost o = acc@;
    let (g, words) = acc.into_parts();
    assert(words@.len() == o.positionals.len());
    let c: Command = match command {
        None => {
            return ParseOutcome::Print(help_text());
        },
        Some(c) => c,
    };
    if words.len() == 0 {
        let mut m: String = "the following arguments are required: <file> (for '".to_owned();
        m.push_str(cmd_name(&c));
        m.push_str("')");
        return ParseOutcome::Error(m);
    }
    let keep: usize = if c == Command::Tree || c == Command::Trace {
        2
    } else {
        1
    };
    if words.len() > keep {
        return ParseOutcome::Error(extra_words_text(&words, keep));
    }
    match check_options(c, &g) {
        Some(e) => {
            return ParseOutcome::Error(e);
        },
        None => {},
    }
    let file: String = words[0].clone();
    let target: Option<String> = if words.len() > 1 {
        Some(words[1].clone())
    } else {
        None
    };
    assert(o.positionals[0] == words@[0]@);
    ParseOutcome::Run(make_args(c, file, target, json, g))
}

fn names_command(words: &Vec<String>) -> (r: bool)
    ensures
        r == (exists|i: int|
            0 <= i < views(words@).len() && command_of(#[trigger] views(words@)[i]) is Some),
{
    let mut i: usize = 0;
    while i < words.len()
        invariant
            i <= words.len(),
            forall|k: int| 0 <= k < i ==> command_of(#[trigger] views(words@)[k]) is None,
        decreases words.len() - i,
    {
        assert(views(words@)[i as int] == words@[i as int]@);
        if Command::from_str(words[i].as_str()).is_some() {
            return true;
        }
        i += 1;
    }
    false
}

fn resolve_batch(acc: Acc) -> (r: ParseOutcome)
    ensures
        r@ == batch_of(acc@),
{
    let json: bool = acc.json;
    let ghost o = acc@;
    let (g, words) = acc.into_parts();
    assert(words@.len() == o.positionals.len());
    if names_command(&words) {
        return ParseOutcome::Error(
            "--batch cannot be combined with a subcommand; commands are read from stdin".to_owned(),
        );
    }
    if words.len() == 0 {
        return ParseOutcome::Error("the following arguments are required: <file>".to_owned());
    }
    if words.len() > 1 {
        return ParseOutcome::Error(extra_words_text(&words, 1));
    }
    match limit_objection(g.limit) {
        Some(m) => {
            return ParseOutcome::Error(m);
        },
        None => {},
    }
    match depth_objection(g.depth) {
        Some(m) => {
            return ParseOutcome::Error(m);
        },
        None => {},
    }
    assert(o.positionals[0] == words@[0]@);
    let file: String = words[0].clone();
    ParseOutcome::Batch(BatchInvocation { file, json, defaults: g })
}

/// What a scan for `--version` and `--help` finds; the words that are values
/// of options do not count.
pub enum Found {
    Version,
    Help,
    /// Neither; is it a batch invocation?
    Nothing { batch: bool },
}

pub open spec fn scan(tokens: Seq<Seq<char>>, skip: bool, batch: bool) -> Found
    decreases tokens.len(),
{
    if tokens.len() == 0 {
        Found::Nothing { batch }
    } else {
        let rest = tokens.drop_first();
        if skip {
            scan(rest, false, batch)
        } else if tokens[0] == "--version"@ {
            Found::Version
        } else if tokens[0] == "-h"@ || tokens[0] == "--help"@ {
            Found::Help
        } else {
            scan(rest, takes_value(tokens[0]), batch || tokens[0] == "--batch"@)
        }
    }
}

fn prescan(argv: &Vec<String>) -> (r: Found)
    ensures
        r == scan(views(argv@), false, false),
{
    let ghost all = views(argv@);
    let mut skip: bool = false;
    let mut batch: bool = false;
    let mut i: usize = 0;
    assert(all.skip(0) =~= all);
    while i < argv.len()
        invariant
            i <= argv.len(),
            all == views(argv@),
            scan(all, false, false) == scan(all.skip(i as int), skip, batch),
        decreases argv.len() - i,
    {
        let tok: &str = argv[i].as_str();
        proof {
            assert(all.skip(i as int)[0] == tok@);
            assert(all.skip(i as int).drop_first() =~= all.skip(i + 1));
        }
        if skip {
            skip = false;
        } else if same(tok, "--version") {
            return Found::Version;
        } else if same(tok, "-h") || same(tok, "--help") {
            return Found::Help;
        } else {
            if same(tok, "--batch") {
                batch = true;
            }
            skip = same(tok, "--limit") || same(tok, "--depth") || text_flag(tok).is_some();
        }
        i += 1;
    }
    assert(all.skip(i as int) =~= Seq::empty());
    Found::Nothing { batch }
}

/// What a command line means.
pub open spec fn invocation_of(argv: Seq<Seq<char>>) -> OutcomeView {
    match scan(argv, false, false) {
        Found::Version => OutcomeView::Print("rwave "@ + VERSION@),
        Found::Help => OutcomeView::Print(help_view()),
        Found::Nothing { batch } => if argv.len() == 0 {
            OutcomeView::Print(help_view())
        } else {
            match options_of(argv, no_options(), batch) {
                Err(e) => OutcomeView::Error(e),
                Ok(o) => if o.batch {
                    batch_of(o)
                } else {
                    single_of(o)
                },
            }
        },
    }
}

/// Read a command line, without the name of the program.
pub fn parse(argv: &Vec<String>) -> (r: ParseOutcome)
    ensures
        r@ == invocation_of(views(argv@)),
{
    match prescan(argv) {
        Found::Version => {
            let mut m: String = "rwave ".to_owned();
            m.push_str(VERSION);
            ParseOutcome::Print(m)
        },
        Found::Help => ParseOutcome::Print(help_text()),
        Found::Nothing { batch } => {
            if argv.len() == 0 {
                return ParseOutcome::Print(help_text());
            }
            match accumulate(argv, batch) {
                Err(e) => ParseOutcome::Error(e),
                Ok(acc) => if acc.batch {
                    resolve_batch(acc)
                } else {
                    resolve_single(acc)
                },
            }
        },
    }
}

pub open spec fn first_given(a: Option<Seq<char>>, b: Option<Seq<char>>) -> Option<Seq<char>> {
    if a is Some {
        a
    } else {
        b
    }
}

pub open spec fn first_int(a: Option<int>, b: Option<int>) -> Option<int> {
    if a is Some {
        a
    } else {
        b
    }
}

/// The options of a line on top of the defaults: each option of the line
/// stands in place of its own default, and a clause of its own in place of all
/// default clauses. Switches add up.
pub open spec fn merged_options(line: DefaultsView, d: DefaultsView) -> DefaultsView {
    DefaultsView {
        limit: first_int(line.limit, d.limit),
        verbose: line.verbose || d.verbose,
        exact: line.exact || d.exact,
        begin: first_given(line.begin, d.begin),
        end: first_given(line.end, d.end),
        scope: first_given(line.scope, d.scope),
        depth: first_int(line.depth, d.depth),
        filter: first_given(line.filter, d.filter),
        exclude: first_given(line.exclude, d.exclude),
        at: first_given(line.at, d.at),
        condition: if line.condition.len() == 0 {
            d.condition
        } else {
            line.condition
        },
        show: first_given(line.show, d.show),
        of: first_given(line.of, d.of),
        kdb: first_given(line.kdb, d.kdb),
        top: first_given(line.top, d.top),
        load: line.load || d.load,
        control: line.control || d.control,
    }
}

/// What one line of a batch means.
pub open spec fn line_of(tokens: Seq<Seq<char>>, file: Seq<char>, d: DefaultsView) -> Result<
    ArgsView,
    Seq<char>,
> {
    match options_of(tokens, no_options(), false) {
        Err(e) => Err(e),
        Ok(o) => match o.command {
            None => Err(
                "missing command (each line must start with a subcommand: info, list, dump, summary, snapshot, compare, search, tree, trace)"@,
            ),
            Some(c) => {
                let keep: int = if has_target(c) {
                    1
                } else {
                    0
                };
                if o.positionals.len() > keep {
                    Err(
                        "unexpected argument: "@ + joined(o.positionals, " "@)
                            + " (the waveform file is given once on the --batch line, not per command)"@,
                    )
                } else {
                    let g = merged_options(o.given, d);
                    let target = if o.positionals.len() > 0 {
                        Some(o.positionals[0])
                    } else {
                        None
                    };
                    match objection(c, g) {
                        Some(e) => Err(e),
                        None => Ok(args_of(c, file, target, false, g)),
                    }
                }
            },
        },
    }
}

fn or_default(a: Option<String>, b: &Option<String>) -> (r: Option<String>)
    ensures
        opt_view(r) == first_given(opt_view(a), opt_view(*b)),
{
    match a {
        Some(s) => Some(s),
        None => clone_opt(b),
    }
}

fn or_default_int(a: Option<i64>, b: Option<i64>) -> (r: Option<i64>)
    ensures
        opt_int_view(r) == first_int(opt_int_view(a), opt_int_view(b)),
{
    match a {
        Some(n) => Some(n),
        None => b,
    }
}

fn merge_options(line: Defaults, d: &Defaults) -> (r: Defaults)
    ensures
        r@ == merged_options(line@, d@),
{
    let condition: Vec<String> = if line.condition.len() == 0 {
        clone_strings(&d.condition)
    } else {
        line.condition
    };
    Defaults {
        limit: or_default_int(line.limit, d.limit),
        verbose: line.verbose || d.verbose,
        exact: line.exact || d.exact,
        begin: or_default(line.begin, &d.begin),
        end: or_default(line.end, &d.end),
        scope: or_default(line.scope, &d.scope),
        depth: or_default_int(line.depth, d.depth),
        filter: or_default(line.filter, &d.filter),
        exclude: or_default(line.exclude, &d.exclude),
        at: or_default(line.at, &d.at),
        condition,
        show: or_default(line.show, &d.show),
        of: or_default(line.of, &d.of),
        kdb: or_default(line.kdb, &d.kdb),
        top: or_default(line.top, &d.top),
        load: line.load || d.load,
        control: line.control || d.control,
    }
}

/// Read one line of a batch, given as words.
pub fn parse_batch_line(tokens: &Vec<String>, file: &str, defaults: &Defaults) -> (r: Result<
    Args,
    String,
>)
    ensures
        match r {
            Ok(a) => line_of(views(tokens@), file@, defaults@) == Ok::<ArgsView, Seq<char>>(a@),
            Err(e) => line_of(views(tokens@), file@, defaults@) == Err::<ArgsView, Seq<char>>(e@),
        },
{
    match accumulate(tokens, false) {
        Err(e) => Err(e),
        Ok(acc) => {
            let command: Option<Command> = acc.command;
            let ghost o = acc@;
            let (g, words) = acc.into_parts();
            assert(words@.len() == o.positionals.len());
            let c: Command = match command {
                None => {
                    return Err(
                        "missing command (each line must start with a subcommand: info, list, dump, summary, snapshot, compare, search, tree, trace)".to_owned(),
                    );
                },
                Some(c) => c,
            };
            let keep: usize = if c == Command::Tree || c == Command::Trace {
                1
            } else {
                0
            };
            if words.len() > keep {
                let mut m: String = "unexpected argument: ".to_owned();
                m.push_str(join(&words, " ").as_str());
                m.push_str(
                    " (the waveform file is given once on the --batch line, not per command)",
                );
                return Err(m);
            }
            let all: Defaults = merge_options(g, defaults);
            match check_options(c, &all) {
                Some(e) => {
                    return Err(e);
                },
                None => {},
            }
            let target: Option<String> = if words.len() > 0 {
                assert(o.positionals[0] == words@[0]@);
                Some(words[0].clone())
            } else {
                None
            };
            Ok(make_args(c, file.to_owned(), target, false, all))
        },
    }
}

/// A line of options that a file name follows on the command line means what
/// the same words mean as a line of a batch on that file without defaults.
pub proof fn batch_line_is_invocation(tokens: Seq<Seq<char>>, file: Seq<char>)
    requires
        options_of(tokens, no_options(), false) is Ok,
        options_of(tokens, no_options(), false)->Ok_0.command is Some,
        options_of(tokens, no_options(), false)->Ok_0.positionals.len() == 0,
        !options_of(tokens, no_options(), false)->Ok_0.batch,
        !has_prefix(file, "-"@),
    ensures
        ({
            let o = options_of(tokens.push(file), no_options(), false);
            &&& o is Ok
            &&& match line_of(tokens, file, no_defaults()) {
                Ok(a) => single_of(o->Ok_0) == OutcomeView::Run(
                    ArgsView { json: o->Ok_0.json, ..a },
                ),
                Err(e) => single_of(o->Ok_0) == OutcomeView::Error(e),
            }
        }),
{
    let o = options_of(tokens, no_options(), false)->Ok_0;
    lemma_last_word(tokens, file, no_options());
    let o1 = OptionsView { positionals: o.positionals.push(file), ..o };
    assert(o.positionals =~= Seq::empty());
    assert(merged_options(o.given, no_defaults()) == o.given) by {
        if o.given.condition.len() == 0 {
            assert(o.given.condition =~= no_defaults().condition);
        }
    }
}

proof fn lemma_last_word(tokens: Seq<Seq<char>>, file: Seq<char>, acc: OptionsView)
    requires
        options_of(tokens, acc, false) is Ok,
        options_of(tokens, acc, false)->Ok_0.command is Some,
        !has_prefix(file, "-"@),
    ensures
        ({
            let o = options_of(tokens, acc, false)->Ok_0;
            options_of(tokens.push(file), acc, false) == Ok::<OptionsView, Seq<char>>(
                OptionsView { positionals: o.positionals.push(file), ..o },
            )
        }),
    decreases tokens.len(),
{
    let all = tokens.push(file);
    if tokens.len() == 0 {
        plain_word(file);
        assert(all.skip(1) =~= Seq::empty());
        assert(all[0] == file);
        assert(options_of(all.skip(1), OptionsView { positionals: acc.positionals.push(file), ..acc }, false)
            == Ok::<OptionsView, Seq<char>>(
            OptionsView { positionals: acc.positionals.push(file), ..acc },
        ));
    } else {
        let step = option_step(tokens, acc, false);
        assert(step is Ok);
        let (n, next) = step->Ok_0;
        assert(0 < n <= tokens.len());
        assert(option_step(all, acc, false) == step) by {
            assert(all[0] == tokens[0]);
            if tokens.len() >= 2 {
                assert(all[1] == tokens[1]);
            }
        }
        assert(all.skip(n) =~= tokens.skip(n).push(file));
        lemma_last_word(tokens.skip(n), file, next);
    }
}

/// A word that does not begin with a dash is no option.
pub proof fn plain_word(file: Seq<char>)
    requires
        !has_prefix(file, "-"@),
    ensures
        !takes_value(file),
        forall|acc: OptionsView| with_switch(acc, file) is None,
        file != "--changed"@,
        file != "--version"@,
        file != "--help"@,
        file != "-h"@,
        file != "--batch"@,
        !has_prefix(file, "--"@),
{
    reveal_strlit("-");
    reveal_strlit("-h");
    reveal_strlit("--version");
    reveal_strlit("--help");
    reveal_strlit("--");
    reveal_strlit("--json");
    reveal_strlit("--batch");
    reveal_strlit("--verbose");
    reveal_strlit("--exact");
    reveal_strlit("--load");
    reveal_strlit("--control");
    reveal_strlit("--limit");
    reveal_strlit("--depth");
    reveal_strlit("--changed");
    reveal_strlit("--begin");
    reveal_strlit("--end");
    reveal_strlit("--scope");
    reveal_strlit("--filter");
    reveal_strlit("--exclude");
    reveal_strlit("--at");
    reveal_strlit("--condition");
    reveal_strlit("--show");
    reveal_strlit("--of");
    reveal_strlit("--kdb");
    reveal_strlit("--top");
    if has_prefix(file, "--"@) {
        assert(file.take(2)[0] == "--"@[0]);
    }
    if file.len() > 0 && file[0] == '-' {
        assert(file.take(1) =~= "-"@);
        assert(has_prefix(file, "-"@));
    }
}

/// Is `c` a blank between words?
pub open spec fn is_blank(c: char) -> bool {
    c == ' ' || c == '\t' || c == '\r' || c == '\n'
}

/// The text up to the closing double quote, and the number of characters read.
/// A backslash keeps a quote or another backslash from meaning anything.
pub open spec fn double_quoted(s: Seq<char>) -> Option<(Seq<char>, int)>
    decreases s.len(),
{
    if s.len() == 0 {
        None
    } else if s[0] == '"' {
        Some((Seq::empty(), 1))
    } else if s[0] == '\\' && s.len() > 1 && (s[1] == '"' || s[1] == '\\') {
        match double_quoted(s.skip(2)) {
            Some((t, n)) => Some((seq![s[1]] + t, n + 2)),
            None => None,
        }
    } else {
        match double_quoted(s.skip(1)) {
            Some((t, n)) => Some((seq![s[0]] + t, n + 1)),
            None => None,
        }
    }
}

pub open spec fn word_so_far(cur: Option<Seq<char>>) -> Seq<char> {
    match cur {
        Some(w) => w,
        None => Seq::empty(),
    }
}

pub open spec fn finished(cur: Option<Seq<char>>) -> Seq<Seq<char>> {
    match cur {
        Some(w) => seq![w],
        None => Seq::empty(),
    }
}

/// The words of a batch line and its label, from `s` on; `cur` is the word
/// begun before it.
pub open spec fn words_of(s: Seq<char>, cur: Option<Seq<char>>) -> Result<
    (Seq<Seq<char>>, Option<Seq<char>>),
    Seq<char>,
>
    decreases s.len(),
{
    if s.len() == 0 {
        Ok((finished(cur), None))
    } else {
        let c = s[0];
        let rest = s.skip(1);
        if is_blank(c) {
            match words_of(rest, None) {
                Ok((t, l)) => Ok((finished(cur) + t, l)),
                Err(e) => Err(e),
            }
        } else if c == '#' {
            let label = trimmed(rest);
            Ok(
                (
                    finished(cur),
                    if label.len() == 0 {
                        None
                    } else {
                        Some(label)
                    },
                ),
            )
        } else if c == '\'' {
            let n = index_from(rest, '\'', 0);
            if 0 <= n < rest.len() {
                words_of(rest.skip(n + 1), Some(word_so_far(cur) + rest.take(n)))
            } else {
                Err("unterminated single quote"@)
            }
        } else if c == '"' {
            match double_quoted(rest) {
                Some((t, n)) => if 0 <= n <= rest.len() {
                    words_of(rest.skip(n), Some(word_so_far(cur) + t))
                } else {
                    Err("unterminated double quote"@)
                },
                None => Err("unterminated double quote"@),
            }
        } else if c == '\\' {
            if rest.len() > 0 {
                words_of(rest.skip(1), Some(word_so_far(cur).push(rest[0])))
            } else {
                Err("line ends with an unescaped backslash"@)
            }
        } else {
            words_of(rest, Some(word_so_far(cur).push(c)))
        }
    }
}

pub open spec fn after_words(
    done: Seq<Seq<char>>,
    r: Result<(Seq<Seq<char>>, Option<Seq<char>>), Seq<char>>,
) -> Result<(Seq<Seq<char>>, Option<Seq<char>>), Seq<char>> {
    match r {
        Ok((t, l)) => Ok((done + t, l)),
        Err(e) => Err(e),
    }
}

spec fn quoted_text(q: Option<(Seq<char>, int)>) -> Seq<char> {
    match q {
        Some((t, _)) => t,
        None => Seq::empty(),
    }
}

spec fn quoted_len(q: Option<(Seq<char>, int)>) -> int {
    match q {
        Some((_, n)) => n,
        None => 0,
    }
}

/// Read up to the closing double quote: the position after it.
fn read_double(v: &Vec<char>, from: usize, cur: &mut String) -> (r: Option<usize>)
    requires
        from <= v.len(),
    ensures
        match r {
            Some(i) => from <= i <= v.len() && double_quoted(v@.skip(from as int)) is Some
                && quoted_len(double_quoted(v@.skip(from as int))) == i - from && final(cur)@ == old(cur)@
                + quoted_text(double_quoted(v@.skip(from as int))),
            None => double_quoted(v@.skip(from as int)) is None,
        },
{
    let ghost want = double_quoted(v@.skip(from as int));
    let ghost start = cur@;
    let mut i: usize = from;
    assert(cur@ =~= start + Seq::<char>::empty());
    while i < v.len()
        invariant
            from <= i <= v.len(),
            want == double_quoted(v@.skip(from as int)),
            start == old(cur)@,
            match double_quoted(v@.skip(i as int)) {
                Some((t, n)) => want is Some && quoted_len(want) == i - from + n && start + quoted_text(want)
                    == cur@ + t,
                None => want is None,
            },
        decreases v.len() - i,
    {
        let ghost here = v@.skip(i as int);
        let d: char = v[i];
        proof {
            assert(here[0] == d);
            assert(here.skip(1) =~= v@.skip(i + 1));
        }
        if d == '"' {
            assert(double_quoted(here) == Some((Seq::<char>::empty(), 1int)));
            assert(start + quoted_text(want) =~= cur@);
            return Some(i + 1);
        }
        if d == '\\' && i + 1 < v.len() && (v[i + 1] == '"' || v[i + 1] == '\\') {
            let e: char = v[i + 1];
            let ghost c0 = cur@;
            cur.push(e);
            proof {
                assert(here[1] == e);
                assert(here.skip(2) =~= v@.skip(i + 2));
                match double_quoted(v@.skip(i + 2)) {
                    Some((t, n)) => {
                        assert(c0 + (seq![e] + t) =~= cur@ + t);
                    },
                    None => {},
                }
            }
            i += 2;
        } else {
            let ghost c0 = cur@;
            cur.push(d);
            proof {
                assert(i + 1 < v.len() ==> here[1] == v@[i + 1]);
                match double_quoted(v@.skip(i + 1)) {
                    Some((t, n)) => {
                        assert(c0 + (seq![d] + t) =~= cur@ + t);
                    },
                    None => {},
                }
            }
            i += 1;
        }
    }
    assert(v@.skip(i as int) =~= Seq::empty());
    None
}

/// Split a batch line into words and its label. Quotes group, a backslash
/// escapes, and an unquoted `#` begins the label.
pub fn split_line(line: &str) -> (r: Result<(Vec<String>, Option<String>), String>)
    ensures
        match r {
            Ok((t, l)) => words_of(line@, None) == Ok::<
                (Seq<Seq<char>>, Option<Seq<char>>),
                Seq<char>,
            >((views(t@), opt_view(l))),
            Err(e) => words_of(line@, None) == Err::<
                (Seq<Seq<char>>, Option<Seq<char>>),
                Seq<char>,
            >(e@),
        },
{
    let v: Vec<char> = chars_of(line);
    let ghost want = words_of(line@, None);
    let mut tokens: Vec<String> = Vec::new();
    let mut cur: Option<String> = None;
    let mut i: usize = 0;
    proof {
        assert(v@.skip(0) =~= line@);
        assert(views(tokens@) =~= Seq::empty());
        match want {
            Ok((t, l)) => {
                assert(Seq::<Seq<char>>::empty() + t =~= t);
            },
            Err(_) => {},
        }
        assert(want == after_words(views(tokens@), words_of(v@.skip(0), opt_view(cur))));
    }
    while i < v.len()
        invariant
            i <= v.len(),
            v@ == line@,
            want == words_of(line@, None),
            want == after_words(views(tokens@), words_of(v@.skip(i as int), opt_view(cur))),
        decreases v.len() - i,
    {
        let ghost here = v@.skip(i as int);
        let c: char = v[i];
        proof {
            assert(here[0] == c);
            assert(here.skip(1) =~= v@.skip(i + 1));
        }
        if c == ' ' || c == '\t' || c == '\r' || c == '\n' {
            let ghost t0 = views(tokens@);
            match cur {
                Some(w) => {
                    tokens.push(w);
                    assert(views(tokens@) =~= t0 + seq![w@]);
                },
                None => {
                    assert(t0 + Seq::<Seq<char>>::empty() =~= t0);
                },
            }
            proof {
                match words_of(v@.skip(i + 1), None) {
                    Ok((t, l)) => {
                        assert(t0 + (finished(opt_view(cur)) + t) =~= views(tokens@) + t);
                    },
                    Err(_) => {},
                }
            }
            cur = None;
            i += 1;
        } else if c == '#' {
            let rest: String = string_of(&v, i + 1, v.len());
            assert(rest@ =~= here.skip(1));
            let label: &str = trim(rest.as_str());
            let ghost t0 = views(tokens@);
            match cur {
                Some(w) => {
                    tokens.push(w);
                    assert(views(tokens@) =~= t0 + seq![w@]);
                },
                None => {
                    assert(t0 + Seq::<Seq<char>>::empty() =~= t0);
                },
            }
            if label.is_empty() {
                return Ok((tokens, None));
            }
            return Ok((tokens, Some(label.to_owned())));
        } else if c == '\'' {
            let mut word: String = match cur {
                Some(w) => w,
                None => "".to_owned(),
            };
            proof {
                reveal_strlit("");
                assert(word@ =~= word_so_far(opt_view(cur)));
            }
            let ghost w0 = word@;
            let ghost rest = here.skip(1);
            let mut j: usize = i + 1;
            assert(rest.take(0) =~= Seq::empty());
            assert(w0 + rest.take(0) =~= w0);
            while j < v.len() && v[j] != '\''
                invariant
                    i + 1 <= j <= v.len(),
                    rest == v@.skip(i + 1),
                    word@ == w0 + rest.take(j - i - 1),
                    index_from(rest, '\'', 0) == index_from(rest, '\'', j - i - 1),
                decreases v.len() - j,
            {
                assert(rest[j - i - 1] == v@[j as int]);
                word.push(v[j]);
                assert(word@ =~= w0 + rest.take(j - i));
                j += 1;
            }
            if j >= v.len() {
                return Err("unterminated single quote".to_owned());
            }
            proof {
                assert(rest[j - i - 1] == v@[j as int]);
                assert(index_from(rest, '\'', 0) == j - i - 1);
                assert(rest.skip(j - i) =~= v@.skip(j + 1));
            }
            cur = Some(word);
            i = j + 1;
        } else if c == '"' {
            let mut word: String = match cur {
                Some(w) => w,
                None => "".to_owned(),
            };
            proof {
                reveal_strlit("");
                assert(word@ =~= word_so_far(opt_view(cur)));
            }
            match read_double(&v, i + 1, &mut word) {
                None => {
                    return Err("unterminated double quote".to_owned());
                },
                Some(j) => {
                    assert(here.skip(1).skip(j - i - 1) =~= v@.skip(j as int));
                    cur = Some(word);
                    i = j;
                },
            }
        } else {
            let mut word: String = match cur {
                Some(w) => w,
                None => "".to_owned(),
            };
            proof {
                reveal_strlit("");
                assert(word@ =~= word_so_far(opt_view(cur)));
            }
            if c == '\\' {
                if i + 1 >= v.len() {
                    return Err("line ends with an unescaped backslash".to_owned());
                }
                assert(here.skip(1)[0] == v@[i + 1]);
                assert(here.skip(1).skip(1) =~= v@.skip(i + 2));
                word.push(v[i + 1]);
                i += 2;
            } else {
                word.push(c);
                i += 1;
            }
            cur = Some(word);
        }
    }
    assert(v@.skip(i as int) =~= Seq::empty());
    let ghost t0 = views(tokens@);
    match cur {
        Some(w) => {
            tokens.push(w);
            assert(views(tokens@) =~= t0 + seq![w@]);
        },
        None => {
            assert(t0 + Seq::<Seq<char>>::empty() =~= t0);
        },
    }
    Ok((tokens, None))
}

/// The help text, between the version and the default limit.
pub const HELP_USAGE: &'static str = " — AI-agent-friendly VCD/FST waveform analyzer

Usage: rwave [--json] [--limit N] [--verbose] <command> <file> [options]
       rwave --batch [--json] <file> [global-opts] < commands.txt

Commands:
  info      <file>                              File overview (timescale, signals, time span, scopes)
  list      <file> [selection]                  List signals (one row per alias path)
  dump      <file> [--begin T] [--end T] [selection]
                                                Print value-change events in time order
  summary   <file> [--begin T] [--end T] [selection]
                                                Per-signal stats: change count, edges, static detection
  snapshot  <file> --at T [selection]           Known signal values at a given time point
  compare   <file> --at T1,T2 [selection]       Diff signal values between two time points
  search    <file> --condition C [--condition C2 ...] [--show K1,K2] [--begin T] [--end T]
                                                Conditional search; comma = AND within a --condition, repeat --condition to OR the clauses;
                                                a changed(SIG) term fires at SIG's transitions (event mode)
  tree      <file> [SCOPE] [--scope P] [--depth N] [--of SIGNAL]
                                                Browse the hierarchy; --of prints a signal's ancestor scopes
  trace     <file> <signal> [--load] [--at T] [--control] [--kdb DIR] [--top NAME]
                                                Who drives a signal, or with --load what reads it (needs a design database)

Selection options (every command above except info, tree and trace; tree takes
--scope and --depth):
  --scope P1,P2     Restrict to hierarchy subtrees. A name without a '.' matches an
                    instance name ('*' and '?' allowed); a dotted path matches as a
                    segment-aligned suffix of a scope path, so 'u_tx.u_fifo' finds
                    that subtree wherever it sits.
  --depth N         Keep signals at most N levels below the matched --scope root; a
                    signal sitting directly in the scope is depth 1. Requires --scope.
  --filter K1,K2    Keep signals matching any pattern; omit to keep all.
  --exclude K1,K2   Drop signals matching any pattern; applied last, and usable on
                    its own.
  --exact           Match --filter and --exclude patterns whole, not as substrings.

Patterns are comma-separated and case-insensitive. One without a '.' matches the
signal's leaf name, so 'tx_err' finds the signal and not the synchronizer instance
named after it; one containing a '.' matches the whole hierarchical path. Either
way, no '*' or '?' means substring, and '*'/'?' make it an anchored glob ('[' and
']' stay literal, for bus ranges). An empty value ('') means \"not given\".

Selection is decided per alias path: a signal is kept when any one of its paths
clears every option, and list prints only the paths that did. search resolves its
--condition and --show names within the same selection, which is often what makes
an ambiguous name unique; a name spelled as a full path bypasses selection.

Global options:
  --json        Output compact structured JSON instead of text
  --limit N     Max rows/records to emit; default ";

/// The help text after the default limit.
pub const HELP_OPTIONS: &'static str = "; 0 = unlimited
  --verbose     Show extra fields; if --limit is omitted, disables truncation
  --batch       Load <file> once, then read commands (one per line) from stdin
  --version     Print version and exit
  -h, --help    Print this help and exit

Batch mode (--batch): each stdin line is a command minus the leading 'rwave';
results are emitted in input order. With --json each result is one NDJSON line
{\"id\",\"ok\",\"result\"|\"error\"}; without it, each result is preceded by a
'#label' header line. A trailing '#label' on an input line sets that result's
id (otherwise a 1-based sequence number is used); blank lines and lines starting
with '#' are skipped. [global-opts] become per-command defaults; each selection
option overrides its own default, and a line lifts one it does not want with an
empty value (--filter '').

Supports both VCD and FST inputs; the format is auto-detected.
Time values accept fs/ps/ns/us/ms/s suffixes (e.g. 17.5us); a bare integer is raw ticks.
";

pub open spec fn help_view() -> Seq<char> {
    "rwave "@ + VERSION@ + HELP_USAGE@ + crate::number::dec(DEFAULT_LIMIT as nat) + HELP_OPTIONS@
}

/// The help text.
pub fn help_text() -> (s: String)
    ensures
        s@ == help_view(),
{
    let mut m: String = "rwave ".to_owned();
    m.push_str(VERSION);
    m.push_str(HELP_USAGE);
    m.push_str(usize_text(DEFAULT_LIMIT).as_str());
    m.push_str(HELP_OPTIONS);
    m
}

} // verus!
