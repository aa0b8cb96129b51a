//! Choosing and vetting the reader of a vendor format.

use vstd::prelude::*;

use crate::text::same;

verus! {

/// Why no reader for a vendor format could be had.
#[derive(Debug)]
pub enum LoadError {
    /// The reader could not be loaded or is malformed.
    LoadFailed { msg: String },
    /// This build lacks the built-in reader.
    BuiltinUnavailable { format: String, platforms: String },
    /// Nothing reads this format.
    NoBackend { format: String },
    /// The reader was made for another interface version.
    AbiMismatch { format: String, plugin_abi: u32, rwave_abi: u32 },
}

pub enum LoadView {
    LoadFailed(Seq<char>),
    BuiltinUnavailable(Seq<char>, Seq<char>),
    NoBackend(Seq<char>),
    AbiMismatch(Seq<char>, u32, u32),
}

impl View for LoadError {
    type V = LoadView;

    open spec fn view(&self) -> LoadView {
        match self {
            LoadError::LoadFailed { msg } => LoadView::LoadFailed(msg@),
            LoadError::BuiltinUnavailable { format, platforms } => LoadView::BuiltinUnavailable(
                format@,
                platforms@,
            ),
            LoadError::NoBackend { format } => LoadView::NoBackend(format@),
            LoadError::AbiMismatch { format, plugin_abi, rwave_abi } => LoadView::AbiMismatch(
                format@,
                *plugin_abi,
                *rwave_abi,
            ),
        }
    }
}

/// What became of the built-in reader of a format.
#[derive(Debug)]
pub enum Builtin {
    /// It is there and initialised.
    Ready,
    /// It was there and failed to initialise, with this message.
    InitFailed(String),
    /// This build lacks it; it exists on the named platforms.
    Unavailable(String),
    /// There is none for this format.
    NotBuiltin,
}

/// Where the reader of a format comes from.
#[derive(Debug)]
pub enum Source {
    /// The shared library at this path.
    External(String),
    /// The program itself.
    BuiltIn,
}

/// Choose the reader of a format: a library named from outside comes before a
/// built-in reader.
pub fn choose_source(format: &str, external: Option<&str>, builtin: Builtin) -> (r: Result<
    Source,
    LoadError,
>)
    ensures
        match external {
            Some(path) => r matches Ok(Source::External(p)) && p@ == path@,
            None => match builtin {
                Builtin::Ready => r matches Ok(Source::BuiltIn),
                Builtin::InitFailed(msg) => r matches Err(e) && e@ == LoadView::LoadFailed(msg@),
                Builtin::Unavailable(platforms) => r matches Err(e) && e@
                    == LoadView::BuiltinUnavailable(format@, platforms@),
                Builtin::NotBuiltin => r matches Err(e) && e@ == LoadView::NoBackend(format@),
            },
        },
{
    match external {
        Some(path) => Ok(Source::External(path.to_owned())),
        None => match builtin {
            Builtin::Ready => Ok(Source::BuiltIn),
            Builtin::InitFailed(msg) => Err(LoadError::LoadFailed { msg }),
            Builtin::Unavailable(platforms) => Err(
                LoadError::BuiltinUnavailable { format: format.to_owned(), platforms },
            ),
            Builtin::NotBuiltin => Err(LoadError::NoBackend { format: format.to_owned() }),
        },
    }
}

/// What a loaded reader says of itself.
#[derive(Debug)]
pub struct ReaderFacts {
    /// The interface version that it was made for.
    pub abi_version: u32,
    /// Are all the required entry points there?
    pub complete: bool,
    /// The format that it reads, if it says.
    pub name: Option<String>,
}

/// What is wrong with a loaded reader, if anything. The interface version
/// comes first: a reader of another version says nothing reliable.
pub open spec fn reader_problem(format: Seq<char>, facts: ReaderFacts, host_abi: u32) -> Option<
    LoadView,
> {
    if facts.abi_version != host_abi {
        Some(LoadView::AbiMismatch(format, facts.abi_version, host_abi))
    } else if !facts.complete {
        Some(LoadView::LoadFailed(format + ": backend vtable has NULL required entry points"@))
    } else {
        match facts.name {
            None => Some(LoadView::LoadFailed(format + ": backend vtable name is NULL"@)),
            Some(name) => if name@ != format {
                Some(
                    LoadView::LoadFailed(
                        "backend advertises format '"@ + name@ + "' but rwave asked for '"@ + format
                            + "'"@,
                    ),
                )
            } else {
                None
            },
        }
    }
}

/// Vet a loaded reader.
pub fn check_reader(format: &str, facts: &ReaderFacts, host_abi: u32) -> (r: Result<(), LoadError>)
    ensures
        match r {
            Ok(_) => reader_problem(format@, *facts, host_abi) is None,
            Err(e) => reader_problem(format@, *facts, host_abi) == Some(e@),
        },
{
    if facts.abi_version != host_abi {
        return Err(
            LoadError::AbiMismatch {
                format: format.to_owned(),
                plugin_abi: facts.abi_version,
                rwave_abi: host_abi,
            },
        );
    }
    if !facts.complete {
        let mut msg: String = format.to_owned();
        msg.append(": backend vtable has NULL required entry points");
        return Err(LoadError::LoadFailed { msg });
    }
    match &facts.name {
        None => {
            let mut msg: String = format.to_owned();
            msg.append(": backend vtable name is NULL");
            Err(LoadError::LoadFailed { msg })
        },
        Some(name) => {
            if same(name.as_str(), format) {
                Ok(())
            } else {
                let mut msg: String = "backend advertises format '".to_owned();
                msg.append(name.as_str());
                msg.append("' but rwave asked for '");
                msg.append(format);
                msg.append("'");
                Err(LoadError::LoadFailed { msg })
            }
        },
    }
}

} // verus!
