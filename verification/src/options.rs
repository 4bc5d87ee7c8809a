//! What the options of a run mean.

use crate::text::same_text;
use vstd::prelude::*;

verus! {

/// What a file that is given holds.
#[derive(Clone, Copy, Debug, PartialEq, Eq, Structural)]
pub enum InputKind {
    Rcir,
    Snapshot,
    Verilog,
}

/// What a file holds, by the extension of its name.
pub open spec fn kind_of(extension: Option<Seq<char>>) -> Option<InputKind> {
    match extension {
        None => None,
        Some(extension) => if extension == "rcir"@ {
            Some(InputKind::Rcir)
        } else if extension == "rsnap"@ || extension == "snapshot"@ {
            Some(InputKind::Snapshot)
        } else if extension == "v"@ {
            Some(InputKind::Verilog)
        } else {
            None
        },
    }
}

/// The contents of a text, if there is one.
pub open spec fn text_of(text: Option<&str>) -> Option<Seq<char>> {
    match text {
        Some(text) => Some(text@),
        None => None,
    }
}

/// What a file holds, by the extension of its name.
pub fn input_kind(extension: Option<&str>) -> (kind: Option<InputKind>)
    ensures
        kind == kind_of(text_of(extension)),
{
    match extension {
        None => None,
        Some(extension) => if same_text(extension, "rcir") {
            Some(InputKind::Rcir)
        } else if same_text(extension, "rsnap") || same_text(extension, "snapshot") {
            Some(InputKind::Snapshot)
        } else if same_text(extension, "v") {
            Some(InputKind::Verilog)
        } else {
            None
        },
    }
}

/// An intent was given together with compression, which replaces it.
#[derive(Clone, Copy, Debug, PartialEq, Eq, Structural)]
pub struct IntentConflict;

impl IntentConflict {
    /// The conflict in words.
    pub fn message(&self) -> (text: &'static str)
        ensures
            text@ == "--compress replaces the physical intent; pass only one of --compress and --intent"@,
    {
        "--compress replaces the physical intent; pass only one of --compress and --intent"
    }
}

/// Fails where an intent is given together with compression, for a design that is
/// compiled anew and written.
pub fn check_intent(kind: InputKind, writes: bool, compress: bool, intent: bool) -> (result: Result<
    (),
    IntentConflict,
>)
    ensures
        result is Err <==> kind != InputKind::Snapshot && writes && compress && intent,
{
    match kind {
        InputKind::Snapshot => Ok(()),
        _ => if writes && compress && intent {
            Err(IntentConflict)
        } else {
            Ok(())
        },
    }
}

/// How instances are placed.
#[derive(Clone, Copy, Debug, PartialEq, Eq, Structural)]
pub enum PlacementEngine {
    Legacy,
    Annealed,
}

impl Default for PlacementEngine {
    fn default() -> (engine: Self)
        ensures
            engine == PlacementEngine::Legacy,
    {
        PlacementEngine::Legacy
    }
}

/// The engine of a name.
pub open spec fn engine_of(name: Seq<char>) -> Option<PlacementEngine> {
    if name == "legacy"@ {
        Some(PlacementEngine::Legacy)
    } else if name == "annealed"@ {
        Some(PlacementEngine::Annealed)
    } else {
        None
    }
}

/// The engine of a name.
pub fn placement_engine(name: &str) -> (engine: Option<PlacementEngine>)
    ensures
        engine == engine_of(name@),
{
    if same_text(name, "legacy") {
        Some(PlacementEngine::Legacy)
    } else if same_text(name, "annealed") {
        Some(PlacementEngine::Annealed)
    } else {
        None
    }
}

/// The name of a design: that of the file that is written, or else of the one
/// that is read.
pub fn design_name(output: Option<&str>, input: Option<&str>) -> (name: String)
    ensures
        name@ == (match (text_of(output), text_of(input)) {
            (Some(output), _) => output,
            (None, Some(input)) => input,
            (None, None) => "design"@,
        }),
{
    match output {
        Some(output) => output.to_owned(),
        None => match input {
            Some(input) => input.to_owned(),
            None => "design".to_owned(),
        },
    }
}

/// Whether the name of a directory says that it is a snapshot.
pub fn snapshot_extension_is_given(extension: Option<&str>) -> (given: bool)
    ensures
        given == (text_of(extension) == Some("snapshot"@)),
{
    match extension {
        Some(extension) => same_text(extension, "snapshot"),
        None => false,
    }
}

} // verus!
