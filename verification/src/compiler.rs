//! Compilation options, inputs and results of the compiler driver.
use vstd::prelude::*;

use crate::hir::ModuleId;

verus! {

/// Optimisation profile of a build.
#[derive(Debug, Clone, Copy, PartialEq, Eq, Structural)]
pub enum CompileProfile {
    Debug,
    Release,
}

/// What to compile: a single script or a project directory (by path).
#[derive(Debug, Clone)]
pub enum CompileSource {
    Script(String),
    Project(String),
}

/// Options of one compilation.
#[derive(Debug, Clone)]
pub struct CompileOptions {
    pub source: CompileSource,
    pub profile: CompileProfile,
}

impl CompileOptions {
    /// Options to compile the script at `path` in the debug profile.
    pub fn new(path: String) -> (r: Self)
        ensures
            r.source matches CompileSource::Script(p) && p@ == path@,
            r.profile == CompileProfile::Debug,
    {
        CompileOptions { profile: CompileProfile::Debug, source: CompileSource::Script(path) }
    }

    /// The same options with another profile.
    pub fn with_profile(self, profile: CompileProfile) -> (r: Self)
        ensures
            r.profile == profile,
            r.source == self.source,
    {
        let mut s = self;
        s.profile = profile;
        s
    }
}

/// Result of compiling a single file through the full pipeline.
pub struct CompileResult {
    pub executable_bytes: Vec<u8>,
    pub has_type_errors: bool,
}

/// Result of type checking a single file (without code generation).
pub struct CheckResult {
    pub has_type_errors: bool,
}

/// Compiled object file bytes.
#[derive(Debug, Clone)]
pub struct CompiledObject {
    pub bytes: Vec<u8>,
}

/// Result of code generation for one module.
#[derive(Debug, Clone)]
pub struct CodegenResult {
    /// The object bytes, when compilation produced any.
    pub object: Option<CompiledObject>,
    /// A code generation error, when one happened.
    pub error: Option<String>,
    /// The module this result belongs to.
    pub module_id: ModuleId,
}

/// Path of a source file given to the compiler.
#[derive(Debug, Clone)]
pub struct FilePath {
    pub path: String,
}

/// Source text given directly (REPL, tests, inline compilation).
#[derive(Debug, Clone)]
pub struct SourceText {
    pub text: String,
}

/// The text of a source file once read.
#[derive(Debug, Clone)]
pub struct FileText {
    pub text: String,
}

/// The file text of directly given source text.
pub fn source_to_file_text(input: &SourceText) -> (r: FileText)
    ensures
        r.text@ == input.text@,
{
    FileText { text: input.text.clone() }
}

/// Failure of the `check` command.
#[derive(Debug, Clone, Copy, PartialEq, Eq, Structural)]
pub enum CheckError {
    TypeErrors,
}

/// Failure of the `run` command.
#[derive(Debug, Clone)]
pub enum RunError {
    BuildFailed,
    ExecutionFailed(String),
    NonZeroExit(i32),
}

/// Arguments of the `check` command: the script to check.
#[derive(Debug, Clone)]
pub struct CheckCmd {
    pub script: String,
}

/// Arguments of the `run` command: the script, and whether to build it in
/// release mode.
#[derive(Debug, Clone)]
pub struct RunCmd {
    pub script: String,
    pub release: bool,
}

/// Execution mode of the runtime.
#[derive(Debug, Clone, Copy, PartialEq, Eq, Structural)]
pub enum ExecutionMode {
    /// Bytecode interpreter only.
    Vm,
    /// Native JIT compilation only.
    Jit,
    /// Interpreter with hot-path profiling and JIT.
    Tiered,
}

impl Default for ExecutionMode {
    fn default() -> (r: Self)
        ensures
            r == ExecutionMode::Tiered,
    {
        ExecutionMode::Tiered
    }
}

/// The outcome of the `check` command for the results of type checking: it
/// fails when there is no result, or when the first result has type errors.
pub fn check_outcome(results: &Vec<CheckResult>) -> (r: Result<(), CheckError>)
    ensures
        r is Ok <==> (results@.len() > 0 && !results@[0].has_type_errors),
{
    if results.len() == 0 {
        return Err(CheckError::TypeErrors);
    }
    if results[0].has_type_errors {
        return Err(CheckError::TypeErrors);
    }
    Ok(())
}

} // verus!
