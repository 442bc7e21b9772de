//! What an interactive evaluation reports back, and the import collector
//! that scans evaluated code for module specifiers.

use vstd::prelude::*;
use vstd::string::StringExecFns;

verus! {

/// The outcome of evaluating one line: a rendered value or a rendered
/// error.
pub enum EvaluationOutput {
    Value(String),
    Error(String),
}

impl EvaluationOutput {
    /// The rendered text, whichever outcome it is.
    pub fn text(&self) -> (r: &String)
        ensures
            (match self {
                EvaluationOutput::Value(s) => r@ == s@,
                EvaluationOutput::Error(s) => r@ == s@,
            }),
    {
        match self {
            EvaluationOutput::Value(s) => s,
            EvaluationOutput::Error(s) => s,
        }
    }
}

/// Folds an evaluation result into an output: a failure is rendered as an
/// error line with the standard prefix.
pub fn result_to_evaluation_output(r: Result<EvaluationOutput, String>) -> (out: EvaluationOutput)
    ensures
        (match r {
            Ok(v) => out == v,
            Err(m) => out matches EvaluationOutput::Error(s) && s@ == "error: "@ + m@,
        }),
{
    match r {
        Ok(value) => value,
        Err(err) => {
            let prefix = String::from_str("error: ");
            EvaluationOutput::Error(prefix.concat(err.as_str()))
        }
    }
}

/// One evaluated line together with the source text that was evaluated, for
/// the editing history.
pub struct TsEvaluateResponse {
    /// The code as the user typed it.
    pub ts_code: String,
    /// What evaluating it produced.
    pub value: EvaluationOutput,
}

/// Collects the module specifiers an evaluated program imports, so that
/// package imports can be resolved before execution.
pub struct ImportCollector {
    pub imports: Vec<String>,
}

impl ImportCollector {
    /// An empty collector.
    pub fn new() -> (r: ImportCollector)
        ensures
            r.imports@.len() == 0,
    {
        ImportCollector { imports: vec![] }
    }

    /// Records one import specifier.
    pub fn push_import(&mut self, specifier: String)
        ensures
            final(self).imports@.len() == old(self).imports@.len() + 1,
            final(self).imports@ == old(self).imports@.push(specifier),
    {
        self.imports.push(specifier);
    }
}

} // verus!
