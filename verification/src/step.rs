//! The steps of the pipeline, chosen by name.
use vstd::prelude::*;

verus! {

/// One step of the pipeline.
#[derive(Debug, Clone, Copy, PartialEq, Eq, Structural)]
pub enum Step {
    NoChange,
    AddColumns,
    ChangeOnce,
    Combine,
}

/// The step that `module` names; none for any other name, which runs nothing.
pub fn parse_step(module: &String) -> (r: Option<Step>)
    ensures
        r == Some(Step::NoChange) <==> module@ == "no_change"@,
        r == Some(Step::AddColumns) <==> module@ == "add_columns"@,
        r == Some(Step::ChangeOnce) <==> module@ == "change_once"@,
        r == Some(Step::Combine) <==> module@ == "combine"@,
        r is None <==> module@ != "no_change"@ && module@ != "add_columns"@ && module@
            != "change_once"@ && module@ != "combine"@,
{
    proof {
        reveal_strlit("no_change");
        reveal_strlit("add_columns");
        reveal_strlit("change_once");
        reveal_strlit("combine");
        assert("no_change"@.len() == 9 && "combine"@.len() == 7);
        assert("add_columns"@.len() == 11 && "change_once"@.len() == 11);
        assert("add_columns"@[0] != "change_once"@[0]);
    }
    if *module == "no_change".to_owned() {
        Some(Step::NoChange)
    } else if *module == "add_columns".to_owned() {
        Some(Step::AddColumns)
    } else if *module == "change_once".to_owned() {
        Some(Step::ChangeOnce)
    } else if *module == "combine".to_owned() {
        Some(Step::Combine)
    } else {
        None
    }
}

} // verus!
