use vstd::prelude::*;

verus! {

/// What is known of an objective without its evaluators.
#[derive(Clone, Debug)]
pub struct ObjectiveInfo {
    pub is_multi_objective: bool,
    pub metric_names: Vec<String>,
}

impl Default for ObjectiveInfo {
    fn default() -> (r: Self)
        ensures
            !r.is_multi_objective,
            r.metric_names@.len() == 0,
    {
        ObjectiveInfo { is_multi_objective: false, metric_names: Vec::new() }
    }
}

} // verus!
