//! A detection rule: a log source, the detection as written, and the
//! detection compiled from it.
use vstd::prelude::*;
use crate::detection::detection::{detection_holds, detection_of, Detection, DetectionView};
use crate::detection::selection::DetectionError;
use crate::event::LogSource;
use crate::value::Value;
use crate::yaml::Yaml;

verus! {

/// The body of a detection rule.
#[derive(Debug)]
pub struct DetectionRule {
    /// The log source that the rule applies to.
    pub logsource: LogSource,
    /// The detection as the rule document holds it.
    pub detection: Yaml,
    /// The detection compiled from the document.
    pub compiled: Detection,
}

impl DetectionRule {
    /// The compiled detection.
    pub open spec fn model(&self) -> DetectionView {
        self.compiled@
    }

    /// Compiles the detection of a rule and keeps it beside the document.
    pub fn new(logsource: LogSource, detection: Yaml) -> (r: Result<DetectionRule, DetectionError>)
        ensures
            match r {
                Ok(rule) => detection_of(detection) == Ok::<DetectionView, DetectionError>(
                    rule.model(),
                ) && rule.logsource == logsource && rule.detection == detection,
                Err(e) => detection_of(detection) == Err::<DetectionView, DetectionError>(e),
            },
    {
        match Detection::new(&detection) {
            Err(e) => Err(e),
            Ok(compiled) => Ok(DetectionRule { logsource, detection, compiled }),
        }
    }

    /// Whether the rule matches the data of an event.
    pub fn is_match(&self, data: &Value) -> (r: bool)
        ensures
            r == detection_holds(self.model(), data@),
    {
        self.compiled.is_match(data)
    }
}

} // verus!
