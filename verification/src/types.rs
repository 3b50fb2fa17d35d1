//! The plain shapes of requests and responses.

use vstd::prelude::*;

verus! {

/// How a team spends its time, in whole percent.
#[derive(Debug, Clone, Copy, PartialEq, Eq)]
pub struct TimeAllocation {
    pub meetings: i32,
    pub unplanned: i32,
    pub bugs: i32,
    pub feature: i32,
    pub tech_debt: i32,
}

/// A systemic issue with its causes and the evidence for it.
#[derive(Debug, Clone, PartialEq, Eq)]
pub struct CoreSystemicIssue {
    pub issue: String,
    pub causes: Vec<String>,
    pub evidence: Vec<String>,
}

/// A constraint worth acting on, and why.
#[derive(Debug, Clone, PartialEq, Eq)]
pub struct LeveragePoint {
    pub constraint: String,
    pub rationale: String,
}

/// How sure an analysis is of itself, and when it was made.
#[derive(Debug, Clone, PartialEq, Eq)]
pub struct AnalysisMetadata {
    pub confidence_score: String,
    pub data_completeness: String,
    pub analysis_timestamp: String,
}

/// The outcome of an analysis.
#[derive(Debug, Clone, PartialEq, Eq)]
pub struct AnalysisResult {
    pub executive_summary: String,
    pub core_systemic_issues: Vec<CoreSystemicIssue>,
    pub leverage_points: Vec<LeveragePoint>,
    pub systemic_relationships: Vec<String>,
    pub assumptions: Vec<String>,
    pub analysis_confidence: String,
    pub analysis_metadata: Option<AnalysisMetadata>,
}

/// An analysis and the run that produced it.
#[derive(Debug, Clone, PartialEq, Eq)]
pub struct AnalysisResponse {
    pub run_id: String,
    pub result: AnalysisResult,
}

/// A request to refine a document.
#[derive(Debug, Clone, PartialEq, Eq)]
pub struct RefineRequest {
    pub content: String,
}

/// Who reviewed which analysis, and when.
#[derive(Debug, Clone, PartialEq, Eq)]
pub struct EvaluationMetadata {
    pub review_timestamp: String,
    pub reviewer: String,
    pub analysis_version_reviewed: String,
    pub review_iteration: String,
}

/// A critical issue that a review found.
#[derive(Debug, Clone, PartialEq, Eq)]
pub struct CriticalIssue {
    pub issue_id: String,
    pub dimension: String,
    pub severity: String,
    pub issue: String,
    pub evidence: String,
    pub impact: String,
    pub recommendation: String,
    pub example: String,
}

/// A flaw of reasoning that a review found.
#[derive(Debug, Clone, PartialEq, Eq)]
pub struct LogicalFlaw {
    pub flaw_id: String,
    pub kind: String,
    pub location: String,
    pub description: String,
    pub why_it_matters: String,
    pub suggested_fix: String,
    pub validation_test: String,
}

/// A claim that lacks evidence.
#[derive(Debug, Clone, PartialEq, Eq)]
pub struct EvidenceGap {
    pub gap_id: String,
    pub claim: String,
    pub current_evidence: String,
    pub gap_type: String,
    pub impact: String,
    pub recommended_evidence: String,
    pub workaround: String,
}

/// Another explanation that an analysis should weigh.
#[derive(Debug, Clone, PartialEq, Eq)]
pub struct AlternativeHypothesis {
    pub hypothesis_id: String,
    pub alternative_explanation: String,
    pub supporting_evidence: String,
    pub how_to_test: String,
    pub if_true_impact: String,
    pub analysis_coverage: String,
}

/// A change that a review recommends.
#[derive(Debug, Clone, PartialEq, Eq)]
pub struct ImprovementRecommendation {
    pub rec_id: String,
    pub dimension: String,
    pub priority: String,
    pub current_state: String,
    pub proposed_change: String,
    pub rationale: String,
    pub expected_impact: String,
    pub effort: String,
}

/// Something that an analysis does well.
#[derive(Debug, Clone, PartialEq, Eq)]
pub struct Strength {
    pub strength: String,
    pub dimension: String,
    pub why_it_matters: String,
}

/// A test that would confirm or refute an analysis.
#[derive(Debug, Clone, PartialEq, Eq)]
pub struct ValidationTest {
    pub test_id: String,
    pub purpose: String,
    pub test_description: String,
    pub expected_result_if_analysis_correct: String,
    pub expected_result_if_analysis_wrong: String,
    pub effort: String,
    pub when_to_run: String,
}

/// How far each group of metrics can be relied on.
#[derive(Debug, Clone, PartialEq, Eq)]
pub struct MetricReliability {
    pub dora_metrics: String,
    pub extended_metrics: String,
    pub cultural_metrics: String,
}

/// A metric that is missing, and what to do about it.
#[derive(Debug, Clone, PartialEq, Eq)]
pub struct CriticalDataGap {
    pub metric: String,
    pub impact: String,
    pub mitigation: String,
}

/// How good the data behind an analysis is.
#[derive(Debug, Clone, PartialEq, Eq)]
pub struct DataQualityAssessment {
    pub overall_data_completeness: String,
    pub metric_reliability: MetricReliability,
    pub critical_data_gaps: Vec<CriticalDataGap>,
    pub baseline_validity: String,
}

/// Whether the constraint that an analysis names is the right one.
#[derive(Debug, Clone, PartialEq, Eq)]
pub struct ConstraintValidation {
    pub constraint_identified: String,
    pub constraint_type: String,
    pub constraint_clarity: String,
    pub bottleneck_evidence: String,
    pub exploitation_potential: String,
    pub impact_radius: String,
    pub confidence_in_identification: String,
    pub alternative_constraints_considered: String,
    pub recommendation: String,
}

/// A bias that may have shaped an analysis.
#[derive(Debug, Clone, PartialEq, Eq)]
pub struct PotentialBias {
    pub bias_type: String,
    pub evidence_of_bias: String,
    pub impact: String,
    pub mitigation: String,
}

/// The biases that a review suspects.
#[derive(Debug, Clone, PartialEq, Eq)]
pub struct BiasAssessment {
    pub potential_biases_detected: Vec<PotentialBias>,
    pub bias_awareness: String,
}

/// When to approve, revise or reject an analysis.
#[derive(Debug, Clone, PartialEq, Eq)]
pub struct DecisionCriteria {
    pub approve_if: Vec<String>,
    pub revise_minor_if: Vec<String>,
    pub revise_major_if: Vec<String>,
    pub reject_if: Vec<String>,
}

/// What to do after each possible decision.
#[derive(Debug, Clone, PartialEq, Eq)]
pub struct RecommendedNextSteps {
    pub if_approved: Vec<String>,
    pub if_revise_minor: Vec<String>,
    pub if_revise_major: Vec<String>,
    pub if_rejected: Vec<String>,
}

/// What the confidence of a review rests on.
#[derive(Debug, Clone, PartialEq, Eq)]
pub struct ConfidenceFactors {
    pub input_data_availability: String,
    pub analysis_clarity: String,
    pub domain_expertise: String,
    pub completeness_of_review: String,
}

/// How sure a review is of itself.
#[derive(Debug, Clone, PartialEq, Eq)]
pub struct ReviewConfidenceAssessment {
    pub overall_confidence: String,
    pub confidence_factors: ConfidenceFactors,
    pub limitations: Vec<String>,
}

/// A message for the refining agent.
#[derive(Debug, Clone, PartialEq, Eq)]
pub struct GoldrattRequest {
    pub message: String,
}

} // verus!
