use vstd::prelude::*;

use crate::schema_version::SchemaVersion;
use crate::text::{decimal, decimal_text};
use crate::transformation_rule::{
    AppliedTransformation, ChangeType, FieldChange, TransformationType,
};
use crate::tree::{opt_view, ConfigValue};
use crate::validation::ValidationReport;

verus! {

/// Renders transformation results in one of several formats.
#[derive(Debug, Clone)]
pub struct TransformationReporter {
    pub output_format: ReportFormat,
}

#[derive(Debug, Clone, Copy, PartialEq, Eq, Structural)]
pub enum ReportFormat {
    Console,
    Json,
    Yaml,
    Html,
}

/// Everything a report says about one transformation.
#[derive(Debug, Clone)]
pub struct TransformationReport {
    pub source_version: Option<SchemaVersion>,
    pub target_version: SchemaVersion,
    pub applied_transformations: Vec<AppliedTransformation>,
    pub field_changes: Vec<FieldChange>,
    pub removed_fields: Vec<String>,
    pub added_fields: Vec<String>,
    pub validation_summary: ValidationSummary,
    pub recommendations: Vec<String>,
    pub transformation_summary: TransformationSummary,
}

#[derive(Debug, Clone, Copy, PartialEq, Eq, Structural)]
pub struct ValidationSummary {
    pub total_errors: usize,
    pub total_warnings: usize,
    pub deprecated_fields_count: usize,
    pub missing_required_fields_count: usize,
    pub is_valid: bool,
}

#[derive(Debug, Clone, Copy, PartialEq, Eq, Structural)]
pub struct TransformationSummary {
    pub total_transformations: usize,
    pub successful_transformations: usize,
    pub skipped_transformations: usize,
    pub fields_moved: usize,
    pub fields_copied: usize,
    pub fields_removed: usize,
    pub fields_transformed: usize,
}

#[derive(Debug, Clone)]
pub enum ReportError {
    SerializationError(String),
    FormatError(String),
}

/// The kind of change that a kind of transformation makes.
pub open spec fn change_type_of(t: TransformationType) -> ChangeType {
    match t {
        TransformationType::Move => ChangeType::Moved,
        TransformationType::Copy => ChangeType::Added,
        TransformationType::Remove => ChangeType::Removed,
        TransformationType::Transform(_) => ChangeType::Modified,
        TransformationType::Merge(_) => ChangeType::Merged,
        TransformationType::Split(_) => ChangeType::Split,
    }
}

/// Paths of the changes of kind `k`, in order.
pub open spec fn paths_of_kind(changes: Seq<FieldChange>, k: ChangeType) -> Seq<Seq<char>>
    decreases changes.len(),
{
    if changes.len() == 0 {
        Seq::empty()
    } else {
        let rest = paths_of_kind(changes.drop_last(), k);
        if changes.last().change_type == k {
            rest.push(changes.last().path@)
        } else {
            rest
        }
    }
}

/// Number of transformations of the kind that `is_kind` picks.
pub open spec fn count_kind(ts: Seq<AppliedTransformation>, is_kind: spec_fn(TransformationType) -> bool) -> nat
    decreases ts.len(),
{
    if ts.len() == 0 {
        0
    } else {
        count_kind(ts.drop_last(), is_kind) + if is_kind(ts.last().transformation_type) {
            1nat
        } else {
            0nat
        }
    }
}

pub open spec fn recommendations_for(r: ValidationReport) -> Seq<Seq<char>> {
    let a = if r.missing_required_fields@.len() > 0 {
        seq!["Review and add missing required fields to ensure proper configuration"@]
    } else {
        Seq::empty()
    };
    let b = if r.deprecated_fields@.len() > 0 {
        a.push("Consider removing deprecated fields to prepare for future schema versions"@)
    } else {
        a
    };
    let c = if r.errors@.len() > 0 {
        b.push("Address validation errors before deploying the configuration"@)
    } else {
        b
    };
    if c.len() == 0 {
        seq!["Configuration transformation completed successfully"@]
    } else {
        c
    }
}

pub open spec fn strings_of(v: Seq<String>) -> Seq<Seq<char>> {
    Seq::new(v.len(), |i: int| v[i]@)
}

/// The console rendering of a report.
pub open spec fn console_text(r: TransformationReport) -> Seq<char> {
    let source = match r.source_version {
        Some(v) => "Source Version: "@ + v.text() + "\n"@,
        None => "Source Version: Unknown\n"@,
    };
    let head = "=== Schema Transformation Report ===\n\n"@ + source + "Target Version: "@
        + r.target_version.text() + "\n\n"@ + "Transformations Applied: "@ + decimal(
        r.transformation_summary.total_transformations as nat,
    ) + "\n"@ + "Validation Status: "@ + (if r.validation_summary.is_valid {
        "VALID"@
    } else {
        "INVALID"@
    }) + "\n"@;
    if r.recommendations@.len() == 0 {
        head
    } else {
        head + "\nRecommendations:\n"@ + bullets(strings_of(r.recommendations@))
    }
}

/// Each line as a bullet.
pub open spec fn bullets(lines: Seq<Seq<char>>) -> Seq<char>
    decreases lines.len(),
{
    if lines.len() == 0 {
        Seq::empty()
    } else {
        bullets(lines.drop_last()) + "  • "@ + lines.last() + "\n"@
    }
}

/// The HTML rendering of a report.
pub open spec fn html_text(r: TransformationReport) -> Seq<char> {
    let source = match r.source_version {
        Some(v) => "<p><strong>Source Version:</strong> "@ + v.text() + "</p>"@,
        None => Seq::empty(),
    };
    "<!DOCTYPE html><html><head><title>Transformation Report</title></head><body>"@
        + "<h1>Schema Transformation Report</h1>"@ + source
        + "<p><strong>Target Version:</strong> "@ + r.target_version.text() + "</p>"@
        + "<p><strong>Transformations:</strong> "@ + decimal(
        r.transformation_summary.total_transformations as nat,
    ) + "</p>"@ + "</body></html>"@
}

fn copy_value(o: &Option<ConfigValue>) -> (r: Option<ConfigValue>)
    ensures
        opt_view(r) == opt_view(*o),
{
    match o {
        Some(c) => Some(c.copy()),
        None => None,
    }
}

impl TransformationReporter {
    pub fn new() -> (r: Self)
        ensures
            r.output_format == ReportFormat::Console,
    {
        TransformationReporter { output_format: ReportFormat::Console }
    }

    pub fn with_format(self, format: ReportFormat) -> (r: Self)
        ensures
            r.output_format == format,
    {
        TransformationReporter { output_format: format }
    }

    /// A report on a transformation: what changed, the validation outcome,
    /// and what to do next.
    pub fn generate_report(
        &self,
        source_version: Option<SchemaVersion>,
        target_version: SchemaVersion,
        applied_transformations: Vec<AppliedTransformation>,
        validation_report: ValidationReport,
    ) -> (r: TransformationReport)
        ensures
            r.source_version == source_version,
            r.target_version == target_version,
            r.applied_transformations@ == applied_transformations@,
            r.field_changes@.len() == applied_transformations@.len(),
            strings_of(r.removed_fields@) == paths_of_kind(r.field_changes@, ChangeType::Removed),
            strings_of(r.added_fields@) == paths_of_kind(r.field_changes@, ChangeType::Added),
            r.validation_summary == self.spec_validation_summary(validation_report),
            strings_of(r.recommendations@) == recommendations_for(validation_report),
            r.transformation_summary.total_transformations == applied_transformations@.len(),
            r.transformation_summary.successful_transformations == applied_transformations@.len(),
            r.transformation_summary.skipped_transformations == 0,
            r.transformation_summary.fields_moved == count_kind(
                applied_transformations@,
                |t: TransformationType| t is Move,
            ),
            r.transformation_summary.fields_copied == count_kind(
                applied_transformations@,
                |t: TransformationType| t is Copy,
            ),
            r.transformation_summary.fields_removed == count_kind(
                applied_transformations@,
                |t: TransformationType| t is Remove,
            ),
            r.transformation_summary.fields_transformed == count_kind(
                applied_transformations@,
                |t: TransformationType| t is Transform,
            ),
            forall|i: int|
                0 <= i < r.field_changes@.len() ==> {
                    &&& (#[trigger] r.field_changes@[i]).path@
                        == applied_transformations@[i].target_path@
                    &&& r.field_changes@[i].change_type == change_type_of(
                        applied_transformations@[i].transformation_type,
                    )
                    &&& opt_view(r.field_changes@[i].old_value) == opt_view(
                        applied_transformations@[i].old_value,
                    )
                    &&& opt_view(r.field_changes@[i].new_value) == opt_view(
                        applied_transformations@[i].new_value,
                    )
                    &&& r.field_changes@[i].reason@ == "Applied rule: "@
                        + applied_transformations@[i].rule_id@
                },
    {
        let field_changes = self.extract_field_changes(&applied_transformations);
        let (removed_fields, added_fields) = self.categorize_field_changes(&field_changes);
        let validation_summary = self.create_validation_summary(&validation_report);
        let transformation_summary = self.create_transformation_summary(&applied_transformations);
        let recommendations = self.generate_recommendations(&validation_report);
        TransformationReport {
            source_version,
            target_version,
            applied_transformations,
            field_changes,
            removed_fields,
            added_fields,
            validation_summary,
            recommendations,
            transformation_summary,
        }
    }

    /// One field change per applied transformation, at its target path.
    pub fn extract_field_changes(&self, transformations: &Vec<AppliedTransformation>) -> (r: Vec<
        FieldChange,
    >)
        ensures
            r@.len() == transformations@.len(),
            forall|i: int|
                0 <= i < r@.len() ==> {
                    &&& (#[trigger] r@[i]).path@ == transformations@[i].target_path@
                    &&& r@[i].change_type == change_type_of(transformations@[i].transformation_type)
                    &&& opt_view(r@[i].old_value) == opt_view(transformations@[i].old_value)
                    &&& opt_view(r@[i].new_value) == opt_view(transformations@[i].new_value)
                    &&& r@[i].reason@ == "Applied rule: "@ + transformations@[i].rule_id@
                },
    {
        let mut changes: Vec<FieldChange> = Vec::new();
        let mut i: usize = 0;
        while i < transformations.len()
            invariant
                0 <= i <= transformations@.len(),
                changes@.len() == i,
                forall|k: int|
                    0 <= k < i ==> {
                        &&& (#[trigger] changes@[k]).path@ == transformations@[k].target_path@
                        &&& changes@[k].change_type == change_type_of(
                            transformations@[k].transformation_type,
                        )
                        &&& opt_view(changes@[k].old_value) == opt_view(
                            transformations@[k].old_value,
                        )
                        &&& opt_view(changes@[k].new_value) == opt_view(
                            transformations@[k].new_value,
                        )
                        &&& changes@[k].reason@ == "Applied rule: "@ + transformations@[k].rule_id@
                    },
            decreases transformations@.len() - i,
        {
            let t = &transformations[i];
            let change_type = match &t.transformation_type {
                TransformationType::Move => ChangeType::Moved,
                TransformationType::Copy => ChangeType::Added,
                TransformationType::Remove => ChangeType::Removed,
                TransformationType::Transform(_) => ChangeType::Modified,
                TransformationType::Merge(_) => ChangeType::Merged,
                TransformationType::Split(_) => ChangeType::Split,
            };
            let mut reason = String::from_str("Applied rule: ");
            reason.append(t.rule_id.as_str());
            changes.push(
                FieldChange {
                    path: t.target_path.clone(),
                    change_type,
                    old_value: copy_value(&t.old_value),
                    new_value: copy_value(&t.new_value),
                    reason,
                },
            );
            i = i + 1;
        }
        changes
    }

    /// The paths removed and the paths added, in order.
    pub fn categorize_field_changes(&self, changes: &Vec<FieldChange>) -> (r: (
        Vec<String>,
        Vec<String>,
    ))
        ensures
            strings_of(r.0@) == paths_of_kind(changes@, ChangeType::Removed),
            strings_of(r.1@) == paths_of_kind(changes@, ChangeType::Added),
    {
        let mut removed: Vec<String> = Vec::new();
        let mut added: Vec<String> = Vec::new();
        let mut i: usize = 0;
        proof {
            assert(strings_of(removed@) =~= Seq::<Seq<char>>::empty());
            assert(strings_of(added@) =~= Seq::<Seq<char>>::empty());
            assert(changes@.subrange(0, 0) =~= Seq::<FieldChange>::empty());
        }
        while i < changes.len()
            invariant
                0 <= i <= changes@.len(),
                strings_of(removed@) == paths_of_kind(
                    changes@.subrange(0, i as int),
                    ChangeType::Removed,
                ),
                strings_of(added@) == paths_of_kind(changes@.subrange(0, i as int), ChangeType::Added),
            decreases changes@.len() - i,
        {
            let c = &changes[i];
            let ghost r0 = removed@;
            let ghost a0 = added@;
            proof {
                let s = changes@.subrange(0, i + 1);
                assert(s.drop_last() =~= changes@.subrange(0, i as int));
                assert(s.last() == changes@[i as int]);
            }
            match c.change_type {
                ChangeType::Removed => {
                    removed.push(c.path.clone());
                    proof {
                        assert(strings_of(removed@) =~= strings_of(r0).push(c.path@));
                    }
                },
                ChangeType::Added => {
                    added.push(c.path.clone());
                    proof {
                        assert(strings_of(added@) =~= strings_of(a0).push(c.path@));
                    }
                },
                _ => {},
            }
            i = i + 1;
        }
        proof {
            assert(changes@.subrange(0, changes@.len() as int) =~= changes@);
        }
        (removed, added)
    }

    pub open spec fn spec_validation_summary(&self, r: ValidationReport) -> ValidationSummary {
        ValidationSummary {
            total_errors: r.errors@.len() as usize,
            total_warnings: r.warnings@.len() as usize,
            deprecated_fields_count: r.deprecated_fields@.len() as usize,
            missing_required_fields_count: r.missing_required_fields@.len() as usize,
            is_valid: r.is_valid,
        }
    }

    /// The counts of a validation report.
    pub fn create_validation_summary(&self, report: &ValidationReport) -> (r: ValidationSummary)
        ensures
            r == self.spec_validation_summary(*report),
    {
        ValidationSummary {
            total_errors: report.errors.len(),
            total_warnings: report.warnings.len(),
            deprecated_fields_count: report.deprecated_fields.len(),
            missing_required_fields_count: report.missing_required_fields.len(),
            is_valid: report.is_valid,
        }
    }

    /// The counts of the applied transformations, by kind.
    pub fn create_transformation_summary(&self, transformations: &Vec<AppliedTransformation>) -> (r:
        TransformationSummary)
        ensures
            r.total_transformations == transformations@.len(),
            r.successful_transformations == transformations@.len(),
            r.skipped_transformations == 0,
            r.fields_moved == count_kind(transformations@, |t: TransformationType| t is Move),
            r.fields_copied == count_kind(transformations@, |t: TransformationType| t is Copy),
            r.fields_removed == count_kind(transformations@, |t: TransformationType| t is Remove),
            r.fields_transformed == count_kind(
                transformations@,
                |t: TransformationType| t is Transform,
            ),
    {
        let mut summary = TransformationSummary {
            total_transformations: transformations.len(),
            successful_transformations: transformations.len(),
            skipped_transformations: 0,
            fields_moved: 0,
            fields_copied: 0,
            fields_removed: 0,
            fields_transformed: 0,
        };
        let ghost ts = transformations@;
        let mut i: usize = 0;
        proof {
            assert(ts.subrange(0, 0) =~= Seq::<AppliedTransformation>::empty());
        }
        while i < transformations.len()
            invariant
                0 <= i <= ts.len(),
                ts == transformations@,
                summary.total_transformations == ts.len(),
                summary.successful_transformations == ts.len(),
                summary.skipped_transformations == 0,
                summary.fields_moved == count_kind(ts.subrange(0, i as int), |t: TransformationType| t is Move),
                summary.fields_copied == count_kind(ts.subrange(0, i as int), |t: TransformationType| t is Copy),
                summary.fields_removed == count_kind(ts.subrange(0, i as int), |t: TransformationType| t is Remove),
                summary.fields_transformed == count_kind(
                    ts.subrange(0, i as int),
                    |t: TransformationType| t is Transform,
                ),
                summary.fields_moved <= i,
                summary.fields_copied <= i,
                summary.fields_removed <= i,
                summary.fields_transformed <= i,
            decreases ts.len() - i,
        {
            proof {
                let s = ts.subrange(0, i + 1);
                assert(s.drop_last() =~= ts.subrange(0, i as int));
                assert(s.last() == ts[i as int]);
            }
            match transformations[i].transformation_type {
                TransformationType::Move => summary.fields_moved = summary.fields_moved + 1,
                TransformationType::Copy => summary.fields_copied = summary.fields_copied + 1,
                TransformationType::Remove => summary.fields_removed = summary.fields_removed + 1,
                TransformationType::Transform(_) => summary.fields_transformed =
                    summary.fields_transformed + 1,
                _ => {},
            }
            i = i + 1;
        }
        proof {
            assert(ts.subrange(0, ts.len() as int) =~= ts);
        }
        summary
    }

    /// What to do next, given the validation outcome.
    pub fn generate_recommendations(&self, validation_report: &ValidationReport) -> (r: Vec<
        String,
    >)
        ensures
            strings_of(r@) == recommendations_for(*validation_report),
    {
        let mut recommendations: Vec<String> = Vec::new();
        if validation_report.missing_required_fields.len() > 0 {
            recommendations.push(
                String::from_str(
                    "Review and add missing required fields to ensure proper configuration",
                ),
            );
        }
        if validation_report.deprecated_fields.len() > 0 {
            recommendations.push(
                String::from_str(
                    "Consider removing deprecated fields to prepare for future schema versions",
                ),
            );
        }
        if validation_report.errors.len() > 0 {
            recommendations.push(
                String::from_str("Address validation errors before deploying the configuration"),
            );
        }
        if recommendations.len() == 0 {
            recommendations.push(
                String::from_str("Configuration transformation completed successfully"),
            );
        }
        proof {
            assert(strings_of(recommendations@) =~= recommendations_for(*validation_report));
        }
        recommendations
    }

    /// The report as console text.
    pub fn format_console_report(&self, report: &TransformationReport) -> (r: Result<
        String,
        ReportError,
    >)
        ensures
            r matches Ok(s) && s@ == console_text(*report),
    {
        let mut output = String::from_str("=== Schema Transformation Report ===\n\n");
        match &report.source_version {
            Some(v) => {
                output.append("Source Version: ");
                output.append(v.to_string().as_str());
                output.append("\n");
            },
            None => {
                output.append("Source Version: Unknown\n");
            },
        }
        output.append("Target Version: ");
        output.append(report.target_version.to_string().as_str());
        output.append("\n\n");
        output.append("Transformations Applied: ");
        output.append(
            decimal_text(report.transformation_summary.total_transformations as u64).as_str(),
        );
        output.append("\n");
        output.append("Validation Status: ");
        if report.validation_summary.is_valid {
            output.append("VALID");
        } else {
            output.append("INVALID");
        }
        output.append("\n");
        let ghost head = output@;
        if report.recommendations.len() > 0 {
            output.append("\nRecommendations:\n");
            let ghost start = output@;
            let mut i: usize = 0;
            proof {
                let ls = strings_of(report.recommendations@);
                assert(ls.subrange(0, 0) =~= Seq::<Seq<char>>::empty());
                assert(output@ =~= start + bullets(ls.subrange(0, 0)));
            }
            while i < report.recommendations.len()
                invariant
                    0 <= i <= report.recommendations@.len(),
                    output@ == start + bullets(
                        strings_of(report.recommendations@).subrange(0, i as int),
                    ),
                decreases report.recommendations@.len() - i,
            {
                output.append("  • ");
                output.append(report.recommendations[i].as_str());
                output.append("\n");
                proof {
                    let ls = strings_of(report.recommendations@);
                    let s = ls.subrange(0, i + 1);
                    assert(s.drop_last() =~= ls.subrange(0, i as int));
                    assert(s.last() == report.recommendations@[i as int]@);
                }
                i = i + 1;
            }
            proof {
                let ls = strings_of(report.recommendations@);
                assert(ls.subrange(0, ls.len() as int) =~= ls);
            }
        }
        proof {
            assert(output@ =~= console_text(*report));
        }
        Ok(output)
    }

    /// The report as an HTML page.
    pub fn format_html_report(&self, report: &TransformationReport) -> (r: Result<
        String,
        ReportError,
    >)
        ensures
            r matches Ok(s) && s@ == html_text(*report),
    {
        let mut html = String::from_str(
            "<!DOCTYPE html><html><head><title>Transformation Report</title></head><body>",
        );
        html.append("<h1>Schema Transformation Report</h1>");
        if let Some(v) = &report.source_version {
            html.append("<p><strong>Source Version:</strong> ");
            html.append(v.to_string().as_str());
            html.append("</p>");
        }
        html.append("<p><strong>Target Version:</strong> ");
        html.append(report.target_version.to_string().as_str());
        html.append("</p>");
        html.append("<p><strong>Transformations:</strong> ");
        html.append(
            decimal_text(report.transformation_summary.total_transformations as u64).as_str(),
        );
        html.append("</p>");
        html.append("</body></html>");
        proof {
            assert(html@ =~= html_text(*report));
        }
        Ok(html)
    }
}

impl Default for TransformationReporter {
    fn default() -> (r: Self)
        ensures
            r.output_format == ReportFormat::Console,
    {
        TransformationReporter::new()
    }
}

} // verus!
