use coordify_core::cap::{CapErrorCode, ClaimStatus, Intent, ProposalKind};

#[test]
fn canonical_enum_strings_match_cap_spec() {
    assert_eq!(Intent::Qa.as_str(), "QA");
    assert_eq!(Intent::Devops.as_str(), "DEVOPS");
    assert_eq!(Intent::Bugfix.as_str(), "BUGFIX");
    assert_eq!(ClaimStatus::Reclaimable.as_str(), "RECLAIMABLE");
    assert_eq!(CapErrorCode::SchemaValidationFailed.as_str(), "SCHEMA_VALIDATION_FAILED");
    assert_eq!(CapErrorCode::UnsupportedCapVersion.as_str(), "UNSUPPORTED_CAP_VERSION");
}

#[test]
fn intent_as_str_all_variants() {
    let cases = [
        (Intent::Security, "SECURITY"), (Intent::Qa, "QA"), (Intent::Testing, "TESTING"),
        (Intent::Performance, "PERFORMANCE"), (Intent::Refactor, "REFACTOR"),
        (Intent::Documentation, "DOCUMENTATION"), (Intent::Feature, "FEATURE"), (Intent::Bugfix, "BUGFIX"),
        (Intent::Architecture, "ARCHITECTURE"), (Intent::Devops, "DEVOPS"), (Intent::Research, "RESEARCH"),
        (Intent::Migration, "MIGRATION"), (Intent::Configuration, "CONFIGURATION"),
        (Intent::Observability, "OBSERVABILITY"),
    ];
    for (v, s) in cases {
        assert_eq!(v.as_str(), s);
    }
}

#[test]
fn claim_status_as_str_all_variants() {
    let cases = [
        (ClaimStatus::Proposed, "PROPOSED"), (ClaimStatus::Provisional, "PROVISIONAL"), (ClaimStatus::Active, "ACTIVE"),
        (ClaimStatus::Released, "RELEASED"), (ClaimStatus::Orphaned, "ORPHANED"), (ClaimStatus::Reclaimable, "RECLAIMABLE"),
        (ClaimStatus::Rejected, "REJECTED"),
    ];
    for (v, s) in cases {
        assert_eq!(v.as_str(), s);
    }
}

#[test]
fn cap_error_code_as_str_all_variants() {
    let cases = [
        (CapErrorCode::SchemaValidationFailed, "SCHEMA_VALIDATION_FAILED"),
        (CapErrorCode::InvalidStateTransition, "INVALID_STATE_TRANSITION"),
        (CapErrorCode::AuthFailed, "AUTH_FAILED"), (CapErrorCode::ClaimConflict, "CLAIM_CONFLICT"),
        (CapErrorCode::AgentNotFound, "AGENT_NOT_FOUND"), (CapErrorCode::ClaimNotFound, "CLAIM_NOT_FOUND"),
        (CapErrorCode::CoreDegraded, "CORE_DEGRADED"), (CapErrorCode::Timeout, "TIMEOUT"),
        (CapErrorCode::UnsupportedCapVersion, "UNSUPPORTED_CAP_VERSION"),
    ];
    for (v, s) in cases {
        assert_eq!(v.as_str(), s);
    }
}

#[test]
fn proposal_kind_as_str_and_conflict_not_found() {
    assert_eq!(ProposalKind::SplitScope.as_str(), "SPLIT_SCOPE");
    assert_eq!(ProposalKind::QueueTask.as_str(), "QUEUE_TASK");
    assert_eq!(ProposalKind::CoOwn.as_str(), "CO_OWN");
    assert_eq!(CapErrorCode::ConflictNotFound.as_str(), "CONFLICT_NOT_FOUND");
}
