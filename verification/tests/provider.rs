use grafite::provider::{graphify_report, healthy, semantica_report, Probe, Report, Status};

#[test]
fn absent_semantica_is_ok_because_absence_is_the_normal_state() {
    let report = Report {
        provider: "semantica".to_string(),
        status: Status::Absent,
        detail: "not installed".to_string(),
    };
    assert!(report.is_acceptable(), "absence must not be a failure");
}

#[test]
fn failed_provider_is_not_acceptable() {
    let report = Report {
        provider: "graphify".to_string(),
        status: Status::Failed,
        detail: "version mismatch".to_string(),
    };
    assert!(!report.is_acceptable());
}

#[test]
fn graphify_without_setup_script_is_absent() {
    let report = graphify_report(None);
    assert_eq!(report.provider, "graphify");
    assert_eq!(report.status, Status::Absent);
    assert_eq!(report.detail, "no .graphify/setup.sh in this repository");
    assert!(report.is_acceptable());
}

#[test]
fn graphify_reports_its_own_verification() {
    let ok = graphify_report(Some(Probe::Exited {
        success: true,
        stdout: "  all pinned\n".to_string(),
        stderr: "noise".to_string(),
    }));
    assert_eq!(ok.status, Status::Healthy);
    assert_eq!(ok.detail, "all pinned");

    let failed = graphify_report(Some(Probe::Exited {
        success: false,
        stdout: "stdout detail\n".to_string(),
        stderr: " hook missing \n".to_string(),
    }));
    assert_eq!(failed.status, Status::Failed);
    assert_eq!(failed.detail, "hook missing");

    let quiet = graphify_report(Some(Probe::Exited {
        success: false,
        stdout: "stdout detail\n".to_string(),
        stderr: " \n".to_string(),
    }));
    assert_eq!(quiet.detail, "stdout detail");

    let broken = graphify_report(Some(Probe::NotStarted {
        error: "permission denied".to_string(),
    }));
    assert_eq!(broken.status, Status::Failed);
    assert_eq!(broken.detail, "permission denied");
    assert!(!broken.is_acceptable());
}

#[test]
fn semantica_is_absent_unless_its_version_query_succeeds() {
    let present = semantica_report(Probe::Exited {
        success: true,
        stdout: "semantica 0.6.8\n".to_string(),
        stderr: String::new(),
    });
    assert_eq!(present.status, Status::Healthy);
    assert_eq!(present.detail, "semantica 0.6.8");

    for probe in [
        Probe::Exited {
            success: false,
            stdout: String::new(),
            stderr: "boom".to_string(),
        },
        Probe::NotStarted {
            error: "not found".to_string(),
        },
    ] {
        let report = semantica_report(probe);
        assert_eq!(report.provider, "semantica");
        assert_eq!(report.status, Status::Absent);
        assert_eq!(report.detail, "not installed; this is the expected state");
    }
}

#[test]
fn health_requires_every_provider_to_be_acceptable() {
    let absent = graphify_report(None);
    let failed = graphify_report(Some(Probe::NotStarted {
        error: "x".to_string(),
    }));
    let semantica = semantica_report(Probe::NotStarted {
        error: "x".to_string(),
    });
    assert!(healthy(&[absent.clone(), semantica.clone()]));
    assert!(!healthy(&[failed, semantica]));
    assert!(healthy(&[]));
}
