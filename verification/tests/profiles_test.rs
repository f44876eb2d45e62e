use zentinel::profiles::{profiles, AppliedProfile, BackendProfile, ProfileSetting};

#[test]
fn every_shipped_profile_is_findable_by_name() {
    for profile in profiles() {
        assert_eq!(
            BackendProfile::find(profile.name).map(|p| p.name),
            Some(profile.name)
        );
    }
    assert!(BackendProfile::find("not-a-profile").is_none());
}

#[test]
fn profile_names_are_unique() {
    let mut names = BackendProfile::names();
    let count = names.len();
    names.sort_unstable();
    names.dedup();
    assert_eq!(names.len(), count, "duplicate profile name in PROFILES");
}

#[test]
fn idle_timeout_stays_under_the_backend_keepalive_window() {
    // The whole point of the pool settings: recycle before the backend
    // does. A profile that violates this would reintroduce the 502s it
    // exists to prevent.
    for profile in profiles() {
        assert!(
            profile.idle_timeout_secs < 5,
            "profile '{}' has idle-timeout {}s, which is not below a 5s backend keep-alive window",
            profile.name,
            profile.idle_timeout_secs
        );
    }
}

#[test]
fn every_profile_documents_its_assumptions() {
    for profile in profiles() {
        assert!(
            !profile.assumptions.is_empty(),
            "profile '{}' ships no assumptions for operators to check",
            profile.name
        );
        assert!(!profile.summary.is_empty());
    }
}

#[test]
fn applied_profile_summary_lists_contributions() {
    let applied = AppliedProfile {
        name: "apache-shared-hosting".to_string(),
        settings: vec![
            ProfileSetting::new("timeouts.connect", "5s"),
            ProfileSetting::new("connection-pool.max-connections", "64"),
        ],
    };
    assert_eq!(
        applied.summary(),
        "timeouts.connect=5s, connection-pool.max-connections=64"
    );
}

#[test]
fn profile_contributes_its_own_values() {
    let php = BackendProfile::find("php-fpm-behind-apache").unwrap();
    let timeouts = php.timeouts();
    assert_eq!(timeouts.connect_secs, 5);
    assert_eq!(timeouts.request_secs, 300);
    assert_eq!(timeouts.read_secs, 300);
    assert_eq!(timeouts.write_secs, 60);

    let pool = BackendProfile::find("litespeed").unwrap().connection_pool();
    assert_eq!(pool.max_connections, 256);
    assert_eq!(pool.max_idle, 64);
    assert_eq!(pool.idle_timeout_secs, 4);
    assert_eq!(pool.max_lifetime_secs, Some(120));
}
