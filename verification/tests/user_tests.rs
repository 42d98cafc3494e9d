use pidnest::{resolve_user_or_uid, target_for_uid, target_from_lookup, TargetUser, UserEntry};

#[test]
fn label_shows_name_and_uid() {
    let user = TargetUser {
        name: "rezky".to_string(),
        uid: 1000,
    };
    assert_eq!(user.label(), "rezky uid=1000");
}

#[test]
fn label_does_not_repeat_a_uid_name() {
    let user = TargetUser {
        name: "uid=4242".to_string(),
        uid: 4242,
    };
    assert_eq!(user.label(), "uid=4242");
    let other = TargetUser {
        name: "uid=1".to_string(),
        uid: 4242,
    };
    assert_eq!(other.label(), "uid=1 uid=4242");
}

#[test]
fn user_without_a_name_is_named_by_uid() {
    assert_eq!(target_for_uid(77, None).name, "uid=77");
    assert_eq!(target_for_uid(77, Some("svc".to_string())).name, "svc");
}

#[test]
fn lookup_results_become_targets_or_errors() {
    let found = target_from_lookup(
        "alice",
        Ok(Some(UserEntry {
            name: "alice".to_string(),
            uid: 1001,
        })),
    )
    .unwrap();
    assert_eq!(found.uid, 1001);
    assert_eq!(found.name, "alice");
    assert_eq!(
        target_from_lookup("bob", Ok(None)).unwrap_err(),
        "unknown user: bob"
    );
    assert_eq!(
        target_from_lookup("bob", Err("EIO: I/O error".to_string())).unwrap_err(),
        "failed to resolve user bob: EIO: I/O error"
    );
}

#[test]
fn resolves_uids_and_refuses_bad_input() {
    assert_eq!(resolve_user_or_uid("").unwrap_err(), "empty user or UID");
    assert_eq!(
        resolve_user_or_uid("99999999999").unwrap_err(),
        "invalid UID: 99999999999"
    );
    assert_eq!(resolve_user_or_uid("0").unwrap().uid, 0);
    assert_eq!(
        resolve_user_or_uid("no\0body").unwrap_err(),
        "unknown user: no\0body"
    );
    assert_eq!(
        resolve_user_or_uid("no-such-user-here-xyz").unwrap_err(),
        "unknown user: no-such-user-here-xyz"
    );
}
