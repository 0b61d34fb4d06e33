use community_analyzer::models::{ChannelCategory, PeriodSpec, Role};

#[test]
fn test_role_from_str_lenient() {
    assert_eq!(Role::from_str_lenient("EXEC"), Role::Exec);
    assert_eq!(Role::from_str_lenient(" manager "), Role::Manager);
    assert_eq!(Role::from_str_lenient("nope"), Role::Unknown);
}

#[test]
fn test_channel_category_from_str_lenient() {
    assert_eq!(
        ChannelCategory::from_str_lenient("private_group"),
        ChannelCategory::PrivateGroup
    );
    assert_eq!(
        ChannelCategory::from_str_lenient("garbage"),
        ChannelCategory::Unknown
    );
}

#[test]
fn test_period_spec_default() {
    let p = PeriodSpec::default();
    assert!(p.from.is_none());
    assert_eq!(p.fiscal.fiscal_year_start_month, 4);
}

#[test]
fn test_role_names_roundtrip() {
    for r in [Role::Exec, Role::Manager, Role::Lead, Role::Staff, Role::Unknown] {
        assert_eq!(Role::from_str_lenient(r.as_str()), r);
    }
    assert_eq!(Role::Exec.as_str(), "exec");
    assert_eq!(Role::from_str_lenient("\tLead\n"), Role::Lead);
}

#[test]
fn test_category_names_roundtrip() {
    for c in [
        ChannelCategory::Official,
        ChannelCategory::Tech,
        ChannelCategory::Casual,
        ChannelCategory::Leadership,
        ChannelCategory::PrivateGroup,
        ChannelCategory::Unknown,
    ] {
        assert_eq!(ChannelCategory::from_str_lenient(c.as_str()), c);
    }
    assert_eq!(ChannelCategory::PrivateGroup.as_str(), "private_group");
    assert_eq!(ChannelCategory::from_str_lenient(" OFFICIAL "), ChannelCategory::Official);
}
