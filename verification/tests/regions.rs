use nordselect::filters::Region;

#[test]
fn filters_valid_regions() {
    assert_eq!(
        Region::from_str("EU").unwrap().countries(),
        vec![
            "AT", "BE", "BG", "HR", "CY", "CZ", "DK", "EE", "FI", "FR", "DE", "GR", "HU", "IE",
            "IT", "LV", "LT", "LU", "MT", "NL", "PL", "PT", "RO", "SK", "SI", "ES", "SE",
        ]
    );
    assert_eq!(
        Region::from_str("ЕЮ").unwrap().countries(),
        vec![
            "AT", "BE", "BG", "HR", "CY", "CZ", "DK", "EE", "FI", "FR", "DE", "GR", "HU", "IE",
            "IT", "LV", "LT", "LU", "MT", "NL", "PL", "PT", "RO", "SK", "SI", "ES", "SE",
        ]
    );
    assert_eq!(
        Region::from_str("5E").unwrap().countries(),
        vec!["AU", "CA", "NZ", "GB", "US"]
    );
    assert_eq!(
        Region::from_str("6E").unwrap().countries(),
        vec!["AU", "CA", "FR", "NZ", "GB", "US"]
    );
    assert_eq!(
        Region::from_str("9E").unwrap().countries(),
        vec!["AU", "CA", "DK", "FR", "NL", "NO", "NZ", "GB", "US"]
    );
    assert_eq!(
        Region::from_str("14E").unwrap().countries(),
        vec![
            "AU", "BE", "CA", "DE", "DK", "ES", "FR", "IT", "NL", "NO", "NZ", "GB", "SE", "US",
        ],
    );

    // Make sure we do not forget a region
    for (region, _) in Region::from_str_options().into_iter() {
        assert!(Region::from_str(region).is_some());
    }
}

#[test]
fn filters_invalid_regions() {
    assert_eq!(Region::from_str("blablabla"), None);
    assert_eq!(Region::from_str(""), None);
    assert_eq!(Region::from_str("idk"), None);
    assert_eq!(Region::from_str("test"), None);
    assert_eq!(Region::from_str("12e"), None);
    assert_eq!(Region::from_str("15e"), None);
}

#[test]
fn mod_valid_regions() {
    assert_eq!(
        Region::from_str("EU").unwrap().countries(),
        vec![
            "AT", "BE", "BG", "HR", "CY", "CZ", "DK", "EE", "FI", "FR", "DE", "GR", "HU", "IE",
            "IT", "LV", "LT", "LU", "MT", "NL", "PL", "PT", "RO", "SK", "SI", "ES", "SE",
        ]
    );
    assert_eq!(
        Region::from_str("ЕЮ").unwrap().countries(),
        vec![
            "AT", "BE", "BG", "HR", "CY", "CZ", "DK", "EE", "FI", "FR", "DE", "GR", "HU", "IE",
            "IT", "LV", "LT", "LU", "MT", "NL", "PL", "PT", "RO", "SK", "SI", "ES", "SE",
        ]
    );
    assert_eq!(
        Region::from_str("5E").unwrap().countries(),
        vec!["AU", "CA", "NZ", "GB", "US"]
    );
    assert_eq!(
        Region::from_str("6E").unwrap().countries(),
        vec!["AU", "CA", "FR", "NZ", "GB", "US"]
    );
    assert_eq!(
        Region::from_str("9E").unwrap().countries(),
        vec!["AU", "CA", "DK", "FR", "NL", "NO", "NZ", "GB", "US"]
    );
    assert_eq!(
        Region::from_str("14E").unwrap().countries(),
        vec![
            "AU", "BE", "CA", "DE", "DK", "ES", "FR", "IT", "NL", "NO", "NZ", "GB", "SE", "US",
        ],
    );

    // Make sure we do not forget a region
    for (region, _) in Region::from_str_options().iter() {
        assert!(Region::from_str(region).is_some());
    }
}

#[test]
fn mod_invalid_regions() {
    assert_eq!(Region::from_str("blablabla"), None);
    assert_eq!(Region::from_str(""), None);
    assert_eq!(Region::from_str("idk"), None);
    assert_eq!(Region::from_str("test"), None);
    assert_eq!(Region::from_str("12e"), None);
    assert_eq!(Region::from_str("15e"), None);
}

#[test]
fn region_short_round_trip() {
    for (code, _) in Region::from_str_options().into_iter() {
        let region = Region::from_str(code).unwrap();
        assert!(!region.countries().is_empty());
        assert!(Region::from_str(region.short()).is_some());
    }
}
