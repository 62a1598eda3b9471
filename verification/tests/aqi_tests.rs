//! Tests of the AQI breakpoint lookup.  Concentrations are given in milli
//! units (thousandths of a microgram per cubic metre).
use debs2021::aqi::AQIValue;

#[test]
fn test_all_pm25_aqis_work() {
    for i in 0..=5004u32 {
        assert!(AQIValue::from_pm25(i * 100).is_some());
    }
}

#[test]
fn test_all_pm10_aqis_work() {
    for i in 0..=6040u32 {
        assert!(AQIValue::from_pm10(i * 100).is_some());
    }
}

#[test]
fn test_valid_pm25_aqis() {
    assert_eq!(AQIValue::from_pm25(0).map(AQIValue::get), Some(0));
    assert_eq!(AQIValue::from_pm25(55_549).map(AQIValue::get), Some(151));
    assert_eq!(AQIValue::from_pm25(500_400).map(AQIValue::get), Some(500));
    assert_eq!(AQIValue::from_pm25(55_560).map(AQIValue::get_asdebs), Some(151052));
}

#[test]
fn test_valid_pm10_aqis() {
    assert_eq!(AQIValue::from_pm10(0).map(AQIValue::get), Some(0));
    assert_eq!(AQIValue::from_pm10(155_049).map(AQIValue::get), Some(101));
    assert_eq!(AQIValue::from_pm10(604_490).map(AQIValue::get), Some(500));
}

#[test]
fn out_of_scale_concentrations_are_rejected() {
    // just past the last PM2.5 breakpoint (500.4 micrograms)
    assert!(AQIValue::from_pm25(500_450).is_none());
    // just past the last PM10 breakpoint (604 micrograms)
    assert!(AQIValue::from_pm10(604_500).is_none());
}

#[test]
fn rounding_is_half_up_into_table_units() {
    // 55.449 milli rounds to 55.4 micrograms (row below), 55.549 to 55.5
    assert_eq!(AQIValue::from_pm25(55_449).map(AQIValue::get), Some(150));
    assert_eq!(AQIValue::from_pm25(55_549).map(AQIValue::get), Some(151));
    // 154.499 rounds to 154 micrograms, 154.5 to 155
    assert_eq!(AQIValue::from_pm10(154_499).map(AQIValue::get), Some(100));
    assert_eq!(AQIValue::from_pm10(154_500).map(AQIValue::get), Some(101));
}

#[test]
fn aqi_grows_with_concentration() {
    // spot checks across row boundaries of both tables
    let pm25_points = [0u32, 12_000, 12_100, 35_400, 55_500, 150_400, 350_500, 500_400];
    let mut prev = -1i32;
    for m in pm25_points {
        let v = AQIValue::from_pm25(m).unwrap().get_asdebs();
        assert!(v >= prev);
        prev = v;
    }
    let pm10_points = [0u32, 54_000, 55_000, 154_000, 254_000, 424_000, 504_000, 604_000];
    prev = -1;
    for m in pm10_points {
        let v = AQIValue::from_pm10(m).unwrap().get_asdebs();
        assert!(v >= prev);
        prev = v;
    }
}
