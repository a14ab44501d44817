use unitconv::domain::num::Dec;
use unitconv::domain::records::{ConversionRecord, appended_history_text, load_from_text};
use unitconv::domain::units::Unit;

fn dec(mant: i128, scale: u32) -> Dec {
    Dec { mant, scale }
}

#[test]
fn test_celcius_fahrenheit_1() {
    let result = Unit::Celsius.convert(&Unit::Fahrenheit, &dec(87, 0)).unwrap();
    assert_eq!(result, "87 °C = 189 °F");
}

#[test]
fn test_celcius_fahrenheit_2() {
    let result = Unit::Celsius.convert(&Unit::Fahrenheit, &dec(60, 0)).unwrap();
    assert_eq!(result, "60 °C = 140 °F");
}

#[test]
fn test_celcius_kelvin_1() {
    let result = Unit::Celsius.convert(&Unit::Kelvin, &dec(23, 0)).unwrap();
    assert_eq!(result, "23 °C = 296 K");
}

#[test]
fn test_celcius_kelvin_2() {
    let result = Unit::Celsius.convert(&Unit::Kelvin, &dec(76, 0)).unwrap();
    assert_eq!(result, "76 °C = 349 K");
}

#[test]
fn test_fahrenheit_celcius_1() {
    let result = Unit::Fahrenheit.convert(&Unit::Celsius, &dec(77, 0)).unwrap();
    assert_eq!(result, "77 °F = 25 °C");
}

#[test]
fn test_fahrenheit_celcius_2() {
    let result = Unit::Fahrenheit.convert(&Unit::Celsius, &dec(24, 0)).unwrap();
    assert_eq!(result, "24 °F = -4 °C");
}

#[test]
fn test_kelvin_celcius_1() {
    let result = Unit::Kelvin.convert(&Unit::Celsius, &dec(66, 0)).unwrap();
    assert_eq!(result, "66 K = -207 °C");
}

#[test]
fn test_kelvin_celcius_2() {
    let result = Unit::Kelvin.convert(&Unit::Celsius, &dec(128, 0)).unwrap();
    assert_eq!(result, "128 K = -145 °C");
}

#[test]
fn test_cm_inch() {
    let result = Unit::Cm.convert(&Unit::Inch, &dec(30, 0)).unwrap();
    assert_eq!(result, "30 cm = 11.811 inch");
}

#[test]
fn test_cm_km() {
    let result = Unit::Cm.convert(&Unit::Km, &dec(160000, 0)).unwrap();
    assert_eq!(result, "160000 cm = 1.6 km");
}

#[test]
fn test_cm_miles() {
    let result = Unit::Cm.convert(&Unit::Miles, &dec(15200, 0)).unwrap();
    assert_eq!(result, "15200 cm = 0.0944 miles");
}

#[test]
fn test_inch_cm() {
    let result = Unit::Inch.convert(&Unit::Cm, &dec(11, 0)).unwrap();
    assert_eq!(result, "11 inch = 27.94 cm");
}

#[test]
fn test_inch_km() {
    let result = Unit::Inch.convert(&Unit::Km, &dec(1520000, 0)).unwrap();
    assert_eq!(result, "1520000 inch = 38.608 km");
}

#[test]
fn test_inch_miles() {
    let result = Unit::Inch.convert(&Unit::Miles, &dec(1520000, 0)).unwrap();
    assert_eq!(result, "1520000 inch = 23.9899 miles");
}

#[test]
fn test_km_cm() {
    let result = Unit::Km.convert(&Unit::Cm, &dec(5, 1)).unwrap();
    assert_eq!(result, "0.5 km = 50000 cm");
}

#[test]
fn test_km_inch() {
    let result = Unit::Km.convert(&Unit::Inch, &dec(24, 1)).unwrap();
    assert_eq!(result, "2.4 km = 94488.189 inch");
}

#[test]
fn test_km_miles() {
    let result = Unit::Km.convert(&Unit::Miles, &dec(13, 0)).unwrap();
    assert_eq!(result, "13 km = 8.0778 miles");
}

#[test]
fn test_miles_cm() {
    let result = Unit::Miles.convert(&Unit::Cm, &dec(10, 0)).unwrap();
    assert_eq!(result, "10 miles = 1609344 cm");
}

#[test]
fn test_miles_inch() {
    let result = Unit::Miles.convert(&Unit::Inch, &dec(2, 0)).unwrap();
    assert_eq!(result, "2 miles = 126720 inch");
}

#[test]
fn test_miles_km() {
    let result = Unit::Miles.convert(&Unit::Km, &dec(6, 0)).unwrap();
    assert_eq!(result, "6 miles = 9.6561 km");
}

#[test]
fn test_category_mismatch_error() {
    let err = Unit::Cm.convert(&Unit::Celsius, &dec(1, 0)).unwrap_err();
    assert!(err.contains("Tidak dapat mengonversi satuan yang berbeda kategori"));
}

#[test]
fn test_is_data_saved() {
    let record = ConversionRecord {
        from: "cm".to_owned(),
        to: "inch".to_owned(),
        value: dec(10, 0),
        result: dec(2794, 2),
        display_text: "10 cm = 27.94 inch".to_string(),
    };
    let text = appended_history_text(None, record.clone());
    let history_vec = load_from_text(Some(&text));
    assert_eq!(history_vec.len(), 1);
    assert_eq!(history_vec[0].result, record.result);
}
