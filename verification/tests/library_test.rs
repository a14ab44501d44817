use unitconv::domain::num::{dec_from_input, Dec};
use unitconv::domain::records::{
    appended_history_text, history_listing, load_from_text, ConversionRecord,
};
use unitconv::domain::units::{Category, Unit};

fn dec(mant: i128, scale: u32) -> Dec {
    Dec { mant, scale }
}

#[test]
fn test_try_from_input_known_names() {
    assert_eq!(Unit::try_from_input("celsius"), Some(Unit::Celsius));
    assert_eq!(Unit::try_from_input("celcius"), Some(Unit::Celsius));
    assert_eq!(Unit::try_from_input("fahrenheit"), Some(Unit::Fahrenheit));
    assert_eq!(Unit::try_from_input("kelvin"), Some(Unit::Kelvin));
    assert_eq!(Unit::try_from_input("cm"), Some(Unit::Cm));
    assert_eq!(Unit::try_from_input("inch"), Some(Unit::Inch));
    assert_eq!(Unit::try_from_input("km"), Some(Unit::Km));
    assert_eq!(Unit::try_from_input("miles"), Some(Unit::Miles));
}

#[test]
fn test_try_from_input_unknown_is_none() {
    assert_eq!(Unit::try_from_input("parsec"), None);
    assert_eq!(Unit::try_from_input(""), None);
    assert_eq!(Unit::try_from_input("Celsius"), None);
}

#[test]
fn test_get_all_units_order() {
    let units = Unit::get_all_units();
    assert_eq!(
        units,
        vec![
            Unit::Celsius,
            Unit::Fahrenheit,
            Unit::Kelvin,
            Unit::Cm,
            Unit::Inch,
            Unit::Km,
            Unit::Miles,
        ]
    );
}

#[test]
fn test_get_category() {
    assert_eq!(Unit::Celsius.get_category(), Category::Temperature);
    assert_eq!(Unit::Kelvin.get_category(), Category::Temperature);
    assert_eq!(Unit::Cm.get_category(), Category::Length);
    assert_eq!(Unit::Miles.get_category(), Category::Length);
}

#[test]
fn test_get_symbol_and_display_name() {
    assert_eq!(Unit::get_symbol(&Unit::Celsius), "°C");
    assert_eq!(Unit::get_symbol(&Unit::Fahrenheit), "°F");
    assert_eq!(Unit::get_symbol(&Unit::Kelvin), "K");
    assert_eq!(Unit::get_symbol(&Unit::Miles), "miles");
    assert_eq!(Unit::Celsius.display_name(), "celsius");
    assert_eq!(Unit::Km.display_name(), "km");
}

#[test]
fn test_list_as_string_full() {
    let expected = "Satuan yang didukung:\n\
                    1. [suhu] celsius\n\
                    2. [suhu] fahrenheit\n\
                    3. [suhu] kelvin\n\
                    4. [panjang] cm\n\
                    5. [panjang] inch\n\
                    6. [panjang] km\n\
                    7. [panjang] miles";
    assert_eq!(Unit::list_as_string(), expected);
}

#[test]
fn test_every_cross_category_pair_fails() {
    let temps = [Unit::Celsius, Unit::Fahrenheit, Unit::Kelvin];
    let lengths = [Unit::Cm, Unit::Inch, Unit::Km, Unit::Miles];
    for a in temps.iter() {
        for b in lengths.iter() {
            let err = a.convert(b, &dec(1, 0)).unwrap_err();
            assert!(err.contains("Tidak dapat mengonversi satuan yang berbeda kategori"));
            let err = b.convert(a, &dec(1, 0)).unwrap_err();
            assert!(err.contains("Tidak dapat mengonversi satuan yang berbeda kategori"));
        }
    }
}

#[test]
fn test_mismatch_error_names_both_categories() {
    let err = Unit::Cm.convert(&Unit::Celsius, &dec(1, 0)).unwrap_err();
    assert!(err.contains("panjang"));
    assert!(err.contains("suhu"));
    assert_eq!(
        err,
        "[ERROR] Tidak dapat mengonversi satuan yang berbeda kategori: [panjang] cm → [suhu] celsius"
    );
}

#[test]
fn test_temperature_results_are_integers() {
    let pairs = [
        (Unit::Celsius, Unit::Fahrenheit),
        (Unit::Fahrenheit, Unit::Kelvin),
        (Unit::Kelvin, Unit::Celsius),
    ];
    for (a, b) in pairs.iter() {
        let rec = a.convert_record(b, &dec(12345, 2)).unwrap();
        assert_eq!(rec.result.scale, 0);
    }
}

#[test]
fn test_length_results_have_at_most_four_decimals() {
    let pairs = [
        (Unit::Cm, Unit::Inch),
        (Unit::Inch, Unit::Miles),
        (Unit::Km, Unit::Miles),
        (Unit::Miles, Unit::Km),
    ];
    for (a, b) in pairs.iter() {
        let rec = a.convert_record(b, &dec(98765, 3)).unwrap();
        assert!(rec.result.scale <= 4);
    }
}

#[test]
fn test_convert_record_fields() {
    let rec = Unit::Cm.convert_record(&Unit::Inch, &dec(30, 0)).unwrap();
    assert_eq!(rec.from, "cm");
    assert_eq!(rec.to, "inch");
    assert_eq!(rec.value, dec(30, 0));
    assert_eq!(rec.result, dec(11811, 3));
    assert_eq!(rec.display_text, "30 cm = 11.811 inch");
}

#[test]
fn test_round_trip_within_precision() {
    let rec = Unit::Celsius
        .convert_record(&Unit::Fahrenheit, &dec(87, 0))
        .unwrap();
    assert_eq!(rec.result, dec(189, 0));
    let back = Unit::Fahrenheit
        .convert_record(&Unit::Celsius, &rec.result)
        .unwrap();
    assert_eq!(back.result, dec(87, 0));

    let rec = Unit::Km.convert_record(&Unit::Miles, &dec(13, 0)).unwrap();
    let back = Unit::Miles.convert_record(&Unit::Km, &rec.result).unwrap();
    // 13 km -> 8.0778 miles -> 12.99995896... km, which rounds back to 13.
    assert_eq!(back.result, dec(13, 0));
}

#[test]
fn test_load_missing_file_is_empty() {
    let history = load_from_text(None);
    assert!(history.is_empty());
}

#[test]
fn test_load_garbage_is_empty() {
    assert!(load_from_text(Some("not a history")).is_empty());
    assert!(load_from_text(Some("")).is_empty());
    assert!(load_from_text(Some("[{\"broken\": true}]")).is_empty());
    assert!(load_from_text(Some("[]trailing")).is_empty());
}

#[test]
fn test_load_empty_array() {
    assert!(load_from_text(Some("[]")).is_empty());
    assert!(load_from_text(Some("  [ ]  ")).is_empty());
}

#[test]
fn test_append_then_load_adds_one() {
    let first = Unit::Cm.convert_record(&Unit::Inch, &dec(30, 0)).unwrap();
    let text = appended_history_text(None, first.clone());
    let loaded = load_from_text(Some(&text));
    assert_eq!(loaded.len(), 1);

    let second = Unit::Celsius
        .convert_record(&Unit::Kelvin, &dec(0, 0))
        .unwrap();
    let text2 = appended_history_text(Some(&text), second.clone());
    let loaded2 = load_from_text(Some(&text2));
    assert_eq!(loaded2.len(), 2);
    let last = &loaded2[1];
    assert_eq!(last.from, second.from);
    assert_eq!(last.to, second.to);
    assert_eq!(last.value, second.value);
    assert_eq!(last.result, second.result);
    assert_eq!(last.display_text, second.display_text);
}

#[test]
fn test_append_three_then_load_in_order() {
    let a = Unit::Celsius
        .convert_record(&Unit::Fahrenheit, &dec(0, 0))
        .unwrap();
    let b = Unit::Cm.convert_record(&Unit::Inch, &dec(30, 0)).unwrap();
    let c = Unit::Miles.convert_record(&Unit::Cm, &dec(10, 0)).unwrap();
    let t1 = appended_history_text(None, a.clone());
    let t2 = appended_history_text(Some(&t1), b.clone());
    let t3 = appended_history_text(Some(&t2), c.clone());
    let loaded = load_from_text(Some(&t3));
    assert_eq!(loaded.len(), 3);
    assert_eq!(loaded[0].display_text, a.display_text);
    assert_eq!(loaded[1].display_text, b.display_text);
    assert_eq!(loaded[2].display_text, c.display_text);
}

#[test]
fn test_history_round_trip_with_awkward_strings() {
    let record = ConversionRecord {
        from: "a \"quoted\" name".to_string(),
        to: "tabs\tand\nnewlines\\backslash".to_string(),
        value: dec(-45, 1),
        result: dec(0, 0),
        display_text: "odd € text".to_string(),
    };
    let text = appended_history_text(None, record.clone());
    let loaded = load_from_text(Some(&text));
    assert_eq!(loaded.len(), 1);
    assert_eq!(loaded[0].from, record.from);
    assert_eq!(loaded[0].to, record.to);
    assert_eq!(loaded[0].value, record.value);
    assert_eq!(loaded[0].result, record.result);
    assert_eq!(loaded[0].display_text, record.display_text);
}

#[test]
fn test_history_listing_output() {
    assert_eq!(history_listing(&Vec::new()), "Riwayat kosong.");
    let a = Unit::Celsius
        .convert_record(&Unit::Fahrenheit, &dec(0, 0))
        .unwrap();
    let b = Unit::Cm.convert_record(&Unit::Inch, &dec(30, 0)).unwrap();
    let listing = history_listing(&vec![a, b]);
    assert_eq!(
        listing,
        "Riwayat Konversi:\n1. 0 °C = 32 °F\n2. 30 cm = 11.811 inch"
    );
}

#[test]
fn test_scenario_celsius_fahrenheit_zero() {
    assert_eq!(
        Unit::Celsius.convert(&Unit::Fahrenheit, &dec(0, 0)).unwrap(),
        "0 °C = 32 °F"
    );
}

#[test]
fn test_scenario_celsius_kelvin_zero() {
    assert_eq!(
        Unit::Celsius.convert(&Unit::Kelvin, &dec(0, 0)).unwrap(),
        "0 °C = 273 K"
    );
}

#[test]
fn test_dec_from_input_accepts_plain_decimals() {
    assert_eq!(dec_from_input("30"), Some(dec(30, 0)));
    assert_eq!(dec_from_input("0.5"), Some(dec(5, 1)));
    assert_eq!(dec_from_input("2.4"), Some(dec(24, 1)));
    assert_eq!(dec_from_input("-4.50"), Some(dec(-45, 1)));
    assert_eq!(dec_from_input("-0"), Some(dec(0, 0)));
    assert_eq!(dec_from_input("007"), Some(dec(7, 0)));
}

#[test]
fn test_dec_from_input_rejects_other_text() {
    assert_eq!(dec_from_input(""), None);
    assert_eq!(dec_from_input("abc"), None);
    assert_eq!(dec_from_input("1.2.3"), None);
    assert_eq!(dec_from_input("1e5"), None);
    assert_eq!(dec_from_input("."), None);
    assert_eq!(dec_from_input("--1"), None);
    assert_eq!(dec_from_input("10000000000000000000"), None);
}
