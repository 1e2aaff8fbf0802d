use weathercast::codec::decode_record;
use weathercast::codec::encode_record;
use weathercast::record::ConditionObservation;
use weathercast::record::DailyForecast;
use weathercast::record::ForecastRecord;
use weathercast::record::Temperature;
use weathercast::record::TemperatureValue;

fn sample_daily() -> DailyForecast {
    DailyForecast {
        date: String::from("2024-01-05T07:00:00-03:00"),
        day: ConditionObservation { icon: 4, icon_phrase: String::from("Soleado") },
        night: ConditionObservation { icon: 33, icon_phrase: String::from("Despejado") },
        temperature: Temperature {
            minimum: TemperatureValue {
                value_tenths: -123,
                unit: String::from("C"),
                unit_type: 17,
            },
            maximum: TemperatureValue {
                value_tenths: 228,
                unit: String::from("C"),
                unit_type: 17,
            },
        },
        link: String::from("http://example.org/forecast/12345"),
    }
}

fn sample_record() -> ForecastRecord {
    ForecastRecord {
        headline: String::from("Soleado y agradable"),
        daily_forecasts: vec![sample_daily()],
    }
}

const SAMPLE_ARTIFACT: &str = "{\"Headline\":{\"Text\":\"Soleado y agradable\"},\"DailyForecasts\":[{\"Date\":\"2024-01-05T07:00:00-03:00\",\"Day\":{\"Icon\":4,\"IconPhrase\":\"Soleado\"},\"Night\":{\"Icon\":33,\"IconPhrase\":\"Despejado\"},\"Temperature\":{\"Minimum\":{\"Value\":-12.3,\"Unit\":\"C\",\"UnitType\":17},\"Maximum\":{\"Value\":22.8,\"Unit\":\"C\",\"UnitType\":17}},\"Link\":\"http://example.org/forecast/12345\"}]}";

fn assert_same_record(a: &ForecastRecord, b: &ForecastRecord) {
    assert_eq!(a.headline, b.headline);
    assert_eq!(a.daily_forecasts.len(), b.daily_forecasts.len());
    for (da, db) in a.daily_forecasts.iter().zip(b.daily_forecasts.iter()) {
        assert_eq!(da.date, db.date);
        assert_eq!(da.day.icon, db.day.icon);
        assert_eq!(da.day.icon_phrase, db.day.icon_phrase);
        assert_eq!(da.night.icon, db.night.icon);
        assert_eq!(da.night.icon_phrase, db.night.icon_phrase);
        assert_eq!(da.temperature.minimum.value_tenths, db.temperature.minimum.value_tenths);
        assert_eq!(da.temperature.minimum.unit, db.temperature.minimum.unit);
        assert_eq!(da.temperature.minimum.unit_type, db.temperature.minimum.unit_type);
        assert_eq!(da.temperature.maximum.value_tenths, db.temperature.maximum.value_tenths);
        assert_eq!(da.temperature.maximum.unit, db.temperature.maximum.unit);
        assert_eq!(da.temperature.maximum.unit_type, db.temperature.maximum.unit_type);
        assert_eq!(da.link, db.link);
    }
}

#[test]
fn encode_writes_the_wire_schema() {
    let artifact = encode_record(&sample_record());
    assert_eq!(artifact, SAMPLE_ARTIFACT);
}

#[test]
fn decode_reads_the_wire_schema() {
    let rec = decode_record(SAMPLE_ARTIFACT).unwrap();
    assert_same_record(&rec, &sample_record());
}

#[test]
fn round_trip_reconstructs_the_record() {
    let original = sample_record();
    let artifact = encode_record(&original);
    let reloaded = decode_record(artifact.as_str()).unwrap();
    assert_same_record(&reloaded, &original);
}

#[test]
fn round_trip_keeps_several_dailies_in_order() {
    let mut second = sample_daily();
    second.date = String::from("2024-01-06T07:00:00-03:00");
    second.day.icon = 22;
    second.temperature.minimum.value_tenths = -7;
    second.temperature.maximum.value_tenths = 0;
    let original = ForecastRecord {
        headline: String::from("Nubes y claros"),
        daily_forecasts: vec![sample_daily(), second],
    };
    let artifact = encode_record(&original);
    let reloaded = decode_record(artifact.as_str()).unwrap();
    assert_same_record(&reloaded, &original);
    assert_eq!(reloaded.daily_forecasts[1].date, "2024-01-06T07:00:00-03:00");
}

#[test]
fn round_trip_keeps_unicode_text() {
    let mut rec = sample_record();
    rec.headline = String::from("Máxima nubosidad, 100% humedad");
    let artifact = encode_record(&rec);
    let reloaded = decode_record(artifact.as_str()).unwrap();
    assert_eq!(reloaded.headline, "Máxima nubosidad, 100% humedad");
}

#[test]
fn decode_rejects_malformed_artifacts() {
    assert!(decode_record("").is_err());
    assert!(decode_record("{}").is_err());
    assert!(decode_record("not json at all").is_err());
    assert!(decode_record("{\"Headline\":{\"Text\":\"hi\"},\"DailyForecasts\":[]}").is_err());
    let truncated = &SAMPLE_ARTIFACT[..SAMPLE_ARTIFACT.len() - 2];
    assert!(decode_record(truncated).is_err());
    let trailing = format!("{} ", SAMPLE_ARTIFACT);
    assert!(decode_record(trailing.as_str()).is_err());
    let leading_zero = SAMPLE_ARTIFACT.replace("\"Icon\":4", "\"Icon\":04");
    assert!(decode_record(leading_zero.as_str()).is_err());
    let negative_zero = SAMPLE_ARTIFACT.replace("\"Value\":-12.3", "\"Value\":-0.0");
    assert!(decode_record(negative_zero.as_str()).is_err());
}

#[test]
fn is_wf_rejects_text_the_artifact_cannot_hold() {
    let good = sample_record();
    assert!(good.is_wf());
    let mut with_quote = sample_record();
    with_quote.headline = String::from("a \"quoted\" headline");
    assert!(!with_quote.is_wf());
    let mut with_backslash = sample_record();
    with_backslash.daily_forecasts[0].link = String::from("http:\\\\example.org");
    assert!(!with_backslash.is_wf());
    let mut empty_dailies = sample_record();
    empty_dailies.daily_forecasts = vec![];
    assert!(!empty_dailies.is_wf());
}
