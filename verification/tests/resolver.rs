use weathercast::codec::encode_record;
use weathercast::record::ConditionObservation;
use weathercast::record::DailyForecast;
use weathercast::record::ForecastRecord;
use weathercast::record::Temperature;
use weathercast::record::TemperatureValue;
use weathercast::resolver::after_fetch;
use weathercast::resolver::consult_cache;
use weathercast::resolver::CacheDecision;
use weathercast::resolver::CacheLookup;
use weathercast::resolver::FetchDecision;
use weathercast::resolver::FetchOutcome;

fn sample_record() -> ForecastRecord {
    ForecastRecord {
        headline: String::from("Lluvias dispersas"),
        daily_forecasts: vec![DailyForecast {
            date: String::from("2024-01-05T07:00:00-03:00"),
            day: ConditionObservation { icon: 12, icon_phrase: String::from("Chubascos") },
            night: ConditionObservation { icon: 34, icon_phrase: String::from("Claro") },
            temperature: Temperature {
                minimum: TemperatureValue {
                    value_tenths: 155,
                    unit: String::from("C"),
                    unit_type: 17,
                },
                maximum: TemperatureValue {
                    value_tenths: 301,
                    unit: String::from("C"),
                    unit_type: 17,
                },
            },
            link: String::from("http://example.org/forecast/67890"),
        }],
    }
}

#[test]
fn present_wellformed_artifact_is_served_without_fetch() {
    let record = sample_record();
    let artifact = encode_record(&record);
    match consult_cache(CacheLookup::Present(artifact)) {
        CacheDecision::UseCached(rec) => {
            assert_eq!(rec.headline, "Lluvias dispersas");
            assert_eq!(rec.daily_forecasts[0].day.icon, 12);
        },
        CacheDecision::Fetch => panic!("provider must not be consulted on a cache hit"),
        CacheDecision::Corrupt(_) => panic!("a stored artifact must read back"),
    }
}

#[test]
fn absent_artifact_asks_for_a_fetch() {
    assert!(matches!(consult_cache(CacheLookup::Absent), CacheDecision::Fetch));
}

#[test]
fn corrupt_artifact_is_fatal_not_masked_by_a_refetch() {
    let lookup = CacheLookup::Present(String::from("{\"Headline\":17}"));
    assert!(matches!(consult_cache(lookup), CacheDecision::Corrupt(_)));
}

#[test]
fn failed_fetch_skips_the_city_and_the_batch_goes_on() {
    assert!(matches!(after_fetch(FetchOutcome::Failed), FetchDecision::SkipWithNotice));
}

#[test]
fn successful_fetch_stores_one_artifact_under_the_key() {
    let record = sample_record();
    let expected = encode_record(&record);
    match after_fetch(FetchOutcome::Fetched(sample_record())) {
        FetchDecision::StoreAndRender(artifact, rec) => {
            assert_eq!(artifact, expected);
            assert_eq!(rec.headline, "Lluvias dispersas");
            match consult_cache(CacheLookup::Present(artifact)) {
                CacheDecision::UseCached(again) => {
                    assert_eq!(again.headline, rec.headline);
                },
                _ => panic!("the stored artifact must be served on the next lookup"),
            }
        },
        FetchDecision::SkipWithNotice => panic!("a well-formed response must be stored"),
    }
}

#[test]
fn unencodable_response_is_skipped_with_a_notice() {
    let mut record = sample_record();
    record.headline = String::from("a \"quoted\" headline");
    assert!(matches!(
        after_fetch(FetchOutcome::Fetched(record)),
        FetchDecision::SkipWithNotice
    ));
}
