use weathercast::provider::build_request_url;

#[test]
fn request_url_carries_code_credential_units_and_locale() {
    let url = build_request_url("308526", "SECRET-REDACTED");
    assert_eq!(
        url,
        "http://dataservice.accuweather.com/forecasts/v1/daily/1day/308526?apikey=SECRET-REDACTED&language=es-ES&metric=true"
    );
}
