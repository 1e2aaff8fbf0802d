//! The forecast data model, held as plain values: text fields as strings,
//! condition codes as integers, temperatures as signed tenths of a degree.
//! Each type has a mathematical view and a well-formedness predicate that
//! the artifact codec works over.

use vstd::prelude::*;

verus! {

/// A character that may appear in a text field of a record: anything but a
/// double quote, a backslash, or a control character, so that text fields
/// embed in the artifact verbatim.
pub open spec fn plain_char(c: char) -> bool {
    c != '"' && c != '\\' && c as u32 >= 32
}

/// Every character of `s` is plain.
pub open spec fn plain_seq(s: Seq<char>) -> bool {
    forall|i: int| 0 <= i < s.len() ==> #[trigger] plain_char(s[i])
}

/// View of a condition observation: the numeric icon code and its phrase.
pub ghost struct CondV {
    pub icon: int,
    pub phrase: Seq<char>,
}

impl CondV {
    pub open spec fn wf(self) -> bool {
        &&& -0x8000_0000 <= self.icon <= 0x7fff_ffff
        &&& plain_seq(self.phrase)
    }
}

/// View of one temperature bound: tenths of a degree with unit name and code.
pub ghost struct TempValueV {
    pub tenths: int,
    pub unit: Seq<char>,
    pub unit_type: int,
}

impl TempValueV {
    pub open spec fn wf(self) -> bool {
        &&& -0x7fff_ffff_ffff_ffff <= self.tenths <= 0x7fff_ffff_ffff_ffff
        &&& plain_seq(self.unit)
        &&& 0 <= self.unit_type <= 0xffff_ffff
    }
}

/// View of a day's temperature range.
pub ghost struct TempRangeV {
    pub minimum: TempValueV,
    pub maximum: TempValueV,
}

impl TempRangeV {
    pub open spec fn wf(self) -> bool {
        self.minimum.wf() && self.maximum.wf()
    }
}

/// View of one daily forecast.
pub ghost struct DailyV {
    pub date: Seq<char>,
    pub day: CondV,
    pub night: CondV,
    pub temperature: TempRangeV,
    pub link: Seq<char>,
}

impl DailyV {
    pub open spec fn wf(self) -> bool {
        &&& plain_seq(self.date)
        &&& self.day.wf()
        &&& self.night.wf()
        &&& self.temperature.wf()
        &&& plain_seq(self.link)
    }
}

/// View of a whole forecast record: the headline and at least one daily
/// forecast, in order.
pub ghost struct RecordV {
    pub headline: Seq<char>,
    pub dailies: Seq<DailyV>,
}

impl RecordV {
    pub open spec fn wf(self) -> bool {
        &&& plain_seq(self.headline)
        &&& self.dailies.len() >= 1
        &&& forall|i: int| 0 <= i < self.dailies.len() ==> (#[trigger] self.dailies[i]).wf()
    }
}

/// A condition observation: the provider's numeric icon code and free-text
/// phrase.
pub struct ConditionObservation {
    pub icon: i32,
    pub icon_phrase: String,
}

impl View for ConditionObservation {
    type V = CondV;

    open spec fn view(&self) -> CondV {
        CondV { icon: self.icon as int, phrase: self.icon_phrase@ }
    }
}

/// One temperature bound, in tenths of a degree of the named unit.
pub struct TemperatureValue {
    pub value_tenths: i64,
    pub unit: String,
    pub unit_type: u32,
}

impl View for TemperatureValue {
    type V = TempValueV;

    open spec fn view(&self) -> TempValueV {
        TempValueV {
            tenths: self.value_tenths as int,
            unit: self.unit@,
            unit_type: self.unit_type as int,
        }
    }
}

/// The temperature range of one day.
pub struct Temperature {
    pub minimum: TemperatureValue,
    pub maximum: TemperatureValue,
}

impl View for Temperature {
    type V = TempRangeV;

    open spec fn view(&self) -> TempRangeV {
        TempRangeV { minimum: self.minimum@, maximum: self.maximum@ }
    }
}

/// One daily forecast: its provider-native date string, day and night
/// observations, temperature range, and a link with more detail.
pub struct DailyForecast {
    pub date: String,
    pub day: ConditionObservation,
    pub night: ConditionObservation,
    pub temperature: Temperature,
    pub link: String,
}

impl View for DailyForecast {
    type V = DailyV;

    open spec fn view(&self) -> DailyV {
        DailyV {
            date: self.date@,
            day: self.day@,
            night: self.night@,
            temperature: self.temperature@,
            link: self.link@,
        }
    }
}

/// The view of a vector of daily forecasts.
pub open spec fn dailies_view(v: Seq<DailyForecast>) -> Seq<DailyV> {
    v.map_values(|d: DailyForecast| d@)
}

/// A forecast record: the headline and one-or-more daily forecasts.
pub struct ForecastRecord {
    pub headline: String,
    pub daily_forecasts: Vec<DailyForecast>,
}

impl View for ForecastRecord {
    type V = RecordV;

    open spec fn view(&self) -> RecordV {
        RecordV { headline: self.headline@, dailies: dailies_view(self.daily_forecasts@) }
    }
}

/// Checks that every character of `s` is plain.
pub fn is_plain_str(s: &str) -> (r: bool)
    ensures
        r == plain_seq(s@),
{
    let len = s.unicode_len();
    let mut i: usize = 0;
    while i < len
        invariant
            len == s@.len(),
            i <= len,
            forall|j: int| 0 <= j < i ==> #[trigger] plain_char(s@[j]),
        decreases len - i,
    {
        let c = s.get_char(i);
        if c == '"' || c == '\\' || (c as u32) < 32 {
            assert(!plain_char(s@[i as int]));
            return false;
        }
        i += 1;
    }
    true
}

impl ConditionObservation {
    fn is_wf(&self) -> (r: bool)
        ensures
            r == self@.wf(),
    {
        is_plain_str(self.icon_phrase.as_str())
    }
}

impl TemperatureValue {
    fn is_wf(&self) -> (r: bool)
        ensures
            r == self@.wf(),
    {
        self.value_tenths != -0x8000_0000_0000_0000i64 && is_plain_str(self.unit.as_str())
    }
}

impl DailyForecast {
    fn is_wf(&self) -> (r: bool)
        ensures
            r == self@.wf(),
    {
        is_plain_str(self.date.as_str()) && self.day.is_wf() && self.night.is_wf()
            && self.temperature.minimum.is_wf() && self.temperature.maximum.is_wf()
            && is_plain_str(self.link.as_str())
    }
}

impl ForecastRecord {
    /// Checks the record's well-formedness: plain text fields, a temperature
    /// magnitude that fits, and at least one daily forecast.
    pub fn is_wf(&self) -> (r: bool)
        ensures
            r == self@.wf(),
    {
        if !is_plain_str(self.headline.as_str()) {
            return false;
        }
        if self.daily_forecasts.len() == 0 {
            return false;
        }
        let mut i: usize = 0;
        while i < self.daily_forecasts.len()
            invariant
                i <= self.daily_forecasts@.len(),
                forall|j: int| 0 <= j < i ==> (#[trigger] dailies_view(self.daily_forecasts@)[j]).wf(),
            decreases self.daily_forecasts@.len() - i,
            {
            if !self.daily_forecasts[i].is_wf() {
                assert(!dailies_view(self.daily_forecasts@)[i as int].wf());
                return false;
            }
            i += 1;
        }
        true
    }
}

} // verus!
