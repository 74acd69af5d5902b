//! The chart-metadata document model and the record builder.
//!
//! A fetched metadata document is a four-level hierarchy: state (the
//! jurisdiction), city, airport, chart. The builder walks it, filters by a
//! jurisdiction allow-list, classifies each chart's raw type code into a
//! closed enumeration, and produces one `ChartRecord` per chart with a
//! deterministic identity, all stamped with the run's current cycle.

use vstd::prelude::*;
use vstd::string::*;

use crate::cycle::Airac;
use crate::dates::Date;
use crate::dates::digit_char;
use crate::dates::digit_str;
use crate::dates::format_date;
use crate::dates::format_date_spec;
use crate::dates::valid_date;

verus! {

/// One chart entry of the document.
pub struct Chart {
    pub chart_code: String,
    pub chart_name: String,
    pub pdf_name: String,
}

/// One airport of the document; the public identifier and the chart list may
/// both be missing.
pub struct Airport {
    pub id: String,
    pub apt_ident: Option<String>,
    pub records: Option<Vec<Chart>>,
}

pub struct City {
    pub id: String,
    pub airports: Vec<Airport>,
}

pub struct State {
    pub id: String,
    pub city_names: Vec<City>,
}

/// The whole parsed metadata document.
pub struct DigitalTpp {
    pub state_codes: Vec<State>,
}

/// The closed classification of raw chart-type codes.
#[derive(Clone, Copy, Debug, PartialEq, Eq, Structural)]
pub enum ChartType {
    Dp,
    Star,
    Iap,
    Other,
}

pub open spec fn classify_spec(code: Seq<char>) -> ChartType {
    if code == "DP"@ {
        ChartType::Dp
    } else if code == "STAR"@ {
        ChartType::Star
    } else if code == "IAP"@ {
        ChartType::Iap
    } else {
        ChartType::Other
    }
}

pub open spec fn type_code_spec(t: ChartType) -> Seq<char> {
    match t {
        ChartType::Dp => "DP"@,
        ChartType::Star => "STAR"@,
        ChartType::Iap => "IAP"@,
        ChartType::Other => "OTHER"@,
    }
}

/// Character-by-character string equality, decided without any trust.
pub fn str_eq(a: &str, b: &str) -> (r: bool)
    ensures
        r == (a@ == b@),
{
    let la: usize = a.unicode_len();
    let lb: usize = b.unicode_len();
    if la != lb {
        return false;
    }
    let mut i: usize = 0;
    while i < la
        invariant
            a@.len() == la == lb == b@.len(),
            0 <= i <= la,
            forall|j: int| 0 <= j < i ==> a@[j] == b@[j],
        decreases la - i,
    {
        if a.get_char(i) != b.get_char(i) {
            return false;
        }
        i = i + 1;
    }
    proof {
        assert(a@ =~= b@);
    }
    true
}

/// Maps a raw chart-type code into the closed enumeration; anything but the
/// three known codes is `Other`.
pub fn classify(code: &str) -> (t: ChartType)
    ensures
        t == classify_spec(code@),
{
    if str_eq(code, "DP") {
        ChartType::Dp
    } else if str_eq(code, "STAR") {
        ChartType::Star
    } else if str_eq(code, "IAP") {
        ChartType::Iap
    } else {
        ChartType::Other
    }
}

impl ChartType {
    /// The code under which this type is persisted.
    pub fn code(&self) -> (r: String)
        ensures
            r@ == type_code_spec(*self),
    {
        match self {
            ChartType::Dp => String::from_str("DP"),
            ChartType::Star => String::from_str("STAR"),
            ChartType::Iap => String::from_str("IAP"),
            ChartType::Other => String::from_str("OTHER"),
        }
    }
}

/// One persisted chart row.
pub struct ChartRecord {
    pub identity: String,
    pub airport_id: String,
    pub cycle: u16,
    pub from_date: String,
    pub to_date: String,
    pub chart_code: String,
    pub chart_name: String,
    pub chart_url: String,
}

impl ChartRecord {
    /// A field-by-field copy.
    pub fn clone_record(&self) -> (r: ChartRecord)
        ensures
            r@ == self@,
    {
        ChartRecord {
            identity: self.identity.clone(),
            airport_id: self.airport_id.clone(),
            cycle: self.cycle,
            from_date: self.from_date.clone(),
            to_date: self.to_date.clone(),
            chart_code: self.chart_code.clone(),
            chart_name: self.chart_name.clone(),
            chart_url: self.chart_url.clone(),
        }
    }
}

/// The mathematical image of a `ChartRecord`.
pub ghost struct RecordModel {
    pub identity: Seq<char>,
    pub airport_id: Seq<char>,
    pub cycle: int,
    pub from_date: Seq<char>,
    pub to_date: Seq<char>,
    pub chart_code: Seq<char>,
    pub chart_name: Seq<char>,
    pub chart_url: Seq<char>,
}

impl View for ChartRecord {
    type V = RecordModel;

    open spec fn view(&self) -> RecordModel {
        RecordModel {
            identity: self.identity@,
            airport_id: self.airport_id@,
            cycle: self.cycle as int,
            from_date: self.from_date@,
            to_date: self.to_date@,
            chart_code: self.chart_code@,
            chart_name: self.chart_name@,
            chart_url: self.chart_url@,
        }
    }
}

/// Decimal digits of a nonnegative number, no padding.
pub open spec fn dec_str(v: int) -> Seq<char>
    decreases v,
{
    if v < 10 {
        seq![digit_char(v)]
    } else {
        dec_str(v / 10) + seq![digit_char(v % 10)]
    }
}

/// The deterministic composite identity of a chart: stable across runs so
/// that re-ingesting the same chart updates rather than duplicates its row.
pub open spec fn identity_spec(apt: Seq<char>, tcode: Seq<char>, name: Seq<char>) -> Seq<char> {
    "FAA-"@ + apt + "-"@ + tcode + "-"@ + name
}

/// Where the chart's document lives, keyed by the cycle code.
pub open spec fn url_spec(cycle: int, pdf: Seq<char>) -> Seq<char> {
    "https://aeronav.faa.gov/d-tpp/"@ + dec_str(cycle) + "/"@ + pdf
}

/// No separator character occurs in the sequence.
pub open spec fn dash_free(s: Seq<char>) -> bool {
    forall|i: int| 0 <= i < s.len() ==> s[i] != '-'
}

/// A dash-free segment followed by a separator reads back uniquely.
proof fn lemma_dash_segment(a1: Seq<char>, r1: Seq<char>, a2: Seq<char>, r2: Seq<char>)
    requires
        dash_free(a1),
        dash_free(a2),
        a1 + seq!['-'] + r1 == a2 + seq!['-'] + r2,
    ensures
        a1 == a2,
        r1 == r2,
{
    let s1 = a1 + seq!['-'] + r1;
    let s2 = a2 + seq!['-'] + r2;
    if a1.len() < a2.len() {
        assert(s1[a1.len() as int] == '-');
        assert(s2[a1.len() as int] == a2[a1.len() as int]);
        assert(false);
    }
    if a2.len() < a1.len() {
        assert(s2[a2.len() as int] == '-');
        assert(s1[a2.len() as int] == a1[a2.len() as int]);
        assert(false);
    }
    assert forall|i: int| 0 <= i < a1.len() implies a1[i] == a2[i] by {
        assert(s1[i] == a1[i] && s2[i] == a2[i]);
    }
    assert(a1 =~= a2);
    assert(s1.len() == s2.len());
    assert forall|i: int| 0 <= i < r1.len() implies r1[i] == r2[i] by {
        assert(s1[a1.len() + 1 + i] == r1[i] && s2[a2.len() + 1 + i] == r2[i]);
    }
    assert(r1 =~= r2);
}

/// The closed type codes contain no separator, and no two share a length.
proof fn lemma_type_code_shape(t: ChartType)
    ensures
        dash_free(type_code_spec(t)),
        type_code_spec(t).len() == match t {
            ChartType::Dp => 2int,
            ChartType::Iap => 3int,
            ChartType::Star => 4int,
            ChartType::Other => 5int,
        },
{
    reveal_strlit("DP");
    reveal_strlit("STAR");
    reveal_strlit("IAP");
    reveal_strlit("OTHER");
}

/// Distinct (facility, chart type, chart name) triples yield distinct
/// identities, provided facility identifiers contain no `-`. Chart names
/// are unconstrained: the type code before them comes from the closed set,
/// whose members contain no `-` and differ pairwise in length.
pub proof fn lemma_identity_injective(
    apt1: Seq<char>,
    t1: ChartType,
    name1: Seq<char>,
    apt2: Seq<char>,
    t2: ChartType,
    name2: Seq<char>,
)
    requires
        dash_free(apt1),
        dash_free(apt2),
        identity_spec(apt1, type_code_spec(t1), name1) == identity_spec(
            apt2,
            type_code_spec(t2),
            name2,
        ),
    ensures
        apt1 == apt2,
        t1 == t2,
        name1 == name2,
{
    reveal_strlit("FAA-");
    reveal_strlit("-");
    let tc1 = type_code_spec(t1);
    let tc2 = type_code_spec(t2);
    lemma_type_code_shape(t1);
    lemma_type_code_shape(t2);
    let s1 = identity_spec(apt1, tc1, name1);
    let s2 = identity_spec(apt2, tc2, name2);
    let u1 = apt1 + seq!['-'] + (tc1 + seq!['-'] + name1);
    let u2 = apt2 + seq!['-'] + (tc2 + seq!['-'] + name2);
    assert(s1 =~= "FAA-"@ + u1);
    assert(s2 =~= "FAA-"@ + u2);
    assert forall|i: int| 0 <= i < u1.len() implies u1[i] == s1[4 + i] by {
        assert(("FAA-"@ + u1)[4 + i] == u1[i]);
    }
    assert forall|i: int| 0 <= i < u2.len() implies u2[i] == s2[4 + i] by {
        assert(("FAA-"@ + u2)[4 + i] == u2[i]);
    }
    assert(u1 =~= u2);
    lemma_dash_segment(apt1, tc1 + seq!['-'] + name1, apt2, tc2 + seq!['-'] + name2);
    lemma_dash_segment(tc1, name1, tc2, name2);
    if t1 != t2 {
        assert(tc1.len() != tc2.len());
        assert(false);
    }
}

/// Everything of the run that stamping a record needs: the allow-list and
/// the current cycle's code and date strings.
pub ghost struct BuildCtx {
    pub allow: Seq<Seq<char>>,
    pub cycle: int,
    pub from_date: Seq<char>,
    pub to_date: Seq<char>,
}

pub open spec fn built_record(ctx: BuildCtx, apt: Seq<char>, c: Chart) -> RecordModel {
    let t = type_code_spec(classify_spec(c.chart_code@));
    RecordModel {
        identity: identity_spec(apt, t, c.chart_name@),
        airport_id: apt,
        cycle: ctx.cycle,
        from_date: ctx.from_date,
        to_date: ctx.to_date,
        chart_code: t,
        chart_name: c.chart_name@,
        chart_url: url_spec(ctx.cycle, c.pdf_name@),
    }
}

/// A jurisdiction is taken when its code is on the allow-list, or the
/// wildcard "ALL" is.
pub open spec fn state_allowed(ctx: BuildCtx, id: Seq<char>) -> bool {
    ctx.allow.contains(id) || ctx.allow.contains("ALL"@)
}

/// An airport is processed only with a public identifier and at least one
/// chart record; anything less is skipped and not counted.
pub open spec fn airport_usable(a: Airport) -> bool {
    a.apt_ident is Some && a.records is Some && a.records->Some_0@.len() > 0
}

pub open spec fn recs_of_charts(ctx: BuildCtx, apt: Seq<char>, cs: Seq<Chart>) -> Seq<RecordModel> {
    cs.map_values(|c: Chart| built_record(ctx, apt, c))
}

pub open spec fn recs_of_airport(ctx: BuildCtx, a: Airport) -> Seq<RecordModel> {
    if airport_usable(a) {
        recs_of_charts(ctx, a.apt_ident->Some_0@, a.records->Some_0@)
    } else {
        Seq::empty()
    }
}

pub open spec fn recs_of_airports(ctx: BuildCtx, s: Seq<Airport>) -> Seq<RecordModel>
    decreases s.len(),
{
    if s.len() == 0 {
        Seq::empty()
    } else {
        recs_of_airports(ctx, s.drop_last()) + recs_of_airport(ctx, s.last())
    }
}

pub open spec fn recs_of_city(ctx: BuildCtx, c: City) -> Seq<RecordModel> {
    recs_of_airports(ctx, c.airports@)
}

pub open spec fn recs_of_cities(ctx: BuildCtx, s: Seq<City>) -> Seq<RecordModel>
    decreases s.len(),
{
    if s.len() == 0 {
        Seq::empty()
    } else {
        recs_of_cities(ctx, s.drop_last()) + recs_of_city(ctx, s.last())
    }
}

pub open spec fn recs_of_state(ctx: BuildCtx, s: State) -> Seq<RecordModel> {
    if state_allowed(ctx, s.id@) {
        recs_of_cities(ctx, s.city_names@)
    } else {
        Seq::empty()
    }
}

pub open spec fn recs_of_states(ctx: BuildCtx, s: Seq<State>) -> Seq<RecordModel>
    decreases s.len(),
{
    if s.len() == 0 {
        Seq::empty()
    } else {
        recs_of_states(ctx, s.drop_last()) + recs_of_state(ctx, s.last())
    }
}

/// All records the document yields for this run, in document order.
pub open spec fn doc_records(ctx: BuildCtx, doc: DigitalTpp) -> Seq<RecordModel> {
    recs_of_states(ctx, doc.state_codes@)
}

pub open spec fn count_of_airports(s: Seq<Airport>) -> int
    decreases s.len(),
{
    if s.len() == 0 {
        0
    } else {
        count_of_airports(s.drop_last()) + if airport_usable(s.last()) {
            1int
        } else {
            0int
        }
    }
}

pub open spec fn count_of_cities(s: Seq<City>) -> int
    decreases s.len(),
{
    if s.len() == 0 {
        0
    } else {
        count_of_cities(s.drop_last()) + count_of_airports(s.last().airports@)
    }
}

pub open spec fn count_of_state(ctx: BuildCtx, s: State) -> int {
    if state_allowed(ctx, s.id@) {
        count_of_cities(s.city_names@)
    } else {
        0
    }
}

pub open spec fn count_of_states(ctx: BuildCtx, s: Seq<State>) -> int
    decreases s.len(),
{
    if s.len() == 0 {
        0
    } else {
        count_of_states(ctx, s.drop_last()) + count_of_state(ctx, s.last())
    }
}

/// How many airports the run processes: those of allowed jurisdictions that
/// have both an identifier and at least one chart record.
pub open spec fn doc_airport_count(ctx: BuildCtx, doc: DigitalTpp) -> int {
    count_of_states(ctx, doc.state_codes@)
}

/// An airport with no public identifier, or no chart list at all, or an
/// empty one, contributes no records and does not count as processed.
pub proof fn lemma_unusable_airport_contributes_nothing(ctx: BuildCtx, a: Airport)
    requires
        a.apt_ident is None || a.records is None || (a.records is Some
            && a.records->Some_0@.len() == 0),
    ensures
        recs_of_airport(ctx, a) =~= Seq::<RecordModel>::empty(),
        !airport_usable(a),
{
}

fn dec_string(v: u16) -> (r: String)
    ensures
        r@ == dec_str(v as int),
    decreases v,
{
    if v < 10 {
        String::from_str(digit_str(v as i64))
    } else {
        let mut s = dec_string(v / 10);
        s.append(digit_str((v % 10) as i64));
        s
    }
}

fn allow_contains(states: &Vec<String>, id: &str) -> (r: bool)
    ensures
        r == states@.map_values(|s: String| s@).contains(id@),
{
    let mut i: usize = 0;
    while i < states.len()
        invariant
            0 <= i <= states@.len(),
            forall|j: int| 0 <= j < i ==> #[trigger] states@[j]@ != id@,
        decreases states@.len() - i,
    {
        if str_eq(states[i].as_str(), id) {
            proof {
                assert(states@.map_values(|s: String| s@)[i as int] == id@);
            }
            return true;
        }
        i = i + 1;
    }
    proof {
        let ghost ms = states@.map_values(|s: String| s@);
        if ms.contains(id@) {
            let j = choose|j: int| 0 <= j < ms.len() && ms[j] == id@;
            assert(ms[j] == states@[j]@);
            assert(false);
        }
    }
    false
}

/// Builds one record for one chart of a usable airport.
fn build_one(
    apt: &String,
    cycle_code: u16,
    cycle_str: &String,
    from_date: &String,
    to_date: &String,
    chart: &Chart,
) -> (r: ChartRecord)
    requires
        cycle_str@ == dec_str(cycle_code as int),
    ensures
        r@ == built_record(
            BuildCtx {
                allow: Seq::empty(),
                cycle: cycle_code as int,
                from_date: from_date@,
                to_date: to_date@,
            },
            apt@,
            *chart,
        ),
{
    let t: ChartType = classify(chart.chart_code.as_str());
    let tstr: String = t.code();
    let mut identity: String = String::from_str("FAA-");
    identity.append(apt.as_str());
    identity.append("-");
    identity.append(tstr.as_str());
    identity.append("-");
    identity.append(chart.chart_name.as_str());
    let mut url: String = String::from_str("https://aeronav.faa.gov/d-tpp/");
    url.append(cycle_str.as_str());
    url.append("/");
    url.append(chart.pdf_name.as_str());
    ChartRecord {
        identity,
        airport_id: apt.clone(),
        cycle: cycle_code,
        from_date: from_date.clone(),
        to_date: to_date.clone(),
        chart_code: tstr,
        chart_name: chart.chart_name.clone(),
        chart_url: url,
    }
}

/// The run's build context as determined by the allow-list and cycle.
pub open spec fn ctx_of(states: Seq<String>, cycle: Airac) -> BuildCtx {
    BuildCtx {
        allow: states.map_values(|s: String| s@),
        cycle: cycle.code as int,
        from_date: format_date_spec(cycle.start),
        to_date: format_date_spec(cycle.end),
    }
}

/// Walks the document and builds every chart record the run should persist,
/// in document order, together with the chart and airport counts.
pub fn build_chart_records(doc: &DigitalTpp, states: &Vec<String>, cycle: &Airac) -> (r: (
    Vec<ChartRecord>,
    usize,
    usize,
))
    requires
        valid_date(cycle.start),
        valid_date(cycle.end),
        doc_airport_count(ctx_of(states@, *cycle), *doc) <= usize::MAX,
    ensures
        r.0@.map_values(|c: ChartRecord| c@) == doc_records(ctx_of(states@, *cycle), *doc),
        r.1 == r.0@.len(),
        r.2 == doc_airport_count(ctx_of(states@, *cycle), *doc),
{
    let ghost ctx = ctx_of(states@, *cycle);
    let cycle_str: String = dec_string(cycle.code);
    let from_date: String = format_date(&cycle.start);
    let to_date: String = format_date(&cycle.end);
    let mut out: Vec<ChartRecord> = Vec::new();
    let mut airport_count: usize = 0;
    let sts = &doc.state_codes;
    let mut si: usize = 0;
    proof {
        lemma_count_states_split(ctx, sts@, 0);
        lemma_count_states_from_nonneg(ctx, sts@, 0);
        assert(sts@.take(0) =~= Seq::<State>::empty());
        assert(out@.map_values(|c: ChartRecord| c@) =~= Seq::<RecordModel>::empty());
    }
    while si < sts.len()
        invariant
            0 <= si <= sts@.len(),
            sts@ == doc.state_codes@,
            out@.map_values(|c: ChartRecord| c@) == recs_of_states(ctx, sts@.take(si as int)),
            airport_count == count_of_states(ctx, sts@.take(si as int)),
            count_of_states(ctx, sts@.take(si as int)) + count_of_states_from(ctx, sts@, si as int)
                == doc_airport_count(ctx, *doc),
            count_of_states_from(ctx, sts@, si as int) >= 0,
            doc_airport_count(ctx, *doc) <= usize::MAX,
            ctx == ctx_of(states@, *cycle),
            cycle_str@ == dec_str(cycle.code as int),
            from_date@ == ctx.from_date,
            to_date@ == ctx.to_date,
        decreases sts@.len() - si,
    {
        let st = &sts[si];
        proof {
            lemma_take_one_more_state(ctx, sts@, si as int);
            lemma_count_states_from_step(ctx, sts@, si as int);
        }
        let take_state: bool = allow_contains(states, st.id.as_str()) || allow_contains(
            states,
            "ALL",
        );
        proof {
            assert(take_state == state_allowed(ctx, sts@[si as int].id@));
        }
        if take_state {
            let cts = &st.city_names;
            let mut ci: usize = 0;
            proof {
                lemma_count_cities_split(cts@, 0);
                lemma_count_cities_from_nonneg(cts@, 0);
                assert(cts@.take(0) =~= Seq::<City>::empty());
            }
            while ci < cts.len()
                invariant
                    0 <= ci <= cts@.len(),
                    cts@ == sts@[si as int].city_names@,
                    state_allowed(ctx, sts@[si as int].id@),
                    si < sts@.len(),
                    sts@ == doc.state_codes@,
                    out@.map_values(|c: ChartRecord| c@) == recs_of_states(
                        ctx,
                        sts@.take(si as int),
                    ) + recs_of_cities(ctx, cts@.take(ci as int)),
                    airport_count == count_of_states(ctx, sts@.take(si as int)) + count_of_cities(
                        cts@.take(ci as int),
                    ),
                    count_of_states(ctx, sts@.take(si as int)) + count_of_state(
                        ctx,
                        sts@[si as int],
                    ) + count_of_states_from(ctx, sts@, si as int + 1) == doc_airport_count(
                        ctx,
                        *doc,
                    ),
                    count_of_cities(cts@.take(ci as int)) + count_of_cities_from(
                        cts@,
                        ci as int,
                    ) == count_of_state(ctx, sts@[si as int]),
                    count_of_states_from(ctx, sts@, si as int + 1) >= 0,
                    count_of_cities_from(cts@, ci as int) >= 0,
                    doc_airport_count(ctx, *doc) <= usize::MAX,
                    ctx == ctx_of(states@, *cycle),
                    cycle_str@ == dec_str(cycle.code as int),
                    from_date@ == ctx.from_date,
                    to_date@ == ctx.to_date,
                decreases cts@.len() - ci,
            {
                let ct = &cts[ci];
                proof {
                    lemma_take_one_more_city(ctx, cts@, ci as int);
                    lemma_count_cities_from_step(cts@, ci as int);
                }
                let aps = &ct.airports;
                let mut ai: usize = 0;
                proof {
                    lemma_count_airports_split(aps@, 0);
                    lemma_count_airports_from_nonneg(aps@, 0);
                    assert(aps@.take(0) =~= Seq::<Airport>::empty());
                }
                while ai < aps.len()
                    invariant
                        0 <= ai <= aps@.len(),
                        aps@ == cts@[ci as int].airports@,
                        ci < cts@.len(),
                        cts@ == sts@[si as int].city_names@,
                        state_allowed(ctx, sts@[si as int].id@),
                        si < sts@.len(),
                        sts@ == doc.state_codes@,
                        out@.map_values(|c: ChartRecord| c@) == recs_of_states(
                            ctx,
                            sts@.take(si as int),
                        ) + recs_of_cities(ctx, cts@.take(ci as int)) + recs_of_airports(
                            ctx,
                            aps@.take(ai as int),
                        ),
                        airport_count == count_of_states(ctx, sts@.take(si as int))
                            + count_of_cities(cts@.take(ci as int)) + count_of_airports(
                            aps@.take(ai as int),
                        ),
                        count_of_states(ctx, sts@.take(si as int)) + count_of_state(
                            ctx,
                            sts@[si as int],
                        ) + count_of_states_from(ctx, sts@, si as int + 1) == doc_airport_count(
                            ctx,
                            *doc,
                        ),
                        count_of_cities(cts@.take(ci as int)) + count_of_cities_from(
                            cts@,
                            ci as int,
                        ) == count_of_state(ctx, sts@[si as int]),
                        count_of_airports(aps@.take(ai as int)) + count_of_airports_from(
                            aps@,
                            ai as int,
                        ) == count_of_airports(aps@),
                        count_of_airports(aps@) + count_of_cities_from(cts@, ci as int + 1)
                            == count_of_cities_from(cts@, ci as int),
                        count_of_states_from(ctx, sts@, si as int + 1) >= 0,
                        count_of_cities_from(cts@, ci as int + 1) >= 0,
                        count_of_airports_from(aps@, ai as int) >= 0,
                        doc_airport_count(ctx, *doc) <= usize::MAX,
                        ctx == ctx_of(states@, *cycle),
                        cycle_str@ == dec_str(cycle.code as int),
                        from_date@ == ctx.from_date,
                        to_date@ == ctx.to_date,
                    decreases aps@.len() - ai,
                {
                    let ap = &aps[ai];
                    proof {
                        lemma_take_one_more_airport(ctx, aps@, ai as int);
                        lemma_count_airports_from_step(aps@, ai as int);
                    }
                    if let Some(apt) = &ap.apt_ident {
                        if let Some(records) = &ap.records {
                            if records.len() > 0 {
                                airport_count = airport_count + 1;
                            }
                            let mut ri: usize = 0;
                            while ri < records.len()
                                invariant
                                    0 <= ri <= records@.len(),
                                    records@ == aps@[ai as int].records->Some_0@,
                                    apt@ == aps@[ai as int].apt_ident->Some_0@,
                                    aps@[ai as int].apt_ident is Some,
                                    aps@[ai as int].records is Some,
                                    ai < aps@.len(),
                                    out@.map_values(|c: ChartRecord| c@) == recs_of_states(
                                        ctx,
                                        sts@.take(si as int),
                                    ) + recs_of_cities(ctx, cts@.take(ci as int))
                                        + recs_of_airports(ctx, aps@.take(ai as int))
                                        + recs_of_charts(ctx, apt@, records@.take(ri as int)),
                                    ctx == ctx_of(states@, *cycle),
                                    cycle_str@ == dec_str(cycle.code as int),
                                    from_date@ == ctx.from_date,
                                    to_date@ == ctx.to_date,
                                decreases records@.len() - ri,
                            {
                                let rec = build_one(
                                    apt,
                                    cycle.code,
                                    &cycle_str,
                                    &from_date,
                                    &to_date,
                                    &records[ri],
                                );
                                let ghost prev_out = out@;
                                let ghost rec_m = rec@;
                                out.push(rec);
                                proof {
                                    assert(rec_m == built_record(ctx, apt@, records@[ri as int]));
                                    assert(out@.map_values(|c: ChartRecord| c@) =~= prev_out
                                        .map_values(|c: ChartRecord| c@).push(rec_m));
                                    assert(recs_of_charts(ctx, apt@, records@.take(ri as int + 1))
                                        =~= recs_of_charts(ctx, apt@, records@.take(ri as int)).push(
                                    built_record(ctx, apt@, records@[ri as int])));
                                    assert(out@.map_values(|c: ChartRecord| c@) =~= recs_of_states(
                                        ctx,
                                        sts@.take(si as int),
                                    ) + recs_of_cities(ctx, cts@.take(ci as int))
                                        + recs_of_airports(ctx, aps@.take(ai as int))
                                        + recs_of_charts(ctx, apt@, records@.take(ri as int + 1)));
                                }
                                ri = ri + 1;
                            }
                            proof {
                                assert(records@.take(records@.len() as int) =~= records@);
                                if records@.len() == 0 {
                                    assert(recs_of_charts(ctx, apt@, records@) =~= Seq::<
                                        RecordModel,
                                    >::empty());
                                }
                                assert(recs_of_airport(ctx, aps@[ai as int]) =~= recs_of_charts(
                                    ctx,
                                    apt@,
                                    records@,
                                ));
                            }
                        }
                    }
                    proof {
                        if !airport_usable(aps@[ai as int]) {
                            assert(recs_of_airport(ctx, aps@[ai as int]) =~= Seq::<
                                RecordModel,
                            >::empty());
                        }
                        assert(out@.map_values(|c: ChartRecord| c@) =~= recs_of_states(
                            ctx,
                            sts@.take(si as int),
                        ) + recs_of_cities(ctx, cts@.take(ci as int)) + recs_of_airports(
                            ctx,
                            aps@.take(ai as int + 1),
                        ));
                    }
                    ai = ai + 1;
                }
                proof {
                    assert(aps@.take(aps@.len() as int) =~= aps@);
                    assert(out@.map_values(|c: ChartRecord| c@) =~= recs_of_states(
                        ctx,
                        sts@.take(si as int),
                    ) + recs_of_cities(ctx, cts@.take(ci as int + 1)));
                }
                ci = ci + 1;
            }
            proof {
                assert(cts@.take(cts@.len() as int) =~= cts@);
                assert(out@.map_values(|c: ChartRecord| c@) =~= recs_of_states(
                    ctx,
                    sts@.take(si as int + 1),
                ));
            }
        } else {
            proof {
                assert(recs_of_state(ctx, sts@[si as int]) =~= Seq::<RecordModel>::empty());
                assert(out@.map_values(|c: ChartRecord| c@) =~= recs_of_states(
                    ctx,
                    sts@.take(si as int + 1),
                ));
            }
        }
        si = si + 1;
    }
    proof {
        assert(sts@.take(sts@.len() as int) =~= sts@);
    }
    let n: usize = out.len();
    (out, n, airport_count)
}

pub open spec fn count_of_states_from(ctx: BuildCtx, s: Seq<State>, i: int) -> int
    decreases s.len() - i,
{
    if i < 0 || i >= s.len() {
        0
    } else {
        count_of_state(ctx, s[i]) + count_of_states_from(ctx, s, i + 1)
    }
}

pub open spec fn count_of_cities_from(s: Seq<City>, i: int) -> int
    decreases s.len() - i,
{
    if i < 0 || i >= s.len() {
        0
    } else {
        count_of_airports(s[i].airports@) + count_of_cities_from(s, i + 1)
    }
}

pub open spec fn count_of_airports_from(s: Seq<Airport>, i: int) -> int
    decreases s.len() - i,
{
    if i < 0 || i >= s.len() {
        0
    } else {
        (if airport_usable(s[i]) {
            1int
        } else {
            0int
        }) + count_of_airports_from(s, i + 1)
    }
}

proof fn lemma_take_one_more_state(ctx: BuildCtx, s: Seq<State>, i: int)
    requires
        0 <= i < s.len(),
    ensures
        recs_of_states(ctx, s.take(i + 1)) == recs_of_states(ctx, s.take(i)) + recs_of_state(
            ctx,
            s[i],
        ),
        count_of_states(ctx, s.take(i + 1)) == count_of_states(ctx, s.take(i)) + count_of_state(
            ctx,
            s[i],
        ),
{
    assert(s.take(i + 1).drop_last() =~= s.take(i));
    assert(s.take(i + 1).last() == s[i]);
}

proof fn lemma_take_one_more_city(ctx: BuildCtx, s: Seq<City>, i: int)
    requires
        0 <= i < s.len(),
    ensures
        recs_of_cities(ctx, s.take(i + 1)) == recs_of_cities(ctx, s.take(i)) + recs_of_city(
            ctx,
            s[i],
        ),
        count_of_cities(s.take(i + 1)) == count_of_cities(s.take(i)) + count_of_airports(
            s[i].airports@,
        ),
{
    assert(s.take(i + 1).drop_last() =~= s.take(i));
    assert(s.take(i + 1).last() == s[i]);
}

proof fn lemma_take_one_more_airport(ctx: BuildCtx, s: Seq<Airport>, i: int)
    requires
        0 <= i < s.len(),
    ensures
        recs_of_airports(ctx, s.take(i + 1)) == recs_of_airports(ctx, s.take(i)) + recs_of_airport(
            ctx,
            s[i],
        ),
        count_of_airports(s.take(i + 1)) == count_of_airports(s.take(i)) + (if airport_usable(
            s[i],
        ) {
            1int
        } else {
            0int
        }),
{
    assert(s.take(i + 1).drop_last() =~= s.take(i));
    assert(s.take(i + 1).last() == s[i]);
}

proof fn lemma_count_states_split(ctx: BuildCtx, s: Seq<State>, i: int)
    requires
        0 <= i <= s.len(),
    ensures
        count_of_states(ctx, s.take(i)) + count_of_states_from(ctx, s, i) == count_of_states(
            ctx,
            s,
        ),
    decreases s.len() - i,
{
    if i == s.len() {
        assert(s.take(i) =~= s);
    } else {
        lemma_count_states_split(ctx, s, i + 1);
        lemma_take_one_more_state(ctx, s, i);
    }
}

proof fn lemma_count_cities_split(s: Seq<City>, i: int)
    requires
        0 <= i <= s.len(),
    ensures
        count_of_cities(s.take(i)) + count_of_cities_from(s, i) == count_of_cities(s),
    decreases s.len() - i,
{
    if i == s.len() {
        assert(s.take(i) =~= s);
    } else {
        lemma_count_cities_split(s, i + 1);
        assert(s.take(i + 1).drop_last() =~= s.take(i));
        assert(s.take(i + 1).last() == s[i]);
    }
}

proof fn lemma_count_airports_split(s: Seq<Airport>, i: int)
    requires
        0 <= i <= s.len(),
    ensures
        count_of_airports(s.take(i)) + count_of_airports_from(s, i) == count_of_airports(s),
    decreases s.len() - i,
{
    if i == s.len() {
        assert(s.take(i) =~= s);
    } else {
        lemma_count_airports_split(s, i + 1);
        assert(s.take(i + 1).drop_last() =~= s.take(i));
        assert(s.take(i + 1).last() == s[i]);
    }
}

proof fn lemma_count_states_from_step(ctx: BuildCtx, s: Seq<State>, i: int)
    requires
        0 <= i < s.len(),
    ensures
        count_of_states_from(ctx, s, i) == count_of_state(ctx, s[i]) + count_of_states_from(
            ctx,
            s,
            i + 1,
        ),
        count_of_states_from(ctx, s, i + 1) >= 0,
    decreases s.len() - i,
{
    lemma_count_states_from_nonneg(ctx, s, i + 1);
}

proof fn lemma_count_states_from_nonneg(ctx: BuildCtx, s: Seq<State>, i: int)
    ensures
        count_of_states_from(ctx, s, i) >= 0,
    decreases s.len() - i,
{
    if 0 <= i < s.len() {
        lemma_count_states_from_nonneg(ctx, s, i + 1);
        lemma_count_cities_nonneg(s[i].city_names@);
    }
}

proof fn lemma_count_cities_from_step(s: Seq<City>, i: int)
    requires
        0 <= i < s.len(),
    ensures
        count_of_cities_from(s, i) == count_of_airports(s[i].airports@) + count_of_cities_from(
            s,
            i + 1,
        ),
        count_of_cities_from(s, i + 1) >= 0,
        count_of_airports(s[i].airports@) >= 0,
{
    lemma_count_cities_from_nonneg(s, i + 1);
    lemma_count_airports_nonneg(s[i].airports@);
}

proof fn lemma_count_cities_from_nonneg(s: Seq<City>, i: int)
    ensures
        count_of_cities_from(s, i) >= 0,
    decreases s.len() - i,
{
    if 0 <= i < s.len() {
        lemma_count_cities_from_nonneg(s, i + 1);
        lemma_count_airports_nonneg(s[i].airports@);
    }
}

proof fn lemma_count_airports_from_step(s: Seq<Airport>, i: int)
    requires
        0 <= i < s.len(),
    ensures
        count_of_airports_from(s, i) == (if airport_usable(s[i]) {
            1int
        } else {
            0int
        }) + count_of_airports_from(s, i + 1),
        count_of_airports_from(s, i + 1) >= 0,
{
    lemma_count_airports_from_nonneg(s, i + 1);
}

proof fn lemma_count_airports_from_nonneg(s: Seq<Airport>, i: int)
    ensures
        count_of_airports_from(s, i) >= 0,
    decreases s.len() - i,
{
    if 0 <= i < s.len() {
        lemma_count_airports_from_nonneg(s, i + 1);
    }
}

proof fn lemma_count_cities_nonneg(s: Seq<City>)
    ensures
        count_of_cities(s) >= 0,
    decreases s.len(),
{
    if s.len() > 0 {
        lemma_count_cities_nonneg(s.drop_last());
        lemma_count_airports_nonneg(s.last().airports@);
    }
}

proof fn lemma_count_airports_nonneg(s: Seq<Airport>)
    ensures
        count_of_airports(s) >= 0,
    decreases s.len(),
{
    if s.len() > 0 {
        lemma_count_airports_nonneg(s.drop_last());
    }
}

} // verus!
