//! Per-model daily request usage. The free tier's daily quota resets at
//! 08:00 UTC; requests are counted per model for the current quota day,
//! and models the server declared out of quota are remembered until the
//! day rolls over.
use vstd::prelude::*;
use crate::json::{Json, Member, parse_json, json_get, json_u64, json_bool, json_object, json_parse};
use crate::text::{eq_chars, chars_of};

verus! {

broadcast use vstd::string::group_string_axioms;

pub const DAY_SECS: u64 = 86_400;

/// 08:00 UTC, seconds into the UTC day.
pub const RESET_UTC_SECS: u64 = 28_800;

/// Days are counted from this shift so the boundary lands at 08:00 UTC.
pub const RESET_SHIFT: u64 = 57_600;

/// The quota day an epoch second falls in.
pub open spec fn day_of(t: int) -> int {
    (t + RESET_SHIFT) / DAY_SECS as int
}

/// Quota-day number of an epoch second (days roll at 08:00 UTC).
pub fn quota_day(t: u64) -> (d: u64)
    ensures
        d == day_of(t as int),
{
    let q = t / DAY_SECS;
    let r = t % DAY_SECS;
    let d = q + (r + RESET_SHIFT) / DAY_SECS;
    assert(d as int == (t as int + 57600) / 86400) by (nonlinear_arith)
        requires
            q as int == t as int / 86400,
            r as int == t as int % 86400,
            d as int == q as int + (r as int + 57600) / 86400,
            t >= 0,
    ;
    d
}

/// First second of the quota day after `day`, saturating at `u64::MAX`.
pub open spec fn next_reset(day: u64) -> u64 {
    if day * DAY_SECS + RESET_UTC_SECS <= u64::MAX {
        (day * DAY_SECS + RESET_UTC_SECS) as u64
    } else {
        u64::MAX
    }
}

#[derive(Debug, Clone, Copy, PartialEq, Eq, Default)]
pub struct ModelUsage {
    pub requests: u64,
    pub exhausted: bool,
}

/// Today's usage and the next reset time.
pub struct UsageSnapshot {
    /// Epoch seconds of the next daily reset.
    pub reset_at: u64,
    /// Per model, in the order the models were first seen today.
    pub models: Vec<(String, ModelUsage)>,
}

/// The counters of one quota day; each model appears once.
pub struct UsageState {
    pub day: u64,
    pub models: Vec<(String, ModelUsage)>,
}

pub open spec fn usage_views(m: Seq<(String, ModelUsage)>) -> Seq<(Seq<char>, ModelUsage)> {
    m.map_values(|e: (String, ModelUsage)| (e.0@, e.1))
}

/// No model is listed twice.
pub open spec fn distinct_models(m: Seq<(Seq<char>, ModelUsage)>) -> bool {
    forall|i: int, j: int| 0 <= i < j < m.len() ==> (#[trigger] m[i]).0 != (#[trigger] m[j]).0
}

/// Index of a model's entry.
pub open spec fn model_index(m: Seq<(Seq<char>, ModelUsage)>, model: Seq<char>) -> Option<int>
    decreases m.len(),
{
    if m.len() == 0 {
        None
    } else if m.last().0 == model {
        Some(m.len() - 1)
    } else {
        model_index(m.drop_last(), model)
    }
}

/// The usage recorded for a model, zero when it has none.
pub open spec fn usage_of(m: Seq<(Seq<char>, ModelUsage)>, model: Seq<char>) -> ModelUsage {
    match model_index(m, model) {
        Some(i) => m[i].1,
        None => ModelUsage { requests: 0, exhausted: false },
    }
}

/// The entries with one model's usage changed by `f`, the model added
/// last when it had no entry.
pub open spec fn update_model(
    m: Seq<(Seq<char>, ModelUsage)>,
    model: Seq<char>,
    u: ModelUsage,
) -> Seq<(Seq<char>, ModelUsage)> {
    match model_index(m, model) {
        Some(i) => m.update(i, (model, u)),
        None => m.push((model, u)),
    }
}

/// One more request, saturating at `u64::MAX`.
pub open spec fn counted(u: ModelUsage) -> ModelUsage {
    ModelUsage { requests: if u.requests < u64::MAX { (u.requests + 1) as u64 } else { u.requests }, ..u }
}

proof fn lemma_model_index(m: Seq<(Seq<char>, ModelUsage)>, model: Seq<char>)
    ensures
        model_index(m, model) matches Some(i) ==> 0 <= i < m.len() && m[i].0 == model,
        model_index(m, model) is None ==> forall|j: int| 0 <= j < m.len() ==> (#[trigger] m[j]).0 != model,
        distinct_models(m) ==> forall|j: int| 0 <= j < m.len() && (#[trigger] m[j]).0 == model ==> model_index(m, model) == Some(j),
    decreases m.len(),
{
    if m.len() > 0 {
        let p = m.drop_last();
        lemma_model_index(p, model);
        assert forall|j: int| 0 <= j < m.len() - 1 implies #[trigger] p[j] == m[j] by {}
        if model_index(m, model) is None {
            assert forall|j: int| 0 <= j < m.len() implies (#[trigger] m[j]).0 != model by {
                if j < m.len() - 1 {
                    assert(p[j] == m[j]);
                }
            }
        }
        if distinct_models(m) {
            assert(distinct_models(p)) by {
                assert forall|i: int, j: int| 0 <= i < j < p.len() implies (#[trigger] p[i]).0 != (#[trigger] p[j]).0 by {
                    assert(p[i] == m[i] && p[j] == m[j]);
                }
            }
            assert forall|j: int| 0 <= j < m.len() && (#[trigger] m[j]).0 == model implies model_index(m, model) == Some(j) by {
                if j < m.len() - 1 {
                    assert(m[j].0 != m[m.len() - 1].0);
                    assert(p[j] == m[j]);
                }
            }
        }
    }
}

impl UsageState {
    pub open spec fn view_models(&self) -> Seq<(Seq<char>, ModelUsage)> {
        usage_views(self.models@)
    }

    /// Each model listed once.
    pub open spec fn wf(&self) -> bool {
        distinct_models(self.view_models())
    }

    /// A clean day.
    pub fn new(day: u64) -> (s: Self)
        ensures
            s.day == day,
            s.models@.len() == 0,
            s.wf(),
    {
        UsageState { day, models: Vec::new() }
    }

    fn find(&self, model: &str) -> (r: Option<usize>)
        ensures
            r matches Some(i) ==> model_index(self.view_models(), model@) == Some(i as int),
            r is None ==> model_index(self.view_models(), model@) is None,
    {
        let m = chars_of(model);
        let mut i = self.models.len();
        proof {
            assert(self.view_models().take(i as int) =~= self.view_models());
        }
        while i > 0
            invariant
                i <= self.models@.len(),
                m@ == model@,
                model_index(self.view_models(), model@) == model_index(self.view_models().take(i as int), model@),
            decreases i,
        {
            let k = chars_of(self.models[i - 1].0.as_str());
            if eq_chars(&k, &m) {
                return Some(i - 1);
            }
            assert(self.view_models().take(i as int).drop_last() =~= self.view_models().take(i - 1));
            i -= 1;
        }
        None
    }

    /// Clears the counters when `today` is a different quota day.
    pub fn roll(&mut self, today: u64)
        requires
            old(self).wf(),
        ensures
            final(self).wf(),
            final(self).day == today,
            old(self).day == today ==> final(self).models@ == old(self).models@,
            old(self).day != today ==> final(self).models@.len() == 0,
    {
        if self.day != today {
            self.day = today;
            self.models = Vec::new();
        }
    }

    fn set_usage(&mut self, model: &str, u: ModelUsage)
        requires
            old(self).wf(),
        ensures
            final(self).wf(),
            final(self).day == old(self).day,
            final(self).view_models() == update_model(old(self).view_models(), model@, u),
    {
        proof { lemma_model_index(self.view_models(), model@); }
        match self.find(model) {
            Some(i) => {
                let name = self.models[i].0.clone();
                self.models.set(i, (name, u));
                assert(self.view_models() =~= update_model(old(self).view_models(), model@, u));
            },
            None => {
                self.models.push((model.to_owned(), u));
                assert(self.view_models() =~= update_model(old(self).view_models(), model@, u));
            },
        }
    }

    fn get_usage(&self, model: &str) -> (r: ModelUsage)
        ensures
            r == usage_of(self.view_models(), model@),
    {
        proof { lemma_model_index(self.view_models(), model@); }
        match self.find(model) {
            Some(i) => self.models[i].1,
            None => ModelUsage { requests: 0, exhausted: false },
        }
    }

    /// The model a job moves to when `model`'s daily quota is gone: the
    /// first of its same-tier fallbacks that today's counters do not mark
    /// exhausted.
    pub fn next_model(&self, model: &str) -> (r: Option<String>)
        ensures
            crate::types::opt_view(r) == first_fresh(crate::gemini::fallback(model@), self.view_models()),
    {
        let cands = crate::gemini::fallback_models(model);
        let ghost cv = crate::gemini::string_views(cands@);
        let mut i: usize = 0;
        assert(cv.skip(0) =~= cv);
        while i < cands.len()
            invariant
                i <= cands@.len(),
                cv == crate::gemini::string_views(cands@),
                cv == crate::gemini::fallback(model@),
                first_fresh(cv, self.view_models()) == first_fresh(cv.skip(i as int), self.view_models()),
            decreases cands.len() - i,
        {
            assert(cv.skip(i as int)[0] == cands@[i as int]@);
            assert(cv.skip(i as int).drop_first() =~= cv.skip(i + 1));
            let u = self.get_usage(cands[i].as_str());
            if !u.exhausted {
                return Some(cands[i].clone());
            }
            i += 1;
        }
        None
    }

    /// Counts one successful request against `model` on quota day `today`.
    pub fn record_request(&mut self, model: &str, today: u64)
        requires
            old(self).wf(),
        ensures
            final(self).wf(),
            final(self).day == today,
            final(self).view_models() == update_model(
                if old(self).day == today { old(self).view_models() } else { seq![] },
                model@,
                counted(usage_of(if old(self).day == today { old(self).view_models() } else { seq![] }, model@)),
            ),
    {
        self.roll(today);
        proof {
            if old(self).day != today {
                assert(self.view_models() =~= Seq::<(Seq<char>, ModelUsage)>::empty());
            }
        }
        let u = self.get_usage(model);
        let n = if u.requests < u64::MAX { u.requests + 1 } else { u.requests };
        self.set_usage(model, ModelUsage { requests: n, exhausted: u.exhausted });
    }

    /// Remembers that the server declared `model` out of quota for `today`.
    pub fn mark_exhausted(&mut self, model: &str, today: u64)
        requires
            old(self).wf(),
        ensures
            final(self).wf(),
            final(self).day == today,
            final(self).view_models() == update_model(
                if old(self).day == today { old(self).view_models() } else { seq![] },
                model@,
                ModelUsage { exhausted: true, ..usage_of(if old(self).day == today { old(self).view_models() } else { seq![] }, model@) },
            ),
    {
        self.roll(today);
        proof {
            if old(self).day != today {
                assert(self.view_models() =~= Seq::<(Seq<char>, ModelUsage)>::empty());
            }
        }
        let u = self.get_usage(model);
        self.set_usage(model, ModelUsage { requests: u.requests, exhausted: true });
    }

    /// Today's usage, after rolling over to `today`.
    pub fn snapshot(&mut self, today: u64) -> (r: UsageSnapshot)
        requires
            old(self).wf(),
        ensures
            final(self).wf(),
            final(self).day == today,
            old(self).day == today ==> final(self).models@ == old(self).models@,
            old(self).day != today ==> final(self).models@.len() == 0,
            r.reset_at == next_reset(today),
            usage_views(r.models@) == final(self).view_models(),
    {
        self.roll(today);
        let reset_at = match today.checked_mul(DAY_SECS) {
            Some(x) => match x.checked_add(RESET_UTC_SECS) {
                Some(y) => y,
                None => u64::MAX,
            },
            None => u64::MAX,
        };
        let mut models: Vec<(String, ModelUsage)> = Vec::new();
        let mut i: usize = 0;
        while i < self.models.len()
            invariant
                i <= self.models@.len(),
                usage_views(models@) == self.view_models().take(i as int),
            decreases self.models.len() - i,
        {
            let ghost prev = models@;
            let name = self.models[i].0.clone();
            let u = self.models[i].1;
            models.push((name, u));
            assert(models@ == prev.push((name, u)));
            assert(usage_views(models@) =~= usage_views(prev).push((name@, u)));
            i += 1;
            assert(usage_views(models@) =~= self.view_models().take(i as int));
        }
        assert(self.view_models().take(i as int) =~= self.view_models());
        UsageSnapshot { reset_at, models }
    }

    /// The current quota-day number, after rolling over to `today`.
    pub fn current_day(&mut self, today: u64) -> (d: u64)
        requires
            old(self).wf(),
        ensures
            final(self).wf(),
            d == today,
            final(self).day == today,
            old(self).day == today ==> final(self).models@ == old(self).models@,
            old(self).day != today ==> final(self).models@.len() == 0,
    {
        self.roll(today);
        self.day
    }
}

/// The counters a saved usage file holds: its day (or `today` when it
/// names none) and, per model, its count and flag (zero and false when
/// missing); then rolled over to `today`.
pub open spec fn saved_models(members: Seq<Member>) -> Seq<(Seq<char>, ModelUsage)>
    decreases members.len(),
{
    if members.len() == 0 {
        seq![]
    } else {
        let m = members.last();
        let u = ModelUsage {
            requests: match json_u64(json_get(m.value, "requests"@)) { Some(n) => n, None => 0 },
            exhausted: match json_bool(json_get(m.value, "exhausted"@)) { Some(b) => b, None => false },
        };
        update_model(saved_models(members.drop_last()), m.key@, u)
    }
}

pub open spec fn saved_day(j: Json, today: u64) -> u64 {
    match json_u64(json_get(j, "day"@)) {
        Some(d) => d,
        None => today,
    }
}

/// The first candidate model that the counters do not mark exhausted.
pub open spec fn first_fresh(cands: Seq<Seq<char>>, usage: Seq<(Seq<char>, ModelUsage)>) -> Option<Seq<char>>
    decreases cands.len(),
{
    if cands.len() == 0 {
        None
    } else if !usage_of(usage, cands[0]).exhausted {
        Some(cands[0])
    } else {
        first_fresh(cands.drop_first(), usage)
    }
}

/// Usage read back from the saved file's text, as of quota day `today`:
/// unreadable text starts a clean day.
pub fn load_usage(raw: &str, today: u64) -> (r: UsageState)
    ensures
        r.wf(),
        r.day == today,
        match json_parse(raw@) {
            Ok(j) => usage_matches(r, j, today),
            Err(_) => r.models@.len() == 0,
        },
{
    match parse_json(raw) {
        Ok(v) => usage_from_json(&v, today),
        Err(_) => UsageState::new(today),
    }
}

/// The counters of a parsed usage file as of `today`: the saved models
/// when the file's day is today, none otherwise.
pub open spec fn usage_matches(r: UsageState, j: Json, today: u64) -> bool {
    if saved_day(j, today) == today {
        r.view_models() == match json_object(json_get(j, "models"@)) {
            Some(ms) => saved_models(ms),
            None => seq![],
        }
    } else {
        r.models@.len() == 0
    }
}

/// Usage from a parsed usage file, as of quota day `today`.
pub fn usage_from_json(v: &Json, today: u64) -> (r: UsageState)
    ensures
        r.wf(),
        r.day == today,
        usage_matches(r, *v, today),
{
    let mut st = UsageState::new(today);
    st.day = match v.get("day") {
        Some(d) => match d.as_u64() {
            Some(n) => n,
            None => today,
        },
        None => today,
    };
    let models = match v.get("models") {
        Some(m) => m.as_object(),
        None => None,
    };
    let ghost day0 = st.day;
    match models {
        Some(ms) => {
            let mut i: usize = 0;
            assert(st.view_models() =~= saved_models(ms@.take(0)));
            while i < ms.len()
                invariant
                    i <= ms@.len(),
                    st.day == day0,
                    st.wf(),
                    st.view_models() == saved_models(ms@.take(i as int)),
                decreases ms.len() - i,
            {
                assert(ms@.take(i + 1).drop_last() =~= ms@.take(i as int));
                let mv = &ms[i].value;
                let requests = match mv.get("requests") {
                    Some(x) => match x.as_u64() {
                        Some(n) => n,
                        None => 0,
                    },
                    None => 0,
                };
                let exhausted = match mv.get("exhausted") {
                    Some(x) => match x.as_bool() {
                        Some(b) => b,
                        None => false,
                    },
                    None => false,
                };
                st.set_usage(ms[i].key.as_str(), ModelUsage { requests, exhausted });
                i += 1;
            }
            assert(ms@.take(ms.len() as int) =~= ms@);
        },
        None => {
            assert(st.view_models() =~= Seq::<(Seq<char>, ModelUsage)>::empty());
        },
    }
    st.roll(today);
    st
}

} // verus!

verus! {

/// Recording a request (`record_request`'s update of the day's models)
/// adds one to that model's count (saturating), keeps its exhausted flag,
/// and leaves every other model's usage as it was.
pub proof fn recording_counts_only_that_model(m: Seq<(Seq<char>, ModelUsage)>, model: Seq<char>, other: Seq<char>)
    requires
        distinct_models(m),
        other != model,
    ensures
        usage_of(update_model(m, model, counted(usage_of(m, model))), model) == counted(usage_of(m, model)),
        usage_of(update_model(m, model, counted(usage_of(m, model))), model).exhausted == usage_of(m, model).exhausted,
        usage_of(update_model(m, model, counted(usage_of(m, model))), other) == usage_of(m, other),
{
    let u = counted(usage_of(m, model));
    let m2 = update_model(m, model, u);
    lemma_model_index(m, model);
    lemma_model_index(m, other);
    match model_index(m, model) {
        Some(i) => {
            assert(m2 == m.update(i, (model, u)));
            assert(distinct_models(m2)) by {
                assert forall|a: int, b: int| 0 <= a < b < m2.len() implies (#[trigger] m2[a]).0 != (#[trigger] m2[b]).0 by {
                    assert(m2[a].0 == m[a].0 && m2[b].0 == m[b].0);
                }
            }
            lemma_model_index(m2, model);
            lemma_model_index(m2, other);
            assert(m2[i].0 == model);
            match model_index(m, other) {
                Some(j) => {
                    assert(m2[j] == m[j]);
                },
                None => {
                    if model_index(m2, other) is Some {
                        let k = model_index(m2, other)->0;
                        assert(m2[k].0 == other);
                        if k != i {
                            assert(m2[k] == m[k]);
                        }
                    }
                },
            }
        },
        None => {
            assert(m2 == m.push((model, u)));
            assert(m2.drop_last() =~= m);
            assert(model_index(m2, other) == model_index(m, other));
            match model_index(m, other) {
                Some(j) => assert(m2[j] == m[j]),
                None => {},
            }
        },
    }
}

/// Quota days change exactly at 08:00 UTC: one second later is the next
/// day when that second is 08:00:00 UTC, and the same day otherwise.
pub proof fn day_rolls_at_eight_utc(t: nat)
    ensures
        (t + 1) % (DAY_SECS as nat) == RESET_UTC_SECS ==> day_of(t + 1int) == day_of(t as int) + 1,
        (t + 1) % (DAY_SECS as nat) != RESET_UTC_SECS ==> day_of(t + 1int) == day_of(t as int),
{
    assert(((t + 1) % 86400 == 28800) ==> (t + 1 + 57600) / 86400 == (t + 57600) / 86400 + 1) by (nonlinear_arith);
    assert(((t + 1) % 86400 != 28800) ==> (t + 1 + 57600) / 86400 == (t + 57600) / 86400) by (nonlinear_arith);
}

/// The reset a snapshot reports at time `t` (the next reset of `t`'s quota
/// day) lies after `t`, and at most a day after it.
pub proof fn reset_is_within_a_day(t: u64)
    requires
        (day_of(t as int) as u64) * DAY_SECS + RESET_UTC_SECS <= u64::MAX,
    ensures
        t < next_reset(day_of(t as int) as u64),
        next_reset(day_of(t as int) as u64) <= t + DAY_SECS,
{
    let x = t as int + 57600;
    let d = x / 86400;
    assert(0 <= d);
    assert(d * 86400 <= x < d * 86400 + 86400) by (nonlinear_arith)
        requires
            d == x / 86400,
            x >= 0,
    ;
    assert((d as u64) as int == d);
}

/// The next reset lands on 08:00 UTC and starts the following quota day.
pub proof fn reset_is_next_day_at_eight(day: u64)
    requires
        day * DAY_SECS + RESET_UTC_SECS <= u64::MAX,
    ensures
        next_reset(day) % DAY_SECS == RESET_UTC_SECS,
        day_of(next_reset(day) as int) == day + 1,
        day_of(next_reset(day) - 1int) == day,
{
    let r = day * 86400 + 28800;
    assert(r % 86400 == 28800) by (nonlinear_arith)
        requires
            r == day * 86400 + 28800,
    ;
    assert((r + 57600) / 86400 == day + 1) by (nonlinear_arith)
        requires
            r == day * 86400 + 28800,
    ;
    assert((r - 1 + 57600) / 86400 == day) by (nonlinear_arith)
        requires
            r == day * 86400 + 28800,
    ;
}

} // verus!
