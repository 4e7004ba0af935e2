//! Periods of time for the return on investment report.
use vstd::prelude::*;
use crate::date::{Date, days_in_month, valid_ymd};
use crate::money::{Balance, Money, money_is_zero};
use crate::rational::{Rational, add_fits, div_fits, rat_add, rat_div, rat_neg};

verus! {

/// The grouping asked for on the command line.
#[derive(Debug, Clone, Copy)]
pub struct PeriodGroup {
    pub yearly: bool,
    pub quarterly: bool,
    pub monthly: bool,
}

/// The length of the periods of a report.
#[derive(Debug, PartialEq, Eq, Clone, Copy, Structural)]
pub enum Frequency {
    Monthly,
    Quarterly,
    Yearly,
}

/// At most one grouping is asked for.
pub open spec fn group_compatible(p: PeriodGroup) -> bool {
    !(p.yearly && p.quarterly) && !(p.yearly && p.monthly) && !(p.quarterly && p.monthly)
}

/// The frequency a compatible grouping asks for: yearly when none is given.
pub open spec fn spec_frequency(p: PeriodGroup) -> Frequency {
    if p.monthly {
        Frequency::Monthly
    } else if p.quarterly {
        Frequency::Quarterly
    } else {
        Frequency::Yearly
    }
}

impl Frequency {
    /// The frequency of a grouping; yearly when none is asked for.
    pub fn from(p: PeriodGroup) -> (res: Frequency)
        requires
            group_compatible(p),
        ensures
            res == spec_frequency(p),
    {
        if !p.monthly && !p.quarterly && p.yearly {
            Frequency::Yearly
        } else if !p.monthly && p.quarterly && !p.yearly {
            Frequency::Quarterly
        } else if p.monthly && !p.quarterly && !p.yearly {
            Frequency::Monthly
        } else {
            Frequency::Yearly
        }
    }

    /// The frequency of a grouping, or `None` when more than one is asked for.
    pub fn try_from_group(p: PeriodGroup) -> (res: Option<Frequency>)
        ensures
            res is Some <==> group_compatible(p),
            res matches Some(f) ==> f == spec_frequency(p),
    {
        if group_compatible_exec(p) {
            Some(Frequency::from(p))
        } else {
            None
        }
    }
}

fn group_compatible_exec(p: PeriodGroup) -> (res: bool)
    ensures
        res == group_compatible(p),
{
    !(p.yearly && p.quarterly) && !(p.yearly && p.monthly) && !(p.quarterly && p.monthly)
}

/// The first month of the quarter of month `m`.
pub open spec fn quarter_start(m: int) -> int {
    ((m - 1) / 3) * 3 + 1
}

/// The first day of the period of `d`.
pub open spec fn spec_period_beginning(d: Date, f: Frequency) -> Date {
    match f {
        Frequency::Monthly => Date { year: d.year, month: d.month, day: 1 },
        Frequency::Quarterly => Date { year: d.year, month: quarter_start(d.month as int) as u32, day: 1 },
        Frequency::Yearly => Date { year: d.year, month: 1, day: 1 },
    }
}

/// The last day of the period of `d`.
pub open spec fn spec_period_ending(d: Date, f: Frequency) -> Date {
    let last_month: int = match f {
        Frequency::Monthly => d.month as int,
        Frequency::Quarterly => quarter_start(d.month as int) + 2,
        Frequency::Yearly => 12,
    };
    Date { year: d.year, month: last_month as u32, day: days_in_month(d.year as int, last_month) as u32 }
}

/// The first day of the month, quarter or year of `d`.
pub fn period_beginning(d: Date, frequency: Frequency) -> (res: Date)
    requires
        d.wf(),
    ensures
        res == spec_period_beginning(d, frequency),
        res.wf(),
{
    match frequency {
        Frequency::Monthly => Date { year: d.year, month: d.month, day: 1 },
        Frequency::Quarterly => Date { year: d.year, month: ((d.month - 1) / 3) * 3 + 1, day: 1 },
        Frequency::Yearly => Date { year: d.year, month: 1, day: 1 },
    }
}

/// The last day of the month, quarter or year of `d`.
pub fn period_ending(d: Date, frequency: Frequency) -> (res: Date)
    requires
        d.wf(),
    ensures
        res == spec_period_ending(d, frequency),
        res.wf(),
{
    let month: u32 = match frequency {
        Frequency::Monthly => d.month,
        Frequency::Quarterly => ((d.month - 1) / 3) * 3 + 3,
        Frequency::Yearly => 12,
    };
    let first = Date { year: d.year, month, day: 1 };
    assert(valid_ymd(first.year as int, first.month as int, 1));
    first.last_of_month()
}

/// A period of the report: its dates, the balances at its ends, the cash
/// that flowed in and the values of its ends in one commodity.
#[derive(Debug)]
pub struct Period {
    pub start: Date,
    pub end: Date,
    pub initial_balance: Balance,
    pub final_balance: Balance,
    pub cash_flow: Money,
    pub initial_money: Option<Money>,
    pub final_money: Option<Money>,
}

/// The time weighted return of a period from the values at its start and
/// end and the cash flow: `(end - initial + flow) / initial`, or, with
/// nothing at the start, `-(end + flow) / flow` (zero without a flow).
pub open spec fn spec_twr(initial: (int, int), end: (int, int), flow: (int, int)) -> Option<(int, int)> {
    if initial.0 == 0 {
        if flow.0 == 0 {
            Some(flow)
        } else {
            Some(rat_div(rat_neg(rat_add(end, flow)), flow))
        }
    } else {
        Some(rat_div(rat_add(rat_add(end, rat_neg(initial)), flow), initial))
    }
}

/// Computing the time weighted return does not overflow: every sum,
/// difference and quotient on the way is computed in `i64`.
pub open spec fn twr_fits(initial: (int, int), end: (int, int), flow: (int, int)) -> bool {
    if initial.0 == 0 {
        flow.0 != 0 ==> add_fits(end, flow) && div_fits(rat_neg(rat_add(end, flow)), flow)
    } else {
        let d = rat_add(end, rat_neg(initial));
        &&& add_fits(end, rat_neg(initial))
        &&& add_fits(d, flow)
        &&& div_fits(rat_add(d, flow), initial)
    }
}

impl Period {
    /// The period of `d`, with nothing in it yet.
    pub fn from_date(d: Date, frequency: Frequency) -> (res: Period)
        requires
            d.wf(),
        ensures
            res.start == spec_period_beginning(d, frequency),
            res.end == spec_period_ending(d, frequency),
            res.initial_balance@.len() == 0,
            res.final_balance@.len() == 0,
            res.cash_flow is Zero,
            res.initial_money is None,
            res.final_money is None,
    {
        Period {
            start: period_beginning(d, frequency),
            end: period_ending(d, frequency),
            initial_balance: Balance::new(),
            final_balance: Balance::new(),
            cash_flow: Money::Zero,
            initial_money: None,
            final_money: None,
        }
    }

    /// The time weighted return of the period; `None` on overflow.
    pub fn twr(&self) -> (res: Option<Rational>)
        requires
            self.initial_money is Some,
            self.final_money is Some,
        ensures
            res matches Some(r) ==> Some(r.view()) == spec_twr(
                self.initial_money.unwrap()@.1,
                self.final_money.unwrap()@.1,
                self.cash_flow@.1,
            ),
            (res is Some) == twr_fits(self.initial_money.unwrap()@.1, self.final_money.unwrap()@.1, self.cash_flow@.1),
    {
        let end = match &self.final_money {
            Some(m) => m.get_amount(),
            None => Rational::zero(),
        };
        let initial = match &self.initial_money {
            Some(m) => m.get_amount(),
            None => Rational::zero(),
        };
        let flow = self.cash_flow.get_amount();
        if initial.is_zero() {
            if flow.is_zero() {
                return Some(flow);
            } else {
                let s = end.checked_add(&flow)?;
                return s.neg().checked_div(&flow);
            }
        }
        let a = end.checked_sub(&initial)?;
        let b = a.checked_add(&flow)?;
        b.checked_div(&initial)
    }
}


/// The index of the period of `date` among `periods`, found by its start (the
/// first one that starts there). Without one, a new period of `date`, with
/// nothing in it yet, is put first, and its index, 0, is returned.
pub fn get_period_index(date: Date, periods: &mut Vec<Period>, frequency: Frequency) -> (res: usize)
    requires
        date.wf(),
    ensures
        res < final(periods)@.len(),
        final(periods)@[res as int].start == spec_period_beginning(date, frequency),
        (exists|i: int| 0 <= i < old(periods)@.len() && (#[trigger] old(periods)@[i]).start == spec_period_beginning(
            date,
            frequency,
        )) ==> {
            &&& final(periods)@ == old(periods)@
            &&& forall|i: int| 0 <= i < res ==> (#[trigger] old(periods)@[i]).start != spec_period_beginning(date, frequency)
        },
        !(exists|i: int| 0 <= i < old(periods)@.len() && (#[trigger] old(periods)@[i]).start == spec_period_beginning(
            date,
            frequency,
        )) ==> {
            &&& res == 0
            &&& final(periods)@.skip(1) == old(periods)@
            &&& final(periods)@[0].end == spec_period_ending(date, frequency)
            &&& final(periods)@[0].initial_balance@.len() == 0
            &&& final(periods)@[0].final_balance@.len() == 0
            &&& final(periods)@[0].cash_flow is Zero
            &&& final(periods)@[0].initial_money is None
            &&& final(periods)@[0].final_money is None
        },
{
    let begin = period_beginning(date, frequency);
    let n = periods.len();
    for i in 0..n
        invariant
            n == periods@.len(),
            periods@ == old(periods)@,
            begin == spec_period_beginning(date, frequency),
            forall|k: int| 0 <= k < i ==> (#[trigger] periods@[k]).start != begin,
    {
        if periods[i].start == begin {
            return i;
        }
    }
    let period = Period::from_date(date, frequency);
    periods.insert(0, period);
    assert(periods@.skip(1) =~= old(periods)@);
    0
}

} // verus!
