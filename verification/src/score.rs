//! The scoring protocol's evaluation dimensions.
//!
//! Each agent plays the same evaluation seeds as a frozen reference policy;
//! every dimension is reported with its direction, so that a standardised
//! difference can be signed to make "higher" always "better".

use vstd::prelude::*;

verus! {

/// A named evaluation dimension with its direction.
#[derive(Clone, Copy, Debug)]
pub struct Dimension {
    pub name: &'static str,
    pub higher_better: bool,
}

/// The dimensions scored (sport, finance, squad), in report order.
///
/// Finance is scored on net value created and on transfer outlay, not on the
/// raw ending balance; `squad_size` counts lower-is-better (a trimmed squad
/// reads as players moved on).
pub fn dimensions() -> (d: Vec<Dimension>)
    ensures
        d@.len() == 7,
        d@[0].name@ == "points"@ && d@[0].higher_better,
        d@[1].name@ == "net_value"@ && d@[1].higher_better,
        d@[2].name@ == "net_spend"@ && !d@[2].higher_better,
        d@[3].name@ == "wage_bill"@ && !d@[3].higher_better,
        d@[4].name@ == "squad_value"@ && d@[4].higher_better,
        d@[5].name@ == "avg_age"@ && !d@[5].higher_better,
        d@[6].name@ == "squad_size"@ && !d@[6].higher_better,
{
    vec![
        Dimension { name: "points", higher_better: true },
        Dimension { name: "net_value", higher_better: true },
        Dimension { name: "net_spend", higher_better: false },
        Dimension { name: "wage_bill", higher_better: false },
        Dimension { name: "squad_value", higher_better: true },
        Dimension { name: "avg_age", higher_better: false },
        Dimension { name: "squad_size", higher_better: false },
    ]
}

} // verus!
