//! The settings of a school: the week it plans for, and its name and logo.

use crate::model::MAX_MODULES_PER_DAY;
use crate::planner::get_sorted_days;
use vstd::prelude::*;

verus! {

/// How the week is laid out: the days, the modules of a day and the
/// breaks between them.
#[derive(Debug, Clone)]
pub struct Config {
    pub days: Vec<String>,
    pub modules_per_day: u32,
    pub module_duration: u32,
    pub duration_unit: String,
    pub has_breaks: bool,
    pub break_count: u32,
    pub break_duration: u32,
    pub break_positions: Vec<u32>,
}

/// The name of the school and where its logo is kept.
#[derive(Debug, Clone)]
pub struct SchoolInfo {
    pub name: String,
    pub logo_path: Option<String>,
}

impl Config {
    /// The modules of a day as the planner takes them: `None` where the
    /// configuration asks for none or for more than the planner handles.
    pub fn planning_modules(&self) -> (r: Option<i16>)
        ensures
            r == (if 1 <= self.modules_per_day <= MAX_MODULES_PER_DAY {
                Some(self.modules_per_day as i16)
            } else {
                None
            }),
    {
        if self.modules_per_day >= 1 && self.modules_per_day <= MAX_MODULES_PER_DAY as u32 {
            Some(self.modules_per_day as i16)
        } else {
            None
        }
    }
}

impl Default for Config {
    /// The default week: Monday to Friday, nine modules of fifty minutes,
    /// no breaks.
    fn default() -> (c: Config)
        ensures
            c.days@.len() == 5,
            c.days@[0]@ == "Monday"@,
            c.days@[1]@ == "Tuesday"@,
            c.days@[2]@ == "Wednesday"@,
            c.days@[3]@ == "Thursday"@,
            c.days@[4]@ == "Friday"@,
            c.modules_per_day == 9,
            c.module_duration == 50,
            c.duration_unit@ == "minutes"@,
            !c.has_breaks,
            c.break_count == 1,
            c.break_duration == 30,
            c.break_positions@ == seq![2u32],
    {
        let mut positions: Vec<u32> = Vec::new();
        positions.push(2);
        proof {
            assert(positions@ =~= seq![2u32]);
        }
        Config {
            days: get_sorted_days(),
            modules_per_day: 9,
            module_duration: 50,
            duration_unit: "minutes".to_owned(),
            has_breaks: false,
            break_count: 1,
            break_duration: 30,
            break_positions: positions,
        }
    }
}

} // verus!
