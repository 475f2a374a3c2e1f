//! What one shell command does to a budget.

use vstd::prelude::*;
use crate::budget::{Budget, BudgetModel, BudgetPart, PartModel};
use crate::input::from_year_to_months;

verus! {

/// A command of the budget shell. Amounts are in cents.
pub enum Command {
    /// Save and leave.
    Exit,
    /// Show the line items.
    Preview,
    /// Add a line item whose value is given per year.
    Insert { name: String, yearly_value: u64, expandable: bool },
    /// Show how an income is divided.
    Calculate { income: u64 },
}

/// The budget after `command`: an insertion appends an item with a twelfth
/// of the yearly value (rounded down) to the section of its kind; every other
/// command leaves the budget as it is.
pub open spec fn after_command(b: BudgetModel, command: Command) -> BudgetModel {
    match command {
        Command::Insert { name, yearly_value, expandable } => {
            let p = PartModel { name: name@, value: (yearly_value / 12) as u64, expandable };
            if expandable {
                BudgetModel { fixed: b.fixed, expandable: b.expandable.push(p) }
            } else {
                BudgetModel { fixed: b.fixed.push(p), expandable: b.expandable }
            }
        },
        _ => b,
    }
}

impl Budget {
    /// Applies one shell command; the result tells whether the shell is to
    /// end.
    pub fn run_command(&mut self, command: Command) -> (exit: bool)
        ensures
            exit <==> command is Exit,
            final(self)@ == after_command(old(self)@, command),
    {
        match command {
            Command::Exit => true,
            Command::Preview => false,
            Command::Insert { name, yearly_value, expandable } => {
                let monthly = from_year_to_months(yearly_value);
                self.push_part(BudgetPart::new(name, monthly, expandable));
                false
            },
            Command::Calculate { income: _ } => false,
        }
    }
}

} // verus!
