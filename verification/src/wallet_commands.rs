//! Wallet-side decision logic: the managed-address bookkeeping and the
//! gas-object selection rules.
//!
//! The surrounding command loop — configuration files, key management and
//! the gateway — lives outside this crate and hands these functions plain
//! values: the managed addresses from the wallet configuration and the
//! fetched gas objects with their values.

use crate::base_types::{ObjectID, SuiAddress};
use crate::storage::ObjectRecord;
use colored::Colorize;
use vstd::prelude::*;

verus! {

/// An error of the wallet's own decision rules.
#[derive(Debug)]
pub enum WalletError {
    /// The wallet manages no addresses at all.
    NoManagedAddresses,
    /// No gas object both meets the budget and stays out of the
    /// transaction's own inputs.
    NoGasFound { budget: u64 },
    /// The explicitly chosen gas object is itself a transaction input.
    GasInTransactionInput { gas: ObjectID },
}

/// How the gas payment for a command is to be found.
#[derive(Debug)]
pub enum GasChoice {
    /// Use the explicitly named object.
    Specified(ObjectID),
    /// Pick an owned gas object that fits the budget.
    SelectByBudget,
}

/// The wallet's per-session state: the managed addresses and which of
/// them commands act for by default.
#[derive(Debug)]
pub struct WalletContext {
    pub accounts: Vec<SuiAddress>,
    pub active_address: Option<SuiAddress>,
}

/// The mathematical state of a wallet context.
pub struct WalletContextV {
    pub accounts: Seq<Seq<u8>>,
    pub active_address: Option<Seq<u8>>,
}

impl View for WalletContext {
    type V = WalletContextV;

    open spec fn view(&self) -> WalletContextV {
        WalletContextV {
            accounts: self.accounts@.map_values(|a: SuiAddress| a@),
            active_address: match self.active_address {
                Some(a) => Some(a@),
                None => None,
            },
        }
    }
}

/// Whether an id list holds the given id bytes.
pub open spec fn spec_contains_id(ids: Seq<ObjectID>, id: Seq<u8>) -> bool {
    exists|j: int| 0 <= j < ids.len() && (#[trigger] ids[j])@ == id
}

/// Whether a gas entry fits: its value meets the budget and its object is
/// not among the forbidden ids.
pub open spec fn gas_entry_fits(
    entry: (u64, ObjectRecord),
    budget: u64,
    forbidden: Seq<ObjectID>,
) -> bool {
    entry.0 >= budget && !spec_contains_id(forbidden, entry.1@.id)
}

fn contains_id(ids: &Vec<ObjectID>, id: &ObjectID) -> (r: bool)
    ensures
        r == spec_contains_id(ids@, id@),
{
    let mut j: usize = 0;
    while j < ids.len()
        invariant
            j <= ids@.len(),
            forall|k: int| 0 <= k < j ==> (#[trigger] ids@[k])@ != id@,
        decreases ids@.len() - j,
    {
        if ids[j].eq_id(id) {
            return true;
        }
        j += 1;
    }
    false
}

impl WalletContext {
    /// A context over the addresses read from the wallet configuration.
    pub fn new(accounts: Vec<SuiAddress>, active_address: Option<SuiAddress>) -> (r: Self)
        ensures
            r.accounts == accounts,
            r.active_address == active_address,
    {
        WalletContext { accounts, active_address }
    }

    /// The address commands act for: the configured active address if one
    /// is set, else the first managed address, which then becomes the
    /// active one. A wallet without addresses has none to offer.
    pub fn active_address(&mut self) -> (r: Result<SuiAddress, WalletError>)
        ensures
            (r is Ok) == (old(self)@.accounts.len() > 0),
            r matches Err(e) ==> e is NoManagedAddresses && *final(self) == *old(self),
            r matches Ok(a) ==> {
                &&& a@ == (match old(self)@.active_address {
                    Some(x) => x,
                    None => old(self)@.accounts[0],
                })
                &&& final(self)@.accounts == old(self)@.accounts
                &&& final(self)@.active_address == Some(a@)
            },
    {
        if self.accounts.len() == 0 {
            return Err(WalletError::NoManagedAddresses);
        }
        // Set the active address if it is not set yet.
        let chosen = match &self.active_address {
            Some(a) => a.clone(),
            None => self.accounts[0].clone(),
        };
        self.active_address = Some(chosen.clone());
        Ok(chosen)
    }

    /// How to pay for gas: an explicitly specified object is taken as
    /// long as it is not also an input of the transaction itself;
    /// without one, a suitable object is to be selected by budget.
    pub fn choose_gas_for_wallet(
        &self,
        specified_gas: Option<ObjectID>,
        forbidden_gas_objects: &Vec<ObjectID>,
    ) -> (r: Result<GasChoice, WalletError>)
        ensures
            match specified_gas {
                None => r matches Ok(c) && c is SelectByBudget,
                Some(g) => if spec_contains_id(forbidden_gas_objects@, g@) {
                    r matches Err(e) && e matches WalletError::GasInTransactionInput {
                        gas,
                    } && gas@ == g@
                } else {
                    r matches Ok(c) && (c matches GasChoice::Specified(id) && id@ == g@)
                },
            },
    {
        match specified_gas {
            None => Ok(GasChoice::SelectByBudget),
            Some(g) => {
                if contains_id(forbidden_gas_objects, &g) {
                    return Err(WalletError::GasInTransactionInput { gas: g });
                }
                Ok(GasChoice::Specified(g))
            },
        }
    }

    /// Finds the first fetched gas object whose value meets the budget
    /// and which is not among the transaction's own inputs.
    pub fn gas_for_owner_budget(
        &self,
        gas_objects: &Vec<(u64, ObjectRecord)>,
        budget: u64,
        forbidden_gas_objects: &Vec<ObjectID>,
    ) -> (r: Result<(u64, ObjectRecord), WalletError>)
        ensures
            (r is Ok) == exists|i: int|
                0 <= i < gas_objects@.len() && gas_entry_fits(
                    #[trigger] gas_objects@[i],
                    budget,
                    forbidden_gas_objects@,
                ),
            r matches Ok((v, o)) ==> exists|i: int|
                {
                    &&& 0 <= i < gas_objects@.len()
                    &&& gas_entry_fits(#[trigger] gas_objects@[i], budget, forbidden_gas_objects@)
                    &&& forall|j: int|
                        0 <= j < i ==> !gas_entry_fits(
                            #[trigger] gas_objects@[j],
                            budget,
                            forbidden_gas_objects@,
                        )
                    &&& v == gas_objects@[i].0
                    &&& o@ == gas_objects@[i].1@
                },
            r matches Err(e) ==> (e matches WalletError::NoGasFound { budget: b } && b == budget),
    {
        let mut i: usize = 0;
        while i < gas_objects.len()
            invariant
                i <= gas_objects@.len(),
                forall|j: int|
                    0 <= j < i ==> !gas_entry_fits(
                        #[trigger] gas_objects@[j],
                        budget,
                        forbidden_gas_objects@,
                    ),
            decreases gas_objects@.len() - i,
        {
            let entry = &gas_objects[i];
            if entry.0 >= budget && !contains_id(forbidden_gas_objects, &entry.1.id) {
                let found = (entry.0, entry.1.clone());
                proof {
                    assert(gas_entry_fits(gas_objects@[i as int], budget, forbidden_gas_objects@));
                }
                return Ok(found);
            }
            i += 1;
        }
        Err(WalletError::NoGasFound { budget })
    }
}

#[verifier::external_type_specification]
#[verifier::external_body]
pub struct ExAnyhowError(anyhow::Error);

/// Relies on colored::Colorize::red to paint error text for terminal
/// display: runs the fallible formatter and renders either the value or
/// the error, the error in red.
#[verifier::external_body]
pub fn unwrap_err_to_string<T: core::fmt::Display, F: FnOnce() -> Result<T, anyhow::Error>>(
    func: F,
) -> (r: String) {
    match func() {
        Ok(s) => format!("{s}"),
        Err(err) => format!("{err}").red().to_string(),
    }
}

} // verus!
