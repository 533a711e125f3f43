//! The command-line configuration the front ends hand to the classifier.

use vstd::prelude::*;

verus! {

/// The configuration as it was given: the hashtable count, the address size,
/// and the bleach threshold, still as text.
pub struct Config {
    pub number_of_hashtables: String,
    pub address_size: String,
    pub bleach: String,
}

impl Config {
    /// Reads the configuration from an argument list whose first entry is
    /// the program's own name: the hashtable count, then the address size,
    /// then an optional bleach threshold that defaults to zero.
    pub fn new(args: Vec<String>) -> (r: Result<Config, &'static str>)
        ensures
            args@.len() < 2 ==> (r matches Err(m) && m@
                == "Didn't get number of hashtables size"@),
            args@.len() == 2 ==> (r matches Err(m) && m@ == "Didn't get address size"@),
            args@.len() >= 3 ==> (r matches Ok(c) && c.number_of_hashtables@ == args@[1]@
                && c.address_size@ == args@[2]@ && (args@.len() >= 4 ==> c.bleach@ == args@[3]@)
                && (args@.len() == 3 ==> c.bleach@ == "0"@)),
    {
        if args.len() < 2 {
            return Err("Didn't get number of hashtables size");
        }
        if args.len() < 3 {
            return Err("Didn't get address size");
        }
        let number_of_hashtables = args[1].clone();
        let address_size = args[2].clone();
        let bleach: String = if args.len() >= 4 {
            args[3].clone()
        } else {
            "0".to_owned()
        };
        Ok(Config { number_of_hashtables, address_size, bleach })
    }
}

} // verus!
