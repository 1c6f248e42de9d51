//! All key representations live in this module, even where a key serves a
//! single cipher: integer shifts, keywords, substitution alphabets, matrices
//! and the Enigma components.

pub mod alphabet;
pub mod keyword;
pub mod number;
pub mod plugboard;
pub mod vigenere_square;

use vstd::prelude::*;

verus! {

/// Display metadata for a key: its name, description and the short name the
/// command line uses.
pub struct KeyInfo {
    pub name: String,
    pub desc: String,
    pub short_name: String,
}

impl KeyInfo {
    /// An empty key description.
    pub fn new() -> (r: KeyInfo)
        ensures
            r.name@ == Seq::<char>::empty(),
            r.desc@ == Seq::<char>::empty(),
            r.short_name@ == Seq::<char>::empty(),
    {
        KeyInfo { name: String::new(), desc: String::new(), short_name: String::new() }
    }

    /// Sets all three fields.
    pub fn set(&mut self, name: &str, desc: &str, short_name: &str)
        ensures
            final(self).name@ == name@,
            final(self).desc@ == desc@,
            final(self).short_name@ == short_name@,
    {
        self.name = name.to_owned();
        self.desc = desc.to_owned();
        self.short_name = short_name.to_owned();
    }
}

} // verus!
