//! The ready-made example queries offered to a new user.

use vstd::prelude::*;

verus! {

pub struct Example {
    pub text: String,
    pub description: String,
}

impl Example {
    pub fn make(text: &str, description: &str) -> (r: Example)
        ensures
            r.text@ == text@,
            r.description@ == description@,
    {
        let mut t = String::new();
        t.append(text);
        let mut d = String::new();
        d.append(description);
        Example { text: t, description: d }
    }

    /// The example queries, one per supported query shape.
    pub fn list() -> (r: Vec<Example>)
        ensures
            r@.len() == 10,
    {
        let mut v: Vec<Example> = Vec::new();
        v.push(Example::make("*", "Any word"));
        v.push(Example::make("#n", "Any noun"));
        v.push(Example::make("#n + 4..5", "Short nouns"));
        v.push(Example::make("an #j + @v* #n", "Short Phrase"));
        v.push(Example::make("Emma #l =a !phrase", "Find me a husband!"));
        v.push(Example::make("#f + #feminine Darcy =a !phrase + #negative", "Find me a wife!"));
        v.push(Example::make("#f + #masculine Anderson =a !phrase + #positive", "Name my baby!"));
        v.push(Example::make("#j hero =a #f #l", "Name my character!"));
        v.push(Example::make("n?u?h?y", "Cheat at crosswords"));
        v.push(Example::make("5 + c???t + *e*", "Cheat at wordle"));
        v
    }
}

} // verus!
