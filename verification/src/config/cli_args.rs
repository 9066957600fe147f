//! Command-line arguments, read as pairs of a flag and its value.

use vstd::prelude::*;
use vstd::string::StringExecFns;

verus! {

/// The flags given on the command line, each with its value, in the order
/// in which they were given.
pub struct CliArgs {
    args: Vec<(String, String)>,
}

/// The text of a flag and of its value.
pub open spec fn pair_text(pair: (String, String)) -> (Seq<char>, Seq<char>) {
    (pair.0@, pair.1@)
}

/// The pairs that an argument vector holds behind the program's name: the
/// `i`-th flag stands at place `1 + 2 * i`, its value behind it.
pub open spec fn pairs_of(arg_vec: Seq<String>) -> Seq<(Seq<char>, Seq<char>)> {
    Seq::new(((arg_vec.len() - 1) / 2) as nat, |i: int| (arg_vec[1 + 2 * i]@, arg_vec[2 + 2 * i]@))
}

/// The value of a flag: that of the last pair that names the flag.
pub open spec fn lookup(pairs: Seq<(Seq<char>, Seq<char>)>, flag: Seq<char>) -> Option<Seq<char>>
    decreases pairs.len(),
{
    if pairs.len() == 0 {
        None
    } else if pairs.last().0 == flag {
        Some(pairs.last().1)
    } else {
        lookup(pairs.drop_last(), flag)
    }
}

impl CliArgs {
    /// The pairs of flag and value, in the order in which they were given.
    pub closed spec fn pairs(&self) -> Seq<(Seq<char>, Seq<char>)> {
        self.args@.map_values(|pair: (String, String)| pair_text(pair))
    }

    /// Reads an argument vector: the program's name, then flags, each
    /// followed by its value.
    pub fn init(arg_vec: &Vec<String>) -> (args: Self)
        requires
            arg_vec@.len() >= 1,
            (arg_vec@.len() - 1) % 2 == 0,
        ensures
            args.pairs() == pairs_of(arg_vec@),
    {
        let mut args: Vec<(String, String)> = Vec::new();
        let mut i: usize = 1;
        while i < arg_vec.len()
            invariant
                1 <= i <= arg_vec@.len(),
                (i - 1) % 2 == 0,
                (arg_vec@.len() - 1) % 2 == 0,
                args@.len() == (i - 1) / 2,
                forall|k: int|
                    0 <= k < args@.len() ==> pair_text(#[trigger] args@[k]) == (
                        arg_vec@[1 + 2 * k]@,
                        arg_vec@[2 + 2 * k]@,
                    ),
            decreases arg_vec@.len() - i,
        {
            args.push((arg_vec[i].clone(), arg_vec[i + 1].clone()));
            i += 2;
        }
        let args = CliArgs { args };
        assert(args.pairs() =~= pairs_of(arg_vec@));
        args
    }

    /// The value given for `flag`, if it was given. Where it was given more
    /// than once, the last value counts.
    pub fn get(&self, flag: &str) -> (value: Option<String>)
        ensures
            match lookup(self.pairs(), flag@) {
                Some(text) => value is Some && value->0@ == text,
                None => value is None,
            },
    {
        let wanted = String::from_str(flag);
        let mut i: usize = self.args.len();
        assert(self.pairs().take(i as int) =~= self.pairs());
        while i > 0
            invariant
                i <= self.args@.len(),
                wanted@ == flag@,
                lookup(self.pairs(), flag@) == lookup(self.pairs().take(i as int), flag@),
            decreases i,
        {
            let ghost upto = self.pairs().take(i as int);
            assert(upto.drop_last() =~= self.pairs().take(i - 1));
            assert(upto.last() == pair_text(self.args@[i - 1]));
            i -= 1;
            if self.args[i].0 == wanted {
                assert(upto.last().0 == flag@);
                assert(lookup(upto, flag@) == Some(self.args@[i as int].1@));
                return Some(self.args[i].1.clone());
            }
            assert(upto.last().0 != flag@);
        }
        assert(self.pairs().take(0) =~= Seq::<(Seq<char>, Seq<char>)>::empty());
        None
    }

    /// The address of the upstream server, if one was given with
    /// `--resolver`.
    pub fn resolver(&self) -> (addr: Option<String>)
        ensures
            match lookup(self.pairs(), "--resolver"@) {
                Some(text) => addr is Some && addr->0@ == text,
                None => addr is None,
            },
    {
        self.get("--resolver")
    }
}

} // verus!
