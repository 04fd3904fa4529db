//! The rules and what each does to a word.

use vstd::prelude::*;

use crate::text::{chars_of, string_of};

verus! {

/// One of the four text transformations of the puzzle.
#[derive(Debug, Clone, Copy, PartialEq, Eq, Structural, PartialOrd, Ord, Hash)]
pub enum Rule {
    Convert(TargetDestination),
    Duplicate(Duplicate),
    Remove(Remove),
    Switch(TargetDestination),
}

/// A trigger character and the character it is paired with.
#[derive(Debug, Clone, Copy, PartialEq, Eq, Structural, PartialOrd, Ord, Hash)]
pub struct TargetDestination {
    pub target: char,
    pub destination: char,
}

/// Repeat every occurrence of `target` `count` times.
#[derive(Debug, Clone, Copy, PartialEq, Eq, Structural, PartialOrd, Ord, Hash)]
pub struct Duplicate {
    pub target: char,
    pub count: usize,
}

/// Delete every occurrence of the character.
#[derive(Debug, Clone, Copy, PartialEq, Eq, Structural, PartialOrd, Ord, Hash)]
pub struct Remove(pub char);

impl Rule {
    /// What the rule does to a character sequence.
    pub open spec fn transform(self, s: Seq<char>) -> Seq<char> {
        match self {
            Rule::Convert(td) => convert_spec(td.target, td.destination, s),
            Rule::Duplicate(dup) => duplicate_spec(dup.target, dup.count as nat, s),
            Rule::Remove(rm) => remove_spec(rm.0, s),
            Rule::Switch(td) => switch_spec(td.target, td.destination, s),
        }
    }

    /// The character the rule acts on.
    pub open spec fn target_of(self) -> char {
        match self {
            Rule::Convert(td) => td.target,
            Rule::Duplicate(dup) => dup.target,
            Rule::Remove(rm) => rm.0,
            Rule::Switch(td) => td.target,
        }
    }

    pub fn convert(target: char, destination: char) -> (r: Rule)
        ensures
            r == Rule::Convert(TargetDestination { target, destination }),
    {
        Rule::Convert(TargetDestination::new(target, destination))
    }

    pub fn duplicate(target: char, count: usize) -> (r: Rule)
        ensures
            r == Rule::Duplicate(Duplicate { target, count }),
    {
        Rule::Duplicate(Duplicate::new(target, count))
    }

    pub fn remove(target: char) -> (r: Rule)
        ensures
            r == Rule::Remove(Remove(target)),
    {
        Rule::Remove(Remove(target))
    }

    pub fn switch(target: char, destination: char) -> (r: Rule)
        ensures
            r == Rule::Switch(TargetDestination { target, destination }),
    {
        Rule::Switch(TargetDestination::new(target, destination))
    }

    /// Applies the rule to the input, returning the output string.
    pub fn apply(self, input: &str) -> (r: String)
        ensures
            r@ == self.transform(input@),
    {
        match self {
            Rule::Convert(td) => {
                let s = chars_of(input);
                string_of(&convert_chars(td.target, td.destination, &s))
            },
            Rule::Duplicate(dup) => dup.apply(input),
            Rule::Remove(rm) => rm.apply(input),
            Rule::Switch(td) => switcher(&td, input),
        }
    }

    /// Gets the target of the given rule.
    #[verifier::when_used_as_spec(target_of)]
    pub fn target(self) -> (r: char)
        ensures
            r == self.target_of(),
    {
        match self {
            Rule::Convert(td) => td.target,
            Rule::Duplicate(dup) => dup.target,
            Rule::Remove(rm) => rm.0,
            Rule::Switch(td) => td.target,
        }
    }
}

impl TargetDestination {
    pub fn new(target: char, destination: char) -> (r: Self)
        ensures
            r.target == target,
            r.destination == destination,
    {
        Self { target, destination }
    }
}

impl Duplicate {
    pub fn new(target: char, count: usize) -> (r: Self)
        ensures
            r.target == target,
            r.count == count,
    {
        Self { target, count }
    }

    pub fn apply(self, input: &str) -> (r: String)
        ensures
            r@ == duplicate_spec(self.target, self.count as nat, input@),
    {
        let s = chars_of(input);
        string_of(&duplicate_chars(self.target, self.count, &s))
    }
}

impl Remove {
    pub fn apply(self, input: &str) -> (r: String)
        ensures
            r@ == remove_spec(self.0, input@),
    {
        let s = chars_of(input);
        string_of(&remove_chars(self.0, &s))
    }
}

/// Switches every `target` with the nearest unclaimed `destination` after it
/// (the latest open `target` claims first); a `target` with no partner stays.
pub fn switcher(td: &TargetDestination, input: &str) -> (r: String)
    ensures
        r@ == switch_spec(td.target, td.destination, input@),
        r@.to_multiset() == input@.to_multiset(),
{
    let s = chars_of(input);
    let out = switch_chars(td.target, td.destination, &s);
    proof {
        lemma_switch_permutes(td.target, td.destination, input@);
    }
    string_of(&out)
}

/// Every `t` becomes `d`; everything else stays.
pub open spec fn convert_spec(t: char, d: char, s: Seq<char>) -> Seq<char> {
    Seq::new(s.len(), |i: int| if s[i] == t { d } else { s[i] })
}

/// Every `t` is written `count` times in its place; everything else once.
pub open spec fn duplicate_spec(t: char, count: nat, s: Seq<char>) -> Seq<char>
    decreases s.len(),
{
    if s.len() == 0 {
        Seq::empty()
    } else {
        let c = s.last();
        duplicate_spec(t, count, s.drop_last()) + if c == t {
            Seq::new(count, |_i: int| t)
        } else {
            seq![c]
        }
    }
}

/// The characters of `s` that are not `t`, in order.
pub open spec fn remove_spec(t: char, s: Seq<char>) -> Seq<char> {
    s.filter(|c: char| c != t)
}

/// The left-to-right scan behind a switch: the output so far, in which every
/// still-open `t` stands at its own place, and the stack of open `t` positions.
/// A `d` with an open `t` before it trades places with the latest one.
pub open spec fn switch_scan(t: char, d: char, s: Seq<char>) -> (Seq<char>, Seq<int>)
    decreases s.len(),
{
    if s.len() == 0 {
        (Seq::empty(), Seq::empty())
    } else {
        let (out, open) = switch_scan(t, d, s.drop_last());
        let c = s.last();
        if c == t {
            (out.push(t), open.push(s.len() - 1))
        } else if c == d && open.len() > 0 {
            (out.update(open.last(), d).push(t), open.drop_last())
        } else {
            (out.push(c), open)
        }
    }
}

/// The result of a switch of `t` with `d` on `s`.
pub open spec fn switch_spec(t: char, d: char, s: Seq<char>) -> Seq<char> {
    switch_scan(t, d, s).0
}

fn convert_chars(t: char, d: char, s: &Vec<char>) -> (r: Vec<char>)
    ensures
        r@ == convert_spec(t, d, s@),
{
    let mut r: Vec<char> = Vec::new();
    let mut i: usize = 0;
    while i < s.len()
        invariant
            i <= s.len(),
            r@.len() == i,
            forall|k: int| 0 <= k < i ==> r@[k] == (if s@[k] == t { d } else { s@[k] }),
        decreases s.len() - i,
    {
        if s[i] == t {
            r.push(d);
        } else {
            r.push(s[i]);
        }
        i += 1;
    }
    proof {
        assert(r@ =~= convert_spec(t, d, s@));
    }
    r
}

fn duplicate_chars(t: char, count: usize, s: &Vec<char>) -> (r: Vec<char>)
    ensures
        r@ == duplicate_spec(t, count as nat, s@),
{
    let mut r: Vec<char> = Vec::new();
    let mut i: usize = 0;
    while i < s.len()
        invariant
            i <= s.len(),
            r@ == duplicate_spec(t, count as nat, s@.take(i as int)),
        decreases s.len() - i,
    {
        let c = s[i];
        let ghost before = r@;
        if c == t {
            let mut k: usize = 0;
            while k < count
                invariant
                    k <= count,
                    r@ == before + Seq::new(k as nat, |_j: int| t),
                decreases count - k,
            {
                r.push(t);
                k += 1;
                proof {
                    assert(r@ =~= before + Seq::new(k as nat, |_j: int| t));
                }
            }
        } else {
            r.push(c);
        }
        proof {
            assert(s@.take(i + 1).drop_last() =~= s@.take(i as int));
            if c == t {
                assert(r@ =~= before + Seq::new(count as nat, |_j: int| t));
            } else {
                assert(r@ =~= before + seq![c]);
            }
        }
        i += 1;
    }
    proof {
        assert(s@.take(s.len() as int) =~= s@);
    }
    r
}

fn remove_chars(t: char, s: &Vec<char>) -> (r: Vec<char>)
    ensures
        r@ == remove_spec(t, s@),
{
    let mut r: Vec<char> = Vec::new();
    let mut i: usize = 0;
    while i < s.len()
        invariant
            i <= s.len(),
            r@ == remove_spec(t, s@.take(i as int)),
        decreases s.len() - i,
    {
        proof {
            assert(s@.take(i + 1).drop_last() =~= s@.take(i as int));
            reveal(Seq::filter);
        }
        if s[i] != t {
            r.push(s[i]);
        }
        i += 1;
    }
    proof {
        assert(s@.take(s.len() as int) =~= s@);
    }
    r
}

/// The scan keeps one output character per input character; every open
/// position holds a `t`, and the open positions rise strictly.
proof fn lemma_switch_scan_wf(t: char, d: char, s: Seq<char>)
    ensures
        switch_scan(t, d, s).0.len() == s.len(),
        forall|k: int|
            0 <= k < switch_scan(t, d, s).1.len() ==> 0 <= #[trigger] switch_scan(t, d, s).1[k]
                < s.len() && switch_scan(t, d, s).0[switch_scan(t, d, s).1[k]] == t,
        forall|j: int, k: int|
            0 <= j < k < switch_scan(t, d, s).1.len() ==> #[trigger] switch_scan(t, d, s).1[j]
                < #[trigger] switch_scan(t, d, s).1[k],
    decreases s.len(),
{
    if s.len() > 0 {
        lemma_switch_scan_wf(t, d, s.drop_last());
    }
}

/// A switch only moves characters: the output holds exactly the characters of
/// the input, each as many times.
pub proof fn lemma_switch_permutes(t: char, d: char, s: Seq<char>)
    ensures
        switch_spec(t, d, s).to_multiset() == s.to_multiset(),
    decreases s.len(),
{
    broadcast use vstd::seq_lib::group_to_multiset_ensures;
    broadcast use vstd::multiset::group_multiset_axioms;

    if s.len() > 0 {
        let prev = s.drop_last();
        let c = s.last();
        let (out, open) = switch_scan(t, d, prev);
        lemma_switch_permutes(t, d, prev);
        lemma_switch_scan_wf(t, d, prev);
        assert(s =~= prev.push(c));
        if c != t && c == d && open.len() > 0 {
            let p = open.last();
            let u = out.update(p, d);
            assert(out[p] == t);
            assert(u.remove(p) =~= out.remove(p));
            assert(u.to_multiset().remove(d) == out.to_multiset().remove(t));
            assert(u.contains(u[p]));
            assert(u.to_multiset() =~= u.to_multiset().remove(d).insert(d));
            assert(out.contains(out[p]));
            assert(u.push(t).to_multiset() =~= out.to_multiset().insert(d));
        }
    }
}

fn switch_chars(t: char, d: char, s: &Vec<char>) -> (r: Vec<char>)
    ensures
        r@ == switch_spec(t, d, s@),
{
    let mut out: Vec<char> = Vec::new();
    let mut open: Vec<usize> = Vec::new();
    let mut i: usize = 0;
    while i < s.len()
        invariant
            i <= s.len(),
            out@ == switch_scan(t, d, s@.take(i as int)).0,
            open@.len() == switch_scan(t, d, s@.take(i as int)).1.len(),
            forall|k: int|
                0 <= k < open@.len() ==> open@[k] as int == #[trigger] switch_scan(
                    t,
                    d,
                    s@.take(i as int),
                ).1[k],
        decreases s.len() - i,
    {
        let ghost prefix = s@.take(i as int);
        proof {
            lemma_switch_scan_wf(t, d, prefix);
            assert(s@.take(i + 1).drop_last() =~= prefix);
            assert(s@.take(i + 1).last() == s@[i as int]);
        }
        let c = s[i];
        if c == t {
            out.push(t);
            open.push(i);
        } else if c == d && open.len() > 0 {
            proof {
                let last = open@.len() - 1;
                assert(open@[last] as int == switch_scan(t, d, prefix).1[last]);
            }
            match open.pop() {
                Some(p) => {
                    out.set(p, d);
                    out.push(t);
                },
                None => {},
            }
        } else {
            out.push(c);
        }
        i += 1;
        proof {
            let (o2, open2) = switch_scan(t, d, s@.take(i as int));
            assert(out@ =~= o2);
            assert(open@.len() == open2.len());
            assert forall|k: int| 0 <= k < open@.len() implies open@[k] as int
                == #[trigger] switch_scan(t, d, s@.take(i as int)).1[k] by {}
        }
    }
    proof {
        assert(s@.take(s.len() as int) =~= s@);
    }
    out
}

} // verus!
