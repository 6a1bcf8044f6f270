use vstd::prelude::*;

verus! {

/// ahash's hash set, which holds the selector strings.
#[verifier::external_type_specification]
#[verifier::external_body]
#[verifier::reject_recursive_types(T)]
#[verifier::reject_recursive_types(S)]
pub struct ExAHashSet<T, S>(ahash::AHashSet<T, S>);

/// `AHashSet`'s default hasher parameter, named in every `AHashSet<String>`.
#[verifier::external_type_specification]
#[verifier::external_body]
pub struct ExRandomState(ahash::RandomState);

/// The strings held by an `AHashSet`, each as its characters.
pub uninterp spec fn members_of(s: ahash::AHashSet<String>) -> Set<Seq<char>>;

/// Relies on `AHashSet::new`: the new set is empty.
#[verifier::external_body]
fn empty_set() -> (r: ahash::AHashSet<String>)
    ensures
        members_of(r) == Set::<Seq<char>>::empty(),
{
    ahash::AHashSet::new()
}

/// Relies on `HashSet::insert`, reached through `AHashSet`'s `DerefMut`: the
/// string is added, the other members stay.
#[verifier::external_body]
fn set_insert(s: &mut ahash::AHashSet<String>, v: String)
    ensures
        members_of(*final(s)) == members_of(*old(s)).insert(v@),
{
    s.insert(v);
}

/// Relies on `HashSet::contains`, reached through `AHashSet`'s `Deref`: it
/// tells whether an equal string is a member.
#[verifier::external_body]
fn set_contains(s: &ahash::AHashSet<String>, v: &str) -> (r: bool)
    ensures
        r == members_of(*s).contains(v@),
{
    s.contains(v)
}

/// The set of strings held by a list of selector lines.
pub open spec fn lines_set(lines: Seq<String>) -> Set<Seq<char>> {
    Set::new(|t: Seq<char>| exists|i: int| 0 <= i < lines.len() && lines[i]@ == t)
}

/// An immutable set of selector strings; membership is exact equality.
pub struct Selector {
    set: ahash::AHashSet<String>,
}

impl View for Selector {
    type V = Set<Seq<char>>;

    closed spec fn view(&self) -> Set<Seq<char>> {
        members_of(self.set)
    }
}

impl Selector {
    /// Whether `value` is one of the selector strings.
    pub fn contains(&self, value: &str) -> (r: bool)
        ensures
            r == self@.contains(value@),
    {
        set_contains(&self.set, value)
    }
}

/// Builds the selector from the lines of a selector file, one string per
/// line; repeated lines collapse into one member.
pub fn create_selector(lines: &Vec<String>) -> (r: Selector)
    ensures
        r@ == lines_set(lines@),
{
    let mut set = empty_set();
    let mut i: usize = 0;
    while i < lines.len()
        invariant
            0 <= i <= lines.len(),
            members_of(set) == lines_set(lines@.take(i as int)),
        decreases lines.len() - i,
    {
        proof {
            assert(lines@.take(i as int + 1) == lines@.take(i as int).push(lines@[i as int]));
        }
        set_insert(&mut set, lines[i].clone());
        i = i + 1;
        proof {
            assert(members_of(set) =~= lines_set(lines@.take(i as int))) by {
                let prev = lines@.take(i as int - 1);
                let cur = lines@.take(i as int);
                assert forall|t: Seq<char>| lines_set(cur).contains(t) implies members_of(set).contains(t) by {
                    let j = choose|j: int| 0 <= j < cur.len() && cur[j]@ == t;
                    if j < i - 1 {
                        assert(prev[j]@ == t);
                    }
                }
                assert forall|t: Seq<char>| members_of(set).contains(t) implies lines_set(cur).contains(t) by {
                    if t != cur[i - 1]@ {
                        let j = choose|j: int| 0 <= j < prev.len() && prev[j]@ == t;
                        assert(cur[j]@ == t);
                    }
                }
            }
        }
    }
    proof {
        assert(lines@.take(lines.len() as int) == lines@);
    }
    Selector { set }
}

} // verus!
